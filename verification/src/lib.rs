//! A vector of arrays of different lengths.
//!
//! [`VecOfArrays`] keeps the arrays of each length one after another in a
//! buffer of their own: an array costs no allocation, the arrays of one
//! length are read as one slice, and [`VecOfArraysIdx`] names any array by
//! its length and its position among the arrays of that length.
//!
//! Every function is verified against a contract. The contracts speak of the
//! contents of a store as a sequence of buckets ([`model`]), [`laws`] holds
//! what follows for all stores, and [`layout`] relates a bucket to the flat
//! buffer that holds it. A few calls into the standard library rest on
//! contracts that are assumed; they stand together in one private module.

pub mod handle;
pub mod laws;
pub mod layout;
pub mod model;
pub mod store;
mod trusted;

pub use handle::VecOfArraysIdx;
pub use store::VecOfArrays;
