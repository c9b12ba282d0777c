//! The coordinate that names one stored array.

use vstd::prelude::*;

verus! {

/// Names one array of a store by its length `n` and by its position `idx`
/// among the arrays of that length, counted from zero in the order of
/// insertion. A handle owns nothing: the store resolves it on every lookup,
/// so it stays good while the store grows.
#[derive(Debug, Clone, Copy, PartialEq, Eq, PartialOrd, Ord, Hash, Default)]
pub struct VecOfArraysIdx {
    pub idx: u32,
    pub n: u8,
}

impl VecOfArraysIdx {
    /// The handle of the array of length `n` at position `idx`.
    pub fn new(n: u8, idx: u32) -> (r: Self)
        ensures
            r.n == n,
            r.idx == idx,
    {
        Self { n, idx }
    }
}

} // verus!
