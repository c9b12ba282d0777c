//! Calls into the standard library for which the verifier has no
//! specification. The contract of each function here is assumed, not proved:
//! it restates what the documentation of the function that is called says.

use vstd::prelude::*;

verus! {

/// `Vec::from` on an array. Assumed: the vector holds the elements of the
/// array, in the same order.
#[verifier::external_body]
pub(crate) fn array_into_vec<T, const N: usize>(a: [T; N]) -> (r: Vec<T>)
    ensures
        r@ == a@,
{
    Vec::from(a)
}

/// `<[T; N]>::try_from` on a vector. Assumed: a vector of exactly `N`
/// elements comes back as the array of these elements, in the same order;
/// any other vector comes back unchanged as the error.
#[verifier::external_body]
pub(crate) fn vec_into_array<T, const N: usize>(v: Vec<T>) -> (r: Result<[T; N], Vec<T>>)
    ensures
        v@.len() == N ==> r is Ok && r->Ok_0@ == v@,
        v@.len() != N ==> r is Err && r->Err_0@ == v@,
{
    <[T; N]>::try_from(v)
}

/// `Vec::into_flattened`. It panics where the flat length would not fit in
/// `usize`, which the precondition excludes. Assumed: the flat vector holds
/// the arrays one after another, so that its `i`-th run of `N` elements is
/// the `i`-th array.
#[verifier::external_body]
pub(crate) fn into_flattened<T, const N: usize>(v: Vec<[T; N]>) -> (r: Vec<T>)
    requires
        v@.len() * N <= usize::MAX,
    ensures
        r@.len() == v@.len() * N,
        forall|i: int|
            0 <= i < v@.len() ==> r@.subrange(i * N, i * N + N) == (#[trigger] v@[i])@,
{
    v.into_flattened()
}

/// `<[T]>::as_chunks`, of which only the chunks are kept. It panics for
/// `N == 0`, which the precondition excludes. Assumed: the slice is cut from
/// its start into arrays of `N` elements, as many as fit, so that the `i`-th
/// array is the `i`-th run of `N` elements.
#[verifier::external_body]
pub(crate) fn as_chunks<T, const N: usize>(s: &[T]) -> (r: &[[T; N]])
    requires
        N > 0,
    ensures
        r@.len() == s@.len() / (N as nat),
        forall|i: int|
            0 <= i < r@.len() ==> (#[trigger] r@[i])@ == s@.subrange(i * N, i * N + N),
{
    s.as_chunks::<N>().0
}

/// `Vec::leak`. Assumed: the slice holds the elements of the vector, in the
/// same order. It is kept to arrays of no elements, for which a vector owns
/// no memory, so that nothing is lost.
#[verifier::external_body]
pub(crate) fn leak<'a, T, const N: usize>(v: Vec<[T; N]>) -> (r: &'a [[T; N]])
    requires
        N == 0,
    ensures
        r@ == v@,
{
    Vec::leak(v)
}

} // verus!
