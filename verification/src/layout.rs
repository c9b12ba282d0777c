//! How one bucket lies in memory: its arrays stand one after another in a
//! single flat buffer, and are read back by cutting the buffer into records
//! of equal length.

use crate::trusted::{into_flattened, vec_into_array};
use vstd::prelude::*;

verus! {

/// The `i`-th run of `n` consecutive elements of `flat`.
pub open spec fn chunk<T>(flat: Seq<T>, n: nat, i: int) -> Seq<T> {
    Seq::new(n, |j: int| flat[i * n + j])
}

/// `flat` read as `count` records of `n` elements each.
pub open spec fn records<T>(flat: Seq<T>, n: nat, count: nat) -> Seq<Seq<T>> {
    Seq::new(count, |i: int| chunk(flat, n, i))
}

/// The arrays of `s`, each as the sequence of its elements.
pub open spec fn views<T, const N: usize>(s: Seq<[T; N]>) -> Seq<Seq<T>> {
    s.map_values(|a: [T; N]| a@)
}

/// The slices of `s`, each as the sequence of its elements.
pub open spec fn slices<T>(s: Seq<&[T]>) -> Seq<Seq<T>> {
    s.map_values(|a: &[T]| a@)
}

/// Element `j` of record `i` lies inside a buffer of `count` records.
pub proof fn lemma_chunk_bounds(i: int, j: int, n: int, count: int)
    by (nonlinear_arith)
    requires
        0 <= i < count,
        0 <= j < n,
    ensures
        0 <= i * n + j < count * n,
        i * n + n <= count * n,
        0 <= i * n,
{
}

/// A buffer whose length is a multiple of `n` holds exactly `len / n` records.
pub proof fn lemma_exact_count(len: int, n: int)
    requires
        0 <= len,
        0 < n,
        len % n == 0,
    ensures
        (len / n) * n == len,
        0 <= len / n <= len,
{
    vstd::arithmetic::div_mod::lemma_fundamental_div_mod(len, n);
    vstd::arithmetic::mul::lemma_mul_is_commutative(n, len / n);
    vstd::arithmetic::div_mod::lemma_div_pos_is_pos(len, n);
    assert((len / n) <= (len / n) * n) by (nonlinear_arith)
        requires
            0 <= len / n,
            0 < n,
    ;
}

/// A buffer of `count` records of `n` elements has length `count * n`, which
/// is a multiple of `n`.
pub proof fn lemma_count_of_multiple(count: int, n: int)
    requires
        0 <= count,
        0 < n,
    ensures
        (count * n) % n == 0,
        (count * n) / n == count,
        0 <= count * n,
{
    vstd::arithmetic::div_mod::lemma_mod_multiples_basic(count, n);
    vstd::arithmetic::div_mod::lemma_div_multiples_vanish(count, n);
    vstd::arithmetic::mul::lemma_mul_is_commutative(count, n);
    vstd::arithmetic::mul::lemma_mul_nonnegative(count, n);
}

/// In a buffer of whole records, a position `idx * n` lies inside the buffer
/// exactly when `idx` lies below the number of records.
pub proof fn lemma_offset_in_range(idx: int, len: int, n: int)
    requires
        0 <= idx,
        0 <= len,
        0 < n,
        len % n == 0,
    ensures
        idx * n < len <==> idx < len / n,
{
    lemma_exact_count(len, n);
    let c = len / n;
    if idx < c {
        lemma_chunk_bounds(idx, 0, n, c);
    } else {
        vstd::arithmetic::mul::lemma_mul_inequality(c, idx, n);
    }
}

/// A record that lies inside the buffer is the matching subrange of it.
pub proof fn lemma_chunk_is_subrange<T>(flat: Seq<T>, n: nat, i: int, count: nat)
    requires
        0 <= i < count,
        count * n <= flat.len(),
    ensures
        0 <= i * n,
        i * n + n <= flat.len(),
        chunk(flat, n, i) == flat.subrange(i * n, i * n + n),
{
    if n > 0 {
        lemma_chunk_bounds(i, 0, n as int, count as int);
    } else {
        assert(i * n == 0 && count * n == 0) by (nonlinear_arith)
            requires
                n == 0,
        ;
    }
}

/// Appending `n` elements to a buffer of whole records appends one record.
pub proof fn lemma_records_append<T>(flat: Seq<T>, a: Seq<T>, n: nat)
    requires
        0 < n,
        flat.len() % n == 0,
        a.len() == n,
    ensures
        (flat + a).len() % n == 0,
        (flat + a).len() / n == flat.len() / n + 1,
        records(flat + a, n, flat.len() / n + 1) == records(flat, n, flat.len() / n).push(a),
{
    let c = flat.len() / n;
    lemma_exact_count(flat.len() as int, n as int);
    assert((c + 1) * n == c * n + n) by (nonlinear_arith);
    lemma_count_of_multiple(c as int + 1, n as int);
    let left = records(flat + a, n, c + 1);
    let right = records(flat, n, c).push(a);
    assert forall|i: int| 0 <= i < c + 1 implies left[i] == right[i] by {
        if i < c {
            assert forall|j: int| 0 <= j < n implies chunk(flat + a, n, i)[j] == chunk(
                flat,
                n,
                i,
            )[j] by {
                lemma_chunk_bounds(i, j, n as int, c as int);
            }
        }
    }
}

/// Regroups a flat buffer of whole records into a vector of arrays: array
/// `i` of the result holds the `i`-th run of `N` elements of `v`.
pub fn reinterpret<T, const N: usize>(v: Vec<T>) -> (r: Vec<[T; N]>)
    requires
        N > 0,
        v@.len() % (N as nat) == 0,
    ensures
        r@.len() == v@.len() / (N as nat),
        views(r@) == records(v@, N as nat, v@.len() / (N as nat)),
{
    let ghost flat = v@;
    let ghost c = flat.len() as int / N as int;
    proof {
        lemma_exact_count(flat.len() as int, N as int);
    }
    // Cut the records off the end of the buffer, last record first.
    let mut rest = v;
    let mut back: Vec<[T; N]> = Vec::new();
    while rest.len() > 0
        invariant
            N > 0,
            c * N == flat.len(),
            0 <= back@.len() <= c,
            rest@.len() == (c - back@.len()) * N,
            rest@.len() <= flat.len(),
            rest@ == flat.subrange(0, rest@.len() as int),
            forall|k: int|
                0 <= k < back@.len() ==> (#[trigger] back@[k])@ == chunk(
                    flat,
                    N as nat,
                    c - 1 - k,
                ),
        decreases rest@.len(),
    {
        let ghost i = c - 1 - back@.len();
        proof {
            if back@.len() == c {
                assert((c - back@.len()) * N == 0) by (nonlinear_arith)
                    requires
                        c - back@.len() == 0,
                ;
            }
            lemma_chunk_bounds(i, 0, N as int, c - back@.len());
            assert((c - back@.len()) * N == i * N + N) by (nonlinear_arith)
                requires
                    i == c - 1 - back@.len(),
            ;
            lemma_chunk_is_subrange(flat, N as nat, i, c as nat);
        }
        let at = rest.len() - N;
        let tail = rest.split_off(at);
        // The tail has exactly `N` elements, so it always makes an array.
        if let Ok(record) = vec_into_array::<T, N>(tail) {
            back.push(record);
        }
    }
    proof {
        if back@.len() < c {
            lemma_chunk_bounds(0, 0, N as int, c - back@.len());
        }
    }
    // Put the records back into their order.
    let ghost reversed = back@;
    let mut out: Vec<[T; N]> = Vec::new();
    while back.len() > 0
        invariant
            reversed.len() == c,
            back@.len() + out@.len() == c,
            back@ == reversed.subrange(0, back@.len() as int),
            forall|k: int|
                0 <= k < c ==> (#[trigger] reversed[k])@ == chunk(flat, N as nat, c - 1 - k),
            forall|k: int|
                0 <= k < out@.len() ==> (#[trigger] out@[k])@ == chunk(flat, N as nat, k),
        decreases back@.len(),
    {
        if let Some(record) = back.pop() {
            out.push(record);
        }
    }
    out
}

/// Lays the arrays of `v` one after another in one flat buffer.
pub fn flatten<T, const N: usize>(v: Vec<[T; N]>) -> (r: Vec<T>)
    requires
        v@.len() * N <= usize::MAX,
    ensures
        r@.len() == v@.len() * N,
        records(r@, N as nat, v@.len()) == views(v@),
{
    let r = into_flattened(v);
    proof {
        assert forall|i: int| 0 <= i < v@.len() implies chunk(r@, N as nat, i) == v@[i]@ by {
            lemma_chunk_is_subrange(r@, N as nat, i, v@.len());
        }
    }
    r
}

/// A vector of `count` arrays that hold no element.
pub(crate) fn empty_records<T, const N: usize>(count: usize) -> (r: Vec<[T; N]>)
    requires
        N == 0,
    ensures
        r@.len() == count,
        forall|flat: Seq<T>| views(r@) == #[trigger] records(flat, 0, count as nat),
{
    let mut out: Vec<[T; N]> = Vec::new();
    let mut i: usize = 0;
    while i < count
        invariant
            N == 0,
            i <= count,
            out@.len() == i,
        decreases count - i,
    {
        // A vector without elements always makes an array without elements.
        if let Ok(record) = vec_into_array::<T, N>(Vec::new()) {
            out.push(record);
        }
        i += 1;
    }
    proof {
        assert forall|flat: Seq<T>| views(out@) == #[trigger] records(flat, 0, count as nat) by {
            assert forall|k: int| 0 <= k < count implies views(out@)[k] == chunk(flat, 0, k) by {}
        }
    }
    out
}

} // verus!
