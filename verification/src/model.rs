//! The mathematical model of a store: for every array length, the arrays of
//! that length in the order in which they were inserted.

use vstd::prelude::*;

verus! {

/// What a store holds. `m[n]` is the bucket of length `n`: the arrays of
/// length `n`, oldest first. `m.len()` is the number of bucket slots.
pub type Buckets<T> = Seq<Seq<Seq<T>>>;

/// The bucket for length `n`; empty where the store has no slot for `n`.
pub open spec fn bucket<T>(m: Buckets<T>, n: int) -> Seq<Seq<T>> {
    if 0 <= n < m.len() {
        m[n]
    } else {
        Seq::empty()
    }
}

/// The number of arrays of length `n`; zero where the store has no slot for `n`.
pub open spec fn count<T>(m: Buckets<T>, n: int) -> nat {
    bucket(m, n).len()
}

/// The number of arrays in all buckets together.
pub open spec fn total<T>(m: Buckets<T>) -> nat
    decreases m.len(),
{
    if m.len() == 0 {
        0
    } else {
        total(m.drop_last()) + m.last().len()
    }
}

/// The counts of the lengths below `slots`, added up.
pub open spec fn sum_of_counts<T>(m: Buckets<T>, slots: nat) -> nat
    decreases slots,
{
    if slots == 0 {
        0
    } else {
        sum_of_counts(m, (slots - 1) as nat) + count(m, slots - 1)
    }
}

/// Every array in bucket `n` has length `n`.
pub open spec fn shaped<T>(m: Buckets<T>) -> bool {
    forall|n: int, i: int|
        0 <= n < m.len() && 0 <= i < m[n].len() ==> (#[trigger] m[n][i]).len() == n
}

/// `m` with empty buckets appended until it has at least `slots` slots.
pub open spec fn grown<T>(m: Buckets<T>, slots: nat) -> Buckets<T> {
    if m.len() >= slots {
        m
    } else {
        m + Seq::new((slots - m.len()) as nat, |k: int| Seq::<Seq<T>>::empty())
    }
}

/// `m` after one more array `a` was inserted: the slots reach up to the
/// length of `a`, and `a` stands last in its bucket.
pub open spec fn pushed<T>(m: Buckets<T>, a: Seq<T>) -> Buckets<T> {
    let g = grown(m, a.len() + 1);
    g.update(a.len() as int, g[a.len() as int].push(a))
}

/// `m` after the arrays of `items` were inserted one by one, first to last.
pub open spec fn pushed_all<T>(m: Buckets<T>, items: Seq<Seq<T>>) -> Buckets<T>
    decreases items.len(),
{
    if items.len() == 0 {
        m
    } else {
        pushed(pushed_all(m, items.drop_last()), items.last())
    }
}

/// The array that the coordinate (`n`, `idx`) names. A coordinate names an
/// array when `n` is positive, bucket `n` exists and `idx` lies below the
/// number of arrays in it. No coordinate names an array of length zero.
pub open spec fn lookup<T>(m: Buckets<T>, n: int, idx: int) -> Option<Seq<T>> {
    if 0 < n < m.len() && 0 <= idx < m[n].len() {
        Some(m[n][idx])
    } else {
        None
    }
}

/// Bucket `n` of `m` can take `len` arrays in place of its own: their
/// elements and the new total can still be counted in a `usize`.
pub open spec fn fits<T>(m: Buckets<T>, n: int, len: nat) -> bool {
    &&& len * n <= usize::MAX
    &&& total(m) - count(m, n) + len <= usize::MAX
}

/// Appending an empty bucket adds no array.
pub proof fn lemma_total_push_empty<T>(m: Buckets<T>)
    ensures
        total(m.push(Seq::empty())) == total(m),
{
    assert(m.push(Seq::empty()).drop_last() =~= m);
}

/// Growing a store adds slots and no array.
pub proof fn lemma_grown<T>(m: Buckets<T>, slots: nat)
    ensures
        grown(m, slots).len() == if m.len() >= slots { m.len() } else { slots },
        total(grown(m, slots)) == total(m),
        forall|n: int| bucket(grown(m, slots), n) == bucket(m, n),
        shaped(m) ==> shaped(grown(m, slots)),
    decreases slots,
{
    if m.len() < slots {
        let g = grown(m, slots);
        let h = grown(m, (slots - 1) as nat);
        lemma_grown(m, (slots - 1) as nat);
        assert(g =~= h.push(Seq::empty()));
        lemma_total_push_empty(h);
    }
}

/// Two stores whose buckets count the same numbers of arrays have the same
/// total.
pub proof fn lemma_total_by_counts<T>(m: Buckets<T>, other: Buckets<T>)
    requires
        m.len() == other.len(),
        forall|n: int| 0 <= n < m.len() ==> (#[trigger] m[n]).len() == other[n].len(),
    ensures
        total(m) == total(other),
    decreases m.len(),
{
    if m.len() > 0 {
        lemma_total_by_counts(m.drop_last(), other.drop_last());
    }
}

/// Replacing one bucket changes the total by the difference of the two lengths.
pub proof fn lemma_total_update<T>(m: Buckets<T>, n: int, records: Seq<Seq<T>>)
    requires
        0 <= n < m.len(),
    ensures
        total(m.update(n, records)) == total(m) - m[n].len() + records.len(),
        m[n].len() <= total(m),
    decreases m.len(),
{
    let u = m.update(n, records);
    if n == m.len() - 1 {
        assert(u.drop_last() =~= m.drop_last());
    } else {
        assert(u.drop_last() =~= m.drop_last().update(n, records));
        lemma_total_update(m.drop_last(), n, records);
    }
}

/// An insertion adds exactly one array.
pub proof fn lemma_total_pushed<T>(m: Buckets<T>, a: Seq<T>)
    ensures
        total(pushed(m, a)) == total(m) + 1,
{
    let g = grown(m, a.len() + 1);
    lemma_grown(m, a.len() + 1);
    lemma_total_update(g, a.len() as int, g[a.len() as int].push(a));
}

} // verus!
