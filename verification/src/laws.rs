//! What holds of every store, stated over the model and proved.

use crate::layout::{slices, views};
use crate::model::{
    bucket, count, lemma_grown, lemma_total_pushed, lemma_total_update, lookup, pushed,
    pushed_all, shaped, sum_of_counts, total, Buckets,
};
use vstd::prelude::*;

verus! {

/// The test that picks the arrays of length `n`.
pub open spec fn has_len<T>(n: int) -> spec_fn(Seq<T>) -> bool {
    |a: Seq<T>| a.len() == n
}

/// An insertion appends the array to the bucket for its length, which then
/// counts one array more.
pub proof fn lemma_pushed_own_bucket<T>(m: Buckets<T>, a: Seq<T>)
    ensures
        bucket(pushed(m, a), a.len() as int) == bucket(m, a.len() as int).push(a),
        count(pushed(m, a), a.len() as int) == count(m, a.len() as int) + 1,
{
    lemma_grown(m, a.len() + 1);
}

/// An insertion makes slots up to the length of the array, and takes none
/// away: the store has as many slots as before, or one more than the length
/// of the array where that is more.
pub proof fn lemma_pushed_slots<T>(m: Buckets<T>, a: Seq<T>)
    ensures
        pushed(m, a).len() == if m.len() > a.len() {
            m.len()
        } else {
            a.len() + 1
        },
        forall|n: int|
            m.len() <= n < pushed(m, a).len() && n != a.len() ==> count(pushed(m, a), n) == 0,
{
    lemma_grown(m, a.len() + 1);
}

/// An insertion keeps every array at the length of its bucket.
pub proof fn lemma_pushed_shaped<T>(m: Buckets<T>, a: Seq<T>)
    requires
        shaped(m),
    ensures
        shaped(pushed(m, a)),
{
    lemma_grown(m, a.len() + 1);
}

/// An insertion into the bucket for one length leaves the bucket for every
/// other length as it was, in its contents and in its count.
pub proof fn lemma_pushed_other_bucket<T>(m: Buckets<T>, a: Seq<T>, n: int)
    requires
        n != a.len(),
    ensures
        bucket(pushed(m, a), n) == bucket(m, n),
        count(pushed(m, a), n) == count(m, n),
{
    lemma_grown(m, a.len() + 1);
}

/// After any sequence of insertions the bucket for length `n` holds what it
/// held before, followed by exactly the inserted arrays of length `n`, in
/// the order of their insertion; its count grew by their number.
pub proof fn lemma_pushed_all_bucket<T>(m: Buckets<T>, items: Seq<Seq<T>>, n: int)
    ensures
        bucket(pushed_all(m, items), n) == bucket(m, n) + items.filter(has_len(n)),
        count(pushed_all(m, items), n) == count(m, n) + items.filter(has_len(n)).len(),
    decreases items.len(),
{
    reveal(Seq::filter);
    if items.len() > 0 {
        let before = pushed_all(m, items.drop_last());
        let a = items.last();
        lemma_pushed_all_bucket(m, items.drop_last(), n);
        if a.len() == n {
            lemma_pushed_own_bucket(before, a);
            assert(bucket(m, n) + items.filter(has_len(n)) =~= (bucket(m, n)
                + items.drop_last().filter(has_len(n))).push(a));
        } else {
            lemma_pushed_other_bucket(before, a, n);
        }
    }
}

/// A store that was filled by insertions alone holds, in the bucket for
/// length `n`, exactly the inserted arrays of length `n`, in the order of
/// their insertion, and counts as many.
pub proof fn lemma_filled_bucket<T>(items: Seq<Seq<T>>, n: int)
    ensures
        bucket(pushed_all(Buckets::<T>::empty(), items), n) == items.filter(has_len(n)),
        count(pushed_all(Buckets::<T>::empty(), items), n) == items.filter(has_len(n)).len(),
{
    lemma_pushed_all_bucket(Buckets::<T>::empty(), items, n);
}

/// After any sequence of insertions the total grew by the number of
/// insertions.
pub proof fn lemma_pushed_all_total<T>(m: Buckets<T>, items: Seq<Seq<T>>)
    ensures
        total(pushed_all(m, items)) == total(m) + items.len(),
    decreases items.len(),
{
    if items.len() > 0 {
        lemma_pushed_all_total(m, items.drop_last());
        lemma_total_pushed(pushed_all(m, items.drop_last()), items.last());
    }
}

/// A store that was filled by insertions alone holds as many arrays as
/// there were insertions.
pub proof fn lemma_filled_total<T>(items: Seq<Seq<T>>)
    ensures
        total(pushed_all(Buckets::<T>::empty(), items)) == items.len(),
{
    lemma_pushed_all_total(Buckets::<T>::empty(), items);
}

/// The sum of the counts below `slots` looks at the buckets below `slots`
/// only.
proof fn lemma_sum_of_counts_below<T>(m: Buckets<T>, other: Buckets<T>, slots: nat)
    requires
        forall|n: int| 0 <= n < slots ==> count(m, n) == count(other, n),
    ensures
        sum_of_counts(m, slots) == sum_of_counts(other, slots),
    decreases slots,
{
    if slots > 0 {
        lemma_sum_of_counts_below(m, other, (slots - 1) as nat);
    }
}

/// The total is the sum of the counts of all the lengths that have a slot.
pub proof fn lemma_total_is_sum_of_counts<T>(m: Buckets<T>)
    ensures
        total(m) == sum_of_counts(m, m.len()),
    decreases m.len(),
{
    if m.len() > 0 {
        lemma_total_is_sum_of_counts(m.drop_last());
        lemma_sum_of_counts_below(m, m.drop_last(), (m.len() - 1) as nat);
    }
}

/// An array of positive length that was just inserted is found under its
/// length and the number of arrays of that length that were there before it.
pub proof fn lemma_round_trip<T>(m: Buckets<T>, a: Seq<T>)
    requires
        a.len() > 0,
    ensures
        lookup(pushed(m, a), a.len() as int, count(m, a.len() as int) as int) == Some(a),
{
    lemma_pushed_own_bucket(m, a);
    lemma_grown(m, a.len() + 1);
}

/// A handle that names an array goes on naming the same array after any
/// insertion.
pub proof fn lemma_lookup_stable<T>(m: Buckets<T>, a: Seq<T>, n: int, idx: int)
    requires
        lookup(m, n, idx) is Some,
    ensures
        lookup(pushed(m, a), n, idx) == lookup(m, n, idx),
{
    lemma_grown(m, a.len() + 1);
    if n == a.len() {
        lemma_pushed_own_bucket(m, a);
    } else {
        lemma_pushed_other_bucket(m, a, n);
    }
}

/// In a store that was filled by insertions alone, the `k`-th inserted
/// array, where its length is positive, is found under its length and the
/// number of arrays of that length that were inserted before it.
pub proof fn lemma_filled_round_trip<T>(items: Seq<Seq<T>>, k: int)
    requires
        0 <= k < items.len(),
        items[k].len() > 0,
    ensures
        lookup(
            pushed_all(Buckets::<T>::empty(), items),
            items[k].len() as int,
            items.take(k).filter(has_len(items[k].len() as int)).len() as int,
        ) == Some(items[k]),
    decreases items.len(),
{
    reveal(Seq::filter);
    let n = items[k].len() as int;
    let ordinal = items.take(k).filter(has_len(n)).len() as int;
    let before = pushed_all(Buckets::<T>::empty(), items.drop_last());
    let a = items.last();
    if k == items.len() - 1 {
        lemma_filled_bucket(items.drop_last(), n);
        lemma_round_trip(before, a);
    } else {
        assert(items.drop_last().take(k) =~= items.take(k));
        lemma_filled_round_trip(items.drop_last(), k);
        lemma_lookup_stable(before, a, n, ordinal);
    }
}

/// A handle whose length has no bucket, or whose position does not lie
/// below the number of arrays of its length, names nothing.
pub proof fn lemma_lookup_out_of_bounds<T>(m: Buckets<T>, n: int, idx: int)
    requires
        n >= m.len() || idx >= count(m, n),
    ensures
        lookup(m, n, idx) is None,
{
}

/// Two readings of one bucket as slices give the same slices in the same
/// order.
pub proof fn lemma_slices_agree<T>(m: Buckets<T>, n: int, first: Seq<&[T]>, second: Seq<&[T]>)
    requires
        slices(first) == bucket(m, n),
        slices(second) == bucket(m, n),
    ensures
        first.len() == second.len(),
        forall|i: int| 0 <= i < first.len() ==> first[i]@ == second[i]@,
{
    assert(slices(first).len() == first.len());
    assert(slices(second).len() == second.len());
    assert forall|i: int| 0 <= i < first.len() implies first[i]@ == second[i]@ by {
        assert(slices(first)[i] == first[i]@);
        assert(slices(second)[i] == second[i]@);
    }
}

/// A mutator that reverses the vector it is given leaves the bucket with
/// the same arrays in the opposite order: the count of that length and the
/// total stay as they were, and so does every other bucket. Here `before`
/// is a store with a bucket for length `N`, and `after` is what the store
/// is once the mutator `f` has been run on that bucket.
pub proof fn lemma_updated_by_reversal<T, const N: usize, F: Fn(&mut Vec<[T; N]>)>(
    f: F,
    before: Buckets<T>,
    after: Buckets<T>,
)
    requires
        N < before.len(),
        exists|v: &mut Vec<[T; N]>|
            {
                &&& views(v@) == before[N as int]
                &&& #[trigger] call_ensures(f, (v,), ())
                &&& after == before.update(N as int, views(final(v)@))
            },
        forall|v: &mut Vec<[T; N]>|
            #[trigger] call_ensures(f, (v,), ()) ==> final(v)@ == v@.reverse(),
    ensures
        bucket(after, N as int) == bucket(before, N as int).reverse(),
        count(after, N as int) == count(before, N as int),
        forall|n: int| n != N ==> bucket(after, n) == bucket(before, n),
        total(after) == total(before),
{
    let v = choose|v: &mut Vec<[T; N]>|
        {
            &&& views(v@) == before[N as int]
            &&& #[trigger] call_ensures(f, (v,), ())
            &&& after == before.update(N as int, views(final(v)@))
        };
    // The views of a reversed vector are the reversed views of the vector.
    assert(views(v@.reverse()) =~= views(v@).reverse());
    lemma_total_update(before, N as int, views(final(v)@));
}

} // verus!
