//! The store itself: one flat buffer per array length.

use crate::handle::VecOfArraysIdx;
use crate::layout::{
    chunk, empty_records, flatten, lemma_chunk_bounds, lemma_chunk_is_subrange,
    lemma_count_of_multiple, lemma_exact_count, lemma_offset_in_range, lemma_records_append,
    records, reinterpret, slices, views,
};
use crate::model::{
    bucket, count, fits, grown, lemma_grown, lemma_total_by_counts, lemma_total_pushed,
    lemma_total_update, lookup, pushed, shaped, total, Buckets,
};
use crate::trusted::{array_into_vec, as_chunks, leak};
use vstd::prelude::*;

verus! {

/// A vector of arrays of different lengths. The arrays of one length lie one
/// after another in a buffer of their own, so that no array costs an
/// allocation and each is found by its length and its position.
///
/// The view of a store is its contents as [`Buckets`]: for every length that
/// has a slot, the arrays of that length, oldest first.
#[derive(Debug, PartialEq, Eq)]
pub struct VecOfArrays<T> {
    /// `data[n]` holds the elements of the arrays of length `n`, array after array.
    data: Vec<Vec<T>>,
    /// The number of arrays of length zero, which leave no element behind.
    num_empty: usize,
    /// The number of arrays of all lengths together.
    num_elems: usize,
}

impl<T> View for VecOfArrays<T> {
    type V = Buckets<T>;

    closed spec fn view(&self) -> Buckets<T> {
        Seq::new(
            self.data@.len(),
            |n: int| records(self.data@[n]@, n as nat, self.count_at(n)),
        )
    }
}

impl<T: Clone> Clone for VecOfArrays<T> {
    /// A store of its own with a clone of every element: the same slots, the
    /// same number of arrays in each, and each element a clone of the one in
    /// its place.
    fn clone(&self) -> (r: Self)
        ensures
            r@.len() == self@.len(),
            forall|n: int| 0 <= n < self@.len() ==> (#[trigger] r@[n]).len() == self@[n].len(),
            forall|n: int, i: int, j: int|
                0 <= n < self@.len() && 0 <= i < self@[n].len() && 0 <= j < n ==> cloned(
                    self@[n][i][j],
                    #[trigger] r@[n][i][j],
                ),
    {
        let data = self.data.clone();
        proof {
            use_type_invariant(self);
            let r = VecOfArrays { data, num_empty: self.num_empty, num_elems: self.num_elems };
            // Each buffer keeps its length, and with it each bucket its count.
            assert forall|n: int| 0 <= n < self.data@.len() implies (#[trigger] r.data@[n])@.len()
                == self.data@[n]@.len() by {}
            lemma_total_by_counts(self@, r@);
            // Element `j` of array `i` is element `i * n + j` of the buffer.
            assert forall|n: int, i: int, j: int|
                0 <= n < self@.len() && 0 <= i < self@[n].len() && 0 <= j < n implies cloned(
                self@[n][i][j],
                #[trigger] r@[n][i][j],
            ) by {
                lemma_chunk_bounds(i, j, n, self@[n].len() as int);
                lemma_exact_count(self.data@[n]@.len() as int, n);
            }
        }
        VecOfArrays { data, num_empty: self.num_empty, num_elems: self.num_elems }
    }
}

impl<T> VecOfArrays<T> {
    /// The number of arrays that the buffer for length `n` holds.
    spec fn count_at(&self, n: int) -> nat {
        if n == 0 {
            self.num_empty as nat
        } else {
            (self.data@[n]@.len() as int / n) as nat
        }
    }

    /// What holds of every store: each buffer holds whole arrays only, the
    /// buffer for length zero holds nothing, a store without slots has
    /// counted no array, and the running total is the number of arrays in
    /// all the buckets.
    #[verifier::type_invariant]
    spec fn inv(&self) -> bool {
        &&& self.data@.len() == 0 ==> self.num_empty == 0
        &&& self.data@.len() > 0 ==> self.data@[0]@.len() == 0
        &&& forall|n: int|
            0 < n < self.data@.len() ==> (#[trigger] self.data@[n])@.len() as int % n == 0
        &&& self.num_elems == total(self@)
    }

    /// Every array of a store has the length of its bucket.
    pub proof fn lemma_shaped(&self)
        ensures
            shaped(self@),
    {
    }

    /// The store with empty buffers appended: the same contents, with empty
    /// buckets in the new slots.
    proof fn lemma_reserved(&self, after: &Self)
        requires
            self.inv(),
            after.num_empty == self.num_empty,
            after.num_elems == self.num_elems,
            after.data@.len() >= self.data@.len(),
            forall|n: int| 0 <= n < self.data@.len() ==> after.data@[n] == self.data@[n],
            forall|n: int|
                self.data@.len() <= n < after.data@.len() ==> (#[trigger] after.data@[n])@.len()
                    == 0,
        ensures
            after.inv(),
            after@ == grown(self@, after.data@.len()),
    {
        // An empty buffer holds no array, whatever the length of its arrays.
        assert forall|n: int|
            0 < n && self.data@.len() <= n < after.data@.len() implies after.count_at(n) == 0 && (
            #[trigger] after.data@[n])@.len() as int % n == 0 by {
            lemma_count_of_multiple(0, n);
        }
        assert forall|n: int| 0 <= n < after.data@.len() implies after@[n] == grown(
            self@,
            after.data@.len(),
        )[n] by {}
        assert(after@ =~= grown(self@, after.data@.len()));
        lemma_grown(self@, after.data@.len());
    }

    /// The store after one array `a` was appended to the buffer for its length.
    proof fn lemma_appended(&self, after: &Self, a: Seq<T>)
        requires
            self.inv(),
            a.len() < self.data@.len(),
            after.data@.len() == self.data@.len(),
            forall|n: int|
                0 <= n < self.data@.len() && n != a.len() ==> after.data@[n] == self.data@[n],
            a.len() == 0 ==> after.data@[0] == self.data@[0] && after.num_empty == self.num_empty
                + 1,
            a.len() > 0 ==> after.data@[a.len() as int]@ == self.data@[a.len() as int]@ + a
                && after.num_empty == self.num_empty,
            after.num_elems == self.num_elems + 1,
        ensures
            after.inv(),
            after@ == pushed(self@, a),
    {
        let n = a.len() as int;
        if n > 0 {
            lemma_records_append(self.data@[n]@, a, a.len());
        } else {
            assert(chunk(after.data@[0]@, 0, self.num_empty as int) =~= a);
        }
        let target = self@.update(n, self@[n].push(a));
        assert forall|k: int| 0 <= k < self.data@.len() implies after@[k] == target[k] by {}
        assert(after@ =~= target);
        lemma_total_update(self@, n, self@[n].push(a));
    }

    /// The store after the bucket for length `n` was exchanged for `arrays`.
    proof fn lemma_replaced(&self, after: &Self, n: int, arrays: Seq<Seq<T>>)
        requires
            self.inv(),
            0 <= n < self.data@.len(),
            after.data@.len() == self.data@.len(),
            forall|k: int| 0 <= k < self.data@.len() && k != n ==> after.data@[k] == self.data@[k],
            n == 0 ==> after.data@[0] == self.data@[0] && after.num_empty == arrays.len(),
            n > 0 ==> after.data@[n]@.len() == arrays.len() * n && after.num_empty
                == self.num_empty,
            records(after.data@[n]@, n as nat, arrays.len()) == arrays,
            after.num_elems == self.num_elems - self@[n].len() + arrays.len(),
        ensures
            after.inv(),
            after@ == self@.update(n, arrays),
    {
        if n > 0 {
            lemma_count_of_multiple(arrays.len() as int, n);
        }
        assert(after@ =~= self@.update(n, arrays));
        lemma_total_update(self@, n, arrays);
    }

    /// Constructs an empty vector of arrays: no slot, no array.
    pub fn new() -> (r: Self)
        ensures
            r@ == Buckets::<T>::empty(),
    {
        Self { data: Vec::new(), num_empty: 0, num_elems: 0 }
    }

    /// Hands out what the store holds and leaves an empty store behind.
    fn take(&mut self) -> (r: Self)
        ensures
            r == *old(self),
            final(self)@ == Buckets::<T>::empty(),
    {
        let mut taken = Self::new();
        core::mem::swap(self, &mut taken);
        taken
    }

    /// Appends empty buffers until there is one for length `n`.
    fn reserve_slot(data: &mut Vec<Vec<T>>, n: usize)
        requires
            n < usize::MAX,
        ensures
            final(data)@.len() == if old(data)@.len() > n {
                old(data)@.len()
            } else {
                (n + 1) as nat
            },
            forall|k: int| 0 <= k < old(data)@.len() ==> final(data)@[k] == old(data)@[k],
            forall|k: int|
                old(data)@.len() <= k < final(data)@.len() ==> (#[trigger] final(data)@[k])@.len()
                    == 0,
    {
        while data.len() <= n
            invariant
                n < usize::MAX,
                data@.len() == old(data)@.len() || old(data)@.len() < data@.len() <= n + 1,
                forall|k: int| 0 <= k < old(data)@.len() ==> data@[k] == old(data)@[k],
                forall|k: int|
                    old(data)@.len() <= k < data@.len() ==> (#[trigger] data@[k])@.len() == 0,
            decreases n + 1 - data@.len(),
        {
            data.push(Vec::new());
        }
    }

    /// Inserts an array of fixed size: it becomes the last array of the
    /// bucket for its length, and empty buckets are added up to that length
    /// where they were missing. The total grows by one.
    pub fn push<const N: usize>(&mut self, arr: [T; N])
        requires
            N < usize::MAX,
            total(old(self)@) < usize::MAX,
        ensures
            final(self)@ == pushed(old(self)@, arr@),
            total(final(self)@) == total(old(self)@) + 1,
    {
        let ghost before = *self;
        proof {
            use_type_invariant(&*self);
            lemma_total_pushed(before@, arr@);
        }
        let VecOfArrays { mut data, mut num_empty, num_elems } = self.take();
        Self::reserve_slot(&mut data, N);
        let ghost reserved = VecOfArrays { data, num_empty, num_elems };
        proof {
            before.lemma_reserved(&reserved);
            lemma_total_update(reserved@, 0, reserved@[0]);
        }
        if N == 0 {
            num_empty += 1;
        } else {
            let mut items = array_into_vec(arr);
            data[N].append(&mut items);
        }
        proof {
            reserved.lemma_appended(
                &VecOfArrays { data, num_empty, num_elems: (num_elems + 1) as usize },
                arr@,
            );
        }
        *self = VecOfArrays { data, num_empty, num_elems: num_elems + 1 };
    }

    /// Inserts a copy of a slice as an array of the slice's length: it
    /// becomes the last array of the bucket for that length, and empty
    /// buckets are added up to that length where they were missing. The
    /// total grows by one.
    pub fn push_slice(&mut self, slice: &[T]) where T: Copy
        requires
            slice@.len() < usize::MAX,
            total(old(self)@) < usize::MAX,
        ensures
            final(self)@ == pushed(old(self)@, slice@),
            total(final(self)@) == total(old(self)@) + 1,
    {
        let ghost before = *self;
        proof {
            use_type_invariant(&*self);
            lemma_total_pushed(before@, slice@);
        }
        let n = slice.len();
        let VecOfArrays { mut data, mut num_empty, num_elems } = self.take();
        Self::reserve_slot(&mut data, n);
        let ghost reserved = VecOfArrays { data, num_empty, num_elems };
        proof {
            before.lemma_reserved(&reserved);
            lemma_total_update(reserved@, 0, reserved@[0]);
        }
        if n == 0 {
            num_empty += 1;
        } else {
            let mut i: usize = 0;
            while i < n
                invariant
                    i <= n,
                    n == slice@.len(),
                    0 < n < data@.len(),
                    data@.len() == reserved.data@.len(),
                    forall|k: int| 0 <= k < data@.len() && k != n ==> data@[k] == reserved.data@[k],
                    data@[n as int]@ == reserved.data@[n as int]@ + slice@.subrange(0, i as int),
                decreases n - i,
            {
                data[n].push(slice[i]);
                i += 1;
                assert(data@[n as int]@ =~= reserved.data@[n as int]@ + slice@.subrange(
                    0,
                    i as int,
                ));
            }
            assert(slice@.subrange(0, n as int) =~= slice@);
        }
        proof {
            reserved.lemma_appended(
                &VecOfArrays { data, num_empty, num_elems: (num_elems + 1) as usize },
                slice@,
            );
        }
        *self = VecOfArrays { data, num_empty, num_elems: num_elems + 1 };
    }

    /// The arrays of length `N`, oldest first, as one slice of arrays; the
    /// empty slice where no array of that length was ever inserted.
    ///
    /// For a positive `N` the slice is the buffer itself, read in place.
    /// Arrays without elements are counted and not stored: for `N == 0` the
    /// slice is made for the call, in time linear in their number.
    pub fn get<const N: usize>(&self) -> (r: &[[T; N]])
        ensures
            views(r@) == bucket(self@, N as int),
    {
        proof {
            use_type_invariant(self);
        }
        if self.data.len() <= N {
            return &[];
        }
        if N == 0 {
            // Arrays without elements are counted, not stored.
            leak(empty_records(self.num_empty))
        } else {
            let r = as_chunks::<T, N>(self.data[N].as_slice());
            proof {
                let flat = self.data@[N as int]@;
                lemma_exact_count(flat.len() as int, N as int);
                assert forall|i: int| 0 <= i < r@.len() implies r@[i]@ == chunk(
                    flat,
                    N as nat,
                    i,
                ) by {
                    lemma_chunk_is_subrange(flat, N as nat, i, r@.len());
                }
            }
            r
        }
    }

    /// The number of bucket slots: one more than the greatest length ever
    /// inserted, and zero for a store that never held an array.
    pub fn max_n(&self) -> (r: usize)
        ensures
            r == self@.len(),
    {
        self.data.len()
    }

    /// The number of arrays of length `N`; zero where no such array was
    /// ever inserted.
    pub fn len_n_const<const N: usize>(&self) -> (r: usize)
        ensures
            r == count(self@, N as int),
    {
        self.len_n(N)
    }

    /// The number of arrays of length `n`; zero where no such array was
    /// ever inserted.
    pub fn len_n(&self, n: usize) -> (r: usize)
        ensures
            r == count(self@, n as int),
    {
        if self.data.len() <= n {
            0
        } else if n == 0 {
            self.num_empty
        } else {
            self.data[n].len() / n
        }
    }

    /// The number of arrays of all lengths together.
    pub fn len(&self) -> (r: usize)
        ensures
            r == total(self@),
    {
        proof {
            use_type_invariant(self);
        }
        self.num_elems
    }

    /// The arrays of length `n`, oldest first, each as a slice of `n`
    /// elements; no slice where no array of that length was ever inserted.
    /// The store is only read, so that every call gives the same slices.
    pub fn get_slices(&self, n: usize) -> (r: Vec<&[T]>)
        ensures
            slices(r@) == bucket(self@, n as int),
    {
        proof {
            use_type_invariant(self);
        }
        let mut out: Vec<&[T]> = Vec::new();
        if self.data.len() <= n {
            return out;
        }
        let flat = self.data[n].as_slice();
        let len = self.len_n(n);
        proof {
            assert(flat@.len() == flat.len());
            if n > 0 {
                lemma_exact_count(flat@.len() as int, n as int);
            } else {
                assert(len * n == 0) by (nonlinear_arith)
                    requires
                        n == 0,
                ;
            }
        }
        let mut i: usize = 0;
        let mut start: usize = 0;
        while i < len
            invariant
                i <= len,
                start == i * n,
                len * n <= flat@.len() <= usize::MAX,
                out@.len() == i,
                forall|k: int| 0 <= k < i ==> (#[trigger] out@[k])@ == chunk(flat@, n as nat, k),
            decreases len - i,
        {
            proof {
                lemma_chunk_is_subrange(flat@, n as nat, i as int, len as nat);
                assert((i + 1) * n == i * n + n) by (nonlinear_arith);
            }
            out.push(vstd::slice::slice_subrange(flat, start, start + n));
            start = start + n;
            i += 1;
        }
        out
    }

    /// Hands the arrays of length `N` to `f` as a vector of arrays, and keeps
    /// what `f` leaves in that vector as the new contents of the bucket: `f`
    /// may change, reorder, remove or add arrays. The other buckets stay as
    /// they are, and the total follows the number of arrays that `f` leaves.
    /// Where there is no slot for length `N`, `f` is not called and nothing
    /// changes.
    ///
    /// While `f` runs, the bucket is out of the store: should `f` panic, the
    /// store goes on with the other buckets and without the arrays of length
    /// `N`.
    ///
    /// A mutator that may leave more arrays than it was given must leave no
    /// more than can be counted: see [`fits`].
    pub fn update_mut<const N: usize>(&mut self, f: impl Fn(&mut Vec<[T; N]>))
        requires
            N < old(self)@.len() ==> forall|v: &mut Vec<[T; N]>|
                views(v@) == old(self)@[N as int] ==> #[trigger] call_requires(f, (v,)),
            N < old(self)@.len() ==> forall|v: &mut Vec<[T; N]>|
                views(v@) == old(self)@[N as int] && #[trigger] call_ensures(f, (v,), ())
                    ==> final(v)@.len() <= v@.len() || fits(
                    old(self)@,
                    N as int,
                    final(v)@.len(),
                ),
        ensures
            N >= old(self)@.len() ==> final(self)@ == old(self)@,
            N < old(self)@.len() ==> exists|v: &mut Vec<[T; N]>|
                {
                    &&& views(v@) == old(self)@[N as int]
                    &&& #[trigger] call_ensures(f, (v,), ())
                    &&& final(self)@ == old(self)@.update(N as int, views(final(v)@))
                },
    {
        if self.data.len() <= N {
            return;
        }
        let ghost before = *self;
        proof {
            use_type_invariant(&*self);
            lemma_total_update(before@, N as int, before@[N as int]);
            if N > 0 {
                lemma_exact_count(before.data@[N as int]@.len() as int, N as int);
                assert(before.data@[N as int]@.len() == before.data@[N as int].len());
            }
        }
        // Take the bucket out of the store, which goes on without it.
        let was = self.len_n(N);
        let VecOfArrays { mut data, mut num_empty, num_elems } = self.take();
        let mut v: Vec<[T; N]> = if N == 0 {
            let counted = num_empty;
            num_empty = 0;
            empty_records(counted)
        } else {
            let mut flat: Vec<T> = Vec::new();
            core::mem::swap(&mut data[N], &mut flat);
            reinterpret(flat)
        };
        proof {
            assert(records(data@[N as int]@, N as nat, 0) =~= Seq::<Seq<T>>::empty());
            before.lemma_replaced(
                &VecOfArrays { data, num_empty, num_elems: (num_elems - was) as usize },
                N as int,
                Seq::empty(),
            );
        }
        *self = VecOfArrays { data, num_empty, num_elems: num_elems - was };
        let ghost without = *self;

        f(&mut v);

        // Put what the mutator left in the place of the bucket.
        let now = v.len();
        proof {
            if now <= was {
                vstd::arithmetic::mul::lemma_mul_inequality(now as int, was as int, N as int);
            }
        }
        let VecOfArrays { mut data, mut num_empty, num_elems } = self.take();
        if N == 0 {
            num_empty = now;
        } else {
            let mut flat = flatten(v);
            core::mem::swap(&mut data[N], &mut flat);
        }
        proof {
            if N == 0 {
                // Arrays without elements all look alike.
                assert forall|j: int| 0 <= j < now implies views(v@)[j] =~= chunk(
                    data@[0]@,
                    0,
                    j,
                ) by {}
                assert(records(data@[0]@, 0, now as nat) =~= views(v@));
            }
            without.lemma_replaced(
                &VecOfArrays { data, num_empty, num_elems: (num_elems + now) as usize },
                N as int,
                views(v@),
            );
            assert(before@.update(N as int, Seq::empty()).update(N as int, views(v@))
                =~= before@.update(N as int, views(v@)));
        }
        *self = VecOfArrays { data, num_empty, num_elems: num_elems + now };
    }

    /// The array that the handle names, as a slice of its elements. A handle
    /// names an array when its length is positive and has a slot, and its
    /// position lies below the number of arrays of that length; for any
    /// other handle the answer is `None`.
    pub fn get_idx(&self, i: VecOfArraysIdx) -> (r: Option<&[T]>)
        ensures
            match r {
                Some(s) => lookup(self@, i.n as int, i.idx as int) == Some(s@),
                None => lookup(self@, i.n as int, i.idx as int) is None,
            },
            i.n >= self@.len() || i.idx >= count(self@, i.n as int) ==> r is None,
    {
        proof {
            use_type_invariant(self);
        }
        let n = i.n as usize;
        if self.data.len() <= n {
            return None;
        }
        let d = self.data[n].as_slice();
        proof {
            if n > 0 {
                lemma_offset_in_range(i.idx as int, d@.len() as int, n as int);
                lemma_exact_count(d@.len() as int, n as int);
            }
            assert(i.idx * i.n <= 0xffff_ffff * 0xff) by (nonlinear_arith)
                requires
                    0 <= i.idx <= 0xffff_ffff,
                    0 <= i.n <= 0xff,
            ;
        }
        // The product fits in 64 bits whatever the width of `usize`.
        let offset: u64 = (i.idx as u64) * (i.n as u64);
        if offset >= d.len() as u64 {
            return None;
        }
        let start = offset as usize;
        proof {
            lemma_chunk_is_subrange(d@, n as nat, i.idx as int, d@.len() / (n as nat));
        }
        Some(vstd::slice::slice_subrange(d, start, start + n))
    }
}

} // verus!
