use std::cell::Cell;
use vec_of_arrays::layout::{flatten, reinterpret};
use vec_of_arrays::{VecOfArrays, VecOfArraysIdx};

/// A store filled with a fixed mix of lengths:
/// three arrays of length 2, two of length 3, one of length 1 and one of length 5.
fn mixed() -> VecOfArrays<u32> {
    let mut v = VecOfArrays::new();
    v.push([20, 21]);
    v.push_slice(&[30, 31, 32]);
    v.push([22, 23]);
    v.push([10]);
    v.push_slice(&[24, 25]);
    v.push([33, 34, 35]);
    v.push([50, 51, 52, 53, 54]);
    v
}

#[test]
fn counts_and_order_follow_the_pushes() {
    let v = mixed();
    assert_eq!(v.len_n(1), 1);
    assert_eq!(v.len_n(2), 3);
    assert_eq!(v.len_n(3), 2);
    assert_eq!(v.len_n(4), 0);
    assert_eq!(v.len_n(5), 1);
    assert_eq!(v.len_n_const::<2>(), 3);
    assert_eq!(v.get::<1>(), &[[10]]);
    assert_eq!(v.get::<2>(), &[[20, 21], [22, 23], [24, 25]]);
    assert_eq!(v.get::<3>(), &[[30, 31, 32], [33, 34, 35]]);
    assert!(v.get::<4>().is_empty());
    assert_eq!(v.get::<5>(), &[[50, 51, 52, 53, 54]]);
}

#[test]
fn push_leaves_other_buckets_alone() {
    let mut v = mixed();
    let twos: Vec<[u32; 2]> = v.get::<2>().to_vec();
    let fives: Vec<[u32; 5]> = v.get::<5>().to_vec();
    v.push([36, 37, 38]);
    v.push_slice(&[39, 40, 41]);
    assert_eq!(v.get::<2>(), &twos[..]);
    assert_eq!(v.get::<5>(), &fives[..]);
    assert_eq!(v.len_n(1), 1);
    assert_eq!(v.len_n(2), 3);
    assert_eq!(v.len_n(5), 1);
    assert_eq!(v.len_n(3), 4);
    // A push that adds slots leaves the buckets below as they were.
    v.push([0; 9]);
    assert_eq!(v.get::<2>(), &twos[..]);
    assert_eq!(v.len_n(3), 4);
    assert_eq!(v.len_n(9), 1);
}

#[test]
fn total_is_the_sum_of_the_counts() {
    let mut v = VecOfArrays::new();
    let mut pushes = 0;
    for round in 0..6u32 {
        v.push([round]);
        v.push_slice(&[round, round, round]);
        v.push([]);
        pushes += 3;
        if round % 2 == 0 {
            v.push([round; 4]);
            pushes += 1;
        }
        let sum: usize = (0..v.max_n()).map(|n| v.len_n(n)).sum();
        assert_eq!(v.len(), sum);
        assert_eq!(v.len(), pushes);
    }
    assert_eq!(v.len(), 21);
    assert_eq!(v.len_n(0), 6);
    assert_eq!(v.len_n(4), 3);
}

#[test]
fn handle_round_trip() {
    let mut v = VecOfArrays::new();
    let mut handles = Vec::new();
    let items: [&[u32]; 7] =
        [&[1, 2], &[3, 4, 5], &[6, 7], &[8], &[9, 10], &[11, 12, 13], &[14, 15, 16, 17]];
    for item in items {
        let ordinal = v.len_n(item.len());
        v.push_slice(item);
        handles.push(VecOfArraysIdx::new(item.len() as u8, ordinal as u32));
    }
    assert_eq!(handles[2], VecOfArraysIdx::new(2, 1));
    assert_eq!(handles[5], VecOfArraysIdx::new(3, 1));
    // Every handle still names its array after all the later pushes.
    for (item, handle) in items.iter().zip(handles.iter()) {
        assert_eq!(v.get_idx(*handle), Some(*item));
    }
}

#[test]
fn handles_out_of_bounds_name_nothing() {
    let v = mixed();
    for n in 0..=255u8 {
        let count = v.len_n(n as usize) as u32;
        assert_eq!(v.get_idx(VecOfArraysIdx::new(n, count)), None);
        assert_eq!(v.get_idx(VecOfArraysIdx::new(n, count + 1)), None);
        assert_eq!(v.get_idx(VecOfArraysIdx::new(n, u32::MAX)), None);
    }
    assert_eq!(v.get_idx(VecOfArraysIdx::new(6, 0)), None);
    assert_eq!(v.get_idx(VecOfArraysIdx::new(4, 0)), None);
}

#[test]
fn get_slices_reads_the_same_twice() {
    let v = mixed();
    let first = v.get_slices(2);
    let second = v.get_slices(2);
    assert_eq!(first, second);
    assert_eq!(first, vec![&[20, 21][..], &[22, 23][..], &[24, 25][..]]);
    // Reading did not change what is stored.
    assert_eq!(v, mixed());
    // Each slice has the length that was asked for.
    for n in 0..v.max_n() {
        let slices = v.get_slices(n);
        assert_eq!(slices.len(), v.len_n(n));
        assert!(slices.iter().all(|s| s.len() == n));
    }
}

#[test]
fn update_mut_reverse() {
    let mut v = mixed();
    v.update_mut::<2>(|records| records.reverse());
    assert_eq!(v.len_n(2), 3);
    assert_eq!(v.get::<2>(), &[[24, 25], [22, 23], [20, 21]]);
    assert_eq!(v.get_slices(2), vec![&[24, 25][..], &[22, 23][..], &[20, 21][..]]);
    assert_eq!(v.get_idx(VecOfArraysIdx::new(2, 0)), Some(&[24, 25][..]));
    // Nothing else moved.
    assert_eq!(v.len(), 7);
    assert_eq!(v.get::<3>(), &[[30, 31, 32], [33, 34, 35]]);
    assert_eq!(v.get::<1>(), &[[10]]);
    // Reversed once more, the store is as it was.
    v.update_mut::<2>(|records| records.reverse());
    assert_eq!(v, mixed());
}

#[test]
fn update_mut_sees_the_bucket_in_order() {
    let mut v = mixed();
    let seen = Cell::new(0);
    v.update_mut::<3>(|records| {
        assert_eq!(records.as_slice(), &[[30, 31, 32], [33, 34, 35]]);
        seen.set(seen.get() + 1);
    });
    assert_eq!(seen.get(), 1);
    assert_eq!(v, mixed());
}

#[test]
fn update_mut_edits_in_place() {
    let mut v = mixed();
    v.update_mut::<3>(|records| {
        for record in records.iter_mut() {
            record[1] += 100;
        }
    });
    assert_eq!(v.get::<3>(), &[[30, 131, 32], [33, 134, 35]]);
    assert_eq!(v.len(), 7);
    assert_eq!(v.len_n(3), 2);
}

#[test]
fn update_mut_without_a_bucket_does_nothing() {
    let mut v = mixed();
    let called = Cell::new(false);
    v.update_mut::<6>(|records| {
        called.set(true);
        records.push([0; 6]);
    });
    assert!(!called.get());
    assert_eq!(v, mixed());
    assert_eq!(v.max_n(), 6);

    let mut empty: VecOfArrays<u32> = VecOfArrays::new();
    empty.update_mut::<0>(|records| {
        called.set(true);
        records.push([]);
    });
    assert!(!called.get());
    assert_eq!(empty.len(), 0);
    assert_eq!(empty.max_n(), 0);
}

#[test]
fn update_mut_on_an_empty_bucket_calls_the_mutator() {
    let mut v = mixed();
    let called = Cell::new(false);
    v.update_mut::<4>(|records| {
        assert!(records.is_empty());
        called.set(true);
    });
    assert!(called.get());
    assert_eq!(v, mixed());
}

#[test]
fn update_mut_may_remove_and_add_arrays() {
    let mut v = mixed();
    v.update_mut::<2>(|records| records.truncate(1));
    assert_eq!(v.len_n(2), 1);
    assert_eq!(v.get::<2>(), &[[20, 21]]);
    assert_eq!(v.len(), 5);
    assert_eq!(v.get_idx(VecOfArraysIdx::new(2, 1)), None);

    v.update_mut::<3>(|records| {
        records.push([1, 2, 3]);
        records.insert(0, [7, 8, 9]);
    });
    assert_eq!(v.len_n(3), 4);
    assert_eq!(v.get::<3>(), &[[7, 8, 9], [30, 31, 32], [33, 34, 35], [1, 2, 3]]);
    assert_eq!(v.len(), 7);
    let sum: usize = (0..v.max_n()).map(|n| v.len_n(n)).sum();
    assert_eq!(v.len(), sum);

    v.update_mut::<5>(|records| records.clear());
    assert_eq!(v.len_n(5), 0);
    assert_eq!(v.max_n(), 6);
    assert_eq!(v.len(), 6);
}

#[test]
fn update_mut_on_arrays_of_length_zero() {
    let mut v: VecOfArrays<u32> = VecOfArrays::new();
    v.push([]);
    v.push([]);
    v.push([1]);
    let seen = Cell::new(0);
    v.update_mut::<0>(|records| {
        seen.set(records.len());
        records.push([]);
    });
    assert_eq!(seen.get(), 2);
    assert_eq!(v.len_n(0), 3);
    assert_eq!(v.len(), 4);
    v.update_mut::<0>(|records| records.clear());
    assert_eq!(v.len_n(0), 0);
    assert_eq!(v.len(), 1);
    assert_eq!(v.get::<1>(), &[[1]]);
}

#[test]
fn reinterpret_cuts_whole_records() {
    let records: Vec<[u8; 3]> = reinterpret(vec![1, 2, 3, 4, 5, 6, 7, 8, 9]);
    assert_eq!(records, vec![[1, 2, 3], [4, 5, 6], [7, 8, 9]]);
    let single: Vec<[u8; 4]> = reinterpret(vec![1, 2, 3, 4]);
    assert_eq!(single, vec![[1, 2, 3, 4]]);
    let ones: Vec<[u8; 1]> = reinterpret(vec![5, 6]);
    assert_eq!(ones, vec![[5], [6]]);
    let none: Vec<[u8; 2]> = reinterpret(Vec::new());
    assert!(none.is_empty());
}

#[test]
fn flatten_undoes_reinterpret() {
    let flat: Vec<String> = (0..6).map(|i| i.to_string()).collect();
    let records: Vec<[String; 2]> = reinterpret(flat.clone());
    assert_eq!(records.len(), 3);
    assert_eq!(records[1], ["2".to_string(), "3".to_string()]);
    assert_eq!(flatten(records), flat);
    assert_eq!(flatten(vec![[1, 2], [3, 4]]), vec![1, 2, 3, 4]);
    let nothing: Vec<[u8; 3]> = Vec::new();
    assert!(flatten(nothing).is_empty());
}
