use differential_dataflow::difference::{DiffPair, DiffVector};
use differential_dataflow::operators::consolidate::{consolidate_updates, try_consolidate_updates};
use differential_dataflow::{Consolidate, ConsolidateStream};

fn collection(range: std::ops::Range<u32>) -> Vec<(u32, u64, isize)> {
    range.map(|x| (x, 0u64, 1isize)).collect()
}

fn negate(updates: &[(u32, u64, isize)]) -> Vec<(u32, u64, isize)> {
    updates.iter().map(|&(d, t, r)| (d, t, -r)).collect()
}

#[test]
fn consolidate_cancels_a_collection_and_its_negation() {
    let x = collection(1..10);
    let mut both = negate(&x);
    both.extend(x.iter().cloned());
    assert_eq!(both.consolidate(), Vec::new());
}

#[test]
fn consolidate_stream_cancels_a_collection_and_its_negation() {
    let x = collection(1..10);
    let mut both = negate(&x);
    both.extend(x.iter().cloned());
    assert_eq!(both.consolidate_stream(), Vec::new());
}

#[test]
fn consolidate_merges_equal_keys_and_sorts() {
    let updates = vec![(2u32, 0u64, 1isize), (1, 0, 2), (2, 0, 3), (1, 1, -1)];
    assert_eq!(updates.consolidate(), vec![(1, 0, 2), (1, 1, -1), (2, 0, 4)]);
}

#[test]
fn consolidate_drops_keys_that_accumulate_to_zero() {
    let updates = vec![(5u32, 3u64, 2isize), (4, 3, 1), (5, 3, -2), (4, 2, 0)];
    assert_eq!(updates.consolidate(), vec![(4, 3, 1)]);
}

#[test]
fn consolidate_keeps_distinct_times_apart() {
    let updates = vec![(1u32, 2u64, 1isize), (1, 1, 1), (1, 2, 1)];
    assert_eq!(updates.consolidate_stream(), vec![(1, 1, 1), (1, 2, 2)]);
}

#[test]
fn consolidate_empty_is_empty() {
    let updates: Vec<(u32, u64, isize)> = Vec::new();
    assert_eq!(updates.consolidate(), Vec::new());
}

#[test]
fn consolidate_twice_changes_nothing() {
    let updates = vec![(3u32, 1u64, 4isize), (1, 1, 1), (3, 1, -1), (2, 0, 5), (1, 1, -1)];
    let once = updates.consolidate();
    assert_eq!(once, vec![(2, 0, 5), (3, 1, 3)]);
    assert_eq!(once.clone().consolidate(), once);
}

#[test]
fn consolidate_pairs_of_diffs() {
    let updates = vec![
        ("b", 0u64, DiffPair::new(1isize, 10i64)),
        ("a", 0, DiffPair::new(1, 5)),
        ("b", 0, DiffPair::new(-1, -10)),
        ("a", 0, DiffPair::new(1, 0)),
    ];
    assert_eq!(consolidate_updates(updates), vec![("a", 0, DiffPair::new(2, 5))]);
}

#[test]
fn consolidate_adds_vectors_of_different_lengths() {
    let updates = vec![
        (1u32, 0u64, DiffVector::new(vec![10isize, 20])),
        (1, 0, DiffVector::new(vec![1isize])),
    ];
    let out = consolidate_updates(updates);
    assert_eq!(out.len(), 1);
    assert_eq!(&out[0].2[..], &[11, 20]);
    let updates = vec![
        (1u32, 0u64, DiffVector::new(vec![1isize])),
        (1, 0, DiffVector::new(vec![10isize, 20])),
    ];
    let out = consolidate_updates(updates);
    assert_eq!(&out[0].2[..], &[11, 20]);
}

#[test]
fn try_consolidate_refuses_a_sum_that_overflows() {
    let updates = vec![(1u32, 0u64, isize::MAX), (2, 0, 1), (1, 0, 1)];
    assert_eq!(try_consolidate_updates(updates), None);
}

#[test]
fn try_consolidate_merges_what_fits() {
    let updates = vec![(1u32, 0u64, isize::MAX), (1, 0, -1), (2, 0, isize::MIN)];
    assert_eq!(
        try_consolidate_updates(updates),
        Some(vec![(1, 0, isize::MAX - 1), (2, 0, isize::MIN)])
    );
}

#[test]
fn consolidate_a_collection_concatenated_with_itself_doubles_each_diff() {
    let x = vec![(3u32, 1u64, 4isize), (1, 1, 1), (3, 1, -1), (2, 0, 5), (1, 1, -1)];
    let mut xx = x.clone();
    xx.extend(x.iter().cloned());
    assert_eq!(x.consolidate(), vec![(2, 0, 5), (3, 1, 3)]);
    assert_eq!(xx.consolidate(), vec![(2, 0, 10), (3, 1, 6)]);
}

#[test]
fn consolidate_keeps_a_pair_holding_a_vector_of_zeros() {
    let updates = vec![
        (1u32, 0u64, DiffPair::new(DiffVector::new(vec![1isize]), 2isize)),
        (1, 0, DiffPair::new(DiffVector::new(vec![-1isize]), -2isize)),
    ];
    let out = consolidate_updates(updates);
    assert_eq!(out.len(), 1);
    assert_eq!(&out[0].2.element1[..], &[0]);
    assert_eq!(out[0].2.element2, 0);
}
