use differential_dataflow::difference::DiffPair;
use differential_dataflow::operators::count::{count_batch, history_count, try_count_batch, try_history_count};
use differential_dataflow::CountTotal;

#[test]
fn count_total_reports_the_number_of_occurrences_of_each_key() {
    let updates: Vec<(i32, u64, isize)> = (1..10).map(|x| (x / 3, 0u64, 1isize)).collect();
    let counts = updates.count_total();
    assert_eq!(
        counts,
        vec![((0, 2), 0, 1), ((1, 3), 0, 1), ((2, 3), 0, 1), ((3, 1), 0, 1)]
    );
}

#[test]
fn count_total_retracts_the_former_count_when_it_changes() {
    let updates = vec![("a", 2u64, -2isize), ("a", 0, 1), ("a", 1, 1)];
    assert_eq!(
        updates.count_total(),
        vec![
            (("a", 1), 0, 1),
            (("a", 1), 1, -1),
            (("a", 2), 1, 1),
            (("a", 2), 2, -1),
        ]
    );
}

#[test]
fn count_total_starts_each_key_from_zero() {
    let updates = vec![(2u8, 5u32, 3isize), (1, 5, 1), (2, 7, 1), (1, 9, -1)];
    assert_eq!(
        updates.count_total(),
        vec![
            ((1, 1), 5, 1),
            ((1, 1), 9, -1),
            ((2, 3), 5, 1),
            ((2, 3), 7, -1),
            ((2, 4), 7, 1),
        ]
    );
}

#[test]
fn count_total_ignores_updates_that_cancel() {
    let updates = vec![(1u8, 0u32, 1isize), (1, 0, -1)];
    assert_eq!(updates.count_total(), Vec::new());
}

#[test]
fn count_total_with_pairs_of_diffs() {
    let updates = vec![(7u8, 0u32, DiffPair::new(1isize, 10i64)), (7, 1, DiffPair::new(1, -10))];
    assert_eq!(
        updates.count_total(),
        vec![
            ((7, DiffPair::new(1, 10)), 0, 1),
            ((7, DiffPair::new(1, 10)), 1, -1),
            ((7, DiffPair::new(2, 0)), 1, 1),
        ]
    );
}

#[test]
fn count_batch_counts_a_grouped_batch() {
    let batch = vec![("x", 0u64, 2isize), ("x", 1, -2), ("y", 1, 5)];
    assert_eq!(
        count_batch(&batch, &Vec::new()),
        vec![(("x", 2), 0, 1), (("x", 2), 1, -1), (("y", 5), 1, 1)]
    );
}

#[test]
fn count_batch_starts_from_the_counts_of_earlier_updates() {
    let trace = vec![("x", 0u64, 3isize), ("y", 0, 1), ("x", 1, -1)];
    let batch = vec![("x", 2u64, 1isize), ("y", 2, -1), ("z", 2, 4)];
    assert_eq!(
        count_batch(&batch, &trace),
        vec![
            (("x", 2), 2, -1),
            (("x", 3), 2, 1),
            (("y", 1), 2, -1),
            (("z", 4), 2, 1),
        ]
    );
}

#[test]
fn history_count_adds_the_diffs_of_one_record() {
    let trace = vec![("x", 0u64, 3isize), ("y", 0, 1), ("x", 1, -1)];
    assert_eq!(history_count(&trace, &"x"), 2);
    assert_eq!(history_count(&trace, &"y"), 1);
    assert_eq!(history_count(&trace, &"w"), 0);
}

/// The net weight, over the changes at times at most `t`, of each pair of record and count.
fn accumulated_until(changes: &[((&'static str, isize), u64, isize)], t: u64) -> Vec<((&'static str, isize), isize)> {
    let mut net: Vec<((&'static str, isize), isize)> = Vec::new();
    for &(pair, time, weight) in changes {
        if time <= t {
            match net.iter_mut().find(|(p, _)| *p == pair) {
                Some(entry) => entry.1 += weight,
                None => net.push((pair, weight)),
            }
        }
    }
    net.retain(|&(_, w)| w != 0);
    net.sort();
    net
}

#[test]
fn count_total_accumulates_to_the_counts_at_each_time() {
    let updates = vec![("a", 0u64, 1isize), ("b", 0, 2), ("a", 1, 1), ("b", 2, -2)];
    let changes = updates.count_total();
    assert_eq!(accumulated_until(&changes, 0), vec![(("a", 1), 1), (("b", 2), 1)]);
    assert_eq!(accumulated_until(&changes, 1), vec![(("a", 2), 1), (("b", 2), 1)]);
    assert_eq!(accumulated_until(&changes, 2), vec![(("a", 2), 1)]);
}

#[test]
fn count_total_of_a_collection_concatenated_with_itself_doubles_each_count() {
    let x = vec![("a", 0u64, 1isize), ("b", 0, 2), ("a", 1, 1)];
    let mut xx = x.clone();
    xx.extend(x.iter().cloned());
    assert_eq!(
        x.count_total(),
        vec![(("a", 1), 0, 1), (("a", 1), 1, -1), (("a", 2), 1, 1), (("b", 2), 0, 1)]
    );
    assert_eq!(
        xx.count_total(),
        vec![(("a", 2), 0, 1), (("a", 2), 1, -1), (("a", 4), 1, 1), (("b", 4), 0, 1)]
    );
}

#[test]
fn try_count_batch_refuses_a_count_that_overflows() {
    let batch = vec![("x", 0u64, isize::MAX), ("x", 1, 1)];
    assert_eq!(try_count_batch(&batch, &Vec::new()), None);
    let trace = vec![("x", 0u64, isize::MAX)];
    let batch = vec![("x", 1u64, 1isize)];
    assert_eq!(try_count_batch(&batch, &trace), None);
}

#[test]
fn try_history_count_refuses_a_count_that_overflows() {
    let trace = vec![("x", 0u64, isize::MIN), ("y", 0, 1), ("x", 1, -1)];
    assert_eq!(try_history_count(&trace, &"x"), None);
    assert_eq!(try_history_count(&trace, &"y"), Some(1));
}
