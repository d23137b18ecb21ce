use grt_changes::bisect::{bisect_step, epoch_ranges, same_state, Step};
use grt_changes::queries::{Delegator, Epoch};
use std::collections::BTreeSet;

/// Runs the search over `start..end` with snapshots from `state`, taking the
/// halves in the order given, and records the blocks looked at and found.
fn search(
    state: &dyn Fn(u64) -> u32,
    start: u64,
    end: u64,
    right_first: bool,
    visited: &mut Vec<u64>,
    found: &mut Vec<u64>,
) -> bool {
    visited.push(start);
    visited.push(end);
    match bisect_step(start, end, state(start) == state(end)) {
        Step::Unchanged => false,
        Step::ChangeAt(b) => {
            found.push(b);
            true
        }
        Step::Split(mid) => {
            let (l, r) = if right_first {
                let r = search(state, mid, end, right_first, visited, found);
                (search(state, start, mid, right_first, visited, found), r)
            } else {
                let l = search(state, start, mid, right_first, visited, found);
                (l, search(state, mid, end, right_first, visited, found))
            };
            assert!(l || r);
            true
        }
    }
}

#[test]
fn step_decisions() {
    assert_eq!(bisect_step(10, 20, true), Step::Unchanged);
    assert_eq!(bisect_step(10, 11, false), Step::ChangeAt(11));
    assert_eq!(bisect_step(10, 21, false), Step::Split(15));
    assert_eq!(bisect_step(u64::MAX - 2, u64::MAX, false), Step::Split(u64::MAX - 1));
}

#[test]
fn single_change_is_found_at_its_block() {
    let state = |b: u64| if b < 137 { 0 } else { 1 };
    let (mut visited, mut found) = (vec![], vec![]);
    search(&state, 100, 200, false, &mut visited, &mut found);
    assert_eq!(found, vec![137]);
}

#[test]
fn two_changes_are_both_found() {
    let state = |b: u64| if b < 120 { 0 } else if b < 171 { 1 } else { 2 };
    let (mut visited, mut found) = (vec![], vec![]);
    search(&state, 100, 200, false, &mut visited, &mut found);
    found.sort();
    assert_eq!(found, vec![120, 171]);
}

#[test]
fn visited_blocks_do_not_depend_on_order() {
    let state = |b: u64| if b < 120 { 0 } else if b < 171 { 1 } else { 2 };
    let (mut v1, mut f1) = (vec![], vec![]);
    let (mut v2, mut f2) = (vec![], vec![]);
    search(&state, 100, 200, false, &mut v1, &mut f1);
    search(&state, 100, 200, true, &mut v2, &mut f2);
    let s1: BTreeSet<u64> = v1.into_iter().collect();
    let s2: BTreeSet<u64> = v2.into_iter().collect();
    assert_eq!(s1, s2);
    assert!(s1.contains(&150));
}

#[test]
fn unchanged_range_reports_nothing() {
    let state = |_b: u64| 3;
    let (mut visited, mut found) = (vec![], vec![]);
    assert!(!search(&state, 1, 1000, false, &mut visited, &mut found));
    assert!(found.is_empty());
    assert_eq!(visited, vec![1, 1000]);
}

#[test]
fn ranges_between_epoch_starts() {
    let epochs = vec![
        Epoch { start_block: 10, id: 1 },
        Epoch { start_block: 20, id: 2 },
        Epoch { start_block: 35, id: 3 },
    ];
    assert_eq!(epoch_ranges(&epochs), vec![(10, 20), (20, 35)]);
    assert_eq!(epoch_ranges(&vec![]), vec![]);
    assert_eq!(epoch_ranges(&epochs[..1].to_vec()), vec![]);
}

#[test]
fn snapshots_compare_field_by_field() {
    let a = vec![Delegator { stakes: vec![], id: "d".to_string() }];
    let b = vec![Delegator { stakes: vec![], id: "d".to_string() }];
    let c = vec![Delegator { stakes: vec![], id: "e".to_string() }];
    assert!(same_state(&a, &b));
    assert!(!same_state(&a, &c));
    assert!(!same_state(&a, &vec![]));
}
