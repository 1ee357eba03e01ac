use schedulez::reader::ScheduledElement;
use schedulez::types::Day;
use schedulez::worker::{avoid, max_debt_index, small_pool_select, RotationState};

fn elem(name: &str, avoid_days: Vec<Day>) -> ScheduledElement {
    ScheduledElement { text: name.to_string(), prefer_days: Vec::new(), avoid_days }
}

#[test]
fn avoid_checks_the_avoided_days() {
    let e = elem("A", vec![Day::Monday, Day::Friday]);
    assert!(avoid(&e, 1));
    assert!(avoid(&e, 5));
    assert!(!avoid(&e, 0));
    assert!(!avoid(&e, 2));
    let free = elem("B", Vec::new());
    for d in 0..7u32 {
        assert!(!avoid(&free, d));
    }
}

#[test]
fn max_debt_picks_the_largest_positive_debt() {
    let elems = vec![elem("A", Vec::new()), elem("B", Vec::new()), elem("C", Vec::new())];
    let debts: Vec<i8> = vec![1, 3, 2];
    assert_eq!(max_debt_index(&elems, &debts, 2), Some(1));
}

#[test]
fn max_debt_breaks_ties_by_first_index() {
    let elems = vec![elem("A", Vec::new()), elem("B", Vec::new())];
    let debts: Vec<i8> = vec![3, 3];
    assert_eq!(max_debt_index(&elems, &debts, 2), Some(0));
}

#[test]
fn max_debt_skips_avoiding_elements() {
    let elems = vec![elem("A", vec![Day::Monday]), elem("B", Vec::new())];
    let debts: Vec<i8> = vec![5, 1];
    assert_eq!(max_debt_index(&elems, &debts, 1), Some(1));
    assert_eq!(max_debt_index(&elems, &debts, 2), Some(0));
}

#[test]
fn max_debt_ignores_zero_and_negative_debt() {
    let elems = vec![elem("A", Vec::new()), elem("B", Vec::new())];
    let zero: Vec<i8> = vec![0, 0];
    assert_eq!(max_debt_index(&elems, &zero, 1), None);
    let negative: Vec<i8> = vec![-2, -1];
    assert_eq!(max_debt_index(&elems, &negative, 1), None);
}

#[test]
fn window_scan_assigns_non_avoiders() {
    let elems = vec![elem("A", Vec::new()), elem("B", Vec::new()), elem("C", Vec::new())];
    let mut state = RotationState::new(3);
    let labels = state.assign_day(&elems, 2, 3);
    assert_eq!(labels, vec!["A".to_string(), "B".to_string()]);
    assert_eq!(state.debts, vec![0, 0, 0]);
    assert_eq!(state.window_offset, 1);
}

#[test]
fn avoider_in_window_gains_debt_and_circle_fills_in() {
    // A avoids Monday; the overflow scan brings in C and C goes ahead of
    // its rotation, so its debt falls below zero.
    let elems = vec![elem("A", vec![Day::Monday]), elem("B", Vec::new()), elem("C", Vec::new())];
    let mut state = RotationState::new(3);
    let labels = state.assign_day(&elems, 2, 1);
    assert_eq!(labels, vec!["B".to_string(), "C".to_string()]);
    assert_eq!(state.debts, vec![1, 0, -1]);
}

#[test]
fn repayment_prefers_the_most_indebted_eligible_element() {
    // B avoids Monday and is skipped; A holds old debt and does not
    // avoid Monday, so the repayment step hands A the open slot, twice
    // picking A as long as its debt stays the largest.
    let elems = vec![elem("B", vec![Day::Monday]), elem("A", Vec::new())];
    let mut state = RotationState { window_offset: 0, debts: vec![0, 5] };
    let labels = state.assign_day(&elems, 2, 1);
    assert_eq!(labels, vec!["A".to_string(), "A".to_string()]);
    assert_eq!(state.debts, vec![1, 4]);
}

#[test]
fn day_stays_underfilled_when_nobody_is_eligible() {
    // Everybody avoids Monday: the window skips both, no debtor is
    // eligible, the overflow circle finds nobody — the day stays empty.
    let elems = vec![elem("A", vec![Day::Monday]), elem("B", vec![Day::Monday])];
    let mut state = RotationState::new(2);
    let labels = state.assign_day(&elems, 2, 1);
    assert!(labels.is_empty());
    assert_eq!(state.debts, vec![1, 1]);
}

#[test]
fn debt_is_conserved_per_day() {
    // The ledger total moves by exactly the day's shortfall.
    let elems = vec![
        elem("A", vec![Day::Monday]),
        elem("B", vec![Day::Monday]),
        elem("C", Vec::new()),
    ];
    let mut state = RotationState::new(3);
    let before: i32 = state.debts.iter().map(|d| *d as i32).sum();
    let labels = state.assign_day(&elems, 3, 1);
    let after: i32 = state.debts.iter().map(|d| *d as i32).sum();
    assert_eq!(after - before, 3 - labels.len() as i32);
    // A full day moves the total by nothing.
    let mut state = RotationState::new(3);
    let before: i32 = state.debts.iter().map(|d| *d as i32).sum();
    let labels = state.assign_day(&elems, 3, 2);
    let after: i32 = state.debts.iter().map(|d| *d as i32).sum();
    assert_eq!(labels.len(), 3);
    assert_eq!(after, before);
}

#[test]
fn debt_is_conserved_across_a_run() {
    // Telescoping the per-day conservation over many days: the ledger
    // total always equals the sum of the shortfalls so far.
    let elems = vec![
        elem("A", vec![Day::Monday]),
        elem("B", vec![Day::Tuesday, Day::Friday]),
        elem("C", Vec::new()),
        elem("D", vec![Day::Monday]),
    ];
    let mut state = RotationState::new(4);
    let mut shortfall: i32 = 0;
    for round in 0..6 {
        for day in 1..6u32 {
            let labels = state.assign_day(&elems, 3, day);
            assert!(labels.len() <= 3);
            shortfall += 3 - labels.len() as i32;
            let total: i32 = state.debts.iter().map(|d| *d as i32).sum();
            assert_eq!(total, shortfall, "round {} day {}", round, day);
        }
    }
}

#[test]
fn window_offset_cycles_back_after_win_len_days() {
    let elems = vec![elem("A", Vec::new()), elem("B", Vec::new()), elem("C", Vec::new())];
    let mut state = RotationState::new(3);
    assert_eq!(state.window_offset, 0);
    state.assign_day(&elems, 3, 2);
    assert_eq!(state.window_offset, 1);
    state.assign_day(&elems, 3, 3);
    assert_eq!(state.window_offset, 2);
    state.assign_day(&elems, 3, 4);
    assert_eq!(state.window_offset, 0);
}

#[test]
fn small_pool_selects_the_avoiders() {
    // The small-pool rule emits exactly the elements whose avoidance
    // predicate matches the day — the opposite polarity of the rotation.
    let elems = vec![elem("A", vec![Day::Monday]), elem("B", Vec::new())];
    assert_eq!(small_pool_select(&elems, 1), vec!["A".to_string()]);
    assert!(small_pool_select(&elems, 2).is_empty());
    assert!(small_pool_select(&Vec::new(), 1).is_empty());
}
