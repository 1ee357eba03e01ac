use schedulez::calendar::MonthDate;
use schedulez::reader::ScheduledElement;
use schedulez::types::Day;
use schedulez::worker::{process, process_with_order};

fn elem(name: &str, avoid_days: Vec<Day>) -> ScheduledElement {
    ScheduledElement { text: name.to_string(), prefer_days: Vec::new(), avoid_days }
}

fn labels(cell: &Vec<String>) -> Vec<&str> {
    cell.iter().map(|s| s.as_str()).collect()
}

/// Three elements, window of two, a thirty-day month starting on a
/// Wednesday, with a fixed working order in place of the shuffle.
#[test]
fn rotation_over_a_month_starting_wednesday() {
    let order = vec![
        elem("A", Vec::new()),
        elem("B", vec![Day::Monday]),
        elem("C", Vec::new()),
    ];
    let m = process_with_order(&order, 3, 30, 2);

    assert_eq!(m.len(), 5);
    for week in &m {
        assert_eq!(week.len(), 7);
        assert!(week[0].is_empty());
        assert!(week[6].is_empty());
    }
    // Cells before day one and after month end are empty.
    assert!(m[0][1].is_empty() && m[0][2].is_empty());
    assert!(m[4][5].is_empty());

    // Week zero: Wednesday through Friday, nobody avoids these days.
    assert_eq!(labels(&m[0][3]), ["A", "B"]);
    assert_eq!(labels(&m[0][4]), ["B", "C"]);
    assert_eq!(labels(&m[0][5]), ["A", "B"]);

    // The first Monday: B is excluded from the window, gains debt, and
    // the circle brings A in behind C.
    assert_eq!(labels(&m[1][1]), ["C", "A"]);
    assert_eq!(labels(&m[1][2]), ["A", "B"]);
    assert_eq!(labels(&m[1][3]), ["B", "C"]);
    assert_eq!(labels(&m[1][4]), ["A", "B"]);
    assert_eq!(labels(&m[1][5]), ["B", "C"]);

    // B is never scheduled on a Monday; every other weekday holds two.
    for w in 0..5 {
        for c in 1..6 {
            let cell = &m[w][c];
            if c == 1 {
                assert!(!cell.iter().any(|s| s == "B"));
            }
            if !cell.is_empty() {
                assert_eq!(cell.len(), 2);
            }
        }
    }
}

/// A pool smaller than the window: the small-pool rule governs, placing
/// the lone element only on days its avoidance predicate matches.
#[test]
fn small_pool_places_only_matching_days() {
    let order = vec![elem("A", vec![Day::Monday])];
    let m = process_with_order(&order, 3, 30, 5);
    assert_eq!(m.len(), 5);
    for (w, week) in m.iter().enumerate() {
        assert_eq!(week.len(), 7);
        for (c, cell) in week.iter().enumerate() {
            let t = w * 7 + c;
            let in_month = (3..33).contains(&t);
            if in_month && c == 1 {
                assert_eq!(labels(cell), ["A"]);
            } else {
                assert!(cell.is_empty());
            }
        }
    }
}

/// An empty pool: a degenerate but defined run where no day gets any
/// assignment.
#[test]
fn empty_pool_yields_empty_cells() {
    let m = process_with_order(&Vec::new(), 0, 31, 4);
    assert_eq!(m.len(), 5);
    for week in &m {
        assert_eq!(week.len(), 7);
        for cell in week {
            assert!(cell.is_empty());
        }
    }
}

/// The degenerate empty pool through the real calendar: the grid keeps
/// its shape and no day gets any assignment.
#[test]
fn process_with_empty_pool() {
    let m = process(&Vec::new(), MonthDate { year: 2025, month: 6 }, 3);
    assert_eq!(m.len(), 5);
    for week in &m {
        assert_eq!(week.len(), 7);
        for cell in week {
            assert!(cell.is_empty());
        }
    }
}

/// The number of filled cells equals the number of assignable weekdays
/// of the month: the days of the month less its weekend days.
#[test]
fn filled_cells_match_the_month_days() {
    // One element avoiding nothing, window of one: every assignable cell
    // holds exactly one label.
    let order = vec![elem("X", Vec::new())];
    let m = process_with_order(&order, 3, 30, 1);
    let filled: usize =
        m.iter().map(|w| w.iter().filter(|cell| !cell.is_empty()).count()).sum();
    // Thirty days starting Wednesday: eight weekend days fall inside the
    // month, leaving twenty-two assignable weekdays.
    assert_eq!(filled, 22);
}

/// September 2027 begins on a Wednesday and has thirty days; the grid
/// computed from the real calendar matches the fixed-order runs above.
#[test]
fn process_september_2027() {
    let pool = vec![
        elem("A", Vec::new()),
        elem("B", vec![Day::Monday]),
        elem("C", Vec::new()),
    ];
    let m = process(&pool, MonthDate { year: 2027, month: 9 }, 2);
    assert_eq!(m.len(), 5);
    for week in &m {
        assert_eq!(week.len(), 7);
        assert!(week[0].is_empty());
        assert!(week[6].is_empty());
    }
    // The month starts on column three: the cells before it are padding.
    assert!(m[0][1].is_empty() && m[0][2].is_empty());
    assert_eq!(m[0][3].len(), 2);
    // Three non-avoiders cover every weekday but Monday in full; Mondays
    // still fill from the two elements that do not avoid them.
    for w in 0..5 {
        for c in 1..6 {
            let t = w * 7 + c;
            if (3..33).contains(&t) {
                assert_eq!(m[w][c].len(), 2);
                for s in &m[w][c] {
                    assert!(s == "A" || s == "B" || s == "C");
                    if c == 1 {
                        assert!(s != "B");
                    }
                }
            } else {
                assert!(m[w][c].is_empty());
            }
        }
    }
}

/// February 2024 is a leap February starting on a Thursday.
#[test]
fn process_leap_february_2024() {
    let pool = vec![elem("X", Vec::new())];
    let m = process(&pool, MonthDate { year: 2024, month: 2 }, 1);
    assert_eq!(m.len(), 5);
    // Columns before Thursday are padding in week zero.
    assert!(m[0][1].is_empty() && m[0][2].is_empty() && m[0][3].is_empty());
    assert_eq!(m[0][4].len(), 1);
    // Twenty-nine days starting Thursday: cells 4 through 32 are in the
    // month, twenty-one of them assignable weekdays.
    let filled: usize =
        m.iter().map(|w| w.iter().filter(|cell| !cell.is_empty()).count()).sum();
    assert_eq!(filled, 21);
}

/// August 2026 begins on a Saturday and has thirty-one days, spilling
/// into a sixth week row.
#[test]
fn process_august_2026_needs_six_rows() {
    let pool = vec![elem("X", Vec::new())];
    let m = process(&pool, MonthDate { year: 2026, month: 8 }, 1);
    assert_eq!(m.len(), 6);
    // The whole first week is padding or weekend.
    for cell in &m[0] {
        assert!(cell.is_empty());
    }
    assert_eq!(m[1][1].len(), 1);
    assert_eq!(m[5][1].len(), 1);
    assert!(m[5][3].is_empty());
}

/// Two runs over the same inputs share their shape even though the
/// shuffle may order the labels differently.
#[test]
fn shape_is_deterministic_across_runs() {
    let pool = vec![
        elem("A", vec![Day::Tuesday]),
        elem("B", vec![Day::Monday]),
        elem("C", Vec::new()),
        elem("D", Vec::new()),
    ];
    let month = MonthDate { year: 2025, month: 5 };
    let m1 = process(&pool, month, 2);
    let m2 = process(&pool, month, 2);
    assert_eq!(m1.len(), m2.len());
    for (w1, w2) in m1.iter().zip(m2.iter()) {
        assert_eq!(w1.len(), w2.len());
        for (c1, c2) in w1.iter().zip(w2.iter()) {
            assert_eq!(c1.is_empty(), c2.is_empty());
            assert_eq!(c1.len(), c2.len());
        }
    }
}

/// Every label a run emits names an element of the pool.
#[test]
fn labels_come_from_the_pool() {
    let pool = vec![
        elem("A", vec![Day::Friday]),
        elem("B", vec![Day::Monday]),
        elem("C", Vec::new()),
    ];
    let m = process(&pool, MonthDate { year: 2025, month: 11 }, 2);
    for week in &m {
        for cell in week {
            for s in cell {
                assert!(s == "A" || s == "B" || s == "C");
            }
        }
    }
}
