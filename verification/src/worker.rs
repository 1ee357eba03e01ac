//! The fair rotation scheduler.
//!
//! One run walks the assignable cells of the month grid.  Per cell it
//! scans a window of `win_len` consecutive positions of the (shuffled)
//! pool, starting at a rotating offset.  Elements that avoid the day are
//! skipped and owed a turn — their debt rises; the shortfall is then made
//! up first from the most indebted eligible elements, then from the rest
//! of the circle.

use crate::calendar::{
    is_assignable, lemma_rows_cover, shape_ok, spec_rows, MonthDate,
    day1_weekday_ordinal, month_day_count, month_start_weekday, spec_days_in_month,
};
use crate::reader::ScheduledElement;
use crate::types::day_ord;
use vstd::arithmetic::div_mod::{
    lemma_add_mod_noop, lemma_mod_add_multiples_vanish, lemma_small_mod,
};
use vstd::multiset::Multiset;
use vstd::prelude::*;

verus! {

/// Whether scheduling this element on the day with ordinal `day` must be
/// avoided: the ordinal appears in its avoided-days list.
pub open spec fn spec_avoids(elem: ScheduledElement, day: u32) -> bool {
    exists|k: int| 0 <= k < elem.avoid_days@.len() && day_ord(elem.avoid_days@[k]) == day
}

/// Whether scheduling this element should be avoided on the day with
/// ordinal `index`.
pub fn avoid(elem: &ScheduledElement, index: u32) -> (r: bool)
    ensures
        r == spec_avoids(*elem, index),
{
    let mut k: usize = 0;
    while k < elem.avoid_days.len()
        invariant
            k <= elem.avoid_days@.len(),
            forall|t: int| 0 <= t < k ==> day_ord(elem.avoid_days@[t]) != index,
        decreases elem.avoid_days@.len() - k,
    {
        if elem.avoid_days[k].to_u32() == index {
            return true;
        }
        k += 1;
    }
    false
}

/// Whether index `k` holds an element that is owed a turn and may take
/// one on the given day: positive debt and no avoidance.
pub open spec fn is_eligible_debtor(
    elems: Seq<ScheduledElement>,
    debts: Seq<i8>,
    day: u32,
    k: int,
) -> bool {
    debts[k] > 0 && !spec_avoids(elems[k], day)
}

/// Gets the index of the element with most debt that cannot be avoided
/// for the given day.
///
/// Negative debt need not be considered here.  Returns the first index
/// attaining the strictly largest positive debt among the elements that
/// do not avoid the day, or `None` when no element is eligible.
pub fn max_debt_index(elems: &Vec<ScheduledElement>, debts: &Vec<i8>, day_of_week: u32) -> (r:
    Option<usize>)
    requires
        debts@.len() == elems@.len(),
    ensures
        match r {
            Some(mi) => {
                &&& 0 <= mi < debts@.len()
                &&& is_eligible_debtor(elems@, debts@, day_of_week, mi as int)
                &&& forall|k: int|
                    0 <= k < debts@.len() && is_eligible_debtor(elems@, debts@, day_of_week, k)
                        ==> debts@[k] <= debts@[mi as int]
                &&& forall|k: int|
                    0 <= k < mi && is_eligible_debtor(elems@, debts@, day_of_week, k)
                        ==> debts@[k] < debts@[mi as int]
            },
            None => forall|k: int|
                0 <= k < debts@.len() ==> !is_eligible_debtor(elems@, debts@, day_of_week, k),
        },
{
    let mut max_debt: i8 = 0;
    let mut mdi: usize = 0;
    let mut found = false;

    let mut i: usize = 0;
    while i < debts.len()
        invariant
            i <= debts@.len(),
            debts@.len() == elems@.len(),
            !found ==> max_debt == 0,
            !found ==> forall|k: int|
                0 <= k < i ==> !is_eligible_debtor(elems@, debts@, day_of_week, k),
            found ==> {
                &&& 0 <= mdi < i
                &&& max_debt == debts@[mdi as int]
                &&& is_eligible_debtor(elems@, debts@, day_of_week, mdi as int)
                &&& forall|k: int|
                    0 <= k < i && is_eligible_debtor(elems@, debts@, day_of_week, k)
                        ==> debts@[k] <= max_debt
                &&& forall|k: int|
                    0 <= k < mdi && is_eligible_debtor(elems@, debts@, day_of_week, k)
                        ==> debts@[k] < max_debt
            },
        decreases debts@.len() - i,
    {
        let d = debts[i];
        if d != 0 {
            if d > max_debt && !avoid(&elems[i], day_of_week) {
                max_debt = d;
                mdi = i;
                found = true;
            }
        }
        i += 1;
    }

    if !found {
        return None;
    }
    Some(mdi)
}

/// The total of a debt ledger.
pub open spec fn sum_debts(s: Seq<i8>) -> int
    decreases s.len(),
{
    if s.len() == 0 {
        0
    } else {
        sum_debts(s.drop_last()) + s.last()
    }
}

/// Overwriting one ledger entry moves the total by the difference.
proof fn lemma_sum_debts_update(s: Seq<i8>, i: int, v: i8)
    requires
        0 <= i < s.len(),
    ensures
        sum_debts(s.update(i, v)) == sum_debts(s) - s[i] + v,
    decreases s.len(),
{
    if i == s.len() - 1 {
        assert(s.update(i, v).drop_last() =~= s.drop_last());
    } else {
        assert(s.update(i, v).drop_last() =~= s.drop_last().update(i, v));
        lemma_sum_debts_update(s.drop_last(), i, v);
    }
}

/// How many of the elements with index in `lo .. hi` do not avoid the
/// day.
pub open spec fn count_nonavoid_between(
    elems: Seq<ScheduledElement>,
    day: u32,
    lo: int,
    hi: int,
) -> int
    decreases hi - lo,
{
    if lo >= hi || lo < 0 || hi > elems.len() {
        0
    } else {
        count_nonavoid_between(elems, day, lo, hi - 1) + if spec_avoids(elems[hi - 1], day) {
            0int
        } else {
            1int
        }
    }
}

/// How many elements of the pool do not avoid the day.
pub open spec fn count_nonavoid(elems: Seq<ScheduledElement>, day: u32) -> int {
    count_nonavoid_between(elems, day, 0, elems.len() as int)
}

proof fn lemma_count_nonavoid_split(elems: Seq<ScheduledElement>, day: u32, lo: int, mid: int, hi: int)
    requires
        0 <= lo <= mid <= hi <= elems.len(),
    ensures
        count_nonavoid_between(elems, day, lo, hi) == count_nonavoid_between(elems, day, lo, mid)
            + count_nonavoid_between(elems, day, mid, hi),
    decreases hi - mid,
{
    if hi > mid {
        lemma_count_nonavoid_split(elems, day, lo, mid, hi - 1);
    }
}

/// The position the circular scan visits at its `i`-th step when it
/// starts at `off` in a pool of `pool` elements: `(i + off) % pool`,
/// written without the modulo.
pub open spec fn scan_pos(off: int, i: int, pool: int) -> int {
    if i + off < pool {
        i + off
    } else {
        i + off - pool
    }
}

/// Whether position `k` of the pool is visited during the first `n`
/// steps of the circular scan starting at `off`.
pub open spec fn in_scan_prefix(off: int, n: int, pool: int, k: int) -> bool {
    if k >= off {
        k - off < n
    } else {
        k + pool - off < n
    }
}

/// How many of the first `n` scanned positions hold elements that do not
/// avoid the day.
pub open spec fn count_nonavoid_scanned(
    elems: Seq<ScheduledElement>,
    day: u32,
    off: int,
    n: int,
) -> int {
    let pool = elems.len() as int;
    if n <= pool - off {
        count_nonavoid_between(elems, day, off, off + n)
    } else {
        count_nonavoid_between(elems, day, off, pool) + count_nonavoid_between(
            elems,
            day,
            0,
            n - (pool - off),
        )
    }
}

proof fn lemma_count_nonavoid_bounds(elems: Seq<ScheduledElement>, day: u32, lo: int, hi: int)
    ensures
        0 <= count_nonavoid_between(elems, day, lo, hi),
        hi - lo >= 0 ==> count_nonavoid_between(elems, day, lo, hi) <= hi - lo,
    decreases hi - lo,
{
    if lo < hi && 0 <= lo && hi <= elems.len() {
        lemma_count_nonavoid_bounds(elems, day, lo, hi - 1);
    }
}

/// The scan cannot count more positions than it has visited.
proof fn lemma_count_scanned_bounds(elems: Seq<ScheduledElement>, day: u32, off: int, n: int)
    requires
        0 <= off < elems.len(),
        0 <= n <= elems.len(),
    ensures
        0 <= count_nonavoid_scanned(elems, day, off, n) <= n,
{
    let pool = elems.len() as int;
    if n <= pool - off {
        lemma_count_nonavoid_bounds(elems, day, off, off + n);
    } else {
        lemma_count_nonavoid_bounds(elems, day, off, pool);
        lemma_count_nonavoid_bounds(elems, day, 0, n - (pool - off));
    }
}

/// One more scan step counts the newly visited position.
proof fn lemma_count_scanned_step(elems: Seq<ScheduledElement>, day: u32, off: int, n: int)
    requires
        0 <= off < elems.len(),
        0 <= n < elems.len(),
    ensures
        count_nonavoid_scanned(elems, day, off, n + 1) == count_nonavoid_scanned(
            elems,
            day,
            off,
            n,
        ) + if spec_avoids(elems[scan_pos(off, n, elems.len() as int)], day) {
            0int
        } else {
            1int
        },
{
    let pool = elems.len() as int;
    if n + 1 <= pool - off {
        assert(count_nonavoid_between(elems, day, off, off + n + 1) == count_nonavoid_between(
            elems,
            day,
            off,
            off + n,
        ) + if spec_avoids(elems[off + n], day) {
            0int
        } else {
            1int
        });
    } else if n == pool - off {
        assert(count_nonavoid_between(elems, day, 0, 1) == count_nonavoid_between(elems, day, 0, 0)
            + if spec_avoids(elems[0], day) {
            0int
        } else {
            1int
        });
    } else {
        let m = n - (pool - off);
        assert(count_nonavoid_between(elems, day, 0, m + 1) == count_nonavoid_between(
            elems,
            day,
            0,
            m,
        ) + if spec_avoids(elems[m], day) {
            0int
        } else {
            1int
        });
    }
}

/// A full circle of the scan visits every position exactly once.
proof fn lemma_count_scanned_full(elems: Seq<ScheduledElement>, day: u32, off: int)
    requires
        0 <= off < elems.len(),
    ensures
        count_nonavoid_scanned(elems, day, off, elems.len() as int) == count_nonavoid(elems, day),
{
    let pool = elems.len() as int;
    lemma_count_nonavoid_split(elems, day, 0, off, pool);
}

/// Labels already guaranteed to sit in the list survive appending more.
proof fn lemma_labels_grow(
    prev: Seq<String>,
    cur: Seq<String>,
    elems: Seq<ScheduledElement>,
    day: u32,
    off: int,
    n: int,
)
    requires
        prev.len() <= cur.len(),
        forall|t: int| 0 <= t < prev.len() ==> cur[t] == prev[t],
        forall|j: int|
            0 <= j < n && !spec_avoids(elems[scan_pos(off, j, elems.len() as int)], day)
                ==> exists|t: int|
                0 <= t < prev.len() && (#[trigger] prev[t])@ == elems[scan_pos(
                    off,
                    j,
                    elems.len() as int,
                )].text@,
    ensures
        forall|j: int|
            0 <= j < n && !spec_avoids(elems[scan_pos(off, j, elems.len() as int)], day)
                ==> exists|t: int|
                0 <= t < cur.len() && (#[trigger] cur[t])@ == elems[scan_pos(
                    off,
                    j,
                    elems.len() as int,
                )].text@,
{
    assert forall|j: int|
        0 <= j < n && !spec_avoids(elems[scan_pos(off, j, elems.len() as int)], day) implies exists|
    t: int,
    |
        0 <= t < cur.len() && (#[trigger] cur[t])@ == elems[scan_pos(
            off,
            j,
            elems.len() as int,
        )].text@ by {
        let p = scan_pos(off, j, elems.len() as int);
        let t0 = choose|t: int| 0 <= t < prev.len() && (#[trigger] prev[t])@ == elems[p].text@;
        assert(cur[t0] == prev[t0]);
        assert(0 <= t0 < cur.len() && cur[t0]@ == elems[p].text@);
    }
}

/// The rotating state one scheduling run threads through its days: the
/// start offset of the next window scan and the per-element debt ledger.
pub struct RotationState {
    pub window_offset: usize,
    pub debts: Vec<i8>,
}

impl RotationState {
    /// A fresh state: offset at the head of the pool, no debt anywhere.
    pub fn new(pool: usize) -> (s: Self)
        ensures
            s.window_offset == 0,
            s.debts@.len() == pool,
            forall|k: int| 0 <= k < pool ==> s.debts@[k] == 0,
    {
        let mut debts: Vec<i8> = Vec::new();
        let mut i: usize = 0;
        while i < pool
            invariant
                i <= pool,
                debts@.len() == i,
                forall|k: int| 0 <= k < i ==> debts@[k] == 0,
            decreases pool - i,
        {
            debts.push(0);
            i += 1;
        }
        RotationState { window_offset: 0, debts }
    }

    /// Selects the labels for one assignable day and advances the state.
    ///
    /// The window scan walks `win_len` consecutive circular positions
    /// from the current offset: an element avoiding the day is skipped
    /// and its debt rises by one, any other is assigned.  The shortfall
    /// is then repaid from the most indebted eligible elements, debt
    /// falling by one per turn, and finally from the rest of the circle.
    /// Debt is conserved: the ledger total moves by exactly the day's
    /// shortfall `win_len - labels.len()`.
    #[verifier::loop_isolation(false)]
    pub fn assign_day(&mut self, elems: &Vec<ScheduledElement>, win_len: usize, day: u32) -> (labels:
        Vec<String>)
        requires
            win_len >= 1,
            elems@.len() >= win_len,
            old(self).window_offset < win_len,
            old(self).debts@.len() == elems@.len(),
            forall|k: int| 0 <= k < elems@.len() ==> -127 <= (#[trigger] old(self).debts@[k]) <= 126,
        ensures
            final(self).debts@.len() == elems@.len(),
            final(self).window_offset == (old(self).window_offset + 1) % (win_len as int),
            labels@.len() <= win_len,
            count_nonavoid(elems@, day) >= win_len ==> labels@.len() == win_len,
            forall|t: int|
                0 <= t < labels@.len() ==> exists|k: int|
                    0 <= k < elems@.len() && (#[trigger] labels@[t])@ == elems@[k].text@
                        && !spec_avoids(elems@[k], day),
            sum_debts(final(self).debts@) == sum_debts(old(self).debts@) + win_len - labels@.len(),
            forall|k: int|
                0 <= k < elems@.len() ==> vstd::math::min(old(self).debts@[k] as int, 0) - 1 <= (
                #[trigger] final(self).debts@[k]) <= old(self).debts@[k] + 1,
            forall|j: int|
                0 <= j < win_len && !spec_avoids(
                    elems@[scan_pos(old(self).window_offset as int, j, elems@.len() as int)],
                    day,
                ) ==> exists|t: int|
                    0 <= t < labels@.len() && (#[trigger] labels@[t])@ == elems@[scan_pos(
                        old(self).window_offset as int,
                        j,
                        elems@.len() as int,
                    )].text@,
    {
        let pool = elems.len();
        let off = self.window_offset;
        let ghost pool_i = pool as int;
        let ghost off_i = off as int;
        let ghost debts0 = self.debts@;
        let mut labels: Vec<String> = Vec::new();

        // Primary scan: walk `win_len` circular positions from the offset.
        let mut i: usize = 0;
        while i < win_len
            invariant
                i <= win_len,
                self.debts@.len() == pool_i,
                self.window_offset == off,
                forall|k: int|
                    0 <= k < pool_i ==> (#[trigger] self.debts@[k]) == debts0[k] + if in_scan_prefix(
                        off_i,
                        i as int,
                        pool_i,
                        k,
                    ) && spec_avoids(elems@[k], day) {
                        1int
                    } else {
                        0int
                    },
                sum_debts(self.debts@) == sum_debts(debts0) + i - labels@.len(),
                labels@.len() == count_nonavoid_scanned(elems@, day, off_i, i as int),
                forall|t: int|
                    0 <= t < labels@.len() ==> exists|k: int|
                        0 <= k < pool_i && (#[trigger] labels@[t])@ == elems@[k].text@
                            && !spec_avoids(elems@[k], day),
                forall|j: int|
                    0 <= j < i && !spec_avoids(elems@[scan_pos(off_i, j, pool_i)], day)
                        ==> exists|t: int|
                        0 <= t < labels@.len() && (#[trigger] labels@[t])@ == elems@[scan_pos(
                            off_i,
                            j,
                            pool_i,
                        )].text@,
            decreases win_len - i,
        {
            let p: usize = if off >= pool - i {
                off - (pool - i)
            } else {
                i + off
            };
            assert(p == scan_pos(off_i, i as int, pool_i));
            assert(!in_scan_prefix(off_i, i as int, pool_i, p as int));
            if avoid(&elems[p], day) {
                let d = self.debts[p];
                let ghost before = self.debts@;
                self.debts[p] = d + 1;
                proof {
                    assert(self.debts@ =~= before.update(p as int, (d + 1) as i8));
                    lemma_sum_debts_update(before, p as int, (d + 1) as i8);
                }
            } else {
                let ghost labels_old = labels@;
                labels.push(elems[p].text.clone());
                proof {
                    lemma_labels_grow(labels_old, labels@, elems@, day, off_i, i as int);
                    assert(labels@[labels_old.len() as int]@ == elems@[p as int].text@);
                }
            }
            proof {
                lemma_count_scanned_step(elems@, day, off_i, i as int);
            }
            i += 1;
        }

        proof {
            lemma_count_scanned_bounds(elems@, day, off_i, win_len as int);
        }
        let ghost debts1 = self.debts@;
        let ghost len1 = labels@.len() as int;

        // Debt repayment: hand the shortfall to the most indebted
        // eligible elements, one turn each.
        while labels.len() < win_len
            invariant
                labels@.len() <= win_len,
                labels@.len() >= len1,
                self.debts@.len() == pool_i,
                self.window_offset == off,
                sum_debts(self.debts@) == sum_debts(debts1) - (labels@.len() - len1),
                forall|k: int|
                    0 <= k < pool_i ==> if debts1[k] >= 0 {
                        0 <= (#[trigger] self.debts@[k]) <= debts1[k]
                    } else {
                        self.debts@[k] == debts1[k]
                    },
                forall|t: int|
                    0 <= t < labels@.len() ==> exists|k: int|
                        0 <= k < pool_i && (#[trigger] labels@[t])@ == elems@[k].text@
                            && !spec_avoids(elems@[k], day),
                forall|j: int|
                    0 <= j < win_len && !spec_avoids(elems@[scan_pos(off_i, j, pool_i)], day)
                        ==> exists|t: int|
                        0 <= t < labels@.len() && (#[trigger] labels@[t])@ == elems@[scan_pos(
                            off_i,
                            j,
                            pool_i,
                        )].text@,
            decreases win_len - labels@.len(),
        {
            match max_debt_index(elems, &self.debts, day) {
                Some(mi) => {
                    let ghost labels_old = labels@;
                    labels.push(elems[mi].text.clone());
                    let d = self.debts[mi];
                    let ghost before = self.debts@;
                    self.debts[mi] = d - 1;
                    proof {
                        lemma_labels_grow(labels_old, labels@, elems@, day, off_i, win_len as int);
                        assert(labels@[labels_old.len() as int]@ == elems@[mi as int].text@);
                        assert(self.debts@ =~= before.update(mi as int, (d - 1) as i8));
                        lemma_sum_debts_update(before, mi as int, (d - 1) as i8);
                    }
                },
                None => {
                    break;
                },
            }
        }

        let ghost debts2 = self.debts@;
        let ghost len2 = labels@.len() as int;

        // Overflow scan: walk the rest of the circle, assigning whoever
        // does not avoid the day, until the quota is filled or the walk
        // returns to the offset.
        let mut idx: usize = win_len;
        while idx < pool && labels.len() < win_len
            invariant
                win_len <= idx <= pool,
                labels@.len() <= win_len,
                self.debts@.len() == pool_i,
                self.window_offset == off,
                labels@.len() == win_len || labels@.len() >= count_nonavoid_scanned(
                    elems@,
                    day,
                    off_i,
                    idx as int,
                ),
                sum_debts(self.debts@) == sum_debts(debts2) - (labels@.len() - len2),
                forall|k: int|
                    0 <= k < pool_i ==> if in_scan_prefix(off_i, idx as int, pool_i, k)
                        && !in_scan_prefix(off_i, win_len as int, pool_i, k) && !spec_avoids(
                        elems@[k],
                        day,
                    ) {
                        debts2[k] - 1 <= (#[trigger] self.debts@[k]) <= debts2[k]
                    } else {
                        self.debts@[k] == debts2[k]
                    },
                forall|t: int|
                    0 <= t < labels@.len() ==> exists|k: int|
                        0 <= k < pool_i && (#[trigger] labels@[t])@ == elems@[k].text@
                            && !spec_avoids(elems@[k], day),
                forall|j: int|
                    0 <= j < win_len && !spec_avoids(elems@[scan_pos(off_i, j, pool_i)], day)
                        ==> exists|t: int|
                        0 <= t < labels@.len() && (#[trigger] labels@[t])@ == elems@[scan_pos(
                            off_i,
                            j,
                            pool_i,
                        )].text@,
            decreases pool - idx,
        {
            let p: usize = if off >= pool - idx {
                off - (pool - idx)
            } else {
                idx + off
            };
            assert(p == scan_pos(off_i, idx as int, pool_i));
            assert(!in_scan_prefix(off_i, idx as int, pool_i, p as int));
            if !avoid(&elems[p], day) {
                let ghost labels_old = labels@;
                labels.push(elems[p].text.clone());
                let d = self.debts[p];
                let ghost before = self.debts@;
                self.debts[p] = d - 1;
                proof {
                    lemma_labels_grow(labels_old, labels@, elems@, day, off_i, win_len as int);
                    assert(labels@[labels_old.len() as int]@ == elems@[p as int].text@);
                    assert(self.debts@ =~= before.update(p as int, (d - 1) as i8));
                    lemma_sum_debts_update(before, p as int, (d - 1) as i8);
                }
            }
            proof {
                lemma_count_scanned_step(elems@, day, off_i, idx as int);
            }
            idx += 1;
        }

        proof {
            if labels@.len() < win_len {
                lemma_count_scanned_full(elems@, day, off_i);
            }
        }

        self.window_offset = (off + 1) % win_len;
        labels
    }
}

/// The labels the small-pool rule emits for one day: the text of every
/// element whose avoidance predicate matches the day, in pool order.
pub open spec fn avoider_texts(elems: Seq<ScheduledElement>, day: u32) -> Seq<Seq<char>>
    decreases elems.len(),
{
    if elems.len() == 0 {
        Seq::empty()
    } else {
        avoider_texts(elems.drop_last(), day) + if spec_avoids(elems.last(), day) {
            seq![elems.last().text@]
        } else {
            Seq::<Seq<char>>::empty()
        }
    }
}

/// Selects the labels for one day when the pool is smaller than the
/// window: every element matching the avoidance predicate for the day,
/// in pool order.  Note the polarity: this branch selects exactly the
/// elements that avoid the day, the opposite of the rotation branch,
/// which excludes them.  The discrepancy is deliberate and pinned by
/// tests.
#[verifier::loop_isolation(false)]
pub fn small_pool_select(elems: &Vec<ScheduledElement>, day: u32) -> (labels: Vec<String>)
    ensures
        labels@.map_values(|s: String| s@) == avoider_texts(elems@, day),
{
    let mut labels: Vec<String> = Vec::new();
    let mut i: usize = 0;
    while i < elems.len()
        invariant
            i <= elems@.len(),
            labels@.map_values(|s: String| s@) == avoider_texts(elems@.take(i as int), day),
        decreases elems@.len() - i,
    {
        let ghost labels_old = labels@;
        if avoid(&elems[i], day) {
            labels.push(elems[i].text.clone());
        }
        proof {
            assert(elems@.take(i + 1).drop_last() =~= elems@.take(i as int));
            assert(elems@.take(i + 1).last() == elems@[i as int]);
            if spec_avoids(elems@[i as int], day) {
                assert(labels@.map_values(|s: String| s@) =~= labels_old.map_values(
                    |s: String| s@,
                ) + seq![elems@[i as int].text@]);
            }
        }
        i += 1;
    }
    proof {
        assert(elems@.take(elems@.len() as int) =~= elems@);
    }
    labels
}

/// The pool index of the element whose text stands at position `t` of
/// the small-pool selection.
pub open spec fn avoider_source(s: Seq<ScheduledElement>, day: u32, t: int) -> int
    decreases s.len(),
{
    if s.len() == 0 {
        0
    } else if t < avoider_texts(s.drop_last(), day).len() {
        avoider_source(s.drop_last(), day, t)
    } else {
        s.len() - 1
    }
}

/// Every label the small-pool rule emits is the text of an element that
/// avoids the day: position `t` of the selection comes from the pool
/// element at `avoider_source`.
pub proof fn lemma_avoider_texts_from(s: Seq<ScheduledElement>, day: u32, t: int)
    requires
        0 <= t < avoider_texts(s, day).len(),
    ensures
        0 <= avoider_source(s, day, t) < s.len(),
        avoider_texts(s, day)[t] == s[avoider_source(s, day, t)].text@,
        spec_avoids(s[avoider_source(s, day, t)], day),
    decreases s.len(),
{
    let prefix = s.drop_last();
    if t < avoider_texts(prefix, day).len() {
        lemma_avoider_texts_from(prefix, day, t);
    }
}

/// What one filled matrix cell promises, given the working order the run
/// used.  Padding and weekend cells are empty.  A pool smaller than the
/// window falls to the small-pool rule.  Otherwise the rotation fills
/// the cell: never more labels than the window asks for, exactly that
/// many whenever enough non-avoiding elements exist, and every label the
/// text of a pool element that does not avoid the day.
pub open spec fn cell_ok(
    cell: Seq<String>,
    order: Seq<ScheduledElement>,
    start_col: int,
    num_days: int,
    w: int,
    c: int,
    win_len: int,
) -> bool {
    if !is_assignable(start_col, num_days, w, c) {
        cell.len() == 0
    } else if order.len() < win_len {
        cell.map_values(|s: String| s@) == avoider_texts(order, c as u32)
    } else {
        &&& cell.len() <= win_len
        &&& count_nonavoid(order, c as u32) >= win_len ==> cell.len() == win_len
        &&& forall|t: int|
            0 <= t < cell.len() ==> exists|k: int|
                0 <= k < order.len() && (#[trigger] cell[t])@ == order[k].text@ && !spec_avoids(
                    order[k],
                    c as u32,
                )
    }
}

/// What a whole assignment matrix promises, given the working order.
pub open spec fn matrix_ok(
    m: Vec<Vec<Vec<String>>>,
    order: Seq<ScheduledElement>,
    start_col: int,
    num_days: int,
    win_len: int,
) -> bool {
    &&& m@.len() == spec_rows(start_col, num_days)
    &&& forall|w: int| 0 <= w < m@.len() ==> (#[trigger] m@[w])@.len() == 7
    &&& forall|w: int, c: int|
        0 <= w < m@.len() && 0 <= c < 7 ==> cell_ok(
            (#[trigger] m@[w]@[c])@,
            order,
            start_col,
            num_days,
            w,
            c,
            win_len,
        )
}

/// Runs the scheduler over one month with a fixed working order.
///
/// The order stands for the shuffled pool; a caller that needs
/// reproducible output injects a fixed order here.  `start_col` is the
/// weekday ordinal of day one and `num_days` the day count of the month.
/// The matrix shape and the per-cell promises are those of `matrix_ok`.
#[verifier::loop_isolation(false)]
pub fn process_with_order(
    order: &Vec<ScheduledElement>,
    start_col: u32,
    num_days: u32,
    win_len: usize,
) -> (m: Vec<Vec<Vec<String>>>)
    requires
        start_col < 7,
        1 <= num_days <= 31,
        win_len >= 1,
    ensures
        matrix_ok(m, order@, start_col as int, num_days as int, win_len as int),
        shape_ok(m, start_col as int, num_days as int),
{
    let pool = order.len();
    let total_cells = (start_col as usize) + (num_days as usize);
    let weeks = (total_cells + 6) / 7;
    let rows = if weeks < 5 {
        5
    } else {
        weeks
    };
    proof {
        lemma_rows_cover(start_col as int, num_days as int);
        assert(rows as int == spec_rows(start_col as int, num_days as int));
    }

    let mut state = RotationState::new(pool);
    let mut m: Vec<Vec<Vec<String>>> = Vec::new();
    let mut w: usize = 0;
    while w < rows
        invariant
            w <= rows,
            m@.len() == w,
            state.debts@.len() == pool,
            state.window_offset < win_len,
            forall|k: int|
                0 <= k < pool ==> -(7 * w as int) <= (#[trigger] state.debts@[k]) <= 7 * w as int,
            forall|wi: int| 0 <= wi < w ==> (#[trigger] m@[wi])@.len() == 7,
            forall|wi: int, c: int|
                0 <= wi < w && 0 <= c < 7 ==> cell_ok(
                    (#[trigger] m@[wi]@[c])@,
                    order@,
                    start_col as int,
                    num_days as int,
                    wi,
                    c,
                    win_len as int,
                ),
        decreases rows - w,
    {
        let mut week: Vec<Vec<String>> = Vec::new();
        let mut c: usize = 0;
        while c < 7
            invariant
                c <= 7,
                week@.len() == c,
                state.debts@.len() == pool,
                state.window_offset < win_len,
                forall|k: int|
                    0 <= k < pool ==> -(7 * w as int + c as int) <= (#[trigger] state.debts@[k])
                        <= 7 * w as int + c as int,
                forall|ci: int|
                    0 <= ci < c ==> cell_ok(
                        (#[trigger] week@[ci])@,
                        order@,
                        start_col as int,
                        num_days as int,
                        w as int,
                        ci,
                        win_len as int,
                    ),
            decreases 7 - c,
        {
            let t = w * 7 + c;
            if t < start_col as usize || t >= total_cells {
                week.push(Vec::new());
            } else if c == 0 || c == 6 {
                week.push(Vec::new());
            } else if pool < win_len {
                week.push(small_pool_select(order, c as u32));
            } else {
                week.push(state.assign_day(order, win_len, c as u32));
            }
            c += 1;
        }
        m.push(week);
        w += 1;
    }
    proof {
        assert forall|wi: int, ci: int|
            0 <= wi < m@.len() && 0 <= ci < 7 && !is_assignable(
                start_col as int,
                num_days as int,
                wi,
                ci,
            ) implies (#[trigger] m@[wi]@[ci])@.len() == 0 by {
            assert(cell_ok(
                m@[wi]@[ci]@,
                order@,
                start_col as int,
                num_days as int,
                wi,
                ci,
                win_len as int,
            ));
        }
    }
    m
}

proof fn lemma_count_nonavoid_agree(
    a: Seq<ScheduledElement>,
    b: Seq<ScheduledElement>,
    day: u32,
    n: int,
)
    requires
        0 <= n <= a.len(),
        n <= b.len(),
        forall|i: int| 0 <= i < n ==> a[i] == b[i],
    ensures
        count_nonavoid_between(a, day, 0, n) == count_nonavoid_between(b, day, 0, n),
    decreases n,
{
    if n > 0 {
        lemma_count_nonavoid_agree(a, b, day, n - 1);
    }
}

proof fn lemma_count_nonavoid_multiset(s: Seq<ScheduledElement>, day: u32)
    ensures
        count_nonavoid(s, day) == s.to_multiset().filter(
            |e: ScheduledElement| !spec_avoids(e, day),
        ).len(),
    decreases s.len(),
{
    broadcast use vstd::seq_lib::group_to_multiset_ensures;
    broadcast use vstd::multiset::group_multiset_axioms;
    broadcast use vstd::multiset::group_multiset_properties;

    let p = |e: ScheduledElement| !spec_avoids(e, day);
    if s.len() == 0 {
        vstd::multiset::lemma_multiset_empty_len(s.to_multiset());
        assert(s.to_multiset().filter(p) =~= Multiset::<ScheduledElement>::empty());
        vstd::multiset::lemma_multiset_empty_len(s.to_multiset().filter(p));
    } else {
        let prefix = s.drop_last();
        let e = s.last();
        lemma_count_nonavoid_multiset(prefix, day);
        lemma_count_nonavoid_agree(s, prefix, day, s.len() - 1);
        assert(s =~= prefix.push(e));
        assert(prefix.push(e).to_multiset() =~= prefix.to_multiset().insert(e));
        if !spec_avoids(e, day) {
            assert(prefix.to_multiset().insert(e).filter(p) =~= prefix.to_multiset().filter(
                p,
            ).insert(e));
            vstd::multiset::lemma_insert_len(prefix.to_multiset().filter(p), e);
        } else {
            assert(prefix.to_multiset().insert(e).filter(p) =~= prefix.to_multiset().filter(p));
        }
    }
}

/// Pools holding the same elements, in whatever order, agree on how many
/// of them do not avoid a day.
pub proof fn lemma_count_nonavoid_permutation(
    a: Seq<ScheduledElement>,
    b: Seq<ScheduledElement>,
    day: u32,
)
    requires
        a.to_multiset() == b.to_multiset(),
    ensures
        count_nonavoid(a, day) == count_nonavoid(b, day),
{
    lemma_count_nonavoid_multiset(a, day);
    lemma_count_nonavoid_multiset(b, day);
}

/// An element of one pool stands somewhere in any pool holding the same
/// elements; the returned index points at it.
proof fn lemma_multiset_member_transfer(
    a: Seq<ScheduledElement>,
    b: Seq<ScheduledElement>,
    i: int,
) -> (j: int)
    requires
        a.to_multiset() == b.to_multiset(),
        0 <= i < a.len(),
    ensures
        0 <= j < b.len(),
        b[j] == a[i],
{
    broadcast use vstd::seq_lib::group_to_multiset_ensures;

    let e = a[i];
    assert(a.contains(e));
    assert(a.to_multiset().count(e) > 0);
    assert(b.to_multiset().count(e) > 0);
    assert(b.contains(e));
    choose|j: int| 0 <= j < b.len() && b[j] == e
}

/// Whether some element of the pool carries this label and relates to
/// the day as `avoiding` says: it avoids the day when `avoiding` is
/// true, and does not when it is false.
pub open spec fn label_from_pool(
    elements: Seq<ScheduledElement>,
    label: Seq<char>,
    day: u32,
    avoiding: bool,
) -> bool {
    exists|k: int|
        0 <= k < elements.len() && (#[trigger] elements[k]).text@ == label && spec_avoids(
            elements[k],
            day,
        ) == avoiding
}

/// Every label of every assignable cell of a rotation run names an
/// element of the pool that does not avoid that cell's day, wherever
/// the working order put it.
pub proof fn lemma_matrix_provenance_rotation(
    m: Vec<Vec<Vec<String>>>,
    order: Seq<ScheduledElement>,
    elements: Seq<ScheduledElement>,
    start_col: int,
    num_days: int,
    win_len: int,
)
    requires
        order.to_multiset() == elements.to_multiset(),
        order.len() >= win_len,
        matrix_ok(m, order, start_col, num_days, win_len),
    ensures
        forall|w: int, c: int, t: int|
            #![trigger m@[w]@[c]@[t]]
            0 <= w < m@.len() && 0 <= c < 7 && is_assignable(start_col, num_days, w, c) && 0 <= t
                < m@[w]@[c]@.len() ==> label_from_pool(elements, m@[w]@[c]@[t]@, c as u32, false),
{
    assert forall|w: int, c: int, t: int|
        #![trigger m@[w]@[c]@[t]]
        0 <= w < m@.len() && 0 <= c < 7 && is_assignable(start_col, num_days, w, c) && 0 <= t
            < m@[w]@[c]@.len() implies label_from_pool(
        elements,
        m@[w]@[c]@[t]@,
        c as u32,
        false,
    ) by {
        assert(cell_ok(m@[w]@[c]@, order, start_col, num_days, w, c, win_len));
        let cell = m@[w]@[c]@;
        let k0 = choose|k: int|
            0 <= k < order.len() && (#[trigger] cell[t])@ == order[k].text@ && !spec_avoids(
                order[k],
                c as u32,
            );
        let k1 = lemma_multiset_member_transfer(order, elements, k0);
        assert(elements[k1].text@ == cell[t]@ && !spec_avoids(elements[k1], c as u32));
    }
}

/// Every label of every assignable cell of a small-pool run names an
/// element of the pool that avoids that cell's day, wherever the
/// working order put it.
pub proof fn lemma_matrix_provenance_small(
    m: Vec<Vec<Vec<String>>>,
    order: Seq<ScheduledElement>,
    elements: Seq<ScheduledElement>,
    start_col: int,
    num_days: int,
    win_len: int,
)
    requires
        order.to_multiset() == elements.to_multiset(),
        order.len() < win_len,
        matrix_ok(m, order, start_col, num_days, win_len),
    ensures
        forall|w: int, c: int, t: int|
            #![trigger m@[w]@[c]@[t]]
            0 <= w < m@.len() && 0 <= c < 7 && is_assignable(start_col, num_days, w, c) && 0 <= t
                < m@[w]@[c]@.len() ==> label_from_pool(elements, m@[w]@[c]@[t]@, c as u32, true),
{
    assert forall|w: int, c: int, t: int|
        #![trigger m@[w]@[c]@[t]]
        0 <= w < m@.len() && 0 <= c < 7 && is_assignable(start_col, num_days, w, c) && 0 <= t
            < m@[w]@[c]@.len() implies label_from_pool(
        elements,
        m@[w]@[c]@[t]@,
        c as u32,
        true,
    ) by {
        assert(cell_ok(m@[w]@[c]@, order, start_col, num_days, w, c, win_len));
        let cell = m@[w]@[c]@;
        assert(cell.map_values(|s: String| s@)[t] == cell[t]@);
        lemma_avoider_texts_from(order, c as u32, t);
        let k0 = avoider_source(order, c as u32, t);
        let k1 = lemma_multiset_member_transfer(order, elements, k0);
        assert(elements[k1].text@ == cell[t]@ && spec_avoids(elements[k1], c as u32));
    }
}

/// Relies on rand's `SliceRandom::shuffle` driven by `rand::rng`: the
/// shuffled copy holds exactly the elements of the pool, reordered.
/// Nothing is assumed about which order comes out.
#[verifier::external_body]
fn shuffled(elements: &Vec<ScheduledElement>) -> (r: Vec<ScheduledElement>)
    ensures
        r@.len() == elements@.len(),
        r@.to_multiset() == elements@.to_multiset(),
{
    let mut copy = elements.clone();
    rand::seq::SliceRandom::shuffle(&mut copy[..], &mut rand::rng());
    copy
}

/// Processes the scheduling for the month.
///
/// The pool is copied into a freshly shuffled working order — one
/// shuffle per run, never re-shuffled per day — and the rotation walks
/// the month grid with it.  The shape of the result is a function of the
/// month alone; the cells additionally keep every promise of
/// `matrix_ok` for the working order, a permutation of `elements`.
pub fn process(elements: &Vec<ScheduledElement>, month: MonthDate, win_len: usize) -> (m: Vec<
    Vec<Vec<String>>,
>)
    requires
        win_len >= 1,
        month.wf(),
    ensures
        shape_ok(
            m,
            day1_weekday_ordinal(month.year as int, month.month as int),
            spec_days_in_month(month.year as int, month.month as int),
        ),
        exists|order: Seq<ScheduledElement>|
            {
                &&& (#[trigger] order.to_multiset()) == elements@.to_multiset()
                &&& order.len() == elements@.len()
                &&& matrix_ok(
                    m,
                    order,
                    day1_weekday_ordinal(month.year as int, month.month as int),
                    spec_days_in_month(month.year as int, month.month as int),
                    win_len as int,
                )
            },
        elements@.len() >= win_len ==> forall|w: int, c: int|
            0 <= w < m@.len() && 0 <= c < 7 && is_assignable(
                day1_weekday_ordinal(month.year as int, month.month as int),
                spec_days_in_month(month.year as int, month.month as int),
                w,
                c,
            ) ==> (#[trigger] m@[w]@[c])@.len() <= win_len && (count_nonavoid(elements@, c as u32)
                >= win_len ==> m@[w]@[c]@.len() == win_len),
        elements@.len() >= win_len ==> forall|w: int, c: int, t: int|
            #![trigger m@[w]@[c]@[t]]
            0 <= w < m@.len() && 0 <= c < 7 && is_assignable(
                day1_weekday_ordinal(month.year as int, month.month as int),
                spec_days_in_month(month.year as int, month.month as int),
                w,
                c,
            ) && 0 <= t < m@[w]@[c]@.len() ==> label_from_pool(
                elements@,
                m@[w]@[c]@[t]@,
                c as u32,
                false,
            ),
        elements@.len() < win_len ==> forall|w: int, c: int, t: int|
            #![trigger m@[w]@[c]@[t]]
            0 <= w < m@.len() && 0 <= c < 7 && is_assignable(
                day1_weekday_ordinal(month.year as int, month.month as int),
                spec_days_in_month(month.year as int, month.month as int),
                w,
                c,
            ) && 0 <= t < m@[w]@[c]@.len() ==> label_from_pool(
                elements@,
                m@[w]@[c]@[t]@,
                c as u32,
                true,
            ),
{
    let order = shuffled(elements);
    let start_col = month_start_weekday(month.year, month.month);
    let num_days = month_day_count(month.year, month.month);
    let m = process_with_order(&order, start_col, num_days, win_len);
    proof {
        let ghost d1 = day1_weekday_ordinal(month.year as int, month.month as int);
        let ghost nd = spec_days_in_month(month.year as int, month.month as int);
        assert(order@.to_multiset() == elements@.to_multiset() && order@.len() == elements@.len()
            && matrix_ok(m, order@, d1, nd, win_len as int));
        if elements@.len() >= win_len {
            assert forall|w: int, c: int|
                0 <= w < m@.len() && 0 <= c < 7 && is_assignable(d1, nd, w, c) implies (
            #[trigger] m@[w]@[c])@.len() <= win_len && (count_nonavoid(elements@, c as u32)
                >= win_len ==> m@[w]@[c]@.len() == win_len) by {
                assert(cell_ok(m@[w]@[c]@, order@, d1, nd, w, c, win_len as int));
                lemma_count_nonavoid_permutation(elements@, order@, c as u32);
            }
            lemma_matrix_provenance_rotation(m, order@, elements@, d1, nd, win_len as int);
        } else {
            lemma_matrix_provenance_small(m, order@, elements@, d1, nd, win_len as int);
        }
    }
    m
}

/// The offset the rotation holds after `n` assignable days, starting
/// from zero and advancing by one modulo `win_len` per day — the rule
/// `assign_day` promises of `window_offset`.
pub open spec fn offset_after(n: nat, win_len: int) -> int
    decreases n,
{
    if n == 0 {
        0
    } else {
        (offset_after((n - 1) as nat, win_len) + 1) % win_len
    }
}

proof fn lemma_offset_after_mod(n: nat, win_len: int)
    requires
        win_len >= 1,
    ensures
        offset_after(n, win_len) == n as int % win_len,
    decreases n,
{
    if n == 0 {
        lemma_small_mod(0, win_len as nat);
    } else {
        lemma_offset_after_mod((n - 1) as nat, win_len);
        if win_len == 1 {
            vstd::arithmetic::div_mod::lemma_mod_division_less_than_divisor(
                n as int - 1 + 1,
                1,
            );
            vstd::arithmetic::div_mod::lemma_mod_division_less_than_divisor(n as int - 1, 1);
            vstd::arithmetic::div_mod::lemma_mod_division_less_than_divisor(1, 1);
            vstd::arithmetic::div_mod::lemma_mod_division_less_than_divisor(n as int, 1);
        } else {
            lemma_small_mod(1, win_len as nat);
        }
        lemma_add_mod_noop(n as int - 1, 1, win_len);
    }
}

/// The window offset cycles through `0 .. win_len - 1`: after `n`
/// assignable days it stands at `n % win_len`, and `win_len` more days
/// bring it back to where it stood.
pub proof fn lemma_offset_cycles(n: nat, win_len: int)
    requires
        win_len >= 1,
    ensures
        offset_after(n, win_len) == n as int % win_len,
        0 <= offset_after(n, win_len) < win_len,
        offset_after((n + win_len) as nat, win_len) == offset_after(n, win_len),
{
    lemma_offset_after_mod(n, win_len);
    lemma_offset_after_mod((n + win_len) as nat, win_len);
    vstd::arithmetic::div_mod::lemma_mod_division_less_than_divisor(n as int, win_len);
    lemma_mod_add_multiples_vanish(n as int, win_len);
}

} // verus!
