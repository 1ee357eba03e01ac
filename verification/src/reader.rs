//! The unit of scheduling work and the container filled by ingestion.

use crate::types::Day;
use vstd::prelude::*;

verus! {

/// An element to place on the calendar: a display label together with the
/// days of the week it prefers and the days it avoids.  The scheduler only
/// reads elements; `avoid_days` is authoritative for exclusion while
/// `prefer_days` is informational and never consulted during selection.
#[derive(Debug, Clone)]
pub struct ScheduledElement {
    pub text: String,
    pub prefer_days: Vec<Day>,
    pub avoid_days: Vec<Day>,
}

impl Default for ScheduledElement {
    fn default() -> (e: Self)
        ensures
            e.text@ == Seq::<char>::empty(),
            e.prefer_days@ == Seq::<Day>::empty(),
            e.avoid_days@ == Seq::<Day>::empty(),
    {
        ScheduledElement { text: String::new(), prefer_days: Vec::new(), avoid_days: Vec::new() }
    }
}

/// The parsed element list, together with the name given to the pool in
/// the source spreadsheet.  Filling it from a spreadsheet is ingestion
/// work that lives outside this crate; the scheduler consumes `elements`
/// as an already-parsed ordered sequence.
#[derive(Debug, Clone)]
pub struct Reader {
    /// Name of the elements that are being scheduled.
    pub elements_name: String,
    pub elements: Vec<ScheduledElement>,
}

impl Default for Reader {
    fn default() -> (r: Self)
        ensures
            r.elements_name@ == Seq::<char>::empty(),
            r.elements@ == Seq::<ScheduledElement>::empty(),
    {
        Reader { elements_name: String::new(), elements: Vec::new() }
    }
}

} // verus!
