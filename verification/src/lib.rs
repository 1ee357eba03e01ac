//! Fair-rotation month scheduler.
//!
//! The crate places a pool of named elements onto the weekday cells of a
//! calendar month.  Each element may avoid certain days of the week; a
//! rotating window combined with a per-element debt ledger spreads the
//! assignments over the pool.  The result is a week-by-day matrix of
//! assigned element labels.

pub mod calendar;
pub mod reader;
pub mod types;
pub mod worker;
