//! Reconciles two independently kept records of climbing activity: a
//! tabular export of a tracking service and a free-form personal log.
//! Both are parsed into one canonical form — a date-ascending logbook
//! of crag-name sets — normalized to a stable ASCII spelling, and
//! compared day by day and crag by crag.

pub mod date;
pub mod diff;
pub mod errors;
pub mod freeform;
pub mod logbook;
pub mod normalize;
pub mod path;
pub mod render;
pub mod roundtrip;
pub mod strings;
pub mod tabular;
