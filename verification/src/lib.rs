//! Disk usage grouped by the time of last modification.
//!
//! A scan of a directory tree yields one [`entry::Entry`] per filesystem
//! entry. The entries are folded into a [`totals::SizeAggregate`], keyed by
//! calendar year or by the months of one year, and the aggregate is turned
//! into the ordered rows of a report.

pub mod calendar;
pub mod entry;
pub mod invocation;
pub mod report;
pub mod scan;
pub mod totals;
