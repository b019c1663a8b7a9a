//! What a scan reports of one filesystem entry, and the bucket it falls in.

use vstd::prelude::*;
use crate::calendar::{utc_calendar, utc_year_month};

verus! {

/// What kind of thing a filesystem entry is.
#[derive(Clone, Copy, Debug, PartialEq, Eq, Structural)]
pub enum EntryKind {
    RegularFile,
    Directory,
    Symlink,
    Other,
}

/// One entry that a walk listed without error.
///
/// `size` is `None` where the metadata could not be read; `modified`, in
/// whole seconds since the Unix epoch, is `None` where the metadata or its
/// timestamp could not be read.
#[derive(Clone, Copy, Debug, PartialEq, Eq)]
pub struct Entry {
    pub kind: EntryKind,
    pub size: Option<u64>,
    pub modified: Option<i64>,
}

/// How sizes are grouped.
#[derive(Clone, Copy, Debug, PartialEq, Eq, Structural)]
pub enum Mode {
    /// One bucket per calendar year.
    ByYear,
    /// One bucket per calendar month of `year`; other years are left out.
    ByMonth { year: i32 },
}

/// The bucket of a file last modified in `year` and `month`.
pub open spec fn bucket_of(mode: Mode, year: int, month: int) -> Option<int> {
    match mode {
        Mode::ByYear => Some(year),
        Mode::ByMonth { year: wanted } => if year == wanted {
            Some(month)
        } else {
            None
        },
    }
}

/// What a key of the mode can be: any year, or a month from 1 to 12.
pub open spec fn valid_key(mode: Mode, key: int) -> bool {
    match mode {
        Mode::ByYear => i32::MIN <= key <= i32::MAX,
        Mode::ByMonth { .. } => 1 <= key <= 12,
    }
}

/// The bucket and the bytes that `entry` adds, given the calendar date of its
/// timestamp: nothing unless it is a regular file whose size and timestamp
/// were read, whose date exists, and whose date the mode admits.
pub open spec fn contribution_given(entry: Entry, mode: Mode, date: Option<(i32, u32)>) -> Option<
    (int, nat),
> {
    if entry.kind == EntryKind::RegularFile && entry.size.is_some() && entry.modified.is_some()
        && date.is_some() {
        match bucket_of(mode, date.unwrap().0 as int, date.unwrap().1 as int) {
            Some(key) => Some((key, entry.size.unwrap() as nat)),
            None => None,
        }
    } else {
        None
    }
}

/// The bucket and the bytes that `entry` adds to an aggregate.
pub open spec fn contribution(entry: Entry, mode: Mode) -> Option<(int, nat)> {
    contribution_given(
        entry,
        mode,
        match entry.modified {
            Some(secs) => utc_year_month(secs),
            None => None,
        },
    )
}

/// Selects the bucket of a file last modified in `year` and `month`.
pub fn bucket_key(mode: Mode, year: i32, month: u32) -> (r: Option<i32>)
    requires
        1 <= month <= 12,
    ensures
        match r {
            Some(key) => bucket_of(mode, year as int, month as int) == Some(key as int)
                && valid_key(mode, key as int),
            None => bucket_of(mode, year as int, month as int).is_none(),
        },
{
    match mode {
        Mode::ByYear => Some(year),
        Mode::ByMonth { year: wanted } => {
            if year == wanted {
                Some(month as i32)
            } else {
                None
            }
        },
    }
}

/// Decides what `entry` adds, once the calendar date of its timestamp is
/// known.
pub fn contribution_with(entry: &Entry, mode: Mode, date: Option<(i32, u32)>) -> (r: Option<
    (i32, u64),
>)
    requires
        date matches Some(ym) ==> 1 <= ym.1 <= 12,
    ensures
        match r {
            Some(c) => contribution_given(*entry, mode, date) == Some((c.0 as int, c.1 as nat))
                && valid_key(mode, c.0 as int),
            None => contribution_given(*entry, mode, date).is_none(),
        },
{
    match entry.kind {
        EntryKind::RegularFile => {},
        _ => {
            return None;
        },
    }
    let size: u64 = match entry.size {
        Some(size) => size,
        None => {
            return None;
        },
    };
    if entry.modified.is_none() {
        return None;
    }
    match date {
        Some((year, month)) => match bucket_key(mode, year, month) {
            Some(key) => Some((key, size)),
            None => None,
        },
        None => None,
    }
}

/// Decides what `entry` adds to an aggregate: the date of its timestamp is
/// looked up and the decision made on it.
pub fn contribution_of(entry: &Entry, mode: Mode) -> (r: Option<(i32, u64)>)
    ensures
        match r {
            Some(c) => contribution(*entry, mode) == Some((c.0 as int, c.1 as nat)) && valid_key(
                mode,
                c.0 as int,
            ),
            None => contribution(*entry, mode).is_none(),
        },
{
    let date = match entry.modified {
        Some(secs) => utc_calendar(secs),
        None => None,
    };
    contribution_with(entry, mode, date)
}

} // verus!
