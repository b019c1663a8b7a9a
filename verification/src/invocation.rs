//! Reading the arguments: which are paths, and whether a year follows them.

use vstd::prelude::*;
use crate::entry::Mode;

verus! {

/// Why the arguments cannot be used.
#[derive(Clone, Copy, Debug, PartialEq, Eq, Structural)]
pub enum UsageError {
    /// No argument was given.
    NoArguments,
}

/// What the arguments ask for: the first `path_count` of them are the
/// directories to scan, and `mode` says how their files are grouped.
#[derive(Clone, Copy, Debug, PartialEq, Eq, Structural)]
pub struct Invocation {
    pub path_count: usize,
    pub mode: Mode,
}

/// The character is one of the decimal digits `0` to `9`.
pub open spec fn is_digit(c: char) -> bool {
    48 <= c as u32 <= 57
}

/// The number that a run of decimal digits writes.
pub open spec fn digits_value(s: Seq<char>) -> int
    decreases s.len(),
{
    if s.len() == 0 {
        0
    } else {
        digits_value(s.drop_last()) * 10 + (s.last() as u32 - 48)
    }
}

/// The integer that `text` writes in decimal: an optional `+` or `-`, then
/// one digit or more and nothing else, the value within the range of `i32`.
pub open spec fn integer_text(text: Seq<char>) -> Option<i32> {
    let signed = text.len() > 0 && (text[0] == '+' || text[0] == '-');
    let digits = if signed {
        text.skip(1)
    } else {
        text
    };
    let value = if signed && text[0] == '-' {
        -digits_value(digits)
    } else {
        digits_value(digits)
    };
    if digits.len() > 0 && (forall|i: int| 0 <= i < digits.len() ==> is_digit(#[trigger] digits[i]))
        && i32::MIN <= value <= i32::MAX {
        Some(value as i32)
    } else {
        None
    }
}

/// Trusted: calls `str::parse::<i32>`, that is `i32::from_str`, and drops
/// the reason of a failure. The contract claims what the documentation of
/// `from_str` for the integer types says: the text is an optional sign and
/// then decimal digits only, and a value out of range is an error.
#[verifier::external_body]
fn parse_integer(text: &str) -> (r: Option<i32>)
    ensures
        r == integer_text(text@),
{
    match text.parse::<i32>() {
        Ok(value) => Some(value),
        Err(_) => None,
    }
}

/// The invocation for `count` arguments of which the last reads as
/// `trailing`: a trailing integer is the year whose months are reported, and
/// is no path.
pub open spec fn planned(count: nat, trailing: Option<i32>) -> Invocation {
    match trailing {
        Some(year) => (Invocation { path_count: (count - 1) as usize, mode: Mode::ByMonth { year } }),
        None => (Invocation { path_count: count as usize, mode: Mode::ByYear }),
    }
}

/// Plans the run for `count` arguments, given what the last of them reads as.
pub fn plan(count: usize, trailing: Option<i32>) -> (r: Result<Invocation, UsageError>)
    ensures
        match r {
            Ok(inv) => count > 0 && inv == planned(count as nat, trailing),
            Err(e) => count == 0 && e == UsageError::NoArguments,
        },
{
    if count == 0 {
        return Err(UsageError::NoArguments);
    }
    match trailing {
        Some(year) => Ok(Invocation { path_count: count - 1, mode: Mode::ByMonth { year } }),
        None => Ok(Invocation { path_count: count, mode: Mode::ByYear }),
    }
}

/// Plans the run for the arguments that follow the program's name. The last
/// argument is the year if and only if it reads as an integer; all before it,
/// or all where it does not, are paths.
pub fn parse_arguments(args: &Vec<String>) -> (r: Result<Invocation, UsageError>)
    ensures
        match r {
            Ok(inv) => args@.len() > 0 && inv == planned(
                args@.len(),
                integer_text(args@.last()@),
            ),
            Err(e) => args@.len() == 0 && e == UsageError::NoArguments,
        },
{
    let count: usize = args.len();
    if count == 0 {
        return Err(UsageError::NoArguments);
    }
    let trailing = parse_integer(args[count - 1].as_str());
    plan(count, trailing)
}

} // verus!
