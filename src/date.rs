//! Calendar dates of releases and their `YYYY-MM-DD` notation.
use chrono::Datelike;
use vstd::prelude::*;
use vstd::string::*;

use crate::text::{append_decimal, append_padded, decimal, padded, push_char};

verus! {

/// The earliest year that a calendar date can carry.
pub const MIN_YEAR: i32 = -262142;

/// The latest year that a calendar date can carry.
pub const MAX_YEAR: i32 = 262142;

/// A calendar date: year, month in `1..=12`, day in `1..=31`.
#[derive(Clone, Copy, Debug, PartialEq, Eq, Structural)]
pub struct ReleaseDate {
    pub year: i32,
    pub month: u32,
    pub day: u32,
}

impl ReleaseDate {
    /// Whether the fields lie in their ranges.
    pub open spec fn wf(&self) -> bool {
        &&& MIN_YEAR <= self.year <= MAX_YEAR
        &&& 1 <= self.month <= 12
        &&& 1 <= self.day <= 31
    }

    /// The date with these fields, if they lie in their ranges.
    pub fn new(year: i32, month: u32, day: u32) -> (r: Option<ReleaseDate>)
        ensures
            r == (if (ReleaseDate { year, month, day }).wf() {
                Some(ReleaseDate { year, month, day })
            } else {
                None
            }),
    {
        if MIN_YEAR <= year && year <= MAX_YEAR && 1 <= month && month <= 12 && 1 <= day && day
            <= 31 {
            Some(ReleaseDate { year, month, day })
        } else {
            None
        }
    }
}

/// The year as a date shows it: four digits from year 0 to 9999, a sign
/// before the others.
pub open spec fn year_text(y: int) -> Seq<char> {
    if 0 <= y <= 9999 {
        padded(y as nat, 4)
    } else if y < 0 {
        seq!['-'] + padded((-y) as nat, 4)
    } else {
        seq!['+'] + decimal(y as nat)
    }
}

/// The `YYYY-MM-DD` notation of a date.
pub open spec fn date_text(d: ReleaseDate) -> Seq<char> {
    year_text(d.year as int) + seq!['-'] + padded(d.month as nat, 2) + seq!['-'] + padded(
        d.day as nat,
        2,
    )
}

/// Appends the `YYYY-MM-DD` notation of a date.
pub fn append_date(s: &mut String, d: &ReleaseDate)
    requires
        d.wf(),
    ensures
        final(s)@ == old(s)@ + date_text(*d),
{
    let ghost start = s@;
    if 0 <= d.year && d.year <= 9999 {
        append_padded(s, d.year as u32, 4);
    } else if d.year < 0 {
        push_char(s, '-');
        append_padded(s, (-d.year) as u32, 4);
    } else {
        push_char(s, '+');
        append_decimal(s, d.year as u32);
    }
    assert(s@ == start + year_text(d.year as int));
    push_char(s, '-');
    append_padded(s, d.month, 2);
    push_char(s, '-');
    append_padded(s, d.day, 2);
}

/// Relies on `chrono::Local::now`: the current date in the local time zone.
/// chrono gives months in `1..=12`, days in `1..=31`, and years within its
/// supported range.
#[verifier::external_body]
pub(crate) fn local_today() -> (r: ReleaseDate)
    ensures
        r.wf(),
{
    let now = chrono::Local::now();
    ReleaseDate { year: now.year(), month: now.month(), day: now.day() }
}

/// The given date, or today's when none is given.
pub fn resolve_date(date: &Option<ReleaseDate>) -> (r: ReleaseDate)
    requires
        date matches Some(d) ==> d.wf(),
    ensures
        r.wf(),
        date matches Some(d) ==> r == d,
{
    match date {
        Some(d) => *d,
        None => local_today(),
    }
}

} // verus!
