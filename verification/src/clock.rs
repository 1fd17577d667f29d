//! The current-date accessor.
//!
//! `today` answers with the local wall-clock date when no offset is given,
//! and with the UTC date shifted by a signed hour offset otherwise. An
//! offset outside the representable range yields an absent result —
//! deterministically, never a panic.

use vstd::prelude::*;

use chrono::Datelike;

verus! {

/// The widest hour offset `today` accepts; beyond it the shifted instant
/// could leave the calendar's representable range.
pub const MAX_TODAY_OFFSET_HOURS: i64 = 1000000;

/// A calendar date as plain values.
#[derive(Clone, Copy, Debug, PartialEq, Eq, Structural)]
pub struct Date {
    pub year: i32,
    pub month: u8,
    pub day: u8,
}

/// A date whose month and day lie in their calendar ranges.
pub open spec fn date_wf(d: Date) -> bool {
    1 <= d.month <= 12 && 1 <= d.day <= 31
}

/// Relies on chrono::Local::now and chrono::Datelike: the local
/// wall-clock date; month and day lie in their calendar ranges.
#[verifier::external_body]
fn local_date_now() -> (r: (i32, u32, u32))
    ensures
        1 <= r.1 <= 12,
        1 <= r.2 <= 31,
{
    let now = chrono::Local::now().naive_local();
    (now.year(), now.month(), now.day())
}

/// Relies on chrono::Utc::now, chrono::Duration::try_hours and
/// chrono::Datelike: the UTC date shifted by a signed hour offset. Within
/// the accepted offset range the shifted instant stays representable, so
/// a date is always returned, with month and day in their calendar
/// ranges.
#[verifier::external_body]
fn utc_date_with_offset(hours: i64) -> (r: Option<(i32, u32, u32)>)
    requires
        -MAX_TODAY_OFFSET_HOURS <= hours <= MAX_TODAY_OFFSET_HOURS,
    ensures
        r is Some,
        (r matches Some(d) ==> 1 <= d.1 <= 12 && 1 <= d.2 <= 31),
{
    let dur = chrono::Duration::try_hours(hours)?;
    let dt = (chrono::Utc::now() + dur).naive_utc();
    Some((dt.year(), dt.month(), dt.day()))
}

/// The current date: local wall-clock when `offset` is absent, otherwise
/// UTC shifted by the signed hour offset; absent exactly when the offset
/// lies outside the representable range. Which date comes back depends on
/// the clock; that it is a well-formed calendar date does not.
pub fn today(offset: Option<i64>) -> (r: Option<Date>)
    ensures
        (r matches Some(d) ==> date_wf(d)),
        (match offset {
            None => r is Some,
            Some(o) => (r is Some) == (-MAX_TODAY_OFFSET_HOURS <= o <= MAX_TODAY_OFFSET_HOURS),
        }),
{
    let (y, m, d) = match offset {
        None => local_date_now(),
        Some(o) => {
            if o < -MAX_TODAY_OFFSET_HOURS || o > MAX_TODAY_OFFSET_HOURS {
                return None;
            }
            match utc_date_with_offset(o) {
                Some(t) => t,
                None => {
                    return None;
                },
            }
        },
    };
    Some(Date { year: y, month: m as u8, day: d as u8 })
}

} // verus!
