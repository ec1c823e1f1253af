//! Time, calendar dates and fresh identifiers, from `chrono` and `uuid`.
use vstd::prelude::*;
use chrono::Datelike;
use crate::model::{Timestamp, EARLIEST_SECS, LATEST_SECS};

verus! {

/// Days from 1970-01-01 to the given proleptic Gregorian date (`/` here
/// rounds down, so eras before year 0 count back from it).
pub open spec fn days_from_civil(year: int, month: int, day: int) -> int {
    let y = if month <= 2 { year - 1 } else { year };
    let era = y / 400;
    let yoe = y - era * 400;
    let mp = if month > 2 { month - 3 } else { month + 9 };
    let doy = (153 * mp + 2) / 5 + day - 1;
    let doe = yoe * 365 + yoe / 4 - yoe / 100 + doy;
    era * 146097 + doe - 719468
}

/// The UTC calendar date (year, month, day) of a Unix time in seconds, as
/// `chrono` computes it.
pub uninterp spec fn utc_date(secs: int) -> (int, int, int);

/// Calls `chrono::DateTime::<Utc>::from_timestamp(secs, 0)` and reads its
/// `year()`, `month()` and `day()`. The result is named by `utc_date`; the
/// contract also states what chrono documents: a valid month and day, and the
/// date whose day count from 1970-01-01 is `secs` divided by 86400, rounded down.
#[verifier::external_body]
pub(crate) fn calendar_date(secs: i64) -> (r: (i32, u32, u32))
    requires
        EARLIEST_SECS <= secs <= LATEST_SECS,
    ensures
        (r.0 as int, r.1 as int, r.2 as int) == utc_date(secs as int),
        1 <= r.1 <= 12,
        1 <= r.2 <= 31,
        days_from_civil(r.0 as int, r.1 as int, r.2 as int) * 86400 <= secs
            < days_from_civil(r.0 as int, r.1 as int, r.2 as int) * 86400 + 86400,
{
    let d = chrono::DateTime::from_timestamp(secs, 0).unwrap();
    (d.year(), d.month(), d.day())
}

/// Calls `chrono::Utc::now()`: the current time, which is within chrono's range
/// and has a sub-second part below one second. Nothing more can be promised.
/// Like chrono, it panics when the system clock reads before 1970.
#[verifier::external_body]
pub(crate) fn now() -> (t: Timestamp)
    ensures
        t.valid(),
{
    let n = chrono::Utc::now();
    Timestamp { secs: n.timestamp(), nanos: n.timestamp_subsec_nanos() }
}

/// A character of an identifier in uuid's hyphenated form: a lower-case hex
/// digit or a hyphen.
pub open spec fn id_char(c: char) -> bool {
    ('0' <= c <= '9') || ('a' <= c <= 'f') || c == '-'
}

/// An identifier in uuid's hyphenated form: 36 lower-case hex digits and hyphens.
pub open spec fn hyphenated_id(id: Seq<char>) -> bool {
    id.len() == 36 && forall|i: int| 0 <= i < 36 ==> id_char(#[trigger] id[i])
}

/// Calls `uuid::Uuid::new_v4().to_string()`: a random identifier in the
/// 36-character hyphenated form, lower-case hex digits and hyphens (uuid's
/// `Display` writes that form). Which identifier comes out is left open.
#[verifier::external_body]
pub(crate) fn fresh_id() -> (s: String)
    ensures
        s@.len() == 36,
        forall|i: int| 0 <= i < 36 ==> id_char(#[trigger] s@[i]),
{
    uuid::Uuid::new_v4().to_string()
}

} // verus!
