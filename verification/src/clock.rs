//! The one window onto real time: trusted readings of the local clock.

use vstd::prelude::*;
use crate::timestamp::{Timestamp, days_in_month_x};

verus! {

/// Relies on `chrono::Local::now` and chrono's `Datelike` / `Timelike`
/// accessors, whose documented ranges are `month` 1..=12, `day` 1..=31,
/// `hour` 0..=23, `minute` 0..=59; the year is whatever the clock reads.
#[verifier::external_body]
fn now_parts() -> (r: (i32, u32, u32, u32, u32))
    ensures
        1 <= r.1 <= 12,
        1 <= r.2 <= 31,
        r.3 <= 23,
        r.4 <= 59,
{
    let now = chrono::Local::now();
    (
        chrono::Datelike::year(&now),
        chrono::Datelike::month(&now),
        chrono::Datelike::day(&now),
        chrono::Timelike::hour(&now),
        chrono::Timelike::minute(&now),
    )
}

/// The current local time as a well-formed timestamp. A clock reading
/// outside the representable calendar (a year outside 0..=9999, or a day
/// past the month's end) is clamped to the nearest representable value.
pub fn now_local() -> (r: Timestamp)
    ensures
        r.wf(),
{
    let (y, month, d, hour, minute) = now_parts();
    let year: u32 = if y < 0 {
        0
    } else if y > 9999 {
        9999
    } else {
        y as u32
    };
    let dim = days_in_month_x(year, month);
    let day: u32 = if d > dim {
        dim
    } else {
        d
    };
    Timestamp { year, month, day, hour, minute }
}

/// Relies on chrono: the given local calendar fields are converted through
/// `NaiveDate::from_ymd_opt`, `NaiveDate::and_hms_opt` and
/// `TimeZone::from_local_datetime`, and the result is the whole-hour
/// difference from `Local::now` (`DateTime` subtraction,
/// `TimeDelta::num_hours`). `None` when the fields name no valid local time.
#[verifier::external_body]
pub fn hours_since_parts(year: i32, month: u32, day: u32, hour: u32, minute: u32) -> (r: Option<
    i64,
>) {
    match chrono::NaiveDate::from_ymd_opt(year, month, day).and_then(
        |d| d.and_hms_opt(hour, minute, 0),
    ).and_then(|n| chrono::TimeZone::from_local_datetime(&chrono::Local, &n).earliest()) {
        Some(dt) => Some((chrono::Local::now() - dt).num_hours()),
        None => None,
    }
}

} // verus!
