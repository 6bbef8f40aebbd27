//! The trusted boundary to the outside crates: identity generation and
//! the current local time, both as plain values.

use vstd::prelude::*;

use crate::date::DueDate;
use crate::date::checked_date;

verus! {

/// Relies on `uuid::Uuid::new_v4` and `uuid::Uuid::as_u128`: a freshly
/// drawn random version-4 identity as one 128-bit value. Nothing can be
/// promised of a random draw; callers test what came back.
#[verifier::external_body]
pub(crate) fn fresh_uuid() -> (r: u128) {
    uuid::Uuid::new_v4().as_u128()
}

/// Relies on `chrono::Local::now` and the `chrono::Datelike` /
/// `chrono::Timelike` getters `year`, `month`, `day`, `hour` and
/// `minute`: the current local wall-clock time as plain calendar
/// components. chrono documents month in 1..=12, day in 1..=31, hour in
/// 0..=23 and minute in 0..=59; the rest depends on the clock, so
/// nothing more is promised.
#[verifier::external_body]
pub(crate) fn now_parts() -> (r: (i32, u32, u32, u32, u32))
    ensures
        1 <= r.1 <= 12,
        1 <= r.2 <= 31,
        r.3 <= 23,
        r.4 <= 59,
{
    let now = chrono::Local::now();
    (
        chrono::Datelike::year(&now),
        chrono::Datelike::month(&now),
        chrono::Datelike::day(&now),
        chrono::Timelike::hour(&now),
        chrono::Timelike::minute(&now),
    )
}

/// The current local time as a due date, where the clock yields a date
/// the engine's model accepts.
pub fn current_date() -> (r: Option<DueDate>)
    ensures
        match r {
            Some(d) => d.wf(),
            None => true,
        },
{
    let (y, mo, da, h, mi) = now_parts();
    checked_date(y, mo, da, h, mi)
}

} // verus!
