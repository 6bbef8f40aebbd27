//! Calendar arithmetic for due dates.
//!
//! A due date is a wall-clock instant: calendar date plus hour and minute.
//! The engine orders due dates chronologically and measures the number of
//! whole days between two instants, truncated toward zero.
//!
//! The model admits the years 0 through 9999. The bound is a machine
//! limit, not a rule of the task store: it keeps the minute numbering
//! and the day-distance arithmetic comfortably inside `u64` with proofs
//! that need no overflow side conditions, and it covers every date a
//! task list can mean. Every boundary into the model — [`checked_date`],
//! [`apply_changes`], the persistence decoder — totalizes the bound by
//! rejecting a date outside it as invalid input rather than assuming it.

use vstd::prelude::*;

verus! {

/// A calendar due date with a wall-clock time of day.
#[derive(Clone, Copy, PartialEq, Eq, Structural, Debug)]
pub struct DueDate {
    pub year: i32,
    pub month: u8,
    pub day: u8,
    pub hour: u8,
    pub minute: u8,
}

pub open spec fn is_leap_year(y: int) -> bool {
    y % 4 == 0 && (y % 100 != 0 || y % 400 == 0)
}

pub open spec fn days_in_month(y: int, m: int) -> int {
    if m == 2 {
        if is_leap_year(y) {
            29
        } else {
            28
        }
    } else if m == 4 || m == 6 || m == 9 || m == 11 {
        30
    } else {
        31
    }
}

/// Days in the months strictly before month `m` of year `y`.
pub open spec fn days_before_month(y: int, m: int) -> int {
    let base: int = if m == 1 {
        0
    } else if m == 2 {
        31
    } else if m == 3 {
        59
    } else if m == 4 {
        90
    } else if m == 5 {
        120
    } else if m == 6 {
        151
    } else if m == 7 {
        181
    } else if m == 8 {
        212
    } else if m == 9 {
        243
    } else if m == 10 {
        273
    } else if m == 11 {
        304
    } else {
        334
    };
    base + if m > 2 && is_leap_year(y) {
        1int
    } else {
        0int
    }
}

/// Leap years in `[0, y)`, for `y >= 0` (year 0 is a leap year).
pub open spec fn leap_years_before(y: int) -> int {
    (y + 3) / 4 - (y + 99) / 100 + (y + 399) / 400
}

impl DueDate {
    /// A date the engine accepts: a real calendar day with a valid time
    /// of day, in the years 0 through 9999 (the module's machine limit;
    /// see the module documentation).
    pub open spec fn wf(self) -> bool {
        &&& 0 <= self.year <= 9999
        &&& 1 <= self.month <= 12
        &&& 1 <= self.day <= days_in_month(self.year as int, self.month as int)
        &&& self.hour <= 23
        &&& self.minute <= 59
    }
}

/// Days from the start of year 0 to the given date.
pub open spec fn day_number(d: DueDate) -> int {
    365 * d.year + leap_years_before(d.year as int) + days_before_month(
        d.year as int,
        d.month as int,
    ) + d.day - 1
}

/// Minutes from the start of year 0 to the given wall-clock instant.
pub open spec fn minute_number(d: DueDate) -> int {
    day_number(d) * 1440 + d.hour * 60 + d.minute
}

/// Whole days from `now` to `due`, truncated toward zero; negative when
/// `due` lies in the past.
pub open spec fn days_between(due: DueDate, now: DueDate) -> int {
    let diff: int = minute_number(due) - minute_number(now);
    if diff >= 0 {
        diff / 1440
    } else {
        -((-diff) / 1440)
    }
}

/// Chronological order on due dates.
pub open spec fn due_le(a: DueDate, b: DueDate) -> bool {
    minute_number(a) <= minute_number(b)
}

pub fn days_in_month_exec(year: i32, month: u8) -> (r: u8)
    requires
        0 <= year,
        1 <= month <= 12,
    ensures
        r as int == days_in_month(year as int, month as int),
{
    let y: u32 = year as u32;
    if month == 2 {
        if y % 4 == 0 && (y % 100 != 0 || y % 400 == 0) {
            29
        } else {
            28
        }
    } else if month == 4 || month == 6 || month == 9 || month == 11 {
        30
    } else {
        31
    }
}

pub fn minute_number_exec(d: &DueDate) -> (r: u64)
    requires
        d.wf(),
    ensures
        r as int == minute_number(*d),
{
    let y: u64 = d.year as u64;
    let q4: u64 = (y + 3) / 4;
    let q100: u64 = (y + 99) / 100;
    let q400: u64 = (y + 399) / 400;
    assert(q100 <= y + 99);
    let before_month: u64 = if d.month == 1 {
        0
    } else if d.month == 2 {
        31
    } else if d.month == 3 {
        59
    } else if d.month == 4 {
        90
    } else if d.month == 5 {
        120
    } else if d.month == 6 {
        151
    } else if d.month == 7 {
        181
    } else if d.month == 8 {
        212
    } else if d.month == 9 {
        243
    } else if d.month == 10 {
        273
    } else if d.month == 11 {
        304
    } else {
        334
    };
    let leap_extra: u64 = if d.month > 2 && days_in_month_exec(d.year, 2) == 29 {
        1
    } else {
        0
    };
    let days: u64 = 365 * y + q4 + q400 + before_month + leap_extra + (d.day as u64) - 1 - q100;
    days * 1440 + (d.hour as u64) * 60 + (d.minute as u64)
}

pub fn days_between_exec(due: &DueDate, now: &DueDate) -> (r: i64)
    requires
        due.wf(),
        now.wf(),
    ensures
        r as int == days_between(*due, *now),
{
    let a: u64 = minute_number_exec(due);
    let b: u64 = minute_number_exec(now);
    if a >= b {
        ((a - b) / 1440) as i64
    } else {
        -(((b - a) / 1440) as i64)
    }
}

pub fn due_le_exec(a: &DueDate, b: &DueDate) -> (r: bool)
    requires
        a.wf(),
        b.wf(),
    ensures
        r == due_le(*a, *b),
{
    minute_number_exec(a) <= minute_number_exec(b)
}

/// Builds a due date from plain components, accepting exactly the dates
/// that the engine's model admits.
pub fn checked_date(year: i32, month: u32, day: u32, hour: u32, minute: u32) -> (r: Option<
    DueDate,
>)
    ensures
        match r {
            Some(d) => {
                &&& d.wf()
                &&& d.year == year
                &&& d.month == month
                &&& d.day == day
                &&& d.hour == hour
                &&& d.minute == minute
            },
            None => !exists|d: DueDate|
                {
                    &&& d.wf()
                    &&& d.year == year
                    &&& d.month == month
                    &&& d.day == day
                    &&& d.hour == hour
                    &&& d.minute == minute
                },
        },
{
    if year < 0 || year > 9999 || month < 1 || month > 12 || hour > 23 || minute > 59 {
        return None;
    }
    let dim: u8 = days_in_month_exec(year, month as u8);
    if day < 1 || day > dim as u32 {
        return None;
    }
    let d = DueDate {
        year,
        month: month as u8,
        day: day as u8,
        hour: hour as u8,
        minute: minute as u8,
    };
    assert(forall|e: DueDate|
        e.year == year && e.month == month && e.day == day && e.hour == hour && e.minute == minute
            ==> e == d);
    Some(d)
}


impl DueDate {
    /// Executable check of [`DueDate::wf`].
    pub fn is_wf(&self) -> (r: bool)
        ensures
            r == self.wf(),
    {
        if self.year < 0 || self.year > 9999 || self.month < 1 || self.month > 12 {
            return false;
        }
        self.day >= 1 && self.day <= days_in_month_exec(self.year, self.month) && self.hour <= 23
            && self.minute <= 59
    }
}

/// The date with the year replaced, where the engine accepts the result.
pub open spec fn step_year(d: DueDate, v: i32) -> Option<DueDate> {
    let n = DueDate { year: v, month: d.month, day: d.day, hour: d.hour, minute: d.minute };
    if n.wf() {
        Some(n)
    } else {
        None
    }
}

/// The date with the month replaced, where the engine accepts the result.
pub open spec fn step_month(d: DueDate, v: u32) -> Option<DueDate> {
    if 1 <= v <= 12 {
        let n = DueDate { year: d.year, month: v as u8, day: d.day, hour: d.hour, minute: d.minute };
        if n.wf() {
            Some(n)
        } else {
            None
        }
    } else {
        None
    }
}

/// The date with the day replaced, where the engine accepts the result.
pub open spec fn step_day(d: DueDate, v: u32) -> Option<DueDate> {
    if 1 <= v <= 31 {
        let n = DueDate { year: d.year, month: d.month, day: v as u8, hour: d.hour, minute: d.minute };
        if n.wf() {
            Some(n)
        } else {
            None
        }
    } else {
        None
    }
}

/// The date with the hour replaced, where the engine accepts the result.
pub open spec fn step_hour(d: DueDate, v: u32) -> Option<DueDate> {
    if v <= 23 {
        let n = DueDate { year: d.year, month: d.month, day: d.day, hour: v as u8, minute: d.minute };
        if n.wf() {
            Some(n)
        } else {
            None
        }
    } else {
        None
    }
}

/// The date with the minute replaced, where the engine accepts the result.
pub open spec fn step_minute(d: DueDate, v: u32) -> Option<DueDate> {
    if v <= 59 {
        let n = DueDate { year: d.year, month: d.month, day: d.day, hour: d.hour, minute: v as u8 };
        if n.wf() {
            Some(n)
        } else {
            None
        }
    } else {
        None
    }
}

/// Substitutes only the supplied calendar and time components, in the
/// order year, month, day, hour, minute; each substitution must leave a
/// date the engine accepts, else the whole modification is rejected.
pub open spec fn apply_changes_spec(
    d: DueDate,
    y: Option<i32>,
    mo: Option<u32>,
    da: Option<u32>,
    h: Option<u32>,
    mi: Option<u32>,
) -> Option<DueDate> {
    match (match y {
        Some(v) => step_year(d, v),
        None => Some(d),
    }) {
        None => None,
        Some(d1) => match (match mo {
            Some(v) => step_month(d1, v),
            None => Some(d1),
        }) {
            None => None,
            Some(d2) => match (match da {
                Some(v) => step_day(d2, v),
                None => Some(d2),
            }) {
                None => None,
                Some(d3) => match (match h {
                    Some(v) => step_hour(d3, v),
                    None => Some(d3),
                }) {
                    None => None,
                    Some(d4) => match (match mi {
                        Some(v) => step_minute(d4, v),
                        None => Some(d4),
                    }) {
                        None => None,
                        Some(d5) => Some(d5),
                    },
                },
            },
        },
    }
}

/// Executable counterpart of [`apply_changes_spec`].
pub fn apply_changes(
    d: &DueDate,
    y: Option<i32>,
    mo: Option<u32>,
    da: Option<u32>,
    h: Option<u32>,
    mi: Option<u32>,
) -> (r: Option<DueDate>)
    requires
        d.wf(),
    ensures
        r == apply_changes_spec(*d, y, mo, da, h, mi),
        match r {
            Some(n) => n.wf(),
            None => true,
        },
{
    let mut cur: DueDate = *d;
    match y {
        Some(v) => {
            let n = DueDate { year: v, month: cur.month, day: cur.day, hour: cur.hour, minute: cur.minute };
            if !n.is_wf() {
                return None;
            }
            cur = n;
        },
        None => {},
    }
    match mo {
        Some(v) => {
            if v < 1 || v > 12 {
                return None;
            }
            let n = DueDate { year: cur.year, month: v as u8, day: cur.day, hour: cur.hour, minute: cur.minute };
            if !n.is_wf() {
                return None;
            }
            cur = n;
        },
        None => {},
    }
    match da {
        Some(v) => {
            if v < 1 || v > 31 {
                return None;
            }
            let n = DueDate { year: cur.year, month: cur.month, day: v as u8, hour: cur.hour, minute: cur.minute };
            if !n.is_wf() {
                return None;
            }
            cur = n;
        },
        None => {},
    }
    match h {
        Some(v) => {
            if v > 23 {
                return None;
            }
            let n = DueDate { year: cur.year, month: cur.month, day: cur.day, hour: v as u8, minute: cur.minute };
            if !n.is_wf() {
                return None;
            }
            cur = n;
        },
        None => {},
    }
    match mi {
        Some(v) => {
            if v > 59 {
                return None;
            }
            let n = DueDate { year: cur.year, month: cur.month, day: cur.day, hour: cur.hour, minute: v as u8 };
            if !n.is_wf() {
                return None;
            }
            cur = n;
        },
        None => {},
    }
    Some(cur)
}

} // verus!
