use vstd::prelude::*;

verus! {

/// Earliest year that chrono's dates can hold.
pub const MIN_YEAR: i32 = -262143;

/// Latest year that chrono's dates can hold.
pub const MAX_YEAR: i32 = 262142;

/// A UTC date and time of day at one-second resolution, field by field.
#[derive(Clone, Copy, Debug, PartialEq, Eq, Structural)]
pub struct CivilTime {
    pub year: i32,
    pub month: u32,
    pub day: u32,
    pub hour: u32,
    pub minute: u32,
    pub second: u32,
}

pub open spec fn is_leap(y: int) -> bool {
    y % 4 == 0 && (y % 100 != 0 || y % 400 == 0)
}

pub open spec fn year_len(y: int) -> int {
    if is_leap(y) {
        366
    } else {
        365
    }
}

pub open spec fn month_len(y: int, m: int) -> int {
    if m == 2 {
        if is_leap(y) {
            29
        } else {
            28
        }
    } else if m == 4 || m == 6 || m == 9 || m == 11 {
        30
    } else {
        31
    }
}

/// Days in year `y` before the first of month `m`.
pub open spec fn days_before_month(y: int, m: int) -> int
    decreases m,
{
    if m <= 1 {
        0
    } else {
        days_before_month(y, m - 1) + month_len(y, m - 1)
    }
}

/// Days from 1970-01-01 to the first of January of year `y` (negative before 1970).
pub open spec fn days_before_year(y: int) -> int
    decreases (if y >= 1970 { y - 1970 } else { 1970 - y }),
{
    if y == 1970 {
        0
    } else if y > 1970 {
        days_before_year(y - 1) + year_len(y - 1)
    } else {
        days_before_year(y + 1) - year_len(y)
    }
}

impl CivilTime {
    /// A real Gregorian date and time within chrono's range of years.
    pub open spec fn wf(self) -> bool {
        &&& MIN_YEAR <= self.year <= MAX_YEAR
        &&& 1 <= self.month <= 12
        &&& 1 <= self.day <= month_len(self.year as int, self.month as int)
        &&& self.hour < 24
        &&& self.minute < 60
        &&& self.second < 60
    }

    /// Day number since 1970-01-01.
    pub open spec fn day_number(self) -> int {
        days_before_year(self.year as int) + days_before_month(self.year as int, self.month as int)
            + self.day - 1
    }

    pub open spec fn second_of_day(self) -> int {
        self.hour * 3600 + self.minute * 60 + self.second
    }
}

/// Non-leap seconds since 1970-01-01T00:00:00Z.
pub open spec fn epoch_seconds(c: CivilTime) -> int {
    c.day_number() * 86400 + c.second_of_day()
}

pub proof fn lemma_days_before_year_after(y: int)
    requires
        y >= 1970,
    ensures
        days_before_year(y) >= 365 * (y - 1970),
    decreases y - 1970,
{
    if y > 1970 {
        lemma_days_before_year_after(y - 1);
    }
}

pub proof fn lemma_days_before_year_before(y: int)
    requires
        y <= 1970,
    ensures
        days_before_year(y) <= -365 * (1970 - y),
    decreases 1970 - y,
{
    if y < 1970 {
        lemma_days_before_year_before(y + 1);
    }
}

/// The day of the year lies within the year.
pub proof fn lemma_day_of_year_bounds(y: int, m: int, d: int)
    requires
        1 <= m <= 12,
        1 <= d <= month_len(y, m),
    ensures
        0 <= days_before_month(y, m) + d - 1 < year_len(y),
{
    reveal_with_fuel(days_before_month, 13);
}

/// An instant in the unsigned 32-bit window falls in the years 1970 to 2106.
pub proof fn lemma_u32_window_years(c: CivilTime)
    requires
        c.wf(),
        0 <= epoch_seconds(c) <= u32::MAX,
    ensures
        1970 <= c.year <= 2106,
{
    let y = c.year as int;
    let doy = days_before_month(y, c.month as int) + c.day - 1;
    lemma_day_of_year_bounds(y, c.month as int, c.day as int);
    let days = c.day_number();
    let tod = c.second_of_day();
    assert(0 <= tod < 86400);
    if y < 1970 {
        lemma_days_before_year_before(y + 1);
        assert(days_before_year(y) == days_before_year(y + 1) - year_len(y));
        assert(days <= -1);
        assert(days * 86400 <= -86400) by (nonlinear_arith)
            requires
                days <= -1,
        ;
    }
    if y > 2106 {
        lemma_days_before_year_after(y);
        assert(365 * (y - 1970) >= 50005) by (nonlinear_arith)
            requires
                y >= 2107,
        ;
        assert(days >= 50005);
        assert(days * 86400 >= 50005 * 86400) by (nonlinear_arith)
            requires
                days >= 50005,
        ;
    }
}

} // verus!
