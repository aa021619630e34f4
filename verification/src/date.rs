//! Proleptic Gregorian calendar dates with exact, verified arithmetic.
//!
//! A date is modelled by its *day number*: the number of days since
//! January 1 of year 1 (day number 0, a Monday). All contracts about
//! stepping, weekday extraction and month boundaries are stated over
//! that model.

use vstd::prelude::*;
use vstd::arithmetic::div_mod::{
    lemma_fundamental_div_mod, lemma_fundamental_div_mod_converse, lemma_mod_bound,
};

verus! {

/// Day of the week, in the fixed cyclic order Monday..Sunday.
#[derive(Clone, Copy, Debug, PartialEq, Eq, Structural)]
pub enum Weekday {
    Mon,
    Tue,
    Wed,
    Thu,
    Fri,
    Sat,
    Sun,
}

impl Weekday {
    /// Position within the week, counting Monday as 0.
    pub open spec fn index(self) -> int {
        match self {
            Weekday::Mon => 0,
            Weekday::Tue => 1,
            Weekday::Wed => 2,
            Weekday::Thu => 3,
            Weekday::Fri => 4,
            Weekday::Sat => 5,
            Weekday::Sun => 6,
        }
    }
}

/// The weekday whose position within the week is `i`.
pub open spec fn weekday_from_index(i: int) -> Weekday {
    if i == 0 {
        Weekday::Mon
    } else if i == 1 {
        Weekday::Tue
    } else if i == 2 {
        Weekday::Wed
    } else if i == 3 {
        Weekday::Thu
    } else if i == 4 {
        Weekday::Fri
    } else if i == 5 {
        Weekday::Sat
    } else {
        Weekday::Sun
    }
}

pub open spec fn spec_is_leap_year(y: int) -> bool {
    y % 4 == 0 && (y % 100 != 0 || y % 400 == 0)
}

/// Number of days in month `m` (1-based) of year `y`.
pub open spec fn spec_days_in_month(y: int, m: int) -> int {
    if m == 2 {
        if spec_is_leap_year(y) {
            29
        } else {
            28
        }
    } else if m == 4 || m == 6 || m == 9 || m == 11 {
        30
    } else {
        31
    }
}

/// Number of days of year `y` that lie strictly before month `m`.
pub open spec fn spec_days_before_month(y: int, m: int) -> int
    decreases m,
{
    if m <= 1 {
        0
    } else {
        spec_days_before_month(y, m - 1) + spec_days_in_month(y, m - 1)
    }
}

/// Number of days strictly before January 1 of year `y`, counting from
/// January 1 of year 1.
pub open spec fn spec_days_before_year(y: int) -> int {
    365 * (y - 1) + (y - 1) / 4 - (y - 1) / 100 + (y - 1) / 400
}

/// The supported year range.
pub open spec fn valid_year(y: int) -> bool {
    1 <= y <= 9999
}

pub open spec fn valid_ymd(y: int, m: int, d: int) -> bool {
    valid_year(y) && 1 <= m <= 12 && 1 <= d <= spec_days_in_month(y, m)
}

/// The day number of the given calendar day: days since January 1 of year 1.
pub open spec fn dn_of(y: int, m: int, d: int) -> int {
    spec_days_before_year(y) + spec_days_before_month(y, m) + d - 1
}

/// Day number of December 31, 9999, the largest representable date.
pub const MAX_DAY_NUMBER: u64 = 3652058;

/// A calendar date: year (1..=9999), month (1..=12) and day of month.
#[derive(Clone, Copy, Debug, PartialEq, Eq, Structural)]
pub struct Date {
    pub year: i32,
    pub month: u32,
    pub day: u32,
}

impl Date {
    pub open spec fn valid(self) -> bool {
        valid_ymd(self.year as int, self.month as int, self.day as int)
    }

    /// The mathematical model of a date: its day number.
    pub open spec fn dn(self) -> int {
        dn_of(self.year as int, self.month as int, self.day as int)
    }

    pub open spec fn weekday_index(self) -> int {
        self.dn() % 7
    }

    pub open spec fn spec_weekday(self) -> Weekday {
        weekday_from_index(self.weekday_index())
    }
}

/// How a residue modulo 7 changes when the value decreases by one.
pub proof fn lemma_mod7_pred(x: int)
    ensures
        (x - 1) % 7 == if x % 7 == 0 {
            6int
        } else {
            x % 7 - 1
        },
{
    lemma_fundamental_div_mod(x, 7);
    lemma_mod_bound(x, 7);
    let q = x / 7;
    let r = x % 7;
    if r == 0 {
        assert(x - 1 == (q - 1) * 7 + 6) by (nonlinear_arith)
            requires
                x == 7 * q + r,
                r == 0,
        ;
        lemma_fundamental_div_mod_converse(x - 1, 7, q - 1, 6);
    } else {
        assert(x - 1 == q * 7 + (r - 1)) by (nonlinear_arith)
            requires
                x == 7 * q + r,
        ;
        lemma_fundamental_div_mod_converse(x - 1, 7, q, r - 1);
    }
}

/// How a residue modulo 7 changes when the value increases by one.
pub proof fn lemma_mod7_succ(x: int)
    ensures
        (x + 1) % 7 == if x % 7 == 6 {
            0int
        } else {
            x % 7 + 1
        },
{
    lemma_fundamental_div_mod(x, 7);
    lemma_mod_bound(x, 7);
    let q = x / 7;
    let r = x % 7;
    if r == 6 {
        assert(x + 1 == (q + 1) * 7 + 0) by (nonlinear_arith)
            requires
                x == 7 * q + r,
                r == 6,
        ;
        lemma_fundamental_div_mod_converse(x + 1, 7, q + 1, 0);
    } else {
        assert(x + 1 == q * 7 + (r + 1)) by (nonlinear_arith)
            requires
                x == 7 * q + r,
        ;
        lemma_fundamental_div_mod_converse(x + 1, 7, q, r + 1);
    }
}

/// Two values have the same residue modulo 7 exactly when their
/// difference is a multiple of 7.
pub proof fn lemma_mod7_sub(a: int, b: int)
    ensures
        ((a - b) % 7 == 0) <==> (a % 7 == b % 7),
{
    lemma_fundamental_div_mod(a, 7);
    lemma_mod_bound(a, 7);
    lemma_fundamental_div_mod(b, 7);
    lemma_mod_bound(b, 7);
    let qa = a / 7;
    let ra = a % 7;
    let qb = b / 7;
    let rb = b % 7;
    if ra >= rb {
        assert(a - b == (qa - qb) * 7 + (ra - rb)) by (nonlinear_arith)
            requires
                a == 7 * qa + ra,
                b == 7 * qb + rb,
        ;
        lemma_fundamental_div_mod_converse(a - b, 7, qa - qb, ra - rb);
    } else {
        assert(a - b == (qa - qb - 1) * 7 + (7 + ra - rb)) by (nonlinear_arith)
            requires
                a == 7 * qa + ra,
                b == 7 * qb + rb,
        ;
        lemma_fundamental_div_mod_converse(a - b, 7, qa - qb - 1, 7 + ra - rb);
    }
}

/// Returns true if the specified year is a leap year (i.e. Feb 29th exists for this year)
pub fn is_leap_year(year: i32) -> (r: bool)
    ensures
        r == spec_is_leap_year(year as int),
{
    year % 4 == 0 && (year % 100 != 0 || year % 400 == 0)
}

/// Calculate the last day of a given month in a given year
pub fn last_day_of_month(year: i32, month: u32) -> (r: u32)
    requires
        valid_year(year as int),
        1 <= month <= 12,
    ensures
        r == spec_days_in_month(year as int, month as int),
{
    if month == 2 {
        if is_leap_year(year) {
            29
        } else {
            28
        }
    } else if month == 4 || month == 6 || month == 9 || month == 11 {
        30
    } else {
        31
    }
}

/// How integer division by a positive constant changes when the dividend
/// decreases by one: it drops exactly at the multiples.
proof fn lemma_div_step(x: int, d: int)
    requires
        d > 0,
    ensures
        x % d == 0 ==> x / d == (x - 1) / d + 1,
        x % d != 0 ==> x / d == (x - 1) / d,
{
    lemma_fundamental_div_mod(x, d);
    lemma_mod_bound(x, d);
    let q = x / d;
    let r = x % d;
    if r == 0 {
        assert(x - 1 == (q - 1) * d + (d - 1)) by (nonlinear_arith)
            requires
                x == d * q + r,
                r == 0,
        ;
        lemma_fundamental_div_mod_converse(x - 1, d, q - 1, d - 1);
    } else {
        assert(x - 1 == q * d + (r - 1)) by (nonlinear_arith)
            requires
                x == d * q + r,
        ;
        lemma_fundamental_div_mod_converse(x - 1, d, q, r - 1);
    }
}

/// A year divisible by 400 is divisible by 100, and one divisible by 100
/// is divisible by 4.
proof fn lemma_divisibility_chain(y: int)
    ensures
        y % 400 == 0 ==> y % 100 == 0,
        y % 100 == 0 ==> y % 4 == 0,
{
    if y % 400 == 0 {
        lemma_fundamental_div_mod(y, 400);
        lemma_fundamental_div_mod_converse(y, 100, 4 * (y / 400), 0);
    }
    if y % 100 == 0 {
        lemma_fundamental_div_mod(y, 100);
        lemma_fundamental_div_mod_converse(y, 4, 25 * (y / 100), 0);
    }
}

/// Stepping from one year to the next advances the day count by 365,
/// or 366 when the year stepped over is a leap year.
pub proof fn lemma_days_before_year_step(y: int)
    ensures
        spec_days_before_year(y + 1) == spec_days_before_year(y) + 365 + if spec_is_leap_year(y) {
            1int
        } else {
            0int
        },
{
    lemma_div_step(y, 4);
    lemma_div_step(y, 100);
    lemma_div_step(y, 400);
    lemma_divisibility_chain(y);
}

/// The months of a year cover 365 days, or 366 in a leap year.
pub proof fn lemma_months_total(y: int)
    ensures
        spec_days_before_month(y, 13) == 365 + if spec_is_leap_year(y) {
            1int
        } else {
            0int
        },
{
    reveal_with_fuel(spec_days_before_month, 14);
}

/// The day count before a month grows with the month.
pub proof fn lemma_days_before_month_monotonic(y: int, m1: int, m2: int)
    requires
        1 <= m1 <= m2,
    ensures
        spec_days_before_month(y, m1) <= spec_days_before_month(y, m2),
    decreases m2 - m1,
{
    if m1 < m2 {
        lemma_days_before_month_monotonic(y, m1, m2 - 1);
    }
}

/// Every valid day of a year has a day number within that year's span.
pub proof fn lemma_dn_within_year(y: int, m: int, d: int)
    requires
        valid_ymd(y, m, d),
    ensures
        spec_days_before_year(y) <= dn_of(y, m, d) < spec_days_before_year(y + 1),
{
    lemma_days_before_month_monotonic(y, 1, m);
    lemma_days_before_month_monotonic(y, m + 1, 13);
    lemma_months_total(y);
    lemma_days_before_year_step(y);
}

/// The day count before a year grows with the year.
pub proof fn lemma_days_before_year_monotonic(y1: int, y2: int)
    requires
        y1 <= y2,
    ensures
        spec_days_before_year(y1) <= spec_days_before_year(y2),
        y1 < y2 ==> spec_days_before_year(y1) + 365 <= spec_days_before_year(y2),
    decreases y2 - y1,
{
    if y1 < y2 {
        lemma_days_before_year_monotonic(y1, y2 - 1);
        lemma_days_before_year_step(y2 - 1);
    }
}

/// A valid day of March or April lies between March 1 and April 30 of
/// its year.
pub proof fn lemma_dn_month_window(y: int, m: int, d: int)
    requires
        valid_ymd(y, m, d),
        3 <= m <= 4,
    ensures
        dn_of(y, 3, 1) <= dn_of(y, m, d) <= dn_of(y, 4, 30),
{
    lemma_days_before_month_monotonic(y, 3, m);
    lemma_days_before_month_monotonic(y, m + 1, 5);
}

/// Day numbers of valid dates lie between 0 and `MAX_DAY_NUMBER`.
pub proof fn lemma_dn_bounds(y: int, m: int, d: int)
    requires
        valid_ymd(y, m, d),
    ensures
        0 <= dn_of(y, m, d) <= MAX_DAY_NUMBER,
{
    lemma_dn_within_year(y, m, d);
    lemma_days_before_year_monotonic(1, y);
    lemma_days_before_year_monotonic(y + 1, 10000);
}

/// Two valid calendar days with the same day number are the same day.
pub proof fn lemma_dn_injective(y1: int, m1: int, d1: int, y2: int, m2: int, d2: int)
    requires
        valid_ymd(y1, m1, d1),
        valid_ymd(y2, m2, d2),
        dn_of(y1, m1, d1) == dn_of(y2, m2, d2),
    ensures
        y1 == y2 && m1 == m2 && d1 == d2,
{
    lemma_dn_within_year(y1, m1, d1);
    lemma_dn_within_year(y2, m2, d2);
    if y1 < y2 {
        lemma_days_before_year_monotonic(y1 + 1, y2);
        assert(false);
    }
    if y2 < y1 {
        lemma_days_before_year_monotonic(y2 + 1, y1);
        assert(false);
    }
    if m1 < m2 {
        lemma_days_before_month_monotonic(y1, m1 + 1, m2);
        assert(false);
    }
    if m2 < m1 {
        lemma_days_before_month_monotonic(y1, m2 + 1, m1);
        assert(false);
    }
}

/// Day count strictly before January 1 of `year`, as a machine integer.
pub fn days_before_year(year: i32) -> (r: u64)
    requires
        1 <= year <= 10000,
    ensures
        r == spec_days_before_year(year as int),
{
    let y1 = (year - 1) as i64;
    proof {
        lemma_fundamental_div_mod(y1 as int, 4);
        lemma_mod_bound(y1 as int, 4);
        lemma_fundamental_div_mod(y1 as int, 100);
        lemma_mod_bound(y1 as int, 100);
        lemma_fundamental_div_mod(y1 as int, 400);
        lemma_mod_bound(y1 as int, 400);
    }
    (365 * y1 + y1 / 4 - y1 / 100 + y1 / 400) as u64
}

impl Date {
    /// The day number of this date: days since January 1 of year 1.
    pub fn day_number(&self) -> (r: u64)
        requires
            self.valid(),
        ensures
            r == self.dn(),
    {
        let mut dbm: u64 = 0;
        let mut m: u32 = 1;
        while m < self.month
            invariant
                self.valid(),
                1 <= m <= self.month,
                dbm == spec_days_before_month(self.year as int, m as int),
                dbm <= 366 * m,
            decreases self.month - m,
        {
            dbm = dbm + last_day_of_month(self.year, m) as u64;
            m = m + 1;
        }
        proof {
            lemma_dn_bounds(self.year as int, self.month as int, self.day as int);
            lemma_days_before_year_monotonic(1, self.year as int);
        }
        days_before_year(self.year) + dbm + (self.day - 1) as u64
    }

    /// The day of the week on which this date falls.
    pub fn weekday(&self) -> (r: Weekday)
        requires
            self.valid(),
        ensures
            r == self.spec_weekday(),
    {
        let dn = self.day_number();
        proof {
            lemma_mod_bound(dn as int, 7);
        }
        let idx = dn % 7;
        if idx == 0 {
            Weekday::Mon
        } else if idx == 1 {
            Weekday::Tue
        } else if idx == 2 {
            Weekday::Wed
        } else if idx == 3 {
            Weekday::Thu
        } else if idx == 4 {
            Weekday::Fri
        } else if idx == 5 {
            Weekday::Sat
        } else {
            Weekday::Sun
        }
    }

    /// The next calendar day.
    pub fn succ(&self) -> (r: Date)
        requires
            self.valid(),
            self.dn() < MAX_DAY_NUMBER,
        ensures
            r.valid(),
            r.dn() == self.dn() + 1,
    {
        let y = self.year;
        let m = self.month;
        let d = self.day;
        if d < last_day_of_month(y, m) {
            Date { year: y, month: m, day: d + 1 }
        } else if m < 12 {
            Date { year: y, month: m + 1, day: 1 }
        } else {
            proof {
                lemma_months_total(y as int);
                if y == 9999 {
                    lemma_dn_within_year(y as int, m as int, d as int);
                    assert(spec_days_before_year(10000) == MAX_DAY_NUMBER + 1);
                    assert(false);
                }
                lemma_days_before_year_step(y as int);
            }
            Date { year: y + 1, month: 1, day: 1 }
        }
    }

    /// The date with the given day number.
    pub fn from_day_number(dn: u64) -> (r: Date)
        requires
            dn <= MAX_DAY_NUMBER,
        ensures
            r.valid(),
            r.dn() == dn,
    {
        let mut year: i32 = 1;
        loop
            invariant
                1 <= year <= 9999,
                dn <= MAX_DAY_NUMBER,
                spec_days_before_year(year as int) <= dn,
            ensures
                1 <= year <= 9999,
                spec_days_before_year(year as int) <= dn < spec_days_before_year(year as int + 1),
            decreases 9999 - year,
        {
            if year == 9999 {
                proof {
                    assert(spec_days_before_year(10000) == MAX_DAY_NUMBER + 1);
                }
                break;
            }
            if days_before_year(year + 1) > dn {
                break;
            }
            year = year + 1;
        }
        let rem: u64 = dn - days_before_year(year);
        let ghost yr: int = year as int;
        proof {
            lemma_days_before_year_step(yr);
        }
        let mut month: u32 = 1;
        let mut acc: u64 = 0;
        loop
            invariant
                1 <= year <= 9999,
                1 <= month <= 12,
                rem == dn - spec_days_before_year(yr),
                yr == year as int,
                rem < 365 + if spec_is_leap_year(yr) { 1int } else { 0int },
                acc == spec_days_before_month(yr, month as int),
                acc <= rem,
            ensures
                1 <= month <= 12,
                acc == spec_days_before_month(yr, month as int),
                acc <= rem,
                rem - acc < spec_days_in_month(yr, month as int),
            decreases 12 - month,
        {
            if month == 12 {
                proof {
                    lemma_months_total(yr);
                }
                break;
            }
            let dim = last_day_of_month(year, month) as u64;
            if acc + dim > rem {
                break;
            }
            acc = acc + dim;
            month = month + 1;
        }
        let day: u32 = (rem - acc + 1) as u32;
        Date { year, month, day }
    }

    /// The previous calendar day.
    pub fn pred(&self) -> (r: Date)
        requires
            self.valid(),
            self.dn() > 0,
        ensures
            r.valid(),
            r.dn() == self.dn() - 1,
    {
        let y = self.year;
        let m = self.month;
        let d = self.day;
        if d > 1 {
            Date { year: y, month: m, day: d - 1 }
        } else if m > 1 {
            Date { year: y, month: m - 1, day: last_day_of_month(y, m - 1) }
        } else {
            proof {
                if y == 1 {
                    assert(self.dn() == 0);
                    assert(false);
                }
                lemma_days_before_year_step(y as int - 1);
                lemma_months_total(y as int - 1);
            }
            Date { year: y - 1, month: 12, day: 31 }
        }
    }
}

} // verus!
