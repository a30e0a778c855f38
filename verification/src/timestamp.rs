use vstd::arithmetic::div_mod::{
    lemma_div_is_ordered, lemma_fundamental_div_mod, lemma_fundamental_div_mod_converse,
    lemma_mod_multiples_basic,
};
use vstd::prelude::*;

verus! {

/// Milliseconds from 1970-01-01T00:00:00Z up to 10000-01-01T00:00:00Z:
/// the instants whose year fits the four digits of an archive name.
pub const MAX_UNIX_MILLIS: u64 = 253402300800000;

/// A wall-clock instant (UTC), split into plain calendar fields with
/// millisecond resolution. Archive file names embed exactly these fields,
/// so the engine works on this representation; reading the clock itself is
/// left to the caller, which passes the milliseconds since the Unix epoch
/// to [`Timestamp::from_unix_millis`].
#[derive(Clone, Copy, Debug, PartialEq, Eq, Structural)]
pub struct Timestamp {
    pub year: u64,
    pub month: u64,
    pub day: u64,
    pub hour: u64,
    pub minute: u64,
    pub second: u64,
    pub millis: u64,
}

impl Timestamp {
    /// The field ranges the fixed-width archive-name format relies on:
    /// a four-digit year and calendar-plausible remaining fields.
    pub open spec fn valid(self) -> bool {
        &&& self.year <= 9999
        &&& 1 <= self.month <= 12
        &&& 1 <= self.day <= 31
        &&& self.hour <= 23
        &&& self.minute <= 59
        &&& self.second <= 59
        &&& self.millis <= 999
    }

    /// Chronological key: the fields packed in decimal, most significant
    /// first, so that two valid timestamps compare chronologically by key.
    pub open spec fn key(self) -> int {
        (((((self.year * 100 + self.month) * 100 + self.day) * 100 + self.hour) * 100
            + self.minute) * 100 + self.second) * 1000 + self.millis
    }

    /// Executable check of [`Timestamp::valid`].
    pub fn is_valid(&self) -> (r: bool)
        ensures
            r == self.valid(),
    {
        self.year <= 9999 && 1 <= self.month && self.month <= 12 && 1 <= self.day && self.day <= 31
            && self.hour <= 23 && self.minute <= 59 && self.second <= 59 && self.millis <= 999
    }

    /// Executable form of [`Timestamp::key`].
    pub fn chronological_key(&self) -> (k: u64)
        requires
            self.valid(),
        ensures
            k as int == self.key(),
    {
        (((((self.year * 100 + self.month) * 100 + self.day) * 100 + self.hour) * 100
            + self.minute) * 100 + self.second) * 1000 + self.millis
    }

    /// Each field can be read back out of the packed key.
    proof fn lemma_key_unpacks(self)
        requires
            self.valid(),
        ensures
            self.key() % 1000 == self.millis,
            self.key() / 1000 % 100 == self.second,
            self.key() / 1000 / 100 % 100 == self.minute,
            self.key() / 1000 / 100 / 100 % 100 == self.hour,
            self.key() / 1000 / 100 / 100 / 100 % 100 == self.day,
            self.key() / 1000 / 100 / 100 / 100 / 100 % 100 == self.month,
            self.key() / 1000 / 100 / 100 / 100 / 100 / 100 == self.year,
    {
        let q5 = (((((self.year * 100 + self.month) * 100 + self.day) * 100 + self.hour) * 100
            + self.minute) * 100 + self.second) as int;
        lemma_fundamental_div_mod_converse(self.key(), 1000, q5, self.millis as int);
        let q4 = ((((self.year * 100 + self.month) * 100 + self.day) * 100 + self.hour) * 100
            + self.minute) as int;
        lemma_fundamental_div_mod_converse(q5, 100, q4, self.second as int);
        let q3 = (((self.year * 100 + self.month) * 100 + self.day) * 100 + self.hour) as int;
        lemma_fundamental_div_mod_converse(q4, 100, q3, self.minute as int);
        let q2 = ((self.year * 100 + self.month) * 100 + self.day) as int;
        lemma_fundamental_div_mod_converse(q3, 100, q2, self.hour as int);
        let q1 = (self.year * 100 + self.month) as int;
        lemma_fundamental_div_mod_converse(q2, 100, q1, self.day as int);
        lemma_fundamental_div_mod_converse(q1, 100, self.year as int, self.month as int);
    }

    /// Two valid timestamps with the same key are the same instant.
    pub proof fn lemma_key_injective(a: Timestamp, b: Timestamp)
        requires
            a.valid(),
            b.valid(),
            a.key() == b.key(),
        ensures
            a == b,
    {
        a.lemma_key_unpacks();
        b.lemma_key_unpacks();
    }

    /// The calendar fields of an instant given as milliseconds since the
    /// Unix epoch (UTC, proleptic Gregorian). The time fields are the
    /// usual remainders; the date fields are pinned by inversion: the
    /// day stays inside its month, and exactly one such date has the
    /// quotient as its day number.
    pub fn from_unix_millis(ms: u64) -> (ts: Timestamp)
        requires
            ms < MAX_UNIX_MILLIS,
        ensures
            ts.valid(),
            ts.year >= 1970,
            ts.millis == ms as int % 1000,
            ts.second == ms as int / 1000 % 60,
            ts.minute == ms as int / 1000 / 60 % 60,
            ts.hour == ms as int / 1000 / 60 / 60 % 24,
            ts.day <= days_in_month(ts.year as int, ts.month as int),
            civil_days(ts.year as int, ts.month as int, ts.day as int) == ms as int / 1000 / 60
                / 60 / 24,
    {
        let millis = ms % 1000;
        let total_secs = ms / 1000;
        let second = total_secs % 60;
        let total_mins = total_secs / 60;
        let minute = total_mins % 60;
        let total_hours = total_mins / 60;
        let hour = total_hours % 24;
        let total_days = total_hours / 24;
        proof {
            lemma_div_is_ordered(ms as int, MAX_UNIX_MILLIS - 1, 1000);
            lemma_div_is_ordered(ms as int / 1000, 253402300799, 60);
            lemma_div_is_ordered(ms as int / 1000 / 60, 4223371679, 60);
            lemma_div_is_ordered(ms as int / 1000 / 60 / 60, 70389527, 24);
            lemma_days_before_year_bound();
        }
        let mut year: u64 = 1970;
        let mut days = total_days;
        while days >= days_in_year_count(year)
            invariant
                1970 <= year <= 9999,
                days_before_year(year as int) + days == total_days,
                total_days < 2932897,
            decreases days,
        {
            proof {
                lemma_days_before_year_bound();
                if year == 9999 {
                    assert(days_before_year(10000) == days_before_year(9999) + days_in_year(9999));
                }
                lemma_days_before_year_nonneg(year as int);
            }
            days = days - days_in_year_count(year);
            year = year + 1;
        }
        let mut month: u64 = 1;
        proof {
            lemma_months_of_year(year as int);
            lemma_days_before_month_nonneg(year as int, 1);
        }
        while month < 12 && days >= days_in_month_count(year, month)
            invariant
                1970 <= year <= 9999,
                1 <= month <= 12,
                days_before_year(year as int) + days_before_month(year as int, month as int)
                    + days == total_days,
                days_before_year(year as int) + days + days_before_month(
                    year as int,
                    month as int,
                ) < days_before_year(year as int) + days_in_year(year as int),
            decreases 12 - month,
        {
            days = days - days_in_month_count(year, month);
            month = month + 1;
        }
        proof {
            lemma_months_of_year(year as int);
            if month == 12 {
                assert(days_before_month(year as int, 13) == days_before_month(year as int, 12)
                    + days_in_month(year as int, 12));
            }
            assert(days < days_in_month(year as int, month as int));
        }
        let day = days + 1;
        Timestamp { year, month, day, hour, minute, second, millis }
    }
}

/// A leap year of the proleptic Gregorian calendar.
pub open spec fn is_leap_year(y: int) -> bool {
    y % 4 == 0 && (y % 100 != 0 || y % 400 == 0)
}

pub open spec fn days_in_year(y: int) -> int {
    if is_leap_year(y) {
        366
    } else {
        365
    }
}

pub open spec fn days_in_month(y: int, m: int) -> int {
    if m == 2 {
        if is_leap_year(y) {
            29
        } else {
            28
        }
    } else if m == 4 || m == 6 || m == 9 || m == 11 {
        30
    } else {
        31
    }
}

/// Days from 1970-01-01 up to the first day of year `y`.
pub open spec fn days_before_year(y: int) -> int
    decreases y,
{
    if y <= 1970 {
        0
    } else {
        days_before_year(y - 1) + days_in_year(y - 1)
    }
}

/// Days from the first day of year `y` up to the first day of its month
/// `m`.
pub open spec fn days_before_month(y: int, m: int) -> int
    decreases m,
{
    if m <= 1 {
        0
    } else {
        days_before_month(y, m - 1) + days_in_month(y, m - 1)
    }
}

/// The day number of the calendar date `y-m-d`: days since 1970-01-01.
pub open spec fn civil_days(y: int, m: int, d: int) -> int {
    days_before_year(y) + days_before_month(y, m) + (d - 1)
}

/// The leap years in `[1, x]`, counted by the usual inclusion-exclusion.
pub open spec fn leap_count(x: int) -> int {
    x / 4 - x / 100 + x / 400
}

/// Dividing by `d` steps up exactly at the multiples of `d`.
proof fn lemma_div_step(x: int, d: int)
    requires
        d > 0,
    ensures
        x % d == 0 ==> x / d == (x - 1) / d + 1,
        x % d != 0 ==> x / d == (x - 1) / d,
{
    lemma_fundamental_div_mod(x, d);
    vstd::arithmetic::div_mod::lemma_mod_bound(x, d);
    let q = x / d;
    let r = x % d;
    if r == 0 {
        assert(x - 1 == (q - 1) * d + (d - 1)) by (nonlinear_arith)
            requires
                x == d * q + r,
                r == 0,
        ;
        lemma_fundamental_div_mod_converse(x - 1, d, q - 1, d - 1);
    } else {
        assert(x - 1 == q * d + (r - 1)) by (nonlinear_arith)
            requires
                x == d * q + r,
        ;
        lemma_fundamental_div_mod_converse(x - 1, d, q, r - 1);
    }
}

proof fn lemma_leap_count_step(x: int)
    requires
        x >= 1,
    ensures
        leap_count(x) - leap_count(x - 1) == if is_leap_year(x) {
            1int
        } else {
            0int
        },
{
    lemma_div_step(x, 4);
    lemma_div_step(x, 100);
    lemma_div_step(x, 400);
    if x % 400 == 0 {
        lemma_fundamental_div_mod(x, 400);
        assert(x == 400 * (x / 400));
        assert(x == (4 * (x / 400)) * 100);
        lemma_mod_multiples_basic(4 * (x / 400), 100);
        assert(x == (100 * (x / 400)) * 4);
        lemma_mod_multiples_basic(100 * (x / 400), 4);
    }
    if x % 100 == 0 {
        lemma_fundamental_div_mod(x, 100);
        assert(x == 100 * (x / 100));
        assert(x == (25 * (x / 100)) * 4);
        lemma_mod_multiples_basic(25 * (x / 100), 4);
    }
}

/// Closed form for [`days_before_year`], so that its value at the far end
/// of the four-digit years is known without unrolling the recursion.
proof fn lemma_days_before_year_closed(y: int)
    requires
        1970 <= y,
    ensures
        days_before_year(y) == 365 * (y - 1970) + leap_count(y - 1) - leap_count(1969),
    decreases y,
{
    if y > 1970 {
        lemma_days_before_year_closed(y - 1);
        lemma_leap_count_step(y - 1);
    }
}

proof fn lemma_days_before_year_nonneg(y: int)
    ensures
        days_before_year(y) >= 0,
    decreases y,
{
    if y > 1970 {
        lemma_days_before_year_nonneg(y - 1);
    }
}

proof fn lemma_days_before_month_nonneg(y: int, m: int)
    ensures
        days_before_month(y, m) >= 0,
    decreases m,
{
    if m > 1 {
        lemma_days_before_month_nonneg(y, m - 1);
    }
}

/// The four-digit years cover exactly the first 2932897 day numbers.
proof fn lemma_days_before_year_bound()
    ensures
        days_before_year(10000) == 2932897,
{
    lemma_days_before_year_closed(10000);
    assert(leap_count(9999) == 2424);
    assert(leap_count(1969) == 477);
}

/// A year is its twelve months laid end to end.
proof fn lemma_months_of_year(y: int)
    ensures
        days_before_month(y, 13) == days_in_year(y),
{
    assert(days_before_month(y, 1) == 0);
    assert(days_before_month(y, 2) == 31);
    assert(days_before_month(y, 3) == days_before_month(y, 2) + days_in_month(y, 2));
    assert(days_before_month(y, 4) == days_before_month(y, 3) + 31);
    assert(days_before_month(y, 5) == days_before_month(y, 4) + 30);
    assert(days_before_month(y, 6) == days_before_month(y, 5) + 31);
    assert(days_before_month(y, 7) == days_before_month(y, 6) + 30);
    assert(days_before_month(y, 8) == days_before_month(y, 7) + 31);
    assert(days_before_month(y, 9) == days_before_month(y, 8) + 31);
    assert(days_before_month(y, 10) == days_before_month(y, 9) + 30);
    assert(days_before_month(y, 11) == days_before_month(y, 10) + 31);
    assert(days_before_month(y, 12) == days_before_month(y, 11) + 30);
    assert(days_before_month(y, 13) == days_before_month(y, 12) + 31);
}

/// Executable [`days_in_year`].
pub fn days_in_year_count(y: u64) -> (r: u64)
    ensures
        r as int == days_in_year(y as int),
{
    if (y % 4 == 0 && y % 100 != 0) || y % 400 == 0 {
        366
    } else {
        365
    }
}

/// Executable [`days_in_month`].
pub fn days_in_month_count(y: u64, m: u64) -> (r: u64)
    ensures
        r as int == days_in_month(y as int, m as int),
{
    if m == 2 {
        if (y % 4 == 0 && y % 100 != 0) || y % 400 == 0 {
            29
        } else {
            28
        }
    } else if m == 4 || m == 6 || m == 9 || m == 11 {
        30
    } else {
        31
    }
}

} // verus!
