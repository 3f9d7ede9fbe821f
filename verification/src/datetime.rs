//! Civil (proleptic Gregorian) calendar arithmetic.
//!
//! Instants are represented as a civil date plus a time of day, all in UTC.
//! The functions here convert between that representation and a linear count
//! of days (or seconds) since the Unix epoch, 1970-01-01T00:00:00Z.
use vstd::arithmetic::div_mod::{
    lemma_fundamental_div_mod, lemma_fundamental_div_mod_converse, lemma_hoist_over_denominator,
    lemma_mod_division_less_than_divisor, lemma_mod_multiples_basic,
};
use vstd::prelude::*;

verus! {

/// Largest magnitude a year may have; generous enough that every count of
/// seconds representable in an `i64` falls inside the supported range.
pub const YEAR_LIMIT: i64 = 400_000_000_000;

/// Seconds in a civil day.
pub const SECS_PER_DAY: i64 = 86_400;

/// A year is a leap year when divisible by 4, except century years,
/// which are leap years only when divisible by 400.
pub open spec fn is_leap_year(y: int) -> bool {
    y % 4 == 0 && (y % 100 != 0 || y % 400 == 0)
}

/// Length of month `m` (1-based) of year `y`, in days.
pub open spec fn days_in_month_of(y: int, m: int) -> int {
    if m == 2 {
        if is_leap_year(y) {
            29
        } else {
            28
        }
    } else if m == 4 || m == 6 || m == 9 || m == 11 {
        30
    } else {
        31
    }
}

/// Days of year `y` that pass before month `m` (1-based) begins.
pub open spec fn days_before_month(y: int, m: int) -> int
    decreases m,
{
    if m <= 1 {
        0
    } else {
        days_before_month(y, m - 1) + days_in_month_of(y, m - 1)
    }
}

/// Day number of 1 January of year `y`, counted from the epoch.
/// `719527` is the number of days the formula yields for year 1970,
/// so that the epoch itself is day zero.
pub open spec fn year_start_days(y: int) -> int {
    365 * y + (y - 1) / 4 - (y - 1) / 100 + (y - 1) / 400 - 719527
}

/// Day number of the civil date `(y, m, d)`, counted from the epoch.
pub open spec fn days_from_civil(y: int, m: int, d: int) -> int {
    year_start_days(y) + days_before_month(y, m) + d - 1
}

/// Days in year `y`: 365, or 366 in a leap year.
pub open spec fn days_in_year(y: int) -> int {
    if is_leap_year(y) {
        366
    } else {
        365
    }
}

/// Whether `(y, m, d)` denotes a real civil date inside the supported range.
pub open spec fn valid_ymd(y: int, m: int, d: int) -> bool {
    &&& -(YEAR_LIMIT as int) <= y <= YEAR_LIMIT as int
    &&& 1 <= m <= 12
    &&& 1 <= d <= days_in_month_of(y, m)
}

/// Whether `y` is a leap year.
pub fn leap_year(y: i64) -> (r: bool)
    ensures
        r == is_leap_year(y as int),
{
    floor_rem(y, 4) == 0 && (floor_rem(y, 100) != 0 || floor_rem(y, 400) == 0)
}

/// Length of month `m` of year `y`, in days.
pub fn days_in_month(y: i64, m: u8) -> (r: u8)
    ensures
        r as int == days_in_month_of(y as int, m as int),
{
    if m == 2 {
        if leap_year(y) {
            29
        } else {
            28
        }
    } else if m == 4 || m == 6 || m == 9 || m == 11 {
        30
    } else {
        31
    }
}

/// For a positive divisor, the quotient grows by one exactly at multiples.
proof fn lemma_div_step(x: int, d: int)
    requires
        d > 0,
    ensures
        x / d - (x - 1) / d == if x % d == 0 {
            1int
        } else {
            0int
        },
{
    lemma_fundamental_div_mod(x, d);
    lemma_mod_division_less_than_divisor(x, d);
    let q = x / d;
    let r = x % d;
    if r == 0 {
        assert(x - 1 == (q - 1) * d + (d - 1)) by (nonlinear_arith)
            requires
                x == d * q + r,
                r == 0,
        ;
        lemma_fundamental_div_mod_converse(x - 1, d, q - 1, d - 1);
    } else {
        assert(x - 1 == q * d + (r - 1)) by (nonlinear_arith)
            requires
                x == d * q + r,
        ;
        lemma_fundamental_div_mod_converse(x - 1, d, q, r - 1);
    }
}

/// A year divisible by 100 is divisible by 4; one divisible by 400 is
/// divisible by both 4 and 100.
proof fn lemma_divisibility_chain(y: int)
    ensures
        y % 400 == 0 ==> y % 100 == 0,
        y % 100 == 0 ==> y % 4 == 0,
{
    if y % 400 == 0 {
        lemma_fundamental_div_mod(y, 400);
        assert(y == (4 * (y / 400)) * 100);
        lemma_mod_multiples_basic(4 * (y / 400), 100);
    }
    if y % 100 == 0 {
        lemma_fundamental_div_mod(y, 100);
        assert(y == (25 * (y / 100)) * 4);
        lemma_mod_multiples_basic(25 * (y / 100), 4);
    }
}

/// Year `y` spans `days_in_year(y)` days.
pub proof fn lemma_year_length(y: int)
    ensures
        year_start_days(y + 1) - year_start_days(y) == days_in_year(y),
{
    lemma_div_step(y, 4);
    lemma_div_step(y, 100);
    lemma_div_step(y, 400);
    lemma_divisibility_chain(y);
}

/// Any 400 consecutive years span exactly 146097 days; stated for whole
/// cycles so that the day count of a cycle-aligned year is immediate.
pub proof fn lemma_cycle_start(k: int)
    ensures
        year_start_days(1970 + 400 * k) == 146097 * k,
{
    lemma_hoist_over_denominator(1969, 100 * k, 4);
    lemma_hoist_over_denominator(1969, 4 * k, 100);
    lemma_hoist_over_denominator(1969, k, 400);
    assert(1969 + (100 * k) * 4 == 1969 + 400 * k);
    assert(1969 + (4 * k) * 100 == 1969 + 400 * k);
    assert(1969 + k * 400 == 1969 + 400 * k);
    assert((1969int) / 4 == 492 && (1969int) / 100 == 19 && (1969int) / 400 == 4) by {
        lemma_fundamental_div_mod_converse(1969, 4, 492, 1);
        lemma_fundamental_div_mod_converse(1969, 100, 19, 69);
        lemma_fundamental_div_mod_converse(1969, 400, 4, 369);
    }
}

/// The twelve months of year `y` sum to the length of the year.
pub proof fn lemma_month_sum(y: int)
    ensures
        days_before_month(y, 13) == days_in_year(y),
{
    reveal_with_fuel(days_before_month, 13);
}

/// Floor division of `a` by a positive divisor `b`, matching the
/// mathematical (Euclidean) quotient.
pub fn floor_div(a: i64, b: i64) -> (q: i64)
    requires
        0 < b <= 1_000_000,
    ensures
        q as int == a as int / b as int,
{
    if a >= 0 {
        let q: i64 = a / b;
        proof {
            lemma_fundamental_div_mod(a as int, b as int);
            lemma_mod_division_less_than_divisor(a as int, b as int);
        }
        q
    } else {
        let n: i128 = -(a as i128);
        let q: i128 = (n + b as i128 - 1) / b as i128;
        proof {
            let nn = n as int;
            let bb = b as int;
            lemma_fundamental_div_mod(nn, bb);
            lemma_mod_division_less_than_divisor(nn, bb);
            let qq = nn / bb;
            let rr = nn % bb;
            if rr == 0 {
                assert(nn + bb - 1 == qq * bb + (bb - 1) && -nn == (-qq) * bb + 0)
                    by (nonlinear_arith)
                    requires
                        nn == bb * qq + rr,
                        rr == 0,
                ;
                lemma_fundamental_div_mod_converse(nn + bb - 1, bb, qq, bb - 1);
                lemma_fundamental_div_mod_converse(a as int, bb, -qq, 0);
            } else {
                assert(nn + bb - 1 == (qq + 1) * bb + (rr - 1) && -nn == (-qq - 1) * bb + (bb - rr))
                    by (nonlinear_arith)
                    requires
                        nn == bb * qq + rr,
                ;
                lemma_fundamental_div_mod_converse(nn + bb - 1, bb, qq + 1, rr - 1);
                lemma_fundamental_div_mod_converse(a as int, bb, -qq - 1, bb - rr);
            }
            lemma_fundamental_div_mod(nn + bb - 1, bb);
            lemma_mod_division_less_than_divisor(nn + bb - 1, bb);
            assert(0 <= q as int <= nn) by (nonlinear_arith)
                requires
                    nn + bb - 1 == bb * (q as int) + ((nn + bb - 1) % bb),
                    0 <= (nn + bb - 1) % bb < bb,
                    1 <= bb,
                    1 <= nn,
            ;
        }
        (-q) as i64
    }
}

/// Remainder of `a` on division by a positive `b`, in `[0, b)`.
pub fn floor_rem(a: i64, b: i64) -> (r: i64)
    requires
        0 < b <= 1_000_000,
    ensures
        r as int == a as int % b as int,
        0 <= r < b,
{
    let q: i64 = floor_div(a, b);
    proof {
        lemma_fundamental_div_mod(a as int, b as int);
        lemma_mod_division_less_than_divisor(a as int, b as int);
        assert(a as int - (q as int) * (b as int) == a as int % b as int) by (nonlinear_arith)
            requires
                a as int == b as int * (q as int) + a as int % b as int,
        ;
    }
    ((a as i128) - (q as i128) * (b as i128)) as i64
}

/// Day number of 1 January of year `y`, counted from the epoch.
pub fn year_start(y: i64) -> (r: i64)
    requires
        -(YEAR_LIMIT as int) - 500 <= y <= YEAR_LIMIT as int + 500,
    ensures
        r as int == year_start_days(y as int),
{
    let q4: i64 = floor_div(y - 1, 4);
    let q100: i64 = floor_div(y - 1, 100);
    let q400: i64 = floor_div(y - 1, 400);
    proof {
        lemma_fundamental_div_mod(y - 1, 4);
        lemma_mod_division_less_than_divisor(y - 1, 4);
        lemma_fundamental_div_mod(y - 1, 100);
        lemma_mod_division_less_than_divisor(y - 1, 100);
        lemma_fundamental_div_mod(y - 1, 400);
        lemma_mod_division_less_than_divisor(y - 1, 400);
    }
    365 * y + q4 - q100 + q400 - 719527
}

/// Days of year `y` that pass before month `m` begins.
pub fn days_before_month_of_year(y: i64, m: u8) -> (r: i64)
    requires
        1 <= m <= 13,
    ensures
        r as int == days_before_month(y as int, m as int),
        0 <= r <= 372,
{
    let mut i: u8 = 1;
    let mut acc: i64 = 0;
    while i < m
        invariant
            1 <= i <= m <= 13,
            acc as int == days_before_month(y as int, i as int),
            0 <= acc <= 31 * (i - 1),
        decreases m - i,
    {
        acc = acc + days_in_month(y, i) as i64;
        i = i + 1;
    }
    acc
}

/// Largest day number the conversions accept; covers every instant whose
/// second count fits in an `i64`.
pub const DAY_LIMIT: i64 = 106_800_000_000_000;

/// Largest year magnitude every day of which has a day number within
/// `DAY_LIMIT`.
pub const DAY_SAFE_YEAR_LIMIT: i64 = 292_000_000_000;

/// Day number of the day an instant falls on.
pub open spec fn day_number_of(dt: DateTime) -> int {
    days_from_civil(dt.year as int, dt.month as int, dt.day as int)
}

/// No month begins more than a year's worth of days in.
pub proof fn lemma_days_before_month_bounds(y: int, m: int)
    requires
        1 <= m <= 13,
    ensures
        0 <= days_before_month(y, m) <= 31 * (m - 1),
    decreases m,
{
    if m > 1 {
        lemma_days_before_month_bounds(y, m - 1);
    }
}

/// Every day of a year within `DAY_SAFE_YEAR_LIMIT` has a day number
/// within `DAY_LIMIT`.
#[verifier::spinoff_prover]
pub proof fn lemma_day_number_bounded(y: int, m: int, d: int)
    requires
        valid_ymd(y, m, d),
        -(DAY_SAFE_YEAR_LIMIT as int) <= y <= DAY_SAFE_YEAR_LIMIT as int,
    ensures
        -(DAY_LIMIT as int) <= days_from_civil(y, m, d) <= DAY_LIMIT as int,
{
    lemma_fundamental_div_mod(y - 1, 4);
    lemma_mod_division_less_than_divisor(y - 1, 4);
    lemma_fundamental_div_mod(y - 1, 100);
    lemma_mod_division_less_than_divisor(y - 1, 100);
    lemma_fundamental_div_mod(y - 1, 400);
    lemma_mod_division_less_than_divisor(y - 1, 400);
    lemma_days_before_month_bounds(y, m);
}

/// The civil date of day number `z`: the unique valid `(y, m, d)` whose day
/// number is `z` again.
pub fn civil_from_days(z: i64) -> (r: (i64, u8, u8))
    requires
        -DAY_LIMIT <= z <= DAY_LIMIT,
    ensures
        valid_ymd(r.0 as int, r.1 as int, r.2 as int),
        days_from_civil(r.0 as int, r.1 as int, r.2 as int) == z as int,
{
    let era: i64 = floor_div(z, 146_097);
    let doe: i64 = z - era * 146_097;
    proof {
        lemma_fundamental_div_mod(z as int, 146_097);
        lemma_mod_division_less_than_divisor(z as int, 146_097);
        assert(doe as int == z as int % 146_097) by (nonlinear_arith)
            requires
                z as int == 146_097 * (z as int / 146_097) + z as int % 146_097,
                era as int == z as int / 146_097,
                doe as int == z as int - era as int * 146_097,
        ;
        lemma_cycle_start(era as int);
        assert(1970 + 400 * (era as int) == 1970 + (era as int) * 400);
    }
    let y0: i64 = 1970 + era * 400;
    let mut y: i64 = y0;
    let mut acc: i64 = 0;
    let mut yl: i64 = if leap_year(y) {
        366
    } else {
        365
    };
    while acc + yl <= doe
        invariant
            y0 as int == 1970 + (era as int) * 400,
            year_start_days(y0 as int) == (era as int) * 146_097,
            -750_000_000 <= era <= 750_000_000,
            0 <= doe < 146_097,
            doe as int == z as int - (era as int) * 146_097,
            y0 <= y <= y0 + 400,
            yl as int == days_in_year(y as int),
            acc as int == year_start_days(y as int) - year_start_days(y0 as int),
            0 <= acc <= doe,
        decreases y0 + 400 - y,
    {
        proof {
            lemma_year_length(y as int);
            if y == y0 + 400 {
                lemma_cycle_start(era as int + 1);
                assert(1970 + 400 * (era as int + 1) == y0 as int + 400);
                assert(false);
            }
        }
        acc = acc + yl;
        y = y + 1;
        yl = if leap_year(y) {
            366
        } else {
            365
        };
    }
    proof {
        lemma_year_length(y as int);
        if y == y0 + 400 {
            lemma_cycle_start(era as int + 1);
            assert(1970 + 400 * (era as int + 1) == y0 as int + 400);
            assert(false);
        }
    }
    let doy: i64 = doe - acc;
    proof {
        lemma_month_sum(y as int);
    }
    let mut m: u8 = 1;
    let mut rem: i64 = doy;
    let mut ml: i64 = days_in_month(y, 1) as i64;
    while rem >= ml
        invariant
            1 <= m <= 12,
            0 <= doy < days_in_year(y as int),
            days_before_month(y as int, 13) == days_in_year(y as int),
            ml as int == days_in_month_of(y as int, m as int),
            rem as int == doy as int - days_before_month(y as int, m as int),
            0 <= rem,
        decreases 12 - m,
    {
        proof {
            if m == 12 {
                assert(days_before_month(y as int, 13) == days_before_month(y as int, 12)
                    + days_in_month_of(y as int, 12));
                assert(false);
            }
        }
        rem = rem - ml;
        m = m + 1;
        ml = days_in_month(y, m) as i64;
    }
    let d: u8 = (rem + 1) as u8;
    proof {
        assert(-(YEAR_LIMIT as int) <= y as int <= YEAR_LIMIT as int);
    }
    (y, m, d)
}

/// Day number of the civil date `(y, m, d)`, counted from the epoch.
pub fn civil_to_days(y: i64, m: u8, d: u8) -> (r: i64)
    requires
        valid_ymd(y as int, m as int, d as int),
    ensures
        r as int == days_from_civil(y as int, m as int, d as int),
{
    let ys: i64 = year_start(y);
    let bm: i64 = days_before_month_of_year(y, m);
    ys + bm + d as i64 - 1
}

/// An instant in UTC, held as a civil date and a time of day.
#[derive(Clone, Copy, Debug, PartialEq, Eq, Structural, Hash)]
pub struct DateTime {
    pub year: i64,
    pub month: u8,
    pub day: u8,
    pub hour: u8,
    pub minute: u8,
    pub second: u8,
}

impl DateTime {
    /// Whether the fields denote a real date and time of day.
    pub open spec fn valid(self) -> bool {
        &&& valid_ymd(self.year as int, self.month as int, self.day as int)
        &&& self.hour < 24
        &&& self.minute < 60
        &&& self.second < 60
    }

    /// Seconds since the epoch of the instant the fields denote.
    pub open spec fn epoch(self) -> int {
        days_from_civil(self.year as int, self.month as int, self.day as int) * 86_400
            + self.hour as int * 3600 + self.minute as int * 60 + self.second as int
    }

    /// Builds the instant with the given fields, or `None` when they do not
    /// denote a real date and time of day.
    pub fn new(year: i64, month: u8, day: u8, hour: u8, minute: u8, second: u8) -> (r: Option<
        DateTime,
    >)
        ensures
            ({
                let dt = DateTime { year, month, day, hour, minute, second };
                r == if dt.valid() {
                    Some(dt)
                } else {
                    None::<DateTime>
                }
            }),
    {
        let dt = DateTime { year, month, day, hour, minute, second };
        if -YEAR_LIMIT <= year && year <= YEAR_LIMIT && 1 <= month && month <= 12 && 1 <= day
            && day <= days_in_month(year, month) && hour < 24 && minute < 60 && second < 60 {
            Some(dt)
        } else {
            None
        }
    }

    /// The instant `secs` seconds after the epoch (before it when negative).
    pub fn from_epoch_seconds(secs: i64) -> (r: DateTime)
        ensures
            r.valid(),
            r.epoch() == secs as int,
    {
        let days: i64 = floor_div(secs, 86_400);
        let rem: i64 = floor_rem(secs, 86_400);
        proof {
            lemma_fundamental_div_mod(secs as int, 86_400);
            assert(days as int * 86_400 == 86_400 * (secs as int / 86_400));
        }
        let (y, m, d) = civil_from_days(days);
        let hour: u8 = (rem / 3600) as u8;
        let r2: i64 = rem % 3600;
        let minute: u8 = (r2 / 60) as u8;
        let second: u8 = (r2 % 60) as u8;
        proof {
            lemma_fundamental_div_mod(rem as int, 3600);
            lemma_mod_division_less_than_divisor(rem as int, 3600);
            lemma_fundamental_div_mod(r2 as int, 60);
            lemma_mod_division_less_than_divisor(r2 as int, 60);
        }
        DateTime { year: y, month: m, day: d, hour, minute, second }
    }

    /// Seconds since the epoch; wide enough for every valid instant.
    pub fn epoch_seconds(&self) -> (r: i128)
        requires
            self.valid(),
        ensures
            r as int == self.epoch(),
    {
        let days: i64 = civil_to_days(self.year, self.month, self.day);
        days as i128 * 86_400 + self.hour as i128 * 3600 + self.minute as i128 * 60
            + self.second as i128
    }
}

} // verus!
