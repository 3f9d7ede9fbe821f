//! Strict time parsing: decimal epoch timestamps and relative descriptions
//! such as `"2 weeks ago"`.  Malformed input is a reported error here,
//! never a silent default.
use crate::datetime::{
    civil_from_days, civil_to_days, day_number_of, days_from_civil, days_in_month,
    days_in_month_of, floor_div, lemma_day_number_bounded, DateTime, DAY_LIMIT,
    DAY_SAFE_YEAR_LIMIT,
};
use vstd::prelude::*;

verus! {

/// Why a time string was rejected.
#[derive(Clone, Copy, Debug, PartialEq, Eq, Structural)]
pub enum TimeParseError {
    /// The text does not have the shape `"<digits> <word> ago"`.
    Pattern,
    /// The unit word is not a day, week or month unit.
    UnknownUnit,
    /// The digits do not fit a 64-bit signed integer.
    InvalidNumber,
    /// The described instant falls outside the supported range.
    OutOfRange,
}

/// Whether `c` is an ASCII decimal digit.
pub open spec fn is_digit(c: char) -> bool {
    48 <= c as u32 <= 57
}

/// Numeric value of `c`, for digits; zero otherwise.
pub open spec fn digit_of(c: char) -> int {
    if is_digit(c) {
        c as u32 - 48
    } else {
        0
    }
}

/// Whether every character of `s` is an ASCII decimal digit.
pub open spec fn all_digits(s: Seq<char>) -> bool {
    forall|i: int| 0 <= i < s.len() ==> is_digit(#[trigger] s[i])
}

/// Value of `s` read as a decimal numeral.
pub open spec fn digits_val(s: Seq<char>) -> int
    decreases s.len(),
{
    if s.len() == 0 {
        0
    } else {
        digits_val(s.drop_last()) * 10 + digit_of(s.last())
    }
}

/// A decimal numeral never has a negative value.
pub proof fn lemma_digits_val_nonneg(s: Seq<char>)
    ensures
        digits_val(s) >= 0,
    decreases s.len(),
{
    if s.len() > 0 {
        lemma_digits_val_nonneg(s.drop_last());
    }
}

/// Extending a numeral on the right never shrinks its value.
proof fn lemma_digits_val_prefix_le(s: Seq<char>, i: int)
    requires
        0 <= i <= s.len(),
    ensures
        digits_val(s.subrange(0, i)) <= digits_val(s),
    decreases s.len() - i,
{
    if i < s.len() {
        lemma_digits_val_prefix_le(s, i + 1);
        let a = s.subrange(0, i);
        let b = s.subrange(0, i + 1);
        assert(b.drop_last() =~= a);
        lemma_digits_val_nonneg(a);
    } else {
        assert(s.subrange(0, i) =~= s);
    }
}

/// What `str::parse::<i64>` accepts: an optional sign and at least one
/// digit, with the value in range.
pub open spec fn parse_i64_spec(s: Seq<char>) -> Option<i64> {
    if s.len() == 0 {
        None
    } else {
        let neg = s[0] == '-';
        let digits = if s[0] == '-' || s[0] == '+' {
            s.drop_first()
        } else {
            s
        };
        if digits.len() == 0 || !all_digits(digits) {
            None
        } else {
            let v = digits_val(digits);
            if neg {
                if v <= 0x8000_0000_0000_0000 {
                    Some((-v) as i64)
                } else {
                    None
                }
            } else {
                if v <= 0x7fff_ffff_ffff_ffff {
                    Some(v as i64)
                } else {
                    None
                }
            }
        }
    }
}

/// Value of the digit run `s[from..to]`, accumulated left to right, or
/// `None` as soon as the value can no longer fit a signed 64-bit integer.
fn digits_value(s: &str, from: usize, to: usize) -> (r: Option<i128>)
    requires
        from <= to <= s@.len(),
        all_digits(s@.subrange(from as int, to as int)),
    ensures
        ({
            let v = digits_val(s@.subrange(from as int, to as int));
            match r {
                Some(n) => n == v && 0 <= v <= 0x8000_0000_0000_0000,
                None => v > 0x8000_0000_0000_0000,
            }
        }),
{
    let ghost whole = s@.subrange(from as int, to as int);
    let mut i: usize = from;
    let mut acc: i128 = 0;
    while i < to
        invariant
            from <= i <= to <= s@.len(),
            whole == s@.subrange(from as int, to as int),
            all_digits(whole),
            0 <= acc <= 0x8000_0000_0000_0000,
            acc == digits_val(s@.subrange(from as int, i as int)),
        decreases to - i,
    {
        let c = s.get_char(i);
        let d: i128 = (c as u32) as i128 - 48;
        proof {
            assert(whole[i - from] == s@[i as int]);
            let a = s@.subrange(from as int, i as int);
            let b = s@.subrange(from as int, i + 1);
            assert(b.drop_last() =~= a);
        }
        let next: i128 = acc * 10 + d;
        if next > 0x8000_0000_0000_0000 {
            proof {
                lemma_digits_val_prefix_le(whole, i + 1 - from);
                assert(whole.subrange(0, i + 1 - from) =~= s@.subrange(from as int, i + 1));
            }
            return None;
        }
        acc = next;
        i = i + 1;
    }
    proof {
        assert(s@.subrange(from as int, to as int) =~= whole);
    }
    Some(acc)
}

/// Reads a decimal integer exactly as `str::parse::<i64>` would.
pub fn parse_decimal_i64(s: &str) -> (r: Option<i64>)
    ensures
        r == parse_i64_spec(s@),
{
    let len = s.unicode_len();
    if len == 0 {
        return None;
    }
    let first = s.get_char(0);
    let neg = first == '-';
    let start: usize = if first == '-' || first == '+' {
        1
    } else {
        0
    };
    if len == start {
        return None;
    }
    let ghost digits = if first == '-' || first == '+' {
        s@.drop_first()
    } else {
        s@
    };
    proof {
        assert(digits =~= s@.subrange(start as int, len as int));
    }
    let mut i: usize = start;
    while i < len
        invariant
            start <= i <= len,
            1 <= len == s@.len(),
            start == if s@[0] == '-' || s@[0] == '+' {
                1int
            } else {
                0int
            },
            start < len,
            digits == s@.subrange(start as int, len as int),
            forall|j: int| start <= j < i ==> is_digit(#[trigger] s@[j]),
        decreases len - i,
    {
        let c = s.get_char(i);
        let v = c as u32;
        if v < 48 || v > 57 {
            proof {
                assert(digits[i - start] == s@[i as int]);
                assert(!all_digits(digits));
            }
            return None;
        }
        i = i + 1;
    }
    proof {
        assert forall|j: int| 0 <= j < digits.len() implies is_digit(#[trigger] digits[j]) by {
            assert(digits[j] == s@[j + start]);
        }
    }
    let v = match digits_value(s, start, len) {
        Some(v) => v,
        None => {
            return None;
        },
    };
    if neg {
        Some((-v) as i64)
    } else {
        if v <= 0x7fff_ffff_ffff_ffff {
            Some(v as i64)
        } else {
            None
        }
    }
}

/// A recognised unit word of a relative time description.
#[derive(Clone, Copy, Debug, PartialEq, Eq, Structural)]
pub enum RelUnit {
    Day,
    Week,
    Month,
}

/// Index of the first space in `s` at or after `i`; the length of `s`
/// when there is none.
pub open spec fn first_space(s: Seq<char>, i: int) -> int
    decreases s.len() - i,
{
    if i < 0 || i >= s.len() {
        s.len() as int
    } else if s[i] == ' ' {
        i
    } else {
        first_space(s, i + 1)
    }
}

/// Whether `s` ends in `" ago"`.
pub open spec fn has_ago_suffix(s: Seq<char>) -> bool {
    let l = s.len() as int;
    l >= 4 && s[l - 4] == ' ' && s[l - 3] == 'a' && s[l - 2] == 'g' && s[l - 1] == 'o'
}

/// `s` without its `" ago"` suffix.
pub open spec fn rel_head(s: Seq<char>) -> Seq<char> {
    s.subrange(0, s.len() - 4)
}

/// Whether `s` has the shape `"<digits> <word> ago"`: a nonempty digit
/// run, one space, a nonempty unit word without spaces, and the suffix.
pub open spec fn rel_shape_ok(s: Seq<char>) -> bool {
    let h = rel_head(s);
    let sp = first_space(h, 0);
    &&& has_ago_suffix(s)
    &&& 1 <= sp
    &&& sp + 1 < h.len()
    &&& all_digits(h.subrange(0, sp))
    &&& first_space(h, sp + 1) == h.len()
}

/// The digit run of a well-shaped relative description.
pub open spec fn rel_digits(s: Seq<char>) -> Seq<char> {
    rel_head(s).subrange(0, first_space(rel_head(s), 0))
}

/// The unit word of a well-shaped relative description.
pub open spec fn rel_unit_seq(s: Seq<char>) -> Seq<char> {
    let h = rel_head(s);
    h.subrange(first_space(h, 0) + 1, h.len() as int)
}

/// The amount of a well-shaped relative description.
pub open spec fn rel_amount(s: Seq<char>) -> int {
    digits_val(rel_digits(s))
}

/// Which unit a unit word denotes, if any.
pub open spec fn unit_of(u: Seq<char>) -> Option<RelUnit> {
    if u == seq!['d', 'a', 'y'] || u == seq!['d', 'a', 'y', 's'] {
        Some(RelUnit::Day)
    } else if u == seq!['w', 'e', 'e', 'k'] || u == seq!['w', 'e', 'e', 'k', 's'] {
        Some(RelUnit::Week)
    } else if u == seq!['m', 'o', 'n', 't', 'h'] || u == seq!['m', 'o', 'n', 't', 'h', 's'] {
        Some(RelUnit::Month)
    } else {
        None
    }
}

/// `dt` lies exactly `n` days before `base`, at the same time of day.
pub open spec fn shifted_by_days(base: DateTime, n: int, dt: DateTime) -> bool {
    &&& dt.valid()
    &&& dt.epoch() == base.epoch() - n * 86_400
    &&& dt.hour == base.hour
    &&& dt.minute == base.minute
    &&& dt.second == base.second
}

/// Whether the day `n` days before `base` is still representable.
pub open spec fn days_shift_in_range(base: DateTime, n: int) -> bool {
    -(DAY_LIMIT as int) <= days_from_civil(base.year as int, base.month as int, base.day as int)
        - n <= DAY_LIMIT as int
}

/// Number of whole months from month 1 of year 0 to the month of `dt`.
pub open spec fn month_index(dt: DateTime) -> int {
    dt.year as int * 12 + dt.month as int - 1
}

/// `dt` is the instant `n` calendar months before `base`: same time of
/// day, month index lowered by `n`, and the day of month clamped to the
/// length of the target month.
pub open spec fn months_ago(base: DateTime, n: int, dt: DateTime) -> bool {
    &&& dt.valid()
    &&& month_index(dt) == month_index(base) - n
    &&& dt.day as int == if base.day as int <= days_in_month_of(dt.year as int, dt.month as int) {
        base.day as int
    } else {
        days_in_month_of(dt.year as int, dt.month as int)
    }
    &&& dt.hour == base.hour
    &&& dt.minute == base.minute
    &&& dt.second == base.second
}

/// Whether the month `n` months before `base` still lies in the range
/// the calendar conversions cover.
pub open spec fn months_in_range(base: DateTime, n: int) -> bool {
    -(DAY_SAFE_YEAR_LIMIT as int) * 12 <= month_index(base) - n <= (DAY_SAFE_YEAR_LIMIT as int)
        * 12 + 11
}

/// What computing a relative description must yield: the exact shifted
/// instant whenever it is representable, a range error otherwise.
pub open spec fn compute_relative_post(
    r: Result<DateTime, TimeParseError>,
    amount: int,
    unit: RelUnit,
    base: DateTime,
) -> bool {
    &&& (r matches Ok(dt) ==> -(DAY_LIMIT as int) <= day_number_of(dt) <= DAY_LIMIT as int)
    &&& match unit {
        RelUnit::Day => {
            &&& (r is Ok <==> days_shift_in_range(base, amount))
            &&& (r matches Ok(dt) ==> shifted_by_days(base, amount, dt))
            &&& (r is Err ==> r == Err::<DateTime, TimeParseError>(TimeParseError::OutOfRange))
        },
        RelUnit::Week => {
            &&& (r is Ok <==> days_shift_in_range(base, amount * 7))
            &&& (r matches Ok(dt) ==> shifted_by_days(base, amount * 7, dt))
            &&& (r is Err ==> r == Err::<DateTime, TimeParseError>(TimeParseError::OutOfRange))
        },
        RelUnit::Month => {
            &&& (r is Ok <==> months_in_range(base, amount))
            &&& (r matches Ok(dt) ==> months_ago(base, amount, dt))
            &&& (r is Err ==> r == Err::<DateTime, TimeParseError>(TimeParseError::OutOfRange))
        },
    }
}


/// Whether `s` is a well-shaped relative description, in a known unit,
/// whose amount fits and whose instant is representable.
pub open spec fn parse_relative_accepts(s: Seq<char>, base: DateTime) -> bool {
    &&& rel_shape_ok(s)
    &&& rel_amount(s) <= i64::MAX
    &&& match unit_of(rel_unit_seq(s)) {
        Some(RelUnit::Day) => days_shift_in_range(base, rel_amount(s)),
        Some(RelUnit::Week) => days_shift_in_range(base, rel_amount(s) * 7),
        Some(RelUnit::Month) => months_in_range(base, rel_amount(s)),
        None => false,
    }
}

/// The instant a successful relative parse returns.
pub open spec fn parse_relative_result(s: Seq<char>, base: DateTime, dt: DateTime) -> bool {
    match unit_of(rel_unit_seq(s)) {
        Some(RelUnit::Day) => shifted_by_days(base, rel_amount(s), dt),
        Some(RelUnit::Week) => shifted_by_days(base, rel_amount(s) * 7, dt),
        Some(RelUnit::Month) => months_ago(base, rel_amount(s), dt),
        None => false,
    }
}

/// The decimal numeral of `n`.
pub open spec fn digits_of(n: int) -> Seq<char>
    decreases n,
{
    if n < 0 {
        Seq::empty()
    } else if n < 10 {
        seq![((48 + n) as u8) as char]
    } else {
        digits_of(n / 10).push(((48 + n % 10) as u8) as char)
    }
}

/// The numeral of `n` is a nonempty digit run whose value is `n`.
pub proof fn lemma_digits_of(n: int)
    requires
        0 <= n,
    ensures
        digits_of(n).len() >= 1,
        all_digits(digits_of(n)),
        digits_val(digits_of(n)) == n,
        forall|i: int| 0 <= i < digits_of(n).len() ==> #[trigger] digits_of(n)[i] != ' ',
    decreases n,
{
    if n < 10 {
        let s = digits_of(n);
        assert(s.len() == 1);
        assert((((48 + n) as u8) as char) as u32 == 48 + n);
        assert(is_digit(s[0]));
        assert(s.drop_last() =~= Seq::<char>::empty());
        assert(digits_val(Seq::<char>::empty()) == 0);
        assert(s.last() == s[0]);
        assert(digits_val(s) == digit_of(s[0]));
    } else {
        lemma_digits_of(n / 10);
        let s = digits_of(n);
        let hd = digits_of(n / 10);
        assert(s == hd.push(((48 + n % 10) as u8) as char));
        assert(s.drop_last() =~= hd);
        assert(s.last() == ((48 + n % 10) as u8) as char);
        assert(0 <= n % 10 < 10);
        assert((((48 + n % 10) as u8) as char) as u32 == 48 + n % 10);
        assert(is_digit(s.last()));
        assert(digit_of(s.last()) == n % 10);
        assert(digits_val(s) == digits_val(hd) * 10 + n % 10);
        vstd::arithmetic::div_mod::lemma_fundamental_div_mod(n, 10);
        assert(forall|i: int| 0 <= i < s.len() ==> is_digit(#[trigger] s[i]));
    }
}

/// A recognised unit word contains no space.
proof fn lemma_unit_word_no_space(u: Seq<char>)
    requires
        unit_of(u) is Some,
    ensures
        forall|i: int| 0 <= i < u.len() ==> #[trigger] u[i] != ' ',
        u.len() >= 1,
{
    lemma_unit_words();
    assert forall|i: int| 0 <= i < u.len() implies #[trigger] u[i] != ' ' by {
        if u == seq!['d', 'a', 'y'] {
            assert(u[i] == seq!['d', 'a', 'y'][i]);
        } else if u == seq!['d', 'a', 'y', 's'] {
            assert(u[i] == seq!['d', 'a', 'y', 's'][i]);
        } else if u == seq!['w', 'e', 'e', 'k'] {
            assert(u[i] == seq!['w', 'e', 'e', 'k'][i]);
        } else if u == seq!['w', 'e', 'e', 'k', 's'] {
            assert(u[i] == seq!['w', 'e', 'e', 'k', 's'][i]);
        } else if u == seq!['m', 'o', 'n', 't', 'h'] {
            assert(u[i] == seq!['m', 'o', 'n', 't', 'h'][i]);
        } else {
            assert(u == seq!['m', 'o', 'n', 't', 'h', 's']);
            assert(u[i] == seq!['m', 'o', 'n', 't', 'h', 's'][i]);
        }
    }
}

/// The string `"<n> <unit> ago"` is a well-shaped relative description:
/// its amount reads back as `n` and its unit word is `unit`.
pub proof fn lemma_relative_description(n: int, unit: Seq<char>)
    requires
        0 <= n,
        unit_of(unit) is Some,
    ensures
        ({
            let s = digits_of(n) + seq![' '] + unit + seq![' ', 'a', 'g', 'o'];
            &&& rel_shape_ok(s)
            &&& rel_amount(s) == n
            &&& rel_unit_seq(s) == unit
        }),
{
    lemma_digits_of(n);
    lemma_unit_word_no_space(unit);
    let d = digits_of(n);
    let s = d + seq![' '] + unit + seq![' ', 'a', 'g', 'o'];
    let h = rel_head(s);
    assert(h =~= d + seq![' '] + unit);
    assert(has_ago_suffix(s)) by {
        assert(s[s.len() - 4] == ' ' && s[s.len() - 3] == 'a' && s[s.len() - 2] == 'g' && s[s.len()
            - 1] == 'o');
    }
    assert(h[d.len() as int] == ' ');
    assert(forall|i: int| 0 <= i < d.len() ==> #[trigger] h[i] == d[i]);
    assert(forall|i: int| 0 <= i < d.len() ==> #[trigger] h[i] != ' ');
    lemma_first_space_at(h, 0, d.len() as int);
    assert(first_space(h, 0) == d.len());
    assert(forall|i: int|
        d.len() + 1 <= i < h.len() ==> #[trigger] h[i] == unit[i - d.len() - 1]);
    assert(forall|i: int| d.len() + 1 <= i < h.len() ==> #[trigger] h[i] != ' ');
    lemma_first_space_at(h, d.len() as int + 1, h.len() as int);
    assert(rel_digits(s) =~= d);
    assert(rel_unit_seq(s) =~= unit);
}

/// For every `n >= 0` and a day or week unit, the instant a well-formed
/// relative description denotes is exactly `n` day-lengths or week-
/// lengths of seconds before the base — whenever it is representable
/// at all.
pub proof fn lemma_fixed_units_exact(n: int, unit: Seq<char>, base: DateTime, dt: DateTime)
    requires
        0 <= n,
        base.valid(),
        unit_of(unit) == Some(RelUnit::Day) || unit_of(unit) == Some(RelUnit::Week),
        parse_relative_result(digits_of(n) + seq![' '] + unit + seq![' ', 'a', 'g', 'o'], base, dt),
    ensures
        unit_of(unit) == Some(RelUnit::Day) ==> dt.epoch() == base.epoch() - n * 86_400,
        unit_of(unit) == Some(RelUnit::Week) ==> dt.epoch() == base.epoch() - n * 604_800,
{
    lemma_relative_description(n, unit);
    let s = digits_of(n) + seq![' '] + unit + seq![' ', 'a', 'g', 'o'];
    if unit_of(unit) == Some(RelUnit::Week) {
        assert((n * 7) * 86_400 == n * 604_800) by (nonlinear_arith);
    }
}

/// The instant `amount` calendar months before `base`.  The month field
/// steps back with a year borrow on underflow, and a day of month missing
/// from the target month clamps to that month's last day.
pub fn relative_months(base: &DateTime, amount: i64) -> (r: Result<DateTime, TimeParseError>)
    requires
        base.valid(),
        amount >= 0,
    ensures
        r is Ok <==> months_in_range(*base, amount as int),
        r matches Ok(dt) ==> months_ago(*base, amount as int, dt) && -(DAY_LIMIT as int)
            <= day_number_of(dt) <= DAY_LIMIT as int,
        r is Err ==> r == Err::<DateTime, TimeParseError>(TimeParseError::OutOfRange),
{
    let mi: i128 = base.year as i128 * 12 + (base.month as i128 - 1);
    let t: i128 = mi - amount as i128;
    if t < -(DAY_SAFE_YEAR_LIMIT as i128) * 12 || t > (DAY_SAFE_YEAR_LIMIT as i128) * 12 + 11 {
        return Err(TimeParseError::OutOfRange);
    }
    let t64: i64 = t as i64;
    let y2: i64 = floor_div(t64, 12);
    let rem: i64 = crate::datetime::floor_rem(t64, 12);
    proof {
        vstd::arithmetic::div_mod::lemma_fundamental_div_mod(t64 as int, 12);
        assert((-(DAY_SAFE_YEAR_LIMIT as int) * 12) / 12 == -(DAY_SAFE_YEAR_LIMIT as int)
            && (DAY_SAFE_YEAR_LIMIT as int * 12 + 11) / 12 == DAY_SAFE_YEAR_LIMIT as int) by {
            vstd::arithmetic::div_mod::lemma_fundamental_div_mod_converse(
                -(DAY_SAFE_YEAR_LIMIT as int) * 12,
                12,
                -(DAY_SAFE_YEAR_LIMIT as int),
                0,
            );
            vstd::arithmetic::div_mod::lemma_fundamental_div_mod_converse(
                DAY_SAFE_YEAR_LIMIT as int * 12 + 11,
                12,
                DAY_SAFE_YEAR_LIMIT as int,
                11,
            );
        }
        vstd::arithmetic::div_mod::lemma_div_is_ordered(
            -(DAY_SAFE_YEAR_LIMIT as int) * 12,
            t64 as int,
            12,
        );
        vstd::arithmetic::div_mod::lemma_div_is_ordered(
            t64 as int,
            DAY_SAFE_YEAR_LIMIT as int * 12 + 11,
            12,
        );
    }
    let m2: u8 = (rem + 1) as u8;
    let dim: u8 = days_in_month(y2, m2);
    let d2: u8 = if base.day <= dim {
        base.day
    } else {
        dim
    };
    proof {
        lemma_day_number_bounded(y2 as int, m2 as int, d2 as int);
    }
    Ok(
        DateTime {
            year: y2,
            month: m2,
            day: d2,
            hour: base.hour,
            minute: base.minute,
            second: base.second,
        },
    )
}

/// The instant `amount` days before `base` (`days_per_unit` 1) or
/// `amount` weeks before it (`days_per_unit` 7).
fn shift_back_days(base: &DateTime, amount: i64, days_per_unit: i64) -> (r: Result<
    DateTime,
    TimeParseError,
>)
    requires
        base.valid(),
        amount >= 0,
        days_per_unit == 1 || days_per_unit == 7,
    ensures
        r is Ok <==> days_shift_in_range(*base, amount as int * days_per_unit as int),
        r matches Ok(dt) ==> shifted_by_days(*base, amount as int * days_per_unit as int, dt)
            && -(DAY_LIMIT as int) <= day_number_of(dt) <= DAY_LIMIT as int,
        r is Err ==> r == Err::<DateTime, TimeParseError>(TimeParseError::OutOfRange),
{
    let bd: i64 = civil_to_days(base.year, base.month, base.day);
    let target: i128 = bd as i128 - amount as i128 * days_per_unit as i128;
    if target < -(DAY_LIMIT as i128) || target > DAY_LIMIT as i128 {
        return Err(TimeParseError::OutOfRange);
    }
    let (y, m, d) = civil_from_days(target as i64);
    Ok(
        DateTime {
            year: y,
            month: m,
            day: d,
            hour: base.hour,
            minute: base.minute,
            second: base.second,
        },
    )
}

/// The instant `amount` units before `base`.
pub fn compute_relative(amount: i64, unit: RelUnit, base: &DateTime) -> (r: Result<
    DateTime,
    TimeParseError,
>)
    requires
        base.valid(),
        amount >= 0,
    ensures
        compute_relative_post(r, amount as int, unit, *base),
{
    match unit {
        RelUnit::Day => shift_back_days(base, amount, 1),
        RelUnit::Week => shift_back_days(base, amount, 7),
        RelUnit::Month => relative_months(base, amount),
    }
}

/// A scan that found no space up to `k`, and a space (or the end) at `k`,
/// pins down where the first space is.
proof fn lemma_first_space_at(s: Seq<char>, i: int, k: int)
    requires
        0 <= i <= k <= s.len(),
        forall|j: int| i <= j < k ==> #[trigger] s[j] != ' ',
        k == s.len() || s[k] == ' ',
    ensures
        first_space(s, i) == if k < s.len() {
            k
        } else {
            s.len() as int
        },
    decreases k - i,
{
    if i < k {
        lemma_first_space_at(s, i + 1, k);
    }
}

/// Ground facts about the six unit words.
proof fn lemma_unit_words()
    ensures
        seq!['d', 'a', 'y'].len() == 3,
        seq!['d', 'a', 'y', 's'].len() == 4,
        seq!['w', 'e', 'e', 'k'].len() == 4,
        seq!['w', 'e', 'e', 'k', 's'].len() == 5,
        seq!['m', 'o', 'n', 't', 'h'].len() == 5,
        seq!['m', 'o', 'n', 't', 'h', 's'].len() == 6,
        seq!['d', 'a', 'y', 's'][0] == 'd' && seq!['d', 'a', 'y', 's'][1] == 'a' && seq![
            'd',
            'a',
            'y',
            's',
        ][2] == 'y' && seq!['d', 'a', 'y', 's'][3] == 's',
        seq!['w', 'e', 'e', 'k'][0] == 'w' && seq!['w', 'e', 'e', 'k'][1] == 'e' && seq![
            'w',
            'e',
            'e',
            'k',
        ][2] == 'e' && seq!['w', 'e', 'e', 'k'][3] == 'k',
        seq!['w', 'e', 'e', 'k', 's'][0] == 'w' && seq!['w', 'e', 'e', 'k', 's'][4] == 's',
        seq!['m', 'o', 'n', 't', 'h'][0] == 'm' && seq!['m', 'o', 'n', 't', 'h'][1] == 'o' && seq![
            'm',
            'o',
            'n',
            't',
            'h',
        ][2] == 'n' && seq!['m', 'o', 'n', 't', 'h'][3] == 't' && seq!['m', 'o', 'n', 't', 'h'][4]
            == 'h',
        seq!['d', 'a', 'y'][0] == 'd' && seq!['d', 'a', 'y'][1] == 'a' && seq!['d', 'a', 'y'][2]
            == 'y',
{
}

/// The unit denoted by `s[from..to]`, if any.
fn unit_from(s: &str, from: usize, to: usize) -> (r: Option<RelUnit>)
    requires
        from <= to <= s@.len(),
    ensures
        r == unit_of(s@.subrange(from as int, to as int)),
{
    proof {
        lemma_unit_words();
    }
    let ghost u = s@.subrange(from as int, to as int);
    let n = to - from;
    if n == 3 {
        if s.get_char(from) == 'd' && s.get_char(from + 1) == 'a' && s.get_char(from + 2) == 'y' {
            proof {
                assert(u =~= seq!['d', 'a', 'y']);
            }
            Some(RelUnit::Day)
        } else {
            None
        }
    } else if n == 4 {
        let c0 = s.get_char(from);
        let c1 = s.get_char(from + 1);
        let c2 = s.get_char(from + 2);
        let c3 = s.get_char(from + 3);
        if c0 == 'd' && c1 == 'a' && c2 == 'y' && c3 == 's' {
            proof {
                assert(u =~= seq!['d', 'a', 'y', 's']);
            }
            Some(RelUnit::Day)
        } else if c0 == 'w' && c1 == 'e' && c2 == 'e' && c3 == 'k' {
            proof {
                assert(u =~= seq!['w', 'e', 'e', 'k']);
            }
            Some(RelUnit::Week)
        } else {
            None
        }
    } else if n == 5 {
        let c0 = s.get_char(from);
        let c1 = s.get_char(from + 1);
        let c2 = s.get_char(from + 2);
        let c3 = s.get_char(from + 3);
        let c4 = s.get_char(from + 4);
        if c0 == 'w' && c1 == 'e' && c2 == 'e' && c3 == 'k' && c4 == 's' {
            proof {
                assert(u =~= seq!['w', 'e', 'e', 'k', 's']);
            }
            Some(RelUnit::Week)
        } else if c0 == 'm' && c1 == 'o' && c2 == 'n' && c3 == 't' && c4 == 'h' {
            proof {
                assert(u =~= seq!['m', 'o', 'n', 't', 'h']);
            }
            Some(RelUnit::Month)
        } else {
            None
        }
    } else if n == 6 {
        let c0 = s.get_char(from);
        let c1 = s.get_char(from + 1);
        let c2 = s.get_char(from + 2);
        let c3 = s.get_char(from + 3);
        let c4 = s.get_char(from + 4);
        let c5 = s.get_char(from + 5);
        if c0 == 'm' && c1 == 'o' && c2 == 'n' && c3 == 't' && c4 == 'h' && c5 == 's' {
            proof {
                assert(u =~= seq!['m', 'o', 'n', 't', 'h', 's']);
            }
            Some(RelUnit::Month)
        } else {
            None
        }
    } else {
        None
    }
}

/// Reads a description of the shape `"<n> <unit> ago"` — unit a day, week
/// or month word — and returns the instant that long before `base`.
/// Anything else, a unit it does not know, an amount that does not fit,
/// or an instant out of range is a reported error, never a default.
pub fn parse_relative(string: &str, base: &DateTime) -> (r: Result<DateTime, TimeParseError>)
    requires
        base.valid(),
    ensures
        r is Ok <==> parse_relative_accepts(string@, *base),
        r matches Ok(dt) ==> parse_relative_result(string@, *base, dt),
        !rel_shape_ok(string@) ==> r == Err::<DateTime, TimeParseError>(TimeParseError::Pattern),
        rel_shape_ok(string@) ==> match unit_of(rel_unit_seq(string@)) {
            Some(u) => {
                if rel_amount(string@) <= i64::MAX {
                    compute_relative_post(r, rel_amount(string@), u, *base)
                } else {
                    r == Err::<DateTime, TimeParseError>(TimeParseError::InvalidNumber)
                }
            },
            None => r == Err::<DateTime, TimeParseError>(TimeParseError::UnknownUnit),
        },
{
    let l = string.unicode_len();
    if l < 7 {
        return Err(TimeParseError::Pattern);
    }
    if !(string.get_char(l - 4) == ' ' && string.get_char(l - 3) == 'a' && string.get_char(l - 2)
        == 'g' && string.get_char(l - 1) == 'o') {
        return Err(TimeParseError::Pattern);
    }
    let hlen = l - 4;
    let ghost h = rel_head(string@);
    proof {
        assert(h.len() == hlen);
        assert(forall|j: int| 0 <= j < h.len() ==> h[j] == string@[j]);
    }
    // Find the first space of the head.
    let mut sp: usize = 0;
    while sp < hlen && string.get_char(sp) != ' '
        invariant
            0 <= sp <= hlen,
            hlen + 4 == l == string@.len(),
            h == rel_head(string@),
            h.len() == hlen,
            forall|j: int| 0 <= j < sp ==> #[trigger] h[j] != ' ',
        decreases hlen - sp,
    {
        sp = sp + 1;
    }
    proof {
        lemma_first_space_at(h, 0, sp as int);
    }
    if sp == 0 || sp >= hlen - 1 {
        return Err(TimeParseError::Pattern);
    }
    // The amount: every character before the space must be a digit.
    let mut i: usize = 0;
    while i < sp
        invariant
            0 <= i <= sp < hlen,
            hlen + 4 == l == string@.len(),
            h == rel_head(string@),
            h.len() == hlen,
            first_space(h, 0) == sp as int,
            forall|j: int| 0 <= j < i ==> is_digit(#[trigger] h[j]),
        decreases sp - i,
    {
        let c = string.get_char(i);
        let v = c as u32;
        if v < 48 || v > 57 {
            proof {
                assert(!is_digit(h[i as int]));
                assert(h.subrange(0, first_space(h, 0))[i as int] == h[i as int]);
            }
            return Err(TimeParseError::Pattern);
        }
        i = i + 1;
    }
    // The unit word must contain no further space.
    let mut j: usize = sp + 1;
    while j < hlen && string.get_char(j) != ' '
        invariant
            sp + 1 <= j <= hlen,
            hlen + 4 == l == string@.len(),
            h == rel_head(string@),
            h.len() == hlen,
            forall|k: int| sp + 1 <= k < j ==> #[trigger] h[k] != ' ',
        decreases hlen - j,
    {
        j = j + 1;
    }
    proof {
        lemma_first_space_at(h, sp as int + 1, j as int);
    }
    if j < hlen {
        return Err(TimeParseError::Pattern);
    }
    proof {
        assert(rel_shape_ok(string@)) by {
            assert forall|k: int| 0 <= k < sp implies is_digit(#[trigger] h.subrange(
                0,
                first_space(h, 0),
            )[k]) by {
                assert(h.subrange(0, first_space(h, 0))[k] == h[k]);
            }
        }
        assert(rel_unit_seq(string@) =~= string@.subrange(sp as int + 1, hlen as int));
        assert(rel_digits(string@) =~= string@.subrange(0, sp as int));
    }
    let unit = match unit_from(string, sp + 1, hlen) {
        Some(u) => u,
        None => {
            return Err(TimeParseError::UnknownUnit);
        },
    };
    proof {
        assert forall|k: int| 0 <= k < sp implies is_digit(
            #[trigger] string@.subrange(0, sp as int)[k],
        ) by {
            assert(string@.subrange(0, sp as int)[k] == h[k]);
        }
        lemma_digits_val_nonneg(rel_digits(string@));
    }
    let amount: i64 = match digits_value(string, 0, sp) {
        Some(v) => {
            if v <= 0x7fff_ffff_ffff_ffff {
                v as i64
            } else {
                return Err(TimeParseError::InvalidNumber);
            }
        },
        None => {
            return Err(TimeParseError::InvalidNumber);
        },
    };
    compute_relative(amount, unit, base)
}

/// Reads a decimal count of epoch seconds and returns the instant it
/// denotes; a string `str::parse::<i64>` would reject is an error.
pub fn parse_unix(time: &str) -> (r: Result<DateTime, TimeParseError>)
    ensures
        match parse_i64_spec(time@) {
            Some(t) => r matches Ok(dt) && dt.valid() && dt.epoch() == t as int,
            None => r == Err::<DateTime, TimeParseError>(TimeParseError::InvalidNumber),
        },
{
    match parse_decimal_i64(time) {
        Some(t) => Ok(DateTime::from_epoch_seconds(t)),
        None => Err(TimeParseError::InvalidNumber),
    }
}

} // verus!
