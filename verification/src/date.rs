//! Calendar-date arithmetic for the proleptic Gregorian calendar:
//! month lengths, weekday of a date, and parsing of ISO `YYYY-MM-DD`
//! date strings.

use vstd::prelude::*;
use vstd::arithmetic::div_mod::lemma_mod_multiples_vanish;
use vstd::arithmetic::div_mod::lemma_hoist_over_denominator;
use vstd::arithmetic::div_mod::lemma_div_nonincreasing;
use vstd::arithmetic::div_mod::lemma_div_pos_is_pos;

verus! {

/// Whether `y` is a leap year in the proleptic Gregorian calendar.
pub open spec fn is_leap_year(y: int) -> bool {
    y % 4 == 0 && (y % 100 != 0 || y % 400 == 0)
}

/// Number of days in month `m` (1..=12) of year `y`.
pub open spec fn spec_days_of_month(y: int, m: int) -> int {
    if m == 2 {
        if is_leap_year(y) {
            29
        } else {
            28
        }
    } else if m == 4 || m == 6 || m == 9 || m == 11 {
        30
    } else {
        31
    }
}

/// February has 29 days exactly in leap years, 28 otherwise; no other
/// month length depends on the year.
pub proof fn lemma_february_leap(y: int)
    ensures
        spec_days_of_month(y, 2) == 29 <==> (y % 4 == 0 && (y % 100 != 0 || y % 400 == 0)),
        spec_days_of_month(y, 2) == 28 <==> !(y % 4 == 0 && (y % 100 != 0 || y % 400 == 0)),
{
}

pub fn get_days_of_month(year: i32, month: u32) -> (days: u32)
    requires
        1 <= month <= 12,
    ensures
        days == spec_days_of_month(year as int, month as int),
        28 <= days <= 31,
{
    if month == 2 {
        // Shift by a positive multiple of 400 years so that every
        // remainder below is taken of a non-negative value; the leap
        // pattern repeats every 400 years.
        let y: i64 = year as i64 + 2_400_000_000;
        proof {
            lemma_mod_multiples_vanish(600_000_000, year as int, 4);
            lemma_mod_multiples_vanish(24_000_000, year as int, 100);
            lemma_mod_multiples_vanish(6_000_000, year as int, 400);
        }
        if y % 4 == 0 && (y % 100 != 0 || y % 400 == 0) {
            29
        } else {
            28
        }
    } else if month == 4 || month == 6 || month == 9 || month == 11 {
        30
    } else {
        31
    }
}

/// Days in months 1..m of year `y`, i.e. days of the year strictly
/// before the first day of month `m`.
pub open spec fn days_before_month(y: int, m: int) -> int
    decreases m,
{
    if m <= 1 {
        0
    } else {
        days_before_month(y, m - 1) + spec_days_of_month(y, m - 1)
    }
}

/// Number of leap years strictly before year `y`, counting from year 1.
pub open spec fn leap_years_before(y: int) -> int {
    (y - 1) / 4 - (y - 1) / 100 + (y - 1) / 400
}

/// Position of a date in the proleptic Gregorian calendar: day `d` of
/// month `m` of year `y` falls `day_index(y, m, d)` days after January 1
/// of year 1, which has index 0.
pub open spec fn day_index(y: int, m: int, d: int) -> int {
    365 * (y - 1) + leap_years_before(y) + days_before_month(y, m) + (d - 1)
}

/// Weekday of a date, 0 = Sunday .. 6 = Saturday. January 1 of year 1 is
/// a Monday in the proleptic Gregorian calendar, hence the offset of 1.
pub open spec fn spec_weekday(y: int, m: int, d: int) -> int {
    (day_index(y, m, d) + 1) % 7
}

proof fn lemma_leap_shift(y: int, k: int)
    ensures
        is_leap_year(y + 400 * k) == is_leap_year(y),
{
    lemma_mod_multiples_vanish(100 * k, y, 4);
    lemma_mod_multiples_vanish(4 * k, y, 100);
    lemma_mod_multiples_vanish(k, y, 400);
}

proof fn lemma_days_before_month_shift(y: int, m: int, k: int)
    ensures
        days_before_month(y + 400 * k, m) == days_before_month(y, m),
    decreases m,
{
    if m > 1 {
        lemma_days_before_month_shift(y, m - 1, k);
        lemma_leap_shift(y, k);
    }
}

/// Shifting a year by a multiple of 400 shifts its day index by the same
/// multiple of 146097 days (the length of a 400-year Gregorian cycle) and
/// so leaves every weekday unchanged, 146097 being a multiple of 7.
proof fn lemma_weekday_shift(y: int, m: int, d: int, k: int)
    ensures
        day_index(y + 400 * k, m, d) == day_index(y, m, d) + 146097 * k,
        spec_weekday(y + 400 * k, m, d) == spec_weekday(y, m, d),
{
    lemma_days_before_month_shift(y, m, k);
    assert((y + 400 * k - 1) / 4 == (y - 1) / 4 + 100 * k) by {
        lemma_hoist_over_denominator(y - 1, 100 * k, 4);
    }
    assert((y + 400 * k - 1) / 100 == (y - 1) / 100 + 4 * k) by {
        lemma_hoist_over_denominator(y - 1, 4 * k, 100);
    }
    assert((y + 400 * k - 1) / 400 == (y - 1) / 400 + k) by {
        lemma_hoist_over_denominator(y - 1, k, 400);
    }
    lemma_mod_multiples_vanish(20871 * k, day_index(y, m, d) + 1, 7);
}

proof fn lemma_days_before_month_bounds(y: int, m: int)
    requires
        1 <= m <= 13,
    ensures
        0 <= days_before_month(y, m) <= 31 * (m - 1),
    decreases m,
{
    if m > 1 {
        lemma_days_before_month_bounds(y, m - 1);
    }
}

/// Weekday (0 = Sunday .. 6 = Saturday) on which month `month` of year
/// `year` begins, by proleptic Gregorian arithmetic.
pub fn start_weekday_index(year: i32, month: u32) -> (w: u32)
    requires
        1 <= month <= 12,
    ensures
        w == spec_weekday(year as int, month as int, 1),
        w < 7,
{
    // Work on a year shifted by a positive multiple of 400 so that every
    // intermediate value is non-negative; the shift leaves the weekday
    // unchanged.
    let y: i64 = year as i64 + 2_400_000_000;
    proof {
        lemma_div_pos_is_pos(y - 1, 4);
        lemma_div_pos_is_pos(y - 1, 100);
        lemma_div_pos_is_pos(y - 1, 400);
        lemma_div_nonincreasing(y - 1, 4);
        lemma_div_nonincreasing(y - 1, 100);
        lemma_div_nonincreasing(y - 1, 400);
    }
    let mut days: i64 = 365 * (y - 1) + (y - 1) / 4 - (y - 1) / 100 + (y - 1) / 400;
    let mut m: u32 = 1;
    proof {
        lemma_days_before_month_bounds(year as int, month as int);
    }
    while m < month
        invariant
            1 <= m <= month <= 12,
            y == year as i64 + 2_400_000_000,
            days == 365 * (y - 1) + leap_years_before(y as int) + days_before_month(
                year as int,
                m as int,
            ),
            0 <= days_before_month(year as int, m as int) <= 31 * (m - 1),
            0 <= 365 * (y - 1) + leap_years_before(y as int) < 0x7000_0000_0000,
        decreases month - m,
    {
        days = days + get_days_of_month(year, m) as i64;
        proof {
            lemma_days_before_month_bounds(year as int, m as int + 1);
        }
        m = m + 1;
    }
    proof {
        lemma_weekday_shift(year as int, month as int, 1, 6_000_000);
        lemma_days_before_month_shift(year as int, month as int, 6_000_000);
    }
    ((days + 1) % 7) as u32
}

/// A calendar date held as plain values, as read from an ISO
/// `YYYY-MM-DD` date string.
#[derive(Clone, Copy, PartialEq, Eq, Structural, Debug)]
pub struct CalendarDate {
    pub year: i32,
    pub month: u32,
    pub day: u32,
}

pub open spec fn is_digit(c: char) -> bool {
    '0' as u32 <= c as u32 && c as u32 <= '9' as u32
}

pub open spec fn digit_val(c: char) -> int {
    c as u32 - '0' as u32
}

pub open spec fn all_digits(s: Seq<char>) -> bool {
    forall|i: int| 0 <= i < s.len() ==> is_digit(#[trigger] s[i])
}

/// Value of a sequence of decimal digit characters, most significant first.
pub open spec fn digits_val(s: Seq<char>) -> int
    decreases s.len(),
{
    if s.len() == 0 {
        0
    } else {
        digits_val(s.drop_last()) * 10 + digit_val(s.last())
    }
}

/// The date denoted by a four-digit year and digit fields for the month
/// and the day (the day field of one or two digits): a date only when the
/// month lies in 1..=12 and the day exists in that month of that year.
pub open spec fn spec_parse_fields(y: int, mf: Seq<char>, df: Seq<char>) -> Option<
    (int, int, int),
> {
    if all_digits(mf) && all_digits(df) && 1 <= df.len() <= 2 {
        let m = digits_val(mf);
        let d = digits_val(df);
        if 1 <= m <= 12 && 1 <= d <= spec_days_of_month(y, m) {
            Some((y, m, d))
        } else {
            None
        }
    } else {
        None
    }
}

/// The date a string denotes: exactly the strings `YYYY-M-D` with a
/// four-digit year, the month and the day of one or two digits each
/// (`2024-02-04` as well as `2024-2-4`), whose month lies in 1..=12 and
/// whose day exists in that month, denote a date; every other string
/// denotes none.
pub open spec fn spec_parse_date(s: Seq<char>) -> Option<(int, int, int)> {
    if s.len() < 8 || !all_digits(s.subrange(0, 4)) || s[4] != '-' {
        None
    } else if s[6] == '-' {
        spec_parse_fields(
            digits_val(s.subrange(0, 4)),
            s.subrange(5, 6),
            s.subrange(7, s.len() as int),
        )
    } else if s.len() >= 9 && s[7] == '-' {
        spec_parse_fields(
            digits_val(s.subrange(0, 4)),
            s.subrange(5, 7),
            s.subrange(8, s.len() as int),
        )
    } else {
        None
    }
}

spec fn spec_pow10(n: nat) -> int
    decreases n,
{
    if n == 0 {
        1
    } else {
        10 * spec_pow10((n - 1) as nat)
    }
}

/// Reads the decimal digits of `s` at positions `from..to`; `None` when a
/// character there is no digit.
fn parse_digits(s: &str, from: usize, to: usize) -> (r: Option<u32>)
    requires
        from <= to <= s@.len(),
        to - from <= 4,
    ensures
        r is Some <==> all_digits(s@.subrange(from as int, to as int)),
        r is Some ==> r->Some_0 == digits_val(s@.subrange(from as int, to as int)) && r->Some_0
            < 10000,
{
    let mut v: u32 = 0;
    let mut i: usize = from;
    while i < to
        invariant
            from <= i <= to <= s@.len(),
            to - from <= 4,
            all_digits(s@.subrange(from as int, i as int)),
            v == digits_val(s@.subrange(from as int, i as int)),
            v < spec_pow10((i - from) as nat),
        decreases to - i,
    {
        let c = s.get_char(i);
        let cv = c as u32;
        if cv < '0' as u32 || cv > '9' as u32 {
            assert(!all_digits(s@.subrange(from as int, to as int))) by {
                assert(s@.subrange(from as int, to as int)[i - from] == c);
            }
            return None;
        }
        proof {
            assert(s@.subrange(from as int, i + 1).drop_last() =~= s@.subrange(
                from as int,
                i as int,
            ));
            assert(s@.subrange(from as int, i + 1).last() == c);
            reveal_with_fuel(spec_pow10, 5);
            assert(spec_pow10(0) == 1 && spec_pow10(1) == 10 && spec_pow10(2) == 100 && spec_pow10(
                3,
            ) == 1000);
            assert(i - from <= 3);
            assert(spec_pow10((i - from) as nat) <= 1000);
        }
        v = v * 10 + (cv - '0' as u32);
        i = i + 1;
    }
    proof {
        assert(s@.subrange(from as int, i as int) =~= s@.subrange(from as int, to as int));
        reveal_with_fuel(spec_pow10, 5);
        assert(spec_pow10((to - from) as nat) <= spec_pow10(4)) by {
            if to - from < 4 {
                assert(spec_pow10(0) == 1 && spec_pow10(1) == 10 && spec_pow10(2) == 100
                    && spec_pow10(3) == 1000);
            }
        }
    }
    Some(v)
}

/// Parses an ISO `YYYY-MM-DD` date string into its plain-value date,
/// the month and the day also taken unpadded (`2024-2-4`); `None`
/// exactly on strings that denote no valid calendar date.
pub fn parse_date(s: &str) -> (r: Option<CalendarDate>)
    ensures
        match r {
            Some(d) => spec_parse_date(s@) == Some(
                (d.year as int, d.month as int, d.day as int),
            ) && 1 <= d.month <= 12 && 1 <= d.day <= 31 && 0 <= d.year <= 9999,
            None => spec_parse_date(s@) is None,
        },
{
    let n = s.unicode_len();
    if n < 8 {
        return None;
    }
    let y = match parse_digits(s, 0, 4) {
        Some(v) => v,
        None => {
            return None;
        },
    };
    if !(s.get_char(4) == '-') {
        return None;
    }
    let m_end: usize;
    let d_start: usize;
    if s.get_char(6) == '-' {
        m_end = 6;
        d_start = 7;
    } else if n >= 9 && s.get_char(7) == '-' {
        m_end = 7;
        d_start = 8;
    } else {
        return None;
    }
    if n - d_start > 2 {
        return None;
    }
    let m = match parse_digits(s, 5, m_end) {
        Some(v) => v,
        None => {
            return None;
        },
    };
    let d = match parse_digits(s, d_start, n) {
        Some(v) => v,
        None => {
            return None;
        },
    };
    if !(1 <= m && m <= 12) {
        return None;
    }
    let year = y as i32;
    let dim = get_days_of_month(year, m);
    if !(1 <= d && d <= dim) {
        return None;
    }
    Some(CalendarDate { year, month: m, day: d })
}

} // verus!
