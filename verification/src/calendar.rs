//! The proleptic Gregorian calendar: day numbers, civil dates and their text.
//!
//! A day is numbered by its distance from 1970-01-01. [`day_number`] counts it
//! from the calendar's own rules (year lengths and month lengths), and every
//! conversion is stated against that count.
use vstd::prelude::*;
use crate::text::{
    all_digits, before, dec_value, is_digit, lemma_before_prefix, lemma_digits_before,
    lemma_padded_digits, padded_int, parse_nat, parse_u32, push_padded_int, slice_text, to_chars,
};

verus! {

/// Nanoseconds in one day.
pub const DAY_NS: i64 = 86_400_000_000_000;

/// A leap year has a 29 February.
pub open spec fn leap(y: int) -> bool {
    (y % 4 == 0 && y % 100 != 0) || y % 400 == 0
}

/// Number of days of month `m` in year `y`.
pub open spec fn month_len(y: int, m: int) -> int {
    if m == 2 {
        if leap(y) {
            29
        } else {
            28
        }
    } else if m == 4 || m == 6 || m == 9 || m == 11 {
        30
    } else {
        31
    }
}

/// Number of days of year `y`.
pub open spec fn year_len(y: int) -> int {
    if leap(y) {
        366
    } else {
        365
    }
}

/// Number of days of year `y` before month `m` (`1..=13`).
pub open spec fn days_before_month(y: int, m: int) -> int
    decreases m,
{
    if m <= 1 {
        0
    } else {
        days_before_month(y, m - 1) + month_len(y, m - 1)
    }
}

/// The day number of 1 January of year `y`: 365 days for each year since
/// 1970, and one more for each leap year passed.
pub open spec fn year_start(y: int) -> int {
    365 * (y - 1970) + ((y - 1) / 4 - (y - 1) / 100 + (y - 1) / 400) - 477
}

/// The number of the day `y-m-d`, counted from 1970-01-01. A `d` past the end
/// of the month counts on into the next.
pub open spec fn day_number(y: int, m: int, d: int) -> int {
    year_start(y) + days_before_month(y, m) + d - 1
}

/// A date that the calendar has.
pub open spec fn valid_date(y: int, m: int, d: int) -> bool {
    1 <= m <= 12 && 1 <= d <= month_len(y, m)
}

/// The date `(y, m, d)` of the day numbered `day`.
pub open spec fn civil(day: int) -> (int, int, int) {
    choose|c: (int, int, int)| #[trigger]
        valid_date(c.0, c.1, c.2) && day_number(c.0, c.1, c.2) == day
}

/// `YYYY-MM-DD`.
pub open spec fn iso_text(y: int, m: int, d: int) -> Seq<char> {
    padded_int(y, 4).push('-') + padded_int(m, 2).push('-') + padded_int(d, 2)
}

/// The `YYYY-MM-DD` text of the day numbered `day`.
pub open spec fn date_text(day: int) -> Seq<char> {
    iso_text(civil(day).0, civil(day).1, civil(day).2)
}

// ---------------------------------------------------------------------------
// The calendar's own laws
// ---------------------------------------------------------------------------

/// Year starts follow one another by the length of the year.
pub proof fn law_year_start_step(y: int)
    ensures
        year_start(y + 1) == year_start(y) + year_len(y),
        year_start(1970) == 0,
{
}

pub proof fn lemma_months_of(y: int)
    ensures
        days_before_month(y, 1) == 0,
        days_before_month(y, 2) == 31,
        days_before_month(y, 3) == 31 + month_len(y, 2),
        days_before_month(y, 4) == 62 + month_len(y, 2),
        days_before_month(y, 5) == 92 + month_len(y, 2),
        days_before_month(y, 6) == 123 + month_len(y, 2),
        days_before_month(y, 7) == 153 + month_len(y, 2),
        days_before_month(y, 8) == 184 + month_len(y, 2),
        days_before_month(y, 9) == 215 + month_len(y, 2),
        days_before_month(y, 10) == 245 + month_len(y, 2),
        days_before_month(y, 11) == 276 + month_len(y, 2),
        days_before_month(y, 12) == 306 + month_len(y, 2),
        days_before_month(y, 13) == year_len(y),
{
    reveal_with_fuel(days_before_month, 14);
}

proof fn lemma_year_start_monotone(a: int, b: int)
    requires
        a < b,
    ensures
        year_start(a) + year_len(a) <= year_start(b),
    decreases b - a,
{
    law_year_start_step(a);
    if a + 1 < b {
        lemma_year_start_monotone(a + 1, b);
    }
}

/// Inside a year the day count grows with the date.
proof fn lemma_within_year(y: int, m: int, d: int)
    requires
        valid_date(y, m, d),
    ensures
        year_start(y) <= day_number(y, m, d) < year_start(y) + year_len(y),
        days_before_month(y, m) <= day_number(y, m, d) - year_start(y) < days_before_month(
            y,
            m + 1,
        ),
{
    lemma_months_of(y);
}

/// Two dates with the same day number are the same date.
pub proof fn law_day_number_injective(y1: int, m1: int, d1: int, y2: int, m2: int, d2: int)
    requires
        valid_date(y1, m1, d1),
        valid_date(y2, m2, d2),
        day_number(y1, m1, d1) == day_number(y2, m2, d2),
    ensures
        y1 == y2,
        m1 == m2,
        d1 == d2,
{
    lemma_within_year(y1, m1, d1);
    lemma_within_year(y2, m2, d2);
    if y1 < y2 {
        lemma_year_start_monotone(y1, y2);
    }
    if y2 < y1 {
        lemma_year_start_monotone(y2, y1);
    }
    lemma_months_of(y1);
}

/// A date with day number `day` is the date of that day.
pub proof fn lemma_civil_is(day: int, y: int, m: int, d: int)
    requires
        valid_date(y, m, d),
        day_number(y, m, d) == day,
    ensures
        civil(day) == (y, m, d),
{
    let w = (y, m, d);
    assert(valid_date(w.0, w.1, w.2) && day_number(w.0, w.1, w.2) == day);
    let c = civil(day);
    assert(valid_date(c.0, c.1, c.2) && day_number(c.0, c.1, c.2) == day);
    law_day_number_injective(c.0, c.1, c.2, y, m, d);
}

/// Days counted from 1 March of a 400-year cycle's first year.
proof fn lemma_march_count(y: int, m: int, d: int, yp: int, mp: int)
    requires
        1 <= m <= 12,
        yp == if m <= 2 {
            y - 1
        } else {
            y
        },
        mp == if m > 2 {
            m - 3
        } else {
            m + 9
        },
    ensures
        day_number(y, m, d) == 365 * yp + yp / 4 - yp / 100 + yp / 400 + (153 * mp + 2) / 5 + d - 1
            - 719_468,
{
    lemma_months_of(y);
    lemma_leap_count(y);
}

proof fn lemma_leap_count(y: int)
    ensures
        y / 4 - (y - 1) / 4 == if y % 4 == 0 {
            1int
        } else {
            0
        },
        y / 100 - (y - 1) / 100 == if y % 100 == 0 {
            1int
        } else {
            0
        },
        y / 400 - (y - 1) / 400 == if y % 400 == 0 {
            1int
        } else {
            0
        },
{
}

proof fn lemma_era_split(yp: int, era: int, yoe: int)
    requires
        yp == 400 * era + yoe,
        0 <= yoe < 400,
    ensures
        365 * yp + yp / 4 - yp / 100 + yp / 400 == era * 146_097 + 365 * yoe + yoe / 4 - yoe / 100,
        era == yp / 400,
{
    assert(yp / 4 == 100 * era + yoe / 4);
    assert(yp / 100 == 4 * era + yoe / 100);
    assert(yp / 400 == era);
}

/// The year of a 400-year cycle (counted from March) that holds the day `doe`.
proof fn lemma_year_of_era(doe: int) -> (r: (int, int))
    requires
        0 <= doe <= 146_096,
    ensures
        ({
            let yoe = (doe - doe / 1460 + doe / 36_524 - doe / 146_096) / 365;
            let doy = doe - (365 * yoe + yoe / 4 - yoe / 100);
            &&& r == (yoe, doy)
            &&& 0 <= yoe < 400
            &&& 0 <= doy <= 365
            &&& doy == 365 ==> leap(yoe + 1)
        }),
{
    let c = if doe / 36_524 < 3 {
        doe / 36_524
    } else {
        3
    };
    let r1 = doe - 36_524 * c;
    let q = r1 / 1461;
    let r2 = r1 - 1461 * q;
    let y1 = if r2 / 365 < 3 {
        r2 / 365
    } else {
        3
    };
    let doy = r2 - 365 * y1;
    let yoe = 100 * c + 4 * q + y1;
    assert(0 <= c <= 3 && 0 <= r1 <= 36_524);
    assert(c < 3 ==> r1 < 36_524);
    assert(0 <= q <= 24 && 0 <= r2 <= 1460);
    assert(0 <= y1 <= 3 && 0 <= doy <= 365);
    let delta = (24 * c + q + 365 * y1 + doy) / 1460;
    assert(doe == 1460 * (25 * c + q) + (24 * c + q + 365 * y1 + doy));
    assert(doe / 1460 == 25 * c + q + delta);
    let beta = if doe == 146_096 {
        1int
    } else {
        0
    };
    assert(doe / 146_096 == beta);
    assert(doe / 36_524 == c + beta);
    assert(doe - doe / 1460 + doe / 36_524 - doe / 146_096 == 365 * yoe + (doy - delta));
    assert(0 <= doy - delta <= 364);
    assert((doe - doe / 1460 + doe / 36_524 - doe / 146_096) / 365 == yoe);
    assert(yoe / 4 == 25 * c + q);
    assert(yoe / 100 == c);
    assert(365 * yoe + yoe / 4 - yoe / 100 == 36_524 * c + 1461 * q + 365 * y1);
    if doy == 365 {
        assert(y1 == 3);
        assert((yoe + 1) % 4 == 0);
        if q == 24 {
            assert(c == 3);
            assert(yoe + 1 == 400);
        } else {
            assert((yoe + 1) % 100 == 4 * q + 4);
        }
    }
    (yoe, doy)
}

/// The date of day `doy` of the March-based year `yoe` of the cycle `era`.
proof fn lemma_march_date(era: int, yoe: int, doy: int)
    requires
        0 <= yoe < 400,
        0 <= doy <= 365,
        doy == 365 ==> leap(yoe + 1),
    ensures
        ({
            let mp = (5 * doy + 2) / 153;
            let d = doy - (153 * mp + 2) / 5 + 1;
            let m = if mp < 10 {
                mp + 3
            } else {
                mp - 9
            };
            let yp = yoe + era * 400;
            let y = if m <= 2 {
                yp + 1
            } else {
                yp
            };
            &&& 0 <= mp <= 11
            &&& valid_date(y, m, d)
            &&& day_number(y, m, d) == era * 146_097 + 365 * yoe + yoe / 4 - yoe / 100 + doy
                - 719_468
        }),
{
    let mp = (5 * doy + 2) / 153;
    let d = doy - (153 * mp + 2) / 5 + 1;
    let m = if mp < 10 {
        mp + 3
    } else {
        mp - 9
    };
    let yp = yoe + era * 400;
    let y = if m <= 2 {
        yp + 1
    } else {
        yp
    };
    lemma_month_of_march_day(doy);
    assert(valid_date(y, m, d)) by {
        lemma_leap_period(yoe + 1, era);
    }
    assert(day_number(y, m, d) == era * 146_097 + 365 * yoe + yoe / 4 - yoe / 100 + doy - 719_468)
        by {
        lemma_march_count(y, m, d, yp, mp);
        lemma_era_split(yp, era, yoe);
    }
}

/// Leap years recur every 400 years.
proof fn lemma_leap_period(y: int, era: int)
    ensures
        leap(y + 400 * era) == leap(y),
{
    assert((y + 400 * era) % 4 == y % 4);
    assert((y + 400 * era) % 100 == y % 100);
    assert((y + 400 * era) % 400 == y % 400);
}

/// The month and the day in it of day `doy` of a March-based year.
proof fn lemma_month_of_march_day(doy: int)
    requires
        0 <= doy <= 365,
    ensures
        ({
            let mp = (5 * doy + 2) / 153;
            let d = doy - (153 * mp + 2) / 5 + 1;
            let m = if mp < 10 {
                mp + 3
            } else {
                mp - 9
            };
            &&& 0 <= mp <= 11
            &&& 1 <= d <= 31
            &&& (m == 4 || m == 6 || m == 9 || m == 11) ==> d <= 30
            &&& m == 2 ==> d <= 29
            &&& (m == 2 && d == 29) ==> doy == 365
        }),
{
}

// ---------------------------------------------------------------------------
// Conversions
// ---------------------------------------------------------------------------

/// Whether `y` is a leap year.
pub fn is_leap(y: i64) -> (r: bool)
    ensures
        r == leap(y as int),
{
    let y4: i64 = rem_floor(y, 4);
    let y100: i64 = rem_floor(y, 100);
    let y400: i64 = rem_floor(y, 400);
    (y4 == 0 && y100 != 0) || y400 == 0
}

/// Quotient rounded down.
pub fn div_floor(a: i64, b: i64) -> (q: i64)
    requires
        b > 0,
    ensures
        q == a as int / b as int,
{
    assert(i64::MIN <= a as int / b as int <= i64::MAX) by (nonlinear_arith)
        requires
            b >= 1,
            i64::MIN <= a <= i64::MAX,
    ;
    match a.checked_div_euclid(b) {
        Some(q) => q,
        None => 0,
    }
}

/// Remainder of the quotient rounded down.
pub fn rem_floor(a: i64, b: i64) -> (r: i64)
    requires
        b > 0,
    ensures
        r == a as int % b as int,
        0 <= r < b,
{
    match a.checked_rem_euclid(b) {
        Some(r) => r,
        None => 0,
    }
}

/// Years for which every day count below fits in 64 bits.
pub open spec fn year_in_range(y: int) -> bool {
    -25_000_000_000_000_000 <= y <= 25_000_000_000_000_000
}

/// Days for which the civil date can be computed in 64 bits.
pub open spec fn day_in_range(day: int) -> bool {
    i64::MIN + 146_096 <= day <= i64::MAX - 719_468
}

/// The number of days from 1970-01-01 to the given date.
pub fn days_from_civil(y: i64, m: i64, d: i64) -> (day: i64)
    requires
        year_in_range(y as int),
        1 <= m <= 12,
        0 <= d <= 366,
    ensures
        day == day_number(y as int, m as int, d as int),
{
    let yp: i64 = if m <= 2 {
        y - 1
    } else {
        y
    };
    let era: i64 = div_floor(yp, 400);
    let yoe: i64 = yp - era * 400;
    let mp: i64 = if m > 2 {
        m - 3
    } else {
        m + 9
    };
    let doy: i64 = (153 * mp + 2) / 5 + d - 1;
    let doe: i64 = yoe * 365 + yoe / 4 - yoe / 100 + doy;
    proof {
        lemma_march_count(y as int, m as int, d as int, yp as int, mp as int);
        lemma_era_split(yp as int, era as int, yoe as int);
    }
    era * 146_097 + doe - 719_468
}

/// The date `(year, month, day)` of the day numbered `z`.
pub fn civil_from_days(z: i64) -> (r: (i64, i64, i64))
    requires
        day_in_range(z as int),
    ensures
        (r.0 as int, r.1 as int, r.2 as int) == civil(z as int),
        valid_date(r.0 as int, r.1 as int, r.2 as int),
        day_number(r.0 as int, r.1 as int, r.2 as int) == z,
{
    let zp: i64 = z + 719_468;
    let era: i64 = div_floor(zp, 146_097);
    let doe: i64 = zp - era * 146_097;
    let ghost (gy, gd) = lemma_year_of_era(doe as int);
    let yoe: i64 = (doe - doe / 1460 + doe / 36_524 - doe / 146_096) / 365;
    let yp: i64 = yoe + era * 400;
    let doy: i64 = doe - (365 * yoe + yoe / 4 - yoe / 100);
    let mp: i64 = (5 * doy + 2) / 153;
    let d: i64 = doy - (153 * mp + 2) / 5 + 1;
    let m: i64 = if mp < 10 {
        mp + 3
    } else {
        mp - 9
    };
    let y: i64 = if m <= 2 {
        yp + 1
    } else {
        yp
    };
    proof {
        lemma_march_date(era as int, yoe as int, doy as int);
        lemma_civil_is(z as int, y as int, m as int, d as int);
    }
    (y, m, d)
}

/// `YYYY-MM-DD`.
fn iso_string(y: i64, m: i64, d: i64) -> (s: String)
    ensures
        s@ == iso_text(y as int, m as int, d as int),
{
    let mut s = String::new();
    push_padded_int(&mut s, y, 4);
    s.push('-');
    push_padded_int(&mut s, m, 2);
    s.push('-');
    push_padded_int(&mut s, d, 2);
    assert(s@ =~= iso_text(y as int, m as int, d as int));
    s
}

/// The `YYYY-MM-DD` text of the day numbered `day`.
pub fn format_iso_date(day: i64) -> (s: String)
    requires
        day_in_range(day as int),
    ensures
        s@ == date_text(day as int),
{
    let (y, m, d) = civil_from_days(day);
    iso_string(y, m, d)
}

/// The `YYYY-MM-DD` text of the UTC day with index `day`.
pub fn date_string_from_day_index(day: i64) -> (s: String)
    requires
        day_in_range(day as int),
    ensures
        s@ == date_text(day as int),
{
    let (y, m, d) = civil_from_days(day);
    iso_string(y, m, d)
}

/// The day on which the timestamp `ns` falls; timestamps before 1970 count
/// as the first day.
pub open spec fn day_of_ns(ns: int) -> int {
    if ns <= 0 {
        0
    } else {
        ns / DAY_NS as int
    }
}

/// UTC date text (`YYYY-MM-DD`) of a nanosecond timestamp.
pub fn date_str(ns: i64) -> (s: String)
    ensures
        s@ == date_text(day_of_ns(ns as int)),
{
    let secs: i64 = if ns <= 0 {
        0
    } else {
        ns / 1_000_000_000
    };
    let days: i64 = secs / 86400;
    assert(days == day_of_ns(ns as int));
    let mut y: i64 = 1970;
    let mut rem: i64 = days;
    proof {
        law_year_start_step(1970);
    }
    while rem >= days_in_year(y)
        invariant
            1970 <= y <= 1970 + (days - rem),
            0 <= rem <= days,
            days <= 200_000,
            year_start(y as int) + rem == days,
        ensures
            rem < year_len(y as int),
        decreases rem,
    {
        proof {
            law_year_start_step(y as int);
        }
        rem = rem - days_in_year(y);
        y = y + 1;
    }
    let mut m: i64 = 1;
    proof {
        lemma_months_of(y as int);
    }
    while m < 12 && rem >= days_in_month(y, m)
        invariant
            1 <= m <= 12,
            0 <= rem <= 366,
            year_start(y as int) + days_before_month(y as int, m as int) + rem == days,
            days_before_month(y as int, m as int) + rem < year_len(y as int),
            days_before_month(y as int, 12) == year_len(y as int) - 31,
        ensures
            rem < month_len(y as int, m as int),
        decreases 12 - m,
    {
        rem = rem - days_in_month(y, m);
        m = m + 1;
        assert(days_before_month(y as int, m as int) == days_before_month(y as int, m - 1)
            + month_len(y as int, m - 1));
        proof {
            lemma_months_of(y as int);
        }
    }
    proof {
        lemma_civil_is(days as int, y as int, m as int, rem + 1);
    }
    iso_string(y, m, rem + 1)
}

/// Number of days of year `y`.
fn days_in_year(y: i64) -> (n: i64)
    ensures
        n == year_len(y as int),
{
    if is_leap(y) {
        366
    } else {
        365
    }
}

/// Number of days of month `m` in year `y`.
fn days_in_month(y: i64, m: i64) -> (n: i64)
    ensures
        n == month_len(y as int, m as int),
{
    if m == 2 {
        if is_leap(y) {
            29
        } else {
            28
        }
    } else if m == 4 || m == 6 || m == 9 || m == 11 {
        30
    } else {
        31
    }
}

// ---------------------------------------------------------------------------
// Parsing dates
// ---------------------------------------------------------------------------

/// The three numbers of a text of the form `YYYY-MM-DD`, whether or not they
/// are a date: four, two and two digits between dashes.
pub open spec fn iso_fields(s: Seq<char>) -> Option<(int, int, int)> {
    if s.len() == 10 && s[4] == '-' && s[7] == '-' && all_digits(s.subrange(0, 4)) && all_digits(
        s.subrange(5, 7),
    ) && all_digits(s.subrange(8, 10)) {
        Some(
            (
                dec_value(s.subrange(0, 4)) as int,
                dec_value(s.subrange(5, 7)) as int,
                dec_value(s.subrange(8, 10)) as int,
            ),
        )
    } else {
        None
    }
}

/// Few digits denote a small number.
proof fn lemma_few_digits(s: Seq<char>)
    requires
        all_digits(s),
    ensures
        s.len() == 0 ==> dec_value(s) == 0,
        s.len() == 1 ==> dec_value(s) <= 9,
        s.len() == 2 ==> dec_value(s) <= 99,
        s.len() == 3 ==> dec_value(s) <= 999,
        s.len() == 4 ==> dec_value(s) <= 9_999,
    decreases s.len(),
{
    if s.len() > 0 {
        assert forall|i: int| 0 <= i < s.drop_last().len() implies is_digit(
            #[trigger] s.drop_last()[i],
        ) by {
            assert(is_digit(s[i]));
        }
        lemma_few_digits(s.drop_last());
        assert(is_digit(s[s.len() - 1]));
    }
}

/// A year of four digits is in range.
pub proof fn lemma_iso_year(s: Seq<char>)
    ensures
        iso_fields(s) matches Some(f) ==> 0 <= f.0 <= 9_999 && year_in_range(f.0),
{
    if iso_fields(s) is Some {
        lemma_few_digits(s.subrange(0, 4));
    }
}

/// The number that the digits `c[from..to]` denote; nothing where one of them
/// is no digit.
fn digits_at(c: &Vec<char>, from: usize, to: usize) -> (r: Option<i64>)
    requires
        from <= to <= c@.len(),
        to - from <= 4,
    ensures
        match r {
            Some(v) => all_digits(c@.subrange(from as int, to as int)) && v == dec_value(
                c@.subrange(from as int, to as int),
            ) && 0 <= v <= 9_999,
            None => !all_digits(c@.subrange(from as int, to as int)),
        },
{
    let mut v: i64 = 0;
    let mut i: usize = from;
    while i < to
        invariant
            from <= i <= to <= c@.len(),
            to - from <= 4,
            all_digits(c@.subrange(from as int, i as int)),
            v == dec_value(c@.subrange(from as int, i as int)),
        decreases to - i,
    {
        let ghost next = c@.subrange(from as int, i + 1);
        assert(next.drop_last() =~= c@.subrange(from as int, i as int));
        assert(next.last() == c@[i as int]);
        let d: char = c[i];
        if !('0' <= d && d <= '9') {
            assert(c@.subrange(from as int, to as int)[i - from] == d);
            return None;
        }
        proof {
            lemma_few_digits(c@.subrange(from as int, i as int));
            assert forall|k: int| 0 <= k < next.len() implies is_digit(#[trigger] next[k]) by {
                if k < i - from {
                    assert(is_digit(c@.subrange(from as int, i as int)[k]));
                }
            }
        }
        v = 10 * v + (d as u32 as i64 - 48);
        i = i + 1;
    }
    proof {
        lemma_few_digits(c@.subrange(from as int, to as int));
    }
    Some(v)
}

/// The day that the ISO date text `s` denotes, if it is a date.
pub open spec fn iso_day(s: Seq<char>) -> Option<int> {
    match iso_fields(s) {
        Some((y, m, d)) => if valid_date(y, m, d) {
            Some(day_number(y, m, d))
        } else {
            None
        },
        None => None,
    }
}

/// The day number of the date `s`; `None` unless `s` has the form `YYYY-MM-DD`
/// and is a date of the calendar.
pub fn parse_iso_date(s: &str) -> (r: Option<i64>)
    ensures
        match r {
            Some(day) => iso_day(s@) == Some(day as int),
            None => iso_day(s@) is None,
        },
{
    let c = to_chars(s);
    if c.len() != 10 || c[4] != '-' || c[7] != '-' {
        return None;
    }
    let y: i64 = match digits_at(&c, 0, 4) {
        Some(v) => v,
        None => return None,
    };
    let m: i64 = match digits_at(&c, 5, 7) {
        Some(v) => v,
        None => return None,
    };
    let d: i64 = match digits_at(&c, 8, 10) {
        Some(v) => v,
        None => return None,
    };
    if m < 1 || m > 12 || d < 1 || d > 31 {
        return None;
    }
    let day: i64 = days_from_civil(y, m, d);
    proof {
        lemma_months_of(y as int);
        lemma_year_start_bounds(y as int);
    }
    let (cy, cm, cd) = civil_from_days(day);
    proof {
        if valid_date(y as int, m as int, d as int) {
            law_day_number_injective(
                y as int,
                m as int,
                d as int,
                cy as int,
                cm as int,
                cd as int,
            );
        }
    }
    if cy == y && cm == m && cd == d {
        Some(day)
    } else {
        None
    }
}

proof fn lemma_year_start_bounds(y: int)
    requires
        year_in_range(y),
    ensures
        -9_200_000_000_000_000_000 <= year_start(y) <= 9_200_000_000_000_000_000,
{
}

/// The days of a year in range are in range.
pub proof fn lemma_day_in_range(y: int, m: int, d: int)
    requires
        year_in_range(y),
        valid_date(y, m, d),
    ensures
        day_in_range(day_number(y, m, d)),
{
    lemma_year_start_bounds(y);
    lemma_within_year(y, m, d);
}

/// A year, month and day as written in a `YYYYMMDD` or `YYYY-MM-DD` text.
pub open spec fn ymd(s: Seq<char>) -> Option<(nat, nat, nat)> {
    let max = u32::MAX as int;
    let fields = if s.len() == 8 {
        Some((s.subrange(0, 4), s.subrange(4, 6), s.subrange(6, 8)))
    } else if s.len() == 10 && s[4] == '-' && s[7] == '-' {
        Some((s.subrange(0, 4), s.subrange(5, 7), s.subrange(8, 10)))
    } else {
        None
    };
    match fields {
        Some((y, m, d)) => match (parse_nat(y, max), parse_nat(m, max), parse_nat(d, max)) {
            (Some(y), Some(m), Some(d)) => if 1 <= m <= 12 && 1 <= d <= 31 {
                Some((y, m, d))
            } else {
                None
            },
            _ => None,
        },
        None => None,
    }
}

/// Reads `YYYYMMDD` or `YYYY-MM-DD`; `Err` unless month and day are in
/// `1..=12` and `1..=31`.
pub fn parse_ymd(s: &str) -> (r: Result<(u32, u32, u32), ()>)
    ensures
        match r {
            Ok(t) => ymd(s@) == Some((t.0 as nat, t.1 as nat, t.2 as nat)),
            Err(_) => ymd(s@) is None,
        },
{
    let c = to_chars(s);
    let (ys, ms, ds) = if c.len() == 8 {
        (
            slice_text(c.as_slice(), 0, 4),
            slice_text(c.as_slice(), 4, 6),
            slice_text(c.as_slice(), 6, 8),
        )
    } else if c.len() == 10 && c[4] == '-' && c[7] == '-' {
        (
            slice_text(c.as_slice(), 0, 4),
            slice_text(c.as_slice(), 5, 7),
            slice_text(c.as_slice(), 8, 10),
        )
    } else {
        return Err(());
    };
    match (parse_u32(ys.as_str()), parse_u32(ms.as_str()), parse_u32(ds.as_str())) {
        (Some(y), Some(m), Some(d)) => {
            if m < 1 || m > 12 || d < 1 || d > 31 {
                Err(())
            } else {
                Ok((y, m, d))
            }
        },
        _ => Err(()),
    }
}

/// Days from 2000-01-01 to the given date.
pub fn days_since_epoch(y: u32, m: u32, d: u32) -> (n: i64)
    requires
        1 <= m <= 12,
        d <= 366,
    ensures
        n == day_number(y as int, m as int, d as int) - day_number(2000, 1, 1),
{
    proof {
        lemma_months_of(2000);
        lemma_months_of(y as int);
        lemma_year_start_bounds(y as int);
    }
    days_from_civil(y as i64, m as i64, d as i64) - 10_957
}

/// Whether the texts `a` and `b` are dates of which `b` is the day after `a`.
pub open spec fn adjacent(a: Seq<char>, b: Seq<char>) -> bool {
    match (ymd(a), ymd(b)) {
        (Some((ya, ma, da)), Some((yb, mb, db))) => day_number(yb as int, mb as int, db as int)
            == day_number(ya as int, ma as int, da as int) + 1,
        _ => false,
    }
}

/// Whether `b` is the UTC calendar day after `a`; `false` for malformed text.
pub fn dates_are_adjacent(a: &str, b: &str) -> (r: bool)
    ensures
        r == adjacent(a@, b@),
{
    match (parse_ymd(a), parse_ymd(b)) {
        (Ok((ya, ma, da)), Ok((yb, mb, db))) => {
            proof {
                lemma_months_of(ya as int);
                lemma_months_of(yb as int);
                lemma_year_start_bounds(ya as int);
                lemma_year_start_bounds(yb as int);
                assert(0 <= day_number(ya as int, ma as int, da as int) + 1_000_000
                    <= 2_000_000_000_000);
                assert(0 <= day_number(yb as int, mb as int, db as int) + 1_000_000
                    <= 2_000_000_000_000);
            }
            days_since_epoch(yb, mb, db) - days_since_epoch(ya, ma, da) == 1
        },
        _ => false,
    }
}

// ---------------------------------------------------------------------------
// Laws across conversions
// ---------------------------------------------------------------------------

/// A date's day number leads back to the date.
pub proof fn law_civil_of_day_number(y: int, m: int, d: int)
    requires
        valid_date(y, m, d),
    ensures
        civil(day_number(y, m, d)) == (y, m, d),
{
    lemma_civil_is(day_number(y, m, d), y, m, d);
}

/// Writing a date as text and reading it back gives the day, in the years that
/// the form has room for.
pub proof fn law_iso_round_trip(y: int, m: int, d: int)
    requires
        valid_date(y, m, d),
        0 <= y <= 9_999,
    ensures
        date_text(day_number(y, m, d)) == iso_text(y, m, d),
        iso_day(date_text(day_number(y, m, d))) == Some(day_number(y, m, d)),
{
    lemma_civil_is(day_number(y, m, d), y, m, d);
    let (a, b, c) = (padded_int(y, 4), padded_int(m, 2), padded_int(d, 2));
    lemma_padded_digits(y as nat, 4);
    lemma_padded_digits(m as nat, 2);
    lemma_padded_digits(d as nat, 2);
    lemma_months_of(y);
    assert(a.len() == 4 && b.len() == 2 && c.len() == 2);
    let t = iso_text(y, m, d);
    assert(t.subrange(0, 4) =~= a);
    assert(t.subrange(5, 7) =~= b);
    assert(t.subrange(8, 10) =~= c);
}

/// A later date has a later text, in the years that the form has room for.
pub proof fn law_iso_texts_grow(y1: int, m1: int, d1: int, y2: int, m2: int, d2: int)
    requires
        valid_date(y1, m1, d1),
        valid_date(y2, m2, d2),
        0 <= y1 <= 9_999,
        0 <= y2 <= 9_999,
        day_number(y1, m1, d1) < day_number(y2, m2, d2),
    ensures
        before(iso_text(y1, m1, d1), iso_text(y2, m2, d2)),
{
    lemma_within_year(y1, m1, d1);
    lemma_within_year(y2, m2, d2);
    lemma_months_of(y1);
    lemma_months_of(y2);
    if y2 < y1 {
        lemma_year_start_monotone(y2, y1);
    }
    let (a1, b1, c1) = (padded_int(y1, 4), padded_int(m1, 2), padded_int(d1, 2));
    let (a2, b2, c2) = (padded_int(y2, 4), padded_int(m2, 2), padded_int(d2, 2));
    lemma_padded_digits(y1 as nat, 4);
    lemma_padded_digits(m1 as nat, 2);
    lemma_padded_digits(d1 as nat, 2);
    lemma_padded_digits(y2 as nat, 4);
    lemma_padded_digits(m2 as nat, 2);
    lemma_padded_digits(d2 as nat, 2);
    let (r1, r2) = (seq!['-'] + b1 + seq!['-'] + c1, seq!['-'] + b2 + seq!['-'] + c2);
    let (t1, t2) = (iso_text(y1, m1, d1), iso_text(y2, m2, d2));
    assert(t1 =~= a1 + r1);
    assert(t2 =~= a2 + r2);
    if y1 < y2 {
        lemma_digits_before(a1, a2, r1, r2);
    } else {
        assert(y1 == y2);
        lemma_before_prefix(a1, r1, r2);
        let dash = seq!['-'];
        let (q1, q2) = (dash + c1, dash + c2);
        assert(r1 =~= dash + (b1 + q1));
        assert(r2 =~= dash + (b2 + q2));
        lemma_before_prefix(dash, b1 + q1, b2 + q2);
        if m1 < m2 {
            lemma_digits_before(b1, b2, q1, q2);
        } else {
            assert(m1 == m2);
            lemma_before_prefix(b1, q1, q2);
            lemma_before_prefix(dash, c1, c2);
            lemma_digits_before(c1, c2, Seq::empty(), Seq::empty());
            assert(c1 + Seq::<char>::empty() =~= c1);
            assert(c2 + Seq::<char>::empty() =~= c2);
        }
    }
}

/// Every day from 1970 on has a date.
proof fn lemma_day_has_date(day: int) -> (c: (int, int, int))
    requires
        day >= 0,
    ensures
        valid_date(c.0, c.1, c.2),
        day_number(c.0, c.1, c.2) == day,
        c.0 >= 1970,
    decreases day,
{
    if day == 0 {
        law_year_start_step(1970);
        lemma_months_of(1970);
        (1970, 1, 1)
    } else {
        let (y, m, d) = lemma_day_has_date(day - 1);
        lemma_months_of(y);
        lemma_months_of(y + 1);
        law_year_start_step(y);
        if d < month_len(y, m) {
            (y, m, d + 1)
        } else if m < 12 {
            (y, m + 1, 1)
        } else {
            (y + 1, 1, 1)
        }
    }
}

/// The date texts of timestamps grow with time: a later timestamp has the same
/// text, or one that comes behind it.
pub proof fn law_date_texts_grow(t: i64, u: i64)
    requires
        t <= u,
    ensures
        date_text(day_of_ns(t as int)) == date_text(day_of_ns(u as int)) || before(
            date_text(day_of_ns(t as int)),
            date_text(day_of_ns(u as int)),
        ),
        day_of_ns(t as int) < day_of_ns(u as int) ==> before(
            date_text(day_of_ns(t as int)),
            date_text(day_of_ns(u as int)),
        ),
{
    let (a, b) = (day_of_ns(t as int), day_of_ns(u as int));
    assert(0 <= a <= b <= 200_000);
    if a < b {
        let p = lemma_day_has_date(a);
        let q = lemma_day_has_date(b);
        lemma_civil_is(a, p.0, p.1, p.2);
        lemma_civil_is(b, q.0, q.1, q.2);
        lemma_within_year(p.0, p.1, p.2);
        lemma_within_year(q.0, q.1, q.2);
        if p.0 > 9_999 {
            lemma_year_start_monotone(9_999, p.0);
        }
        if q.0 > 9_999 {
            lemma_year_start_monotone(9_999, q.0);
        }
        law_iso_texts_grow(p.0, p.1, p.2, q.0, q.1, q.2);
    }
}

/// A day is the midnight at or before a time; times before the epoch count to
/// its first day.
pub proof fn law_day_of_ns(ns: int)
    ensures
        ns >= 0 ==> day_of_ns(ns) * 86_400_000_000_000 <= ns < (day_of_ns(ns) + 1)
            * 86_400_000_000_000,
        ns < 0 ==> day_of_ns(ns) == 0,
{
}

/// A year has a day more where it is divisible by four, but not at a full
/// century unless that is divisible by four hundred.
pub proof fn law_leap_years(y: int)
    ensures
        y % 4 != 0 ==> year_len(y) == 365,
        y % 4 == 0 && y % 100 != 0 ==> year_len(y) == 366,
        y % 100 == 0 && y % 400 != 0 ==> year_len(y) == 365,
        y % 400 == 0 ==> year_len(y) == 366,
        days_before_month(y, 13) == year_len(y),
        days_before_month(y, 3) == year_len(y) - 306,
{
    lemma_months_of(y);
    reveal_with_fuel(days_before_month, 14);
}

/// A date is read alike with and without dashes: as its year, month and day,
/// where the month is one of twelve and the day one of thirty-one.
pub proof fn law_two_spellings(y: Seq<char>, m: Seq<char>, d: Seq<char>)
    requires
        y.len() == 4,
        m.len() == 2,
        d.len() == 2,
        all_digits(y),
        all_digits(m),
        all_digits(d),
    ensures
        ymd(y + m + d) == ymd(y + seq!['-'] + m + seq!['-'] + d),
        1 <= dec_value(m) <= 12 && 1 <= dec_value(d) <= 31 ==> ymd(y + m + d) == Some(
            (dec_value(y), dec_value(m), dec_value(d)),
        ),
        !(1 <= dec_value(m) <= 12 && 1 <= dec_value(d) <= 31) ==> ymd(y + m + d) is None,
{
    let s = y + m + d;
    let t = y + seq!['-'] + m + seq!['-'] + d;
    assert(s.subrange(0, 4) =~= y);
    assert(s.subrange(4, 6) =~= m);
    assert(s.subrange(6, 8) =~= d);
    assert(t.subrange(0, 4) =~= y);
    assert(t.subrange(5, 7) =~= m);
    assert(t.subrange(8, 10) =~= d);
    assert(t[4] == '-' && t[7] == '-');
    lemma_few_digits(y);
    lemma_few_digits(m);
    lemma_few_digits(d);
    assert(is_digit(y[0]) && is_digit(m[0]) && is_digit(d[0]));
}

/// Two dates are adjacent exactly where the second is the day after the first.
pub proof fn law_adjacent_days(y1: int, m1: int, d1: int, y2: int, m2: int, d2: int)
    requires
        valid_date(y1, m1, d1),
        valid_date(y2, m2, d2),
        0 <= y1 <= 9_999,
        0 <= y2 <= 9_999,
    ensures
        adjacent(iso_text(y1, m1, d1), iso_text(y2, m2, d2)) <==> day_number(y2, m2, d2)
            == day_number(y1, m1, d1) + 1,
{
    lemma_ymd_of_iso(y1, m1, d1);
    lemma_ymd_of_iso(y2, m2, d2);
}

proof fn lemma_ymd_of_iso(y: int, m: int, d: int)
    requires
        valid_date(y, m, d),
        0 <= y <= 9_999,
    ensures
        ymd(iso_text(y, m, d)) == Some((y as nat, m as nat, d as nat)),
{
    let (a, b, c) = (padded_int(y, 4), padded_int(m, 2), padded_int(d, 2));
    lemma_padded_digits(y as nat, 4);
    lemma_padded_digits(m as nat, 2);
    lemma_padded_digits(d as nat, 2);
    law_two_spellings(a, b, c);
    assert(iso_text(y, m, d) =~= a + seq!['-'] + b + seq!['-'] + c);
}

} // verus!
