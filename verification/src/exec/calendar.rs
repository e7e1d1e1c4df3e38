//! The parts of a time given as seconds since the start of 1970.
use crate::plan::ScalarFunc;
use vstd::prelude::*;

verus! {

/// A day of the Gregorian calendar.
pub struct Date {
    pub year: i64,
    pub month: i64,
    pub day: i64,
}

pub open spec fn is_leap(y: int) -> bool {
    y % 4 == 0 && (y % 100 != 0 || y % 400 == 0)
}

pub open spec fn month_days(y: int, m: int) -> int {
    if m == 2 {
        if is_leap(y) {
            29
        } else {
            28
        }
    } else if m == 4 || m == 6 || m == 9 || m == 11 {
        30
    } else {
        31
    }
}

/// How many days of the year come before the month.
pub open spec fn days_before_month(y: int, m: int) -> int
    decreases m,
{
    if m <= 1 {
        0
    } else {
        days_before_month(y, m - 1) + month_days(y, m - 1)
    }
}

/// How many days come before the year, counted from the start of year 1.
pub open spec fn days_before_year(y: int) -> int {
    (y - 1) * 365 + (y - 1) / 4 - (y - 1) / 100 + (y - 1) / 400
}

/// The number of a day, counted from the first of January 1970.
pub open spec fn day_number(y: int, m: int, d: int) -> int {
    days_before_year(y) + days_before_month(y, m) + (d - 1) - 719_162
}

pub open spec fn is_date(y: int, m: int, d: int) -> bool {
    1 <= m <= 12 && 1 <= d <= month_days(y, m)
}

/// How the days of a 400-year era that starts on the first of March fall into
/// centuries, spans of four years, years and days of the year.
proof fn lemma_era(era: int, c: int, q: int, y3: int, doy: int)
    requires
        0 <= c <= 3,
        0 <= q <= 24,
        0 <= y3 <= 3,
    ensures
        days_before_year(400 * era + 100 * c + 4 * q + y3 + 1) == 146_097 * era + 36_524 * c + 1461
            * q + 365 * y3,
{
    let y = 400 * era + 100 * c + 4 * q + y3;
    assert(y / 4 == 100 * era + 25 * c + q);
    assert(y / 100 == 4 * era + c);
    assert(y / 400 == era);
}

/// The last day of a span of four years that has all of its days is a leap day.
proof fn lemma_leap_day(era: int, c: int, q: int)
    requires
        0 <= c <= 3,
        0 <= q <= 24,
        q < 24 || c == 3,
    ensures
        is_leap(400 * era + 100 * c + 4 * q + 4),
{
    let y = 400 * era + 100 * c + 4 * q + 4;
    assert(y % 4 == 0);
    if q < 24 {
        assert(y % 100 == 4 * (q + 1));
    } else {
        assert(y == 400 * (era + 1));
        assert(y % 400 == 0);
    }
}

/// How many days come before each month.
pub proof fn lemma_months(y: int)
    ensures
        forall|m: int, k: int|
            1 <= m < k <= 12 ==> #[trigger] days_before_month(y, m) + month_days(y, m)
                <= #[trigger] days_before_month(y, k),
        forall|m: int|
            1 <= m <= 12 ==> 0 <= #[trigger] days_before_month(y, m) && days_before_month(y, m)
                + month_days(y, m) <= 365 + (if is_leap(y) {
                1int
            } else {
                0
            }),
{
    let l: int = if is_leap(y) {
        1
    } else {
        0
    };
    assert(days_before_month(y, 1) == 0);
    assert(days_before_month(y, 2) == 31);
    assert(days_before_month(y, 3) == 59 + l);
    assert(days_before_month(y, 4) == 90 + l);
    assert(days_before_month(y, 5) == 120 + l);
    assert(days_before_month(y, 6) == 151 + l);
    assert(days_before_month(y, 7) == 181 + l);
    assert(days_before_month(y, 8) == 212 + l);
    assert(days_before_month(y, 9) == 243 + l);
    assert(days_before_month(y, 10) == 273 + l);
    assert(days_before_month(y, 11) == 304 + l);
    assert(days_before_month(y, 12) == 334 + l);
    assert forall|m: int, k: int| 1 <= m < k <= 12 implies #[trigger] days_before_month(y, m)
        + month_days(y, m) <= #[trigger] days_before_month(y, k) by {
        assert(m == 1 || m == 2 || m == 3 || m == 4 || m == 5 || m == 6 || m == 7 || m == 8 || m
            == 9 || m == 10 || m == 11);
        assert(k == 2 || k == 3 || k == 4 || k == 5 || k == 6 || k == 7 || k == 8 || k == 9 || k
            == 10 || k == 11 || k == 12);
    }
    assert forall|m: int| 1 <= m <= 12 implies 0 <= #[trigger] days_before_month(y, m)
        && days_before_month(y, m) + month_days(y, m) <= 365 + l by {
        assert(m == 1 || m == 2 || m == 3 || m == 4 || m == 5 || m == 6 || m == 7 || m == 8 || m
            == 9 || m == 10 || m == 11 || m == 12);
    }
}

/// A year is as long as its months.
pub proof fn lemma_year(y: int)
    ensures
        days_before_year(y + 1) == days_before_year(y) + 365 + (if is_leap(y) {
            1int
        } else {
            0
        }),
{
    let a = y / 400;
    let r = y % 400;
    assert(y == 400 * a + r);
    assert(y / 4 == 100 * a + r / 4);
    assert(y / 100 == 4 * a + r / 100);
    assert((y - 1) / 4 == 100 * a + (r - 1) / 4);
    assert((y - 1) / 100 == 4 * a + (r - 1) / 100);
    assert((y - 1) / 400 == a + (r - 1) / 400);
    assert(y % 4 == r % 4);
    assert(y % 100 == r % 100);
}

/// The month and the day of a day counted from the first of March.
proof fn lemma_month(y: int, doy: int, mp: int, d: int)
    requires
        0 <= doy <= 365,
        doy == 365 ==> is_leap(y + 1),
        mp == (5 * doy + 2) / 153,
        d == doy - (153 * mp + 2) / 5 + 1,
    ensures
        0 <= mp <= 11,
        1 <= d,
        mp < 10 ==> d <= month_days(y, mp + 3) && days_before_month(y, mp + 3) + (d - 1) == 59 + (
        if is_leap(y) {
            1int
        } else {
            0
        }) + doy,
        mp >= 10 ==> d <= month_days(y + 1, mp - 9) && days_before_month(y + 1, mp - 9) + (d - 1)
            == doy - 306,
{
    reveal_with_fuel(days_before_month, 13);
    assert(0 <= mp <= 11);
    assert(mp == 0 || mp == 1 || mp == 2 || mp == 3 || mp == 4 || mp == 5 || mp == 6 || mp == 7
        || mp == 8 || mp == 9 || mp == 10 || mp == 11);
}

fn quotient(a: i64, b: i64) -> (r: i64)
    requires
        b > 0,
    ensures
        r == a as int / b as int,
        (a as int / b as int) * b <= a < (a as int / b as int + 1) * b,
{
    proof {
        vstd::arithmetic::div_mod::lemma_fundamental_div_mod(a as int, b as int);
        vstd::arithmetic::div_mod::lemma_mod_bound(a as int, b as int);
        let q = a as int / b as int;
        assert(q * b <= a < (q + 1) * b) by (nonlinear_arith)
            requires
                a == b * q + (a as int) % (b as int),
                0 <= (a as int) % (b as int),
                ((a as int) % (b as int)) < b,
        ;
        assert(i64::MIN <= q <= i64::MAX) by (nonlinear_arith)
            requires
                q * b <= a < (q + 1) * b,
                b > 0,
                -0x8000_0000_0000_0000 <= a <= 0x7fff_ffff_ffff_ffff,
        ;
    }
    match a.checked_div_euclid(b) {
        Some(q) => q,
        None => 0,
    }
}

/// The date of a day by its number.
pub fn civil_from_days(n: i64) -> (r: Date)
    requires
        n <= i64::MAX - 719_468,
    ensures
        is_date(r.year as int, r.month as int, r.day as int),
        day_number(r.year as int, r.month as int, r.day as int) == n,
{
    // Years are counted from March on, so that the leap day is the last of a year.
    let z: i64 = n + 719_468;
    let era: i64 = quotient(z, 146_097);
    let doe: i64 = z - era * 146_097;
    assert(0 <= doe <= 146_096);
    let c: i64 = if doe == 146_096 {
        3
    } else {
        doe / 36_524
    };
    let in_century: i64 = doe - c * 36_524;
    assert(0 <= c <= 3 && 0 <= in_century <= 36_524 && (in_century == 36_524 ==> c == 3));
    let q: i64 = in_century / 1461;
    let in_span: i64 = in_century - q * 1461;
    assert(0 <= q <= 24 && 0 <= in_span <= 1460 && (q == 24 && in_span == 1460 ==> c == 3));
    let y3: i64 = if in_span == 1460 {
        3
    } else {
        in_span / 365
    };
    let doy: i64 = in_span - y3 * 365;
    assert(0 <= y3 <= 3 && 0 <= doy <= 365 && (doy == 365 ==> y3 == 3 && in_span == 1460));
    let y: i64 = era * 400 + c * 100 + q * 4 + y3;
    let mp: i64 = (5 * doy + 2) / 153;
    let day: i64 = doy - (153 * mp + 2) / 5 + 1;
    proof {
        lemma_era(era as int, c as int, q as int, y3 as int, doy as int);
        lemma_year(y as int);
        if doy == 365 {
            lemma_leap_day(era as int, c as int, q as int);
        }
        lemma_month(y as int, doy as int, mp as int, day as int);
    }
    if mp < 10 {
        Date { year: y, month: mp + 3, day }
    } else {
        Date { year: y + 1, month: mp - 9, day }
    }
}

/// No two dates have the same number: a later one has a higher number.
pub proof fn lemma_dates_in_order(y1: int, m1: int, d1: int, y2: int, m2: int, d2: int)
    requires
        is_date(y1, m1, d1),
        is_date(y2, m2, d2),
        y1 < y2 || y1 == y2 && (m1 < m2 || m1 == m2 && d1 < d2),
    ensures
        day_number(y1, m1, d1) < day_number(y2, m2, d2),
{
    lemma_months(y1);
    lemma_months(y2);
    assert(0 <= days_before_month(y2, m2));
    assert(0 <= days_before_month(y1, m1));
    if y1 < y2 {
        lemma_years_in_order(y1 + 1, y2);
        lemma_year(y1);
    }
}

proof fn lemma_years_in_order(y1: int, y2: int)
    requires
        y1 <= y2,
    ensures
        days_before_year(y1) <= days_before_year(y2),
    decreases y2 - y1,
{
    if y1 < y2 {
        lemma_years_in_order(y1 + 1, y2);
        lemma_year(y1);
    }
}

pub open spec fn has_number(n: int, y: int, m: int, d: int) -> bool {
    is_date(y, m, d) && day_number(y, m, d) == n
}

/// The date whose number is `n`.
pub open spec fn date_of(n: int) -> (int, int, int) {
    choose|y: int, m: int, d: int| has_number(n, y, m, d)
}

/// The part of a time that a function asks for.
pub open spec fn time_part(func: ScalarFunc, ts: int) -> int {
    match func {
        ScalarFunc::ExtractHour => (ts % 86_400) / 3600,
        ScalarFunc::ExtractMinute => (ts % 3600) / 60,
        ScalarFunc::ExtractDay => date_of(ts / 86_400).2,
        ScalarFunc::ExtractMonth => date_of(ts / 86_400).1,
        _ => date_of(ts / 86_400).0,
    }
}

pub fn extract_part(func: ScalarFunc, ts: i64) -> (r: i64)
    ensures
        r == time_part(func, ts as int),
{
    let days: i64 = quotient(ts, 86_400);
    let secs: i64 = match ts.checked_rem_euclid(86_400) {
        Some(s) => s,
        None => 0,
    };
    match func {
        ScalarFunc::ExtractHour => secs / 3600,
        ScalarFunc::ExtractMinute => (secs % 3600) / 60,
        _ => {
            let date = civil_from_days(days);
            proof {
                let (y, m, d) = (date.year as int, date.month as int, date.day as int);
                assert(has_number(days as int, y, m, d));
                let (a, b, c) = date_of(days as int);
                assert(has_number(days as int, a, b, c));
                if (a, b, c) != (y, m, d) {
                    if a < y || a == y && (b < m || b == m && c < d) {
                        lemma_dates_in_order(a, b, c, y, m, d);
                    } else {
                        lemma_dates_in_order(y, m, d, a, b, c);
                    }
                }
            }
            match func {
                ScalarFunc::ExtractDay => date.day,
                ScalarFunc::ExtractMonth => date.month,
                _ => date.year,
            }
        },
    }
}

/// A time rounded down to a multiple of `step` seconds.
pub open spec fn time_floor(ts: int, step: int) -> int {
    (ts / step) * step
}

} // verus!
