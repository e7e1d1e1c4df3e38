//! What the parts of a moment are. Moments are counted in seconds from the start of 1970.
use crate::column::Cells;
use crate::exec::arr::numbers;
use crate::exec::calendar::{
    date_of, day_number, days_before_month, days_before_year, has_number, is_date,
    lemma_dates_in_order, lemma_months, lemma_year, month_days,
};
use crate::exec::eval::evaluated;
use crate::float::Floats;
use crate::laws::conditions::{are_doubles, at_row};
use crate::laws::values::{call, ints_at, lemma_one, lemma_two, nearest};
use crate::plan::{ScalarFunc, Term};
use crate::text::lowercase;
use vstd::prelude::*;

verus! {

/// The last day of a month.
pub open spec fn last_of(y: int, m: int) -> int {
    if m == 2 && (y % 400 == 0 || y % 100 != 0 && y % 4 == 0) {
        29
    } else if m == 2 {
        28
    } else if m == 4 || m == 6 || m == 9 || m == 11 {
        30
    } else {
        31
    }
}

/// The day after a day.
pub open spec fn day_after(date: (int, int, int)) -> (int, int, int) {
    let (y, m, d) = date;
    if d < last_of(y, m) {
        (y, m, d + 1)
    } else if m < 12 {
        (y, m + 1, 1)
    } else {
        (y + 1, 1, 1)
    }
}

/// The day before a day.
pub open spec fn day_before(date: (int, int, int)) -> (int, int, int) {
    let (y, m, d) = date;
    if d > 1 {
        (y, m, d - 1)
    } else if m > 1 {
        (y, m - 1, last_of(y, m - 1))
    } else {
        (y - 1, 12, 31)
    }
}

/// The day that is `n` days after the first of January 1970, or before it.
pub open spec fn day_from_1970(n: int) -> (int, int, int)
    decreases
            if n < 0 {
                -n
            } else {
                n
            },
{
    if n == 0 {
        (1970, 1, 1)
    } else if n > 0 {
        day_after(day_from_1970(n - 1))
    } else {
        day_before(day_from_1970(n + 1))
    }
}

proof fn lemma_after(y: int, m: int, d: int)
    requires
        is_date(y, m, d),
    ensures
        ({
            let (a, b, c) = day_after((y, m, d));
            is_date(a, b, c) && day_number(a, b, c) == day_number(y, m, d) + 1
        }),
{
    lemma_year(y);
    if d == month_days(y, m) {
        if m < 12 {
            assert(days_before_month(y, m + 1) == days_before_month(y, m) + month_days(y, m));
        } else {
            lemma_year_end(y);
        }
    }
}

proof fn lemma_year_end(y: int)
    ensures
        day_number(y, 12, 31) + 1 == day_number(y + 1, 1, 1),
        day_number(y - 1, 12, 31) + 1 == day_number(y, 1, 1),
{
    lemma_year(y);
    lemma_year(y - 1);
    reveal_with_fuel(days_before_month, 13);
}

proof fn lemma_before(y: int, m: int, d: int)
    requires
        is_date(y, m, d),
    ensures
        ({
            let (a, b, c) = day_before((y, m, d));
            is_date(a, b, c) && day_number(a, b, c) == day_number(y, m, d) - 1
        }),
{
    if d == 1 {
        if m > 1 {
            assert(days_before_month(y, m) == days_before_month(y, m - 1) + month_days(y, m - 1));
        } else {
            lemma_year_end(y);
        }
    }
}

proof fn lemma_numbered(n: int)
    ensures
        ({
            let (y, m, d) = day_from_1970(n);
            has_number(n, y, m, d)
        }),
    decreases
            if n < 0 {
                -n
            } else {
                n
            },
{
    if n == 0 {
        reveal_with_fuel(days_before_month, 2);
        assert(days_before_year(1970) == 719_162);
    } else if n > 0 {
        lemma_numbered(n - 1);
        let (y, m, d) = day_from_1970(n - 1);
        lemma_after(y, m, d);
    } else {
        lemma_numbered(n + 1);
        let (y, m, d) = day_from_1970(n + 1);
        lemma_before(y, m, d);
    }
}

/// A date has the number `n` if and only if it is `n` days after the first of January 1970,
/// day by day.
pub proof fn lemma_days(n: int, y: int, m: int, d: int)
    ensures
        date_of(n) == day_from_1970(n),
        is_date(y, m, d) <==> 1 <= m <= 12 && 1 <= d <= last_of(y, m),
        is_date(y, m, d) && day_number(y, m, d) == n <==> (y, m, d) == day_from_1970(n),
        date_of(n + 1) == day_after(date_of(n)),
{
    lemma_numbered(n);
    lemma_numbered(n + 1);
    let (a, b, c) = day_from_1970(n);
    let (e, f, g) = date_of(n);
    assert(has_number(n, a, b, c));
    assert(has_number(n, e, f, g));
    lemma_one_date(n, a, b, c, e, f, g);
    if is_date(y, m, d) && day_number(y, m, d) == n {
        lemma_one_date(n, a, b, c, y, m, d);
    }
    let (p, q, r) = day_from_1970(n + 1);
    let (s, t, u) = date_of(n + 1);
    assert(has_number(n + 1, p, q, r));
    assert(has_number(n + 1, s, t, u));
    lemma_one_date(n + 1, p, q, r, s, t, u);
    lemma_after(a, b, c);
    let (v, w, x) = day_after((a, b, c));
    lemma_one_date(n + 1, v, w, x, s, t, u);
}

proof fn lemma_one_date(n: int, y: int, m: int, d: int, a: int, b: int, c: int)
    requires
        has_number(n, y, m, d),
        has_number(n, a, b, c),
    ensures
        (y, m, d) == (a, b, c),
{
    if y < a || y == a && (m < b || m == b && d < c) {
        lemma_dates_in_order(y, m, d, a, b, c);
    } else if a < y || a == y && (b < m || b == m && c < d) {
        lemma_dates_in_order(a, b, c, y, m, d);
    }
}

/// The year of a day that an integer can hold is one too.
proof fn lemma_year_fits(n: int)
    requires
        -200_000_000_000_000 <= n <= 200_000_000_000_000,
    ensures
        i64::MIN <= date_of(n).0 <= i64::MAX,
        1 <= date_of(n).1 <= 12,
        1 <= date_of(n).2 <= 31,
{
    lemma_days(n, 0, 0, 0);
    lemma_numbered(n);
    let (y, m, d) = date_of(n);
    lemma_months(y);
    assert(days_before_month(y, m) >= 0);
    let k = y - 1;
    assert(days_before_year(y) == k * 365 + k / 4 - k / 100 + k / 400);
    assert(k * 365 - 2 <= days_before_year(y) + k / 100 - k / 4 - k / 400 + 2);
    if k >= 0 {
        assert(days_before_year(y) >= k * 365);
    } else {
        assert(days_before_year(y) <= k * 365 + 4);
    }
}

/// Whether a moment lies in the given second of a day.
pub open spec fn is_moment(ts: int, day: int, hour: int, minute: int, second: int) -> bool {
    &&& 0 <= hour < 24
    &&& 0 <= minute < 60
    &&& 0 <= second < 60
    &&& ts == day * 86_400 + hour * 3600 + minute * 60 + second
}

/// Whether a moment lies in an hour of its day.
pub open spec fn in_hour(ts: int, hour: int) -> bool {
    exists|day: int, m: int, s: int| #[trigger] is_moment(ts, day, hour, m, s)
}

/// Whether a moment lies in a minute of its hour.
pub open spec fn in_minute(ts: int, minute: int) -> bool {
    exists|day: int, h: int, s: int| #[trigger] is_moment(ts, day, h, minute, s)
}

/// Whether a moment lies on a date.
pub open spec fn is_on(ts: int, y: int, m: int, d: int) -> bool {
    exists|day: int, h: int, min: int, s: int| #[trigger]
        is_moment(ts, day, h, min, s) && day_from_1970(day) == (y, m, d)
}

pub open spec fn in_day(ts: int, d: int) -> bool {
    exists|y: int, m: int| #[trigger] is_on(ts, y, m, d)
}

pub open spec fn in_month(ts: int, m: int) -> bool {
    exists|y: int, d: int| #[trigger] is_on(ts, y, m, d)
}

pub open spec fn in_year(ts: int, y: int) -> bool {
    exists|m: int, d: int| #[trigger] is_on(ts, y, m, d)
}

/// `hour` and `minute` give the time of day of a moment, `day`, `month` and `year` the date of
/// the day it is in.
pub proof fn lemma_parts<F: Floats>(
    e: Term,
    c: Cells,
    a: Seq<u64>,
    frame: Seq<Cells>,
    rows: Seq<usize>,
    fl: F,
)
    requires
        evaluated(e, frame, rows, fl) == Ok::<Cells, Seq<char>>(c),
        are_doubles(c, a, fl),
    ensures
        ints_at(
            call(ScalarFunc::ExtractHour, seq![e]),
            frame,
            rows,
            fl,
            |i: int, y: i64| in_hour(fl.to_int(at_row(a, i)) as int, y as int),
        ),
        ints_at(
            call(ScalarFunc::ExtractMinute, seq![e]),
            frame,
            rows,
            fl,
            |i: int, y: i64| in_minute(fl.to_int(at_row(a, i)) as int, y as int),
        ),
        ints_at(
            call(ScalarFunc::ExtractDay, seq![e]),
            frame,
            rows,
            fl,
            |i: int, y: i64| in_day(fl.to_int(at_row(a, i)) as int, y as int),
        ),
        ints_at(
            call(ScalarFunc::ExtractMonth, seq![e]),
            frame,
            rows,
            fl,
            |i: int, y: i64| in_month(fl.to_int(at_row(a, i)) as int, y as int),
        ),
        ints_at(
            call(ScalarFunc::ExtractYear, seq![e]),
            frame,
            rows,
            fl,
            |i: int, y: i64| in_year(fl.to_int(at_row(a, i)) as int, y as int),
        ),
{
    lemma_one(e, c, frame, rows, fl);
    assert(numbers(c, fl)->Ok_0 =~= a);
    assert forall|x: u64| true implies #[trigger] parts_right(fl.to_int(x) as int) by {
        let ts = fl.to_int(x) as int;
        lemma_days(ts / 86_400, 0, 0, 0);
        lemma_year_fits(ts / 86_400);
        let (y, m, d) = date_of(ts / 86_400);
        let (h, min, s) = ((ts % 86_400) / 3600, (ts % 3600) / 60, ts % 60);
        assert(is_moment(ts, ts / 86_400, h, min, s));
        assert(is_on(ts, y, m, d));
    }
    let hours = evaluated(call(ScalarFunc::ExtractHour, seq![e]), frame, rows, fl)->Ok_0->I64_0;
    assert forall|i: int| 0 <= i < rows.len() implies in_hour(
        fl.to_int(at_row(a, i)) as int,
        #[trigger] at_row(hours, i) as int,
    ) by {
        assert(parts_right(fl.to_int(at_row(a, i)) as int));
    }
    let mins = evaluated(call(ScalarFunc::ExtractMinute, seq![e]), frame, rows, fl)->Ok_0->I64_0;
    assert forall|i: int| 0 <= i < rows.len() implies in_minute(
        fl.to_int(at_row(a, i)) as int,
        #[trigger] at_row(mins, i) as int,
    ) by {
        assert(parts_right(fl.to_int(at_row(a, i)) as int));
    }
    let days = evaluated(call(ScalarFunc::ExtractDay, seq![e]), frame, rows, fl)->Ok_0->I64_0;
    assert forall|i: int| 0 <= i < rows.len() implies in_day(
        fl.to_int(at_row(a, i)) as int,
        #[trigger] at_row(days, i) as int,
    ) by {
        assert(parts_right(fl.to_int(at_row(a, i)) as int));
    }
    let months = evaluated(call(ScalarFunc::ExtractMonth, seq![e]), frame, rows, fl)->Ok_0->I64_0;
    assert forall|i: int| 0 <= i < rows.len() implies in_month(
        fl.to_int(at_row(a, i)) as int,
        #[trigger] at_row(months, i) as int,
    ) by {
        assert(parts_right(fl.to_int(at_row(a, i)) as int));
    }
    let years = evaluated(call(ScalarFunc::ExtractYear, seq![e]), frame, rows, fl)->Ok_0->I64_0;
    assert forall|i: int| 0 <= i < rows.len() implies in_year(
        fl.to_int(at_row(a, i)) as int,
        #[trigger] at_row(years, i) as int,
    ) by {
        assert(parts_right(fl.to_int(at_row(a, i)) as int));
    }
}

spec fn parts_right(ts: int) -> bool {
    let date = date_of(ts / 86_400);
    &&& in_hour(ts, (ts % 86_400) / 3600)
    &&& in_minute(ts, (ts % 3600) / 60)
    &&& in_day(ts, date.2) && 1 <= date.2 <= 31
    &&& in_month(ts, date.1) && 1 <= date.1 <= 12
    &&& in_year(ts, date.0) && i64::MIN <= date.0 <= i64::MAX
}

/// How many seconds a unit of time has.
pub open spec fn seconds_of(unit: Seq<char>) -> Option<int> {
    if unit == "second"@ {
        Some(1)
    } else if unit == "minute"@ {
        Some(60)
    } else if unit == "hour"@ {
        Some(3600)
    } else if unit == "day"@ {
        Some(24 * 3600int)
    } else {
        None
    }
}

/// `date_trunc` gives the last start of a unit of time that is not after the moment; units it
/// does not know are refused.
pub proof fn lemma_date_trunc<F: Floats>(
    u: Term,
    e: Term,
    unit: Seq<char>,
    c: Cells,
    a: Seq<u64>,
    frame: Seq<Cells>,
    rows: Seq<usize>,
    fl: F,
)
    requires
        evaluated(u, frame, rows, fl) == Ok::<Cells, Seq<char>>(Cells::Str(seq![unit])),
        evaluated(e, frame, rows, fl) == Ok::<Cells, Seq<char>>(c),
        are_doubles(c, a, fl),
    ensures
        seconds_of(lowercase(unit)) is None ==> evaluated(
            call(ScalarFunc::DateTrunc, seq![u, e]),
            frame,
            rows,
            fl,
        ) is Err,
        seconds_of(lowercase(unit)) matches Some(step) ==> ints_at(
            call(ScalarFunc::DateTrunc, seq![u, e]),
            frame,
            rows,
            fl,
            |i: int, y: i64|
                exists|start: int| #[trigger]
                    nearest(start, y) && start % step == 0 && start <= fl.to_int(at_row(a, i))
                        < start + step,
        ),
{
    lemma_two(u, e, Cells::Str(seq![unit]), c, frame, rows, fl);
    assert(numbers(c, fl)->Ok_0 =~= a);
    if let Some(step) = seconds_of(lowercase(unit)) {
        let t = call(ScalarFunc::DateTrunc, seq![u, e]);
        let w = evaluated(t, frame, rows, fl)->Ok_0->I64_0;
        assert forall|i: int| 0 <= i < rows.len() implies exists|start: int| #[trigger]
            nearest(start, #[trigger] at_row(w, i)) && start % step == 0 && start <= fl.to_int(
                at_row(a, i),
            ) < start + step by {
            let ts = fl.to_int(at_row(a, i)) as int;
            let start = (ts / step) * step;
            assert(start % step == 0 && start <= ts < start + step) by (nonlinear_arith)
                requires
                    start == (ts / step) * step,
                    step > 0,
            ;
            assert(nearest(start, at_row(w, i)));
        }
    }
}

} // verus!
