//! Which rows make up a group, and what the aggregates of a group are.
use crate::column::Cells;
use crate::exec::agg::{
    aggregated, count_in, distinct_key, float_best, float_count, float_sum, int_best, int_sum,
    lemma_distinct_exact, row_in, text_best, values_in,
};
use crate::exec::arr::numbers;
use crate::exec::eval::evaluated;
use crate::exec::group::{
    first_rows, grouped, is_group, key_known, key_of, lemma_first_rows, lemma_groups,
};
use crate::float::{FloatOp, Floats};
use crate::laws::conditions::{are_doubles, at_row};
use crate::laws::order::{below, earlier, lemma_numbers, lemma_texts, no_number};
use crate::laws::values::nearest;
use crate::laws::vectors::tells_apart;
use crate::plan::{AggFunc, Term};
use vstd::prelude::*;

verus! {

/// Whether two rows have the same value in a column. Doubles are the same where their bits
/// are, truth values where their bytes are.
pub open spec fn same_at(c: Cells, i: int, j: int) -> bool {
    match c {
        Cells::I64(v) => at_row(v, i) == at_row(v, j),
        Cells::F64(v) => at_row(v, i) == at_row(v, j),
        Cells::Bool(v) => at_row(v, i) == at_row(v, j),
        Cells::Str(v) => at_row(v, i) == at_row(v, j),
        Cells::Vector { rows, .. } => at_row(rows, i) == at_row(rows, j),
    }
}

/// Whether two rows have the same values in all of some columns.
pub open spec fn same_in_all(cols: Seq<Cells>, i: int, j: int) -> bool {
    forall|k: int| 0 <= k < cols.len() ==> same_at(#[trigger] cols[k], i, j)
}

proof fn lemma_keys(cols: Seq<Cells>, i: int, j: int)
    ensures
        key_of(cols, i) == key_of(cols, j) <==> same_in_all(cols, i, j),
{
    let (a, b) = (key_of(cols, i), key_of(cols, j));
    if same_in_all(cols, i, j) {
        assert forall|k: int| 0 <= k < cols.len() implies a[k] == b[k] by {
            assert(same_at(cols[k], i, j));
        }
        assert(a =~= b);
    }
    if a == b {
        assert forall|k: int| 0 <= k < cols.len() implies same_at(#[trigger] cols[k], i, j) by {
            assert(a[k] == b[k]);
        }
    }
}

/// The first rows of groups ascend, and no row before one of them has its values.
proof fn lemma_first_first(cols: Seq<Cells>, n: nat)
    requires
        n <= usize::MAX,
    ensures
        forall|g: int, h: int|
            0 <= g < h < first_rows(cols, n).len() ==> (#[trigger] first_rows(cols, n)[g]) < (
            #[trigger] first_rows(cols, n)[h]),
        forall|g: int, i: int|
            #![trigger first_rows(cols, n)[g], key_of(cols, i)]
            0 <= g < first_rows(cols, n).len() && 0 <= i < first_rows(cols, n)[g] ==> key_of(
                cols,
                i,
            ) != key_of(cols, first_rows(cols, n)[g] as int),
    decreases n,
{
    if n > 0 {
        let m = (n - 1) as nat;
        lemma_first_first(cols, m);
        lemma_first_rows(cols, m);
        let before = first_rows(cols, m);
        let now = first_rows(cols, n);
        if !key_known(cols, before, n - 1) {
            assert forall|i: int| 0 <= i < m implies #[trigger] key_of(cols, i) != key_of(
                cols,
                n - 1,
            ) by {
                assert(key_known(cols, before, i));
                let g = choose|g: int| is_group(cols, before, i, g);
                if key_of(cols, i) == key_of(cols, n - 1) {
                    assert(is_group(cols, before, n - 1, g));
                }
            }
        }
    }
}

/// Two rows are in one group if and only if they have the same value in every key. The groups
/// are numbered in the order of their first rows, and none is empty.
pub proof fn lemma_same_group(cols: Seq<Cells>, n: nat)
    requires
        n <= usize::MAX,
        cols.len() > 0,
        forall|k: int| 0 <= k < cols.len() ==> !(#[trigger] cols[k] is Vector),
    ensures
        grouped(cols, n) matches Ok(g) && {
            &&& g.of.len() == n
            &&& g.first.len() == g.count
            &&& forall|i: int, j: int|
                0 <= i < n && 0 <= j < n ==> (#[trigger] g.of[i] == #[trigger] g.of[j]
                    <==> same_in_all(cols, i, j))
            &&& forall|i: int| 0 <= i < n ==> (#[trigger] g.of[i]) < g.count
            &&& forall|h: int| 0 <= h < g.count ==> (#[trigger] g.first[h]) < n
            &&& forall|h: int| 0 <= h < g.count ==> g.of[(#[trigger] g.first[h]) as int] == h
            &&& forall|h: int, i: int|
                0 <= h < g.count && 0 <= i < n && #[trigger] g.of[i] == h ==> (
                #[trigger] g.first[h]) <= i
            &&& forall|h: int, k: int|
                0 <= h < k < g.count ==> (#[trigger] g.first[h]) < (#[trigger] g.first[k])
        },
{
    let g = grouped(cols, n)->Ok_0;
    let f = first_rows(cols, n);
    lemma_first_rows(cols, n);
    lemma_first_first(cols, n);
    assert forall|i: int, j: int| 0 <= i < n && 0 <= j < n implies (#[trigger] g.of[i]
        == #[trigger] g.of[j] <==> same_in_all(cols, i, j)) by {
        lemma_groups(cols, n, i, j);
        lemma_keys(cols, i, j);
    }
    assert forall|i: int| 0 <= i < n implies (#[trigger] g.of[i]) < g.count && key_of(
        cols,
        f[g.of[i] as int] as int,
    ) == key_of(cols, i) by {
        lemma_groups(cols, n, i, i);
    }
    assert forall|h: int| 0 <= h < g.count implies g.of[(#[trigger] g.first[h]) as int] == h by {
        let r = f[h] as int;
        lemma_groups(cols, n, r, r);
        let k = g.of[r] as int;
        if k < h {
            assert(key_of(cols, f[k] as int) != key_of(cols, f[h] as int));
        } else if h < k {
            assert(key_of(cols, f[h] as int) != key_of(cols, f[k] as int));
        }
    }
    assert forall|h: int, i: int|
        0 <= h < g.count && 0 <= i < n && #[trigger] g.of[i] == h implies (#[trigger] g.first[h])
        <= i by {
        assert(key_of(cols, f[h] as int) == key_of(cols, i));
    }
}

/// Without keys there is one group, of all the rows; by vectors there are no groups.
pub proof fn lemma_one_group(n: nat, cols: Seq<Cells>, k: int)
    requires
        0 <= k < cols.len(),
        cols[k] is Vector,
        n > 0,
    ensures
        grouped(Seq::empty(), n) matches Ok(g) && g.count == 1 && g.of.len() == n && forall|i: int|
            0 <= i < n ==> #[trigger] g.of[i] == 0,
        grouped(cols, n) is Err,
{
}

// --- the values of a group -------------------------------------------------------------------

/// The values that the rows of group `g` among the first `n` have, in the order of the rows.
pub open spec fn members<T>(v: Seq<T>, of: Seq<usize>, g: int, n: nat) -> Seq<T>
    decreases n,
{
    if n == 0 {
        Seq::empty()
    } else {
        let before = members(v, of, g, (n - 1) as nat);
        if of[n - 1] == g {
            before.push(at_row(v, n - 1))
        } else {
            before
        }
    }
}

/// The value of an aggregate over groups, where it is one of integers: `p` holds of each
/// group and its integer.
pub open spec fn ints_by_group<F: Floats>(
    t: Term,
    frame: Seq<Cells>,
    rows: Seq<usize>,
    of: Seq<usize>,
    groups: nat,
    fl: F,
    p: spec_fn(int, i64) -> bool,
) -> bool {
    aggregated(t, frame, rows, of, groups, fl) matches Ok(c) && c matches Cells::I64(v) && v.len()
        == groups && forall|g: int| 0 <= g < groups ==> p(g, #[trigger] v[g])
}

pub open spec fn doubles_by_group<F: Floats>(
    t: Term,
    frame: Seq<Cells>,
    rows: Seq<usize>,
    of: Seq<usize>,
    groups: nat,
    fl: F,
    p: spec_fn(int, u64) -> bool,
) -> bool {
    aggregated(t, frame, rows, of, groups, fl) matches Ok(c) && c matches Cells::F64(v) && v.len()
        == groups && forall|g: int| 0 <= g < groups ==> p(g, #[trigger] v[g])
}

pub open spec fn aggregate(func: AggFunc, e: Term) -> Term {
    Term::Agg { func, arg: Some(Box::new(e)), distinct: false }
}

proof fn lemma_count(of: Seq<usize>, g: int, n: nat)
    ensures
        count_in(of, g, n) == members(of, of, g, n).len(),
    decreases n,
{
    if n > 0 {
        lemma_count(of, g, (n - 1) as nat);
    }
}

/// `count` gives the number of rows of each group, with an argument and without one.
pub proof fn lemma_counts<F: Floats>(
    e: Term,
    frame: Seq<Cells>,
    rows: Seq<usize>,
    of: Seq<usize>,
    groups: nat,
    fl: F,
)
    requires
        evaluated(e, frame, rows, fl) is Ok,
    ensures
        ({
            let p = |g: int, x: i64| nearest(members(of, of, g, of.len()).len() as int, x);
            let all = Term::Agg { func: AggFunc::Count, arg: None, distinct: false };
            &&& ints_by_group(all, frame, rows, of, groups, fl, p)
            &&& ints_by_group(aggregate(AggFunc::Count, e), frame, rows, of, groups, fl, p)
        }),
{
    assert forall|g: int| 0 <= g < groups implies #[trigger] count_in(of, g, of.len()) == members(
        of,
        of,
        g,
        of.len(),
    ).len() by {
        lemma_count(of, g, of.len());
    }
}

/// A sum that stops at the ends of the range of integers.
pub open spec fn kept_in_range(x: int) -> i64 {
    if x < i64::MIN {
        i64::MIN
    } else if x > i64::MAX {
        i64::MAX
    } else {
        x as i64
    }
}

proof fn lemma_int_sum(v: Seq<i64>, of: Seq<usize>, g: int, n: nat)
    ensures
        int_sum(v, of, g, n) == members(v, of, g, n).fold_left(
            0i64,
            |s: i64, x: i64| kept_in_range(s + x),
        ),
    decreases n,
{
    if n > 0 {
        lemma_int_sum(v, of, g, (n - 1) as nat);
        let before = members(v, of, g, (n - 1) as nat);
        let now = members(v, of, g, n);
        if of[n - 1] == g {
            assert(now.drop_last() =~= before);
        }
    }
}

/// `sum` of integers adds up all the integers of each group, in the order of the rows.
pub proof fn lemma_sums_of_ints<F: Floats>(
    e: Term,
    v: Seq<i64>,
    frame: Seq<Cells>,
    rows: Seq<usize>,
    of: Seq<usize>,
    groups: nat,
    fl: F,
)
    requires
        evaluated(e, frame, rows, fl) == Ok::<Cells, Seq<char>>(Cells::I64(v)),
    ensures
        ints_by_group(
            aggregate(AggFunc::Sum, e),
            frame,
            rows,
            of,
            groups,
            fl,
            |g: int, r: i64|
                r == members(v, of, g, of.len()).fold_left(
                    0i64,
                    |s: i64, x: i64| kept_in_range(s + x),
                ),
        ),
{
    assert forall|g: int| 0 <= g < groups implies #[trigger] int_sum(v, of, g, of.len())
        == members(v, of, g, of.len()).fold_left(0i64, |s: i64, x: i64| kept_in_range(s + x)) by {
        lemma_int_sum(v, of, g, of.len());
    }
}

/// The sum of whole numbers.
pub open spec fn total(v: Seq<i64>) -> int
    decreases v.len(),
{
    if v.len() == 0 {
        0
    } else {
        total(v.drop_last()) + v.last()
    }
}

/// Where nothing on the way leaves the range, the sum of integers is the sum of the numbers.
pub proof fn lemma_exact_total(v: Seq<i64>)
    requires
        forall|k: int| 0 <= k <= v.len() ==> i64::MIN <= total(#[trigger] v.take(k)) <= i64::MAX,
    ensures
        v.fold_left(0i64, |s: i64, x: i64| kept_in_range(s + x)) == total(v),
    decreases v.len(),
{
    if v.len() > 0 {
        let w = v.drop_last();
        assert forall|k: int| 0 <= k <= w.len() implies i64::MIN <= total(#[trigger] w.take(k))
            <= i64::MAX by {
            assert(w.take(k) =~= v.take(k));
        }
        lemma_exact_total(w);
        assert(v.take(v.len() as int) =~= v);
    }
}

/// All of some doubles added up, the first of them to zero.
pub open spec fn all_added<F: Floats>(v: Seq<u64>, fl: F) -> u64 {
    v.fold_left(0u64, |s: u64, x: u64| fl.apply(FloatOp::Add, s, x))
}

proof fn lemma_float_sum<F: Floats>(v: Seq<u64>, of: Seq<usize>, g: int, n: nat, fl: F)
    ensures
        float_sum(v, of, g, n, fl) == all_added(members(v, of, g, n), fl),
        float_count(of, g, n, fl) == all_added(
            Seq::new(members(v, of, g, n).len(), |i: int| 0x3FF0_0000_0000_0000u64),
            fl,
        ),
    decreases n,
{
    let one = 0x3FF0_0000_0000_0000u64;
    if n > 0 {
        lemma_float_sum(v, of, g, (n - 1) as nat, fl);
        let before = members(v, of, g, (n - 1) as nat);
        let now = members(v, of, g, n);
        if of[n - 1] == g {
            assert(now.drop_last() =~= before);
            let ones = Seq::new(now.len(), |i: int| one);
            assert(ones.drop_last() =~= Seq::new(before.len(), |i: int| one));
        }
    }
}

/// `sum` of numbers that are no integers adds up the doubles of each group. `avg` divides that
/// by the number of its rows; of no rows it is zero.
pub proof fn lemma_sums_of_doubles<F: Floats>(
    e: Term,
    c: Cells,
    v: Seq<u64>,
    frame: Seq<Cells>,
    rows: Seq<usize>,
    of: Seq<usize>,
    groups: nat,
    fl: F,
)
    requires
        evaluated(e, frame, rows, fl) == Ok::<Cells, Seq<char>>(c),
        are_doubles(c, v, fl),
    ensures
        !(c is I64) ==> doubles_by_group(
            aggregate(AggFunc::Sum, e),
            frame,
            rows,
            of,
            groups,
            fl,
            |g: int, r: u64| r == all_added(members(v, of, g, of.len()), fl),
        ),
        doubles_by_group(
            aggregate(AggFunc::Avg, e),
            frame,
            rows,
            of,
            groups,
            fl,
            |g: int, r: u64|
                {
                    let all = members(v, of, g, of.len());
                    let count = all_added(
                        Seq::new(all.len(), |i: int| 0x3FF0_0000_0000_0000u64),
                        fl,
                    );
                    r == if count == 0 || count == 0x8000_0000_0000_0000u64 {
                        0
                    } else {
                        fl.apply(FloatOp::Div, all_added(all, fl), count)
                    }
                },
        ),
{
    assert(numbers(c, fl)->Ok_0 =~= v);
    assert forall|g: int| 0 <= g < groups implies {
        let all = members(v, of, g, of.len());
        &&& #[trigger] float_sum(v, of, g, of.len(), fl) == all_added(all, fl)
        &&& float_count(of, g, of.len(), fl) == all_added(
            Seq::new(all.len(), |i: int| 0x3FF0_0000_0000_0000u64),
            fl,
        )
    } by {
        lemma_float_sum(v, of, g, of.len(), fl);
    }
    assert forall|x: u64| #[trigger] crate::float::number_eq(x, 0) == (x == 0 || x
        == 0x8000_0000_0000_0000u64) by {
        lemma_numbers(x, 0);
    }
    let avg = aggregate(AggFunc::Avg, e);
    let w = aggregated(avg, frame, rows, of, groups, fl)->Ok_0->F64_0;
    assert forall|g: int| 0 <= g < groups implies {
        let all = members(v, of, g, of.len());
        let count = all_added(Seq::new(all.len(), |i: int| 0x3FF0_0000_0000_0000u64), fl);
        #[trigger] w[g] == if count == 0 || count == 0x8000_0000_0000_0000u64 {
            0
        } else {
            fl.apply(FloatOp::Div, all_added(all, fl), count)
        }
    } by {
        assert(float_sum(v, of, g, of.len(), fl) == all_added(members(v, of, g, of.len()), fl));
    }
}

// --- the least and the greatest --------------------------------------------------------------

proof fn lemma_int_best(v: Seq<i64>, of: Seq<usize>, g: int, n: nat, least: bool)
    ensures
        ({
            let all = members(v, of, g, n);
            match int_best(v, of, g, n, least) {
                None => all.len() == 0,
                Some(x) => all.contains(x) && forall|i: int|
                    0 <= i < all.len() ==> if least {
                        x <= #[trigger] all[i]
                    } else {
                        x >= all[i]
                    },
            }
        }),
    decreases n,
{
    if n > 0 {
        lemma_int_best(v, of, g, (n - 1) as nat, least);
        let before = members(v, of, g, (n - 1) as nat);
        let now = members(v, of, g, n);
        if of[n - 1] == g {
            assert(now.last() == at_row(v, n - 1));
            if let Some(x) = int_best(v, of, g, (n - 1) as nat, least) {
                let i = choose|i: int| 0 <= i < before.len() && before[i] == x;
                assert(now[i] == x);
            }
        }
    }
}

/// `min` of integers is the least integer of each group, `max` the greatest: one of those the
/// group has, with none of them beyond it. Of no rows it is zero.
pub proof fn lemma_bests_of_ints<F: Floats>(
    e: Term,
    v: Seq<i64>,
    frame: Seq<Cells>,
    rows: Seq<usize>,
    of: Seq<usize>,
    groups: nat,
    fl: F,
)
    requires
        evaluated(e, frame, rows, fl) == Ok::<Cells, Seq<char>>(Cells::I64(v)),
    ensures
        ints_by_group(
            aggregate(AggFunc::Min, e),
            frame,
            rows,
            of,
            groups,
            fl,
            |g: int, r: i64|
                {
                    let all = members(v, of, g, of.len());
                    if all.len() == 0 {
                        r == 0
                    } else {
                        all.contains(r) && forall|i: int|
                            0 <= i < all.len() ==> r <= #[trigger] all[i]
                    }
                },
        ),
        ints_by_group(
            aggregate(AggFunc::Max, e),
            frame,
            rows,
            of,
            groups,
            fl,
            |g: int, r: i64|
                {
                    let all = members(v, of, g, of.len());
                    if all.len() == 0 {
                        r == 0
                    } else {
                        all.contains(r) && forall|i: int|
                            0 <= i < all.len() ==> r >= #[trigger] all[i]
                    }
                },
        ),
{
    let x = aggregated(aggregate(AggFunc::Min, e), frame, rows, of, groups, fl)->Ok_0->I64_0;
    assert forall|g: int| 0 <= g < groups implies {
        let all = members(v, of, g, of.len());
        if all.len() == 0 {
            #[trigger] x[g] == 0
        } else {
            all.contains(x[g]) && forall|i: int| 0 <= i < all.len() ==> x[g] <= #[trigger] all[i]
        }
    } by {
        lemma_int_best(v, of, g, of.len(), true);
    }
    let y = aggregated(aggregate(AggFunc::Max, e), frame, rows, of, groups, fl)->Ok_0->I64_0;
    assert forall|g: int| 0 <= g < groups implies {
        let all = members(v, of, g, of.len());
        if all.len() == 0 {
            #[trigger] y[g] == 0
        } else {
            all.contains(y[g]) && forall|i: int| 0 <= i < all.len() ==> y[g] >= #[trigger] all[i]
        }
    } by {
        lemma_int_best(v, of, g, of.len(), false);
    }
}

proof fn lemma_float_best<F: Floats>(
    v: Seq<u64>,
    of: Seq<usize>,
    g: int,
    n: nat,
    least: bool,
    fl: F,
)
    requires
        tells_apart(fl),
        forall|i: int|
            0 <= i < members(v, of, g, n).len() ==> !no_number(#[trigger] members(v, of, g, n)[i]),
    ensures
        ({
            let all = members(v, of, g, n);
            match float_best(v, of, g, n, least, fl) {
                None => all.len() == 0,
                Some(x) => all.contains(x) && forall|i: int|
                    0 <= i < all.len() ==> if least {
                        !below(#[trigger] all[i], x)
                    } else {
                        !below(x, all[i])
                    },
            }
        }),
    decreases n,
{
    if n > 0 {
        let before = members(v, of, g, (n - 1) as nat);
        let now = members(v, of, g, n);
        assert forall|i: int| 0 <= i < before.len() implies !no_number(#[trigger] before[i]) by {
            assert(now[i] == before[i]);
        }
        lemma_float_best(v, of, g, (n - 1) as nat, least, fl);
        if of[n - 1] == g {
            let y = at_row(v, n - 1);
            assert(now.last() == y);
            assert(!no_number(now[now.len() - 1]));
            if let Some(x) = float_best(v, of, g, (n - 1) as nat, least, fl) {
                let i = choose|i: int| 0 <= i < before.len() && before[i] == x;
                assert(now[i] == x);
                assert(!no_number(before[i]));
                let m = fl.apply(
                    if least {
                        FloatOp::Min
                    } else {
                        FloatOp::Max
                    },
                    x,
                    y,
                );
                assert(m == x || m == y);
                assert(now.contains(m));
                assert forall|k: int| 0 <= k < now.len() implies if least {
                    !below(#[trigger] now[k], m)
                } else {
                    !below(m, now[k])
                } by {
                    if k < before.len() {
                        assert(now[k] == before[k]);
                        assert(!no_number(before[k]));
                    }
                }
            }
        }
    }
}

/// `min` of doubles is the least number of each group that has only numbers, `max` the
/// greatest: one of those the group has, with none of them beyond it. Of no rows it is zero.
pub proof fn lemma_bests_of_doubles<F: Floats>(
    e: Term,
    c: Cells,
    v: Seq<u64>,
    frame: Seq<Cells>,
    rows: Seq<usize>,
    of: Seq<usize>,
    groups: nat,
    fl: F,
)
    requires
        tells_apart(fl),
        evaluated(e, frame, rows, fl) == Ok::<Cells, Seq<char>>(c),
        !(c is I64),
        are_doubles(c, v, fl),
        forall|i: int| 0 <= i < v.len() ==> !no_number(#[trigger] v[i]),
        v.len() == 1 || v.len() == of.len(),
    ensures
        doubles_by_group(
            aggregate(AggFunc::Min, e),
            frame,
            rows,
            of,
            groups,
            fl,
            |g: int, r: u64|
                {
                    let all = members(v, of, g, of.len());
                    if all.len() == 0 {
                        r == 0
                    } else {
                        all.contains(r) && forall|i: int|
                            0 <= i < all.len() ==> !below(#[trigger] all[i], r)
                    }
                },
        ),
        doubles_by_group(
            aggregate(AggFunc::Max, e),
            frame,
            rows,
            of,
            groups,
            fl,
            |g: int, r: u64|
                {
                    let all = members(v, of, g, of.len());
                    if all.len() == 0 {
                        r == 0
                    } else {
                        all.contains(r) && forall|i: int|
                            0 <= i < all.len() ==> !below(r, #[trigger] all[i])
                    }
                },
        ),
{
    assert(numbers(c, fl)->Ok_0 =~= v);
    let x = aggregated(aggregate(AggFunc::Min, e), frame, rows, of, groups, fl)->Ok_0->F64_0;
    assert forall|g: int| 0 <= g < groups implies {
        let all = members(v, of, g, of.len());
        if all.len() == 0 {
            #[trigger] x[g] == 0
        } else {
            all.contains(x[g]) && forall|i: int|
                0 <= i < all.len() ==> !below(#[trigger] all[i], x[g])
        }
    } by {
        lemma_members_numbers(v, of, g, of.len());
        lemma_float_best(v, of, g, of.len(), true, fl);
    }
    let y = aggregated(aggregate(AggFunc::Max, e), frame, rows, of, groups, fl)->Ok_0->F64_0;
    assert forall|g: int| 0 <= g < groups implies {
        let all = members(v, of, g, of.len());
        if all.len() == 0 {
            #[trigger] y[g] == 0
        } else {
            all.contains(y[g]) && forall|i: int|
                0 <= i < all.len() ==> !below(y[g], #[trigger] all[i])
        }
    } by {
        lemma_members_numbers(v, of, g, of.len());
        lemma_float_best(v, of, g, of.len(), false, fl);
    }
}

proof fn lemma_members_numbers(v: Seq<u64>, of: Seq<usize>, g: int, n: nat)
    requires
        forall|i: int| 0 <= i < v.len() ==> !no_number(#[trigger] v[i]),
        v.len() == 1 || n <= v.len(),
    ensures
        forall|i: int|
            0 <= i < members(v, of, g, n).len() ==> !no_number(#[trigger] members(v, of, g, n)[i]),
    decreases n,
{
    if n > 0 {
        lemma_members_numbers(v, of, g, (n - 1) as nat);
        let before = members(v, of, g, (n - 1) as nat);
        let now = members(v, of, g, n);
        assert(!no_number(at_row(v, n - 1)));
        assert forall|i: int| 0 <= i < now.len() implies !no_number(#[trigger] now[i]) by {
            if i < before.len() {
                assert(now[i] == before[i]);
            }
        }
    }
}

proof fn lemma_text_best(v: Seq<Seq<char>>, of: Seq<usize>, g: int, n: nat, least: bool)
    ensures
        ({
            let all = members(v, of, g, n);
            match text_best(v, of, g, n, least) {
                None => all.len() == 0,
                Some(x) => all.contains(x) && forall|i: int|
                    0 <= i < all.len() ==> if least {
                        !earlier(#[trigger] all[i], x)
                    } else {
                        !earlier(x, all[i])
                    },
            }
        }),
    decreases n,
{
    if n > 0 {
        lemma_text_best(v, of, g, (n - 1) as nat, least);
        let before = members(v, of, g, (n - 1) as nat);
        let now = members(v, of, g, n);
        if of[n - 1] == g {
            let y = at_row(v, n - 1);
            assert(now.last() == y);
            lemma_texts(y, y);
            if let Some(x) = text_best(v, of, g, (n - 1) as nat, least) {
                let i = choose|i: int| 0 <= i < before.len() && before[i] == x;
                assert(now[i] == x);
                lemma_texts(y, x);
                crate::text::lemma_text_rank_reversed(y, x);
                let m = text_best(v, of, g, n, least)->0;
                assert(now.contains(m));
                assert forall|k: int| 0 <= k < now.len() implies if least {
                    !earlier(#[trigger] now[k], m)
                } else {
                    !earlier(m, now[k])
                } by {
                    let z = now[k];
                    lemma_texts(z, m);
                    lemma_texts(z, x);
                    crate::text::lemma_text_rank_reversed(z, x);
                    crate::text::lemma_text_rank_reversed(z, m);
                    if k < before.len() {
                        assert(before[k] == z);
                        if m == y {
                            if least {
                                crate::text::lemma_text_rank_transitive(y, x, z);
                                crate::text::lemma_text_rank_reversed(y, z);
                            } else {
                                crate::text::lemma_text_rank_transitive(z, x, y);
                            }
                        }
                    }
                }
            }
        }
    }
}

/// `min` of texts is the text of each group that comes first in a dictionary, `max` the one
/// that comes last; of no rows it is the empty text. All of them have to fit into a column.
pub proof fn lemma_bests_of_texts<F: Floats>(
    e: Term,
    v: Seq<Seq<char>>,
    least: bool,
    frame: Seq<Cells>,
    rows: Seq<usize>,
    of: Seq<usize>,
    groups: nat,
    fl: F,
)
    requires
        evaluated(e, frame, rows, fl) == Ok::<Cells, Seq<char>>(Cells::Str(v)),
    ensures
        ({
            let func = if least {
                AggFunc::Min
            } else {
                AggFunc::Max
            };
            let r = aggregated(aggregate(func, e), frame, rows, of, groups, fl);
            r matches Ok(c) ==> c matches Cells::Str(w) && w.len() == groups && forall|g: int|
                0 <= g < groups ==> {
                    let all = members(v, of, g, of.len());
                    if all.len() == 0 {
                        (#[trigger] w[g]).len() == 0
                    } else {
                        all.contains(w[g]) && forall|i: int|
                            0 <= i < all.len() ==> if least {
                                !earlier(#[trigger] all[i], w[g])
                            } else {
                                !earlier(w[g], all[i])
                            }
                    }
                }
        }),
{
    let func = if least {
        AggFunc::Min
    } else {
        AggFunc::Max
    };
    let r = aggregated(aggregate(func, e), frame, rows, of, groups, fl);
    if let Ok(c) = r {
        let w = c->Str_0;
        assert forall|g: int| 0 <= g < groups implies {
            let all = members(v, of, g, of.len());
            if all.len() == 0 {
                (#[trigger] w[g]).len() == 0
            } else {
                all.contains(w[g]) && forall|i: int|
                    0 <= i < all.len() ==> if least {
                        !earlier(#[trigger] all[i], w[g])
                    } else {
                        !earlier(w[g], all[i])
                    }
            }
        } by {
            lemma_text_best(v, of, g, of.len(), least);
        }
    }
}

// --- different values ------------------------------------------------------------------------

/// Whether some rows stand for the different values of group `g`: they are in the group, no
/// two of them have the same value, and every row of the group has the value of one of them.
pub open spec fn stand_for_all(reps: Seq<int>, c: Cells, of: Seq<usize>, g: int, n: nat) -> bool {
    &&& forall|a: int| 0 <= a < reps.len() ==> 0 <= #[trigger] reps[a] < n && of[reps[a]] == g
    &&& forall|a: int, b: int|
        0 <= a < b < reps.len() ==> !same_at(c, #[trigger] reps[a], #[trigger] reps[b])
    &&& forall|i: int|
        0 <= i < n && #[trigger] of[i] == g ==> exists|a: int|
            0 <= a < reps.len() && same_at(c, #[trigger] reps[a], i)
}

/// One key stands for one value: two rows of a column that is no vector have one key if and
/// only if they have the same value, in `GROUP BY` as in `count(DISTINCT x)`.
pub proof fn lemma_one_key(c: Cells, i: int, j: int)
    ensures
        !(c is Vector) ==> (distinct_key(c, i) == distinct_key(c, j) <==> same_at(c, i, j)),
        key_of(seq![c], i) == key_of(seq![c], j) <==> same_at(c, i, j),
{
    lemma_keys(seq![c], i, j);
    assert(same_in_all(seq![c], i, j) <==> same_at(c, i, j)) by {
        assert(seq![c][0] == c);
    }
}

proof fn lemma_one_more_stands(
    before: Seq<int>,
    c: Cells,
    of: Seq<usize>,
    g: int,
    n: nat,
)
    requires
        n < of.len(),
        of[n as int] == g,
        stand_for_all(before, c, of, g, n),
        forall|i: int| 0 <= i < n && #[trigger] of[i] == g ==> !same_at(c, i, n as int),
        same_at(c, n as int, n as int),
    ensures
        stand_for_all(before.push(n as int), c, of, g, n + 1),
{
    let reps = before.push(n as int);
    assert forall|i: int| 0 <= i < n + 1 && #[trigger] of[i] == g implies exists|a: int|
        0 <= a < reps.len() && same_at(c, #[trigger] reps[a], i) by {
        if i < n {
            let a = choose|a: int| 0 <= a < before.len() && same_at(c, #[trigger] before[a], i);
            assert(reps[a] == before[a]);
        } else {
            assert(reps[before.len() as int] == n);
        }
    }
}

proof fn lemma_no_more_stands(
    before: Seq<int>,
    c: Cells,
    of: Seq<usize>,
    g: int,
    n: nat,
    i: int,
)
    requires
        n < of.len(),
        0 <= i < n,
        of[i] == g,
        stand_for_all(before, c, of, g, n),
        same_at(c, i, n as int),
    ensures
        stand_for_all(before, c, of, g, n + 1),
{
    let a = choose|a: int| 0 <= a < before.len() && same_at(c, #[trigger] before[a], i);
    assert(same_at(c, before[a], n as int));
}

proof fn lemma_representatives(c: Cells, of: Seq<usize>, g: int, n: nat) -> (reps: Seq<int>)
    requires
        n <= of.len(),
        !(c is Vector),
    ensures
        reps.len() == values_in(c, of, g, n).len(),
        stand_for_all(reps, c, of, g, n),
    decreases n,
{
    if n == 0 {
        Seq::empty()
    } else {
        let m = (n - 1) as nat;
        let before = lemma_representatives(c, of, g, m);
        let x = distinct_key(c, m as int);
        lemma_distinct_exact(c, of, g, m, x);
        if of[m as int] != g {
            before
        } else if values_in(c, of, g, m).contains(x) {
            let i = choose|i: int| #[trigger] row_in(of, g, m, i) && distinct_key(c, i) == x;
            lemma_one_key(c, i, m as int);
            lemma_no_more_stands(before, c, of, g, m, i);
            before
        } else {
            assert forall|i: int| 0 <= i < m && #[trigger] of[i] == g implies !same_at(
                c,
                i,
                m as int,
            ) by {
                lemma_one_key(c, i, m as int);
                assert(row_in(of, g, m, i));
            }
            lemma_one_key(c, m as int, m as int);
            lemma_one_more_stands(before, c, of, g, m);
            before.push(m as int)
        }
    }
}

/// `count(DISTINCT x)` gives the number of different values of each group: there are as many
/// rows that stand for all of them.
pub proof fn lemma_counts_different<F: Floats>(
    e: Term,
    c: Cells,
    frame: Seq<Cells>,
    rows: Seq<usize>,
    of: Seq<usize>,
    groups: nat,
    fl: F,
)
    requires
        evaluated(e, frame, rows, fl) == Ok::<Cells, Seq<char>>(c),
        !(c is Vector),
    ensures
        ints_by_group(
            Term::Agg { func: AggFunc::Count, arg: Some(Box::new(e)), distinct: true },
            frame,
            rows,
            of,
            groups,
            fl,
            |g: int, r: i64|
                exists|reps: Seq<int>| #[trigger]
                    stand_for_all(reps, c, of, g, of.len()) && nearest(reps.len() as int, r),
        ),
{
    let t = Term::Agg { func: AggFunc::Count, arg: Some(Box::new(e)), distinct: true };
    let w = aggregated(t, frame, rows, of, groups, fl)->Ok_0->I64_0;
    assert forall|g: int| 0 <= g < groups implies exists|reps: Seq<int>| #[trigger]
        stand_for_all(reps, c, of, g, of.len()) && nearest(reps.len() as int, #[trigger] w[g]) by {
        let reps = lemma_representatives(c, of, g, of.len());
        assert(stand_for_all(reps, c, of, g, of.len()));
    }
}

} // verus!
