//! Aggregates over groups.
use crate::codec::{lemma_u64_back, lemma_value_back, storable, u64_bytes, value_bytes, Writer};
use crate::column::{cell_type, Cell, Cells, Column, Value};
use crate::exec::arr::{as_column, covers, numbers, spread, Arr, Frame, Sel};
use crate::exec::eval::{eval, evaluated, lemma_evaluated_len};
use crate::exec::group::{no_numbers, number_under, numbered, put_number};
use crate::exec::ops::{add_held, held, place_of};
use crate::float::{eq_numbers, number_eq, FloatOp, Floats, ONE, ZERO};
use crate::plan::{AggFunc, Expr, Term};
use crate::text::{err, rank_text, strings, text_rank, Error, Rank};
use vstd::prelude::*;
use vstd::string::*;

verus! {

broadcast use vstd::string::group_string_axioms;

/// How many of the first `n` rows are in group `g`.
pub open spec fn count_in(of: Seq<usize>, g: int, n: nat) -> nat
    decreases n,
{
    if n == 0 {
        0
    } else {
        count_in(of, g, (n - 1) as nat) + (if of[n - 1] == g {
            1nat
        } else {
            0
        })
    }
}

/// The sum over group `g`, held within the range of `i64` at each step.
pub open spec fn int_sum(v: Seq<i64>, of: Seq<usize>, g: int, n: nat) -> i64
    decreases n,
{
    if n == 0 {
        0
    } else {
        let before = int_sum(v, of, g, (n - 1) as nat);
        if of[n - 1] == g {
            held(before + v[spread(v.len(), n - 1)])
        } else {
            before
        }
    }
}

/// The sum of doubles over group `g`.
pub open spec fn float_sum<F: Floats>(v: Seq<u64>, of: Seq<usize>, g: int, n: nat, fl: F) -> u64
    decreases n,
{
    if n == 0 {
        ZERO
    } else {
        let before = float_sum(v, of, g, (n - 1) as nat, fl);
        if of[n - 1] == g {
            fl.apply(FloatOp::Add, before, v[spread(v.len(), n - 1)])
        } else {
            before
        }
    }
}

/// The number of rows of group `g` as a double, counted up by one.
pub open spec fn float_count<F: Floats>(of: Seq<usize>, g: int, n: nat, fl: F) -> u64
    decreases n,
{
    if n == 0 {
        ZERO
    } else {
        let before = float_count(of, g, (n - 1) as nat, fl);
        if of[n - 1] == g {
            fl.apply(FloatOp::Add, before, ONE)
        } else {
            before
        }
    }
}

/// The mean over group `g`; zero where the group has no rows.
pub open spec fn mean<F: Floats>(v: Seq<u64>, of: Seq<usize>, g: int, n: nat, fl: F) -> u64 {
    let c = float_count(of, g, n, fl);
    if number_eq(c, ZERO) {
        ZERO
    } else {
        fl.apply(FloatOp::Div, float_sum(v, of, g, n, fl), c)
    }
}

/// The least or the greatest integer of group `g`, if the group has rows.
pub open spec fn int_best(v: Seq<i64>, of: Seq<usize>, g: int, n: nat, least: bool) -> Option<i64>
    decreases n,
{
    if n == 0 {
        None
    } else {
        let before = int_best(v, of, g, (n - 1) as nat, least);
        let x = v[spread(v.len(), n - 1)];
        if of[n - 1] != g {
            before
        } else {
            match before {
                None => Some(x),
                Some(c) => Some(
                    if (x < c) == least {
                        x
                    } else {
                        c
                    },
                ),
            }
        }
    }
}

/// The first or the last text of group `g`, if the group has rows.
pub open spec fn text_best(
    v: Seq<Seq<char>>,
    of: Seq<usize>,
    g: int,
    n: nat,
    least: bool,
) -> Option<Seq<char>>
    decreases n,
{
    if n == 0 {
        None
    } else {
        let before = text_best(v, of, g, (n - 1) as nat, least);
        let x = v[spread(v.len(), n - 1)];
        if of[n - 1] != g {
            before
        } else {
            match before {
                None => Some(x),
                Some(c) => Some(
                    if (text_rank(x, c) == Rank::Less) == least {
                        x
                    } else {
                        c
                    },
                ),
            }
        }
    }
}

/// The least or the greatest double of group `g`, if the group has rows.
pub open spec fn float_best<F: Floats>(
    v: Seq<u64>,
    of: Seq<usize>,
    g: int,
    n: nat,
    least: bool,
    fl: F,
) -> Option<u64>
    decreases n,
{
    if n == 0 {
        None
    } else {
        let before = float_best(v, of, g, (n - 1) as nat, least, fl);
        let x = v[spread(v.len(), n - 1)];
        if of[n - 1] != g {
            before
        } else {
            match before {
                None => Some(x),
                Some(c) => Some(
                    fl.apply(
                        if least {
                            FloatOp::Min
                        } else {
                            FloatOp::Max
                        },
                        c,
                        x,
                    ),
                ),
            }
        }
    }
}

/// What a value counts as among different values. Vectors are not told apart.
pub open spec fn distinct_key(c: Cells, i: int) -> Cell {
    match c {
        Cells::Vector { .. } => Cell::I64(0),
        _ => c.key_at(spread(c.len(), i)),
    }
}

/// The different values of group `g`.
pub open spec fn values_in(c: Cells, of: Seq<usize>, g: int, n: nat) -> Set<Cell>
    decreases n,
{
    if n == 0 {
        Set::empty()
    } else {
        let before = values_in(c, of, g, (n - 1) as nat);
        if of[n - 1] == g {
            before.insert(distinct_key(c, n - 1))
        } else {
            before
        }
    }
}

pub open spec fn or_zero(x: Option<i64>) -> i64 {
    match x {
        Some(v) => v,
        None => 0,
    }
}

pub open spec fn or_nought(x: Option<u64>) -> u64 {
    match x {
        Some(v) => v,
        None => ZERO,
    }
}

pub open spec fn or_empty(x: Option<Seq<char>>) -> Seq<char> {
    match x {
        Some(v) => v,
        None => Seq::empty(),
    }
}

pub open spec fn counts(of: Seq<usize>, groups: nat) -> Cells {
    Cells::I64(Seq::new(groups, |g: int| held(count_in(of, g, of.len()) as int)))
}

/// An aggregate of the values of its argument.
pub open spec fn aggregate_of<F: Floats>(
    func: AggFunc,
    distinct: bool,
    c: Cells,
    of: Seq<usize>,
    groups: nat,
    fl: F,
) -> Result<Cells, Seq<char>> {
    let n = of.len();
    if distinct && func != AggFunc::Count {
        Err("DISTINCT допустим только в count"@)
    } else if distinct {
        Ok(Cells::I64(Seq::new(groups, |g: int| held(values_in(c, of, g, n).len() as int))))
    } else {
        match func {
            AggFunc::Count => Ok(counts(of, groups)),
            AggFunc::Sum => match c {
                Cells::I64(v) => Ok(Cells::I64(Seq::new(groups, |g: int| int_sum(v, of, g, n)))),
                _ => match numbers(c, fl) {
                    Err(e) => Err(e),
                    Ok(v) => Ok(
                        Cells::F64(Seq::new(groups, |g: int| float_sum(v, of, g, n, fl))),
                    ),
                },
            },
            AggFunc::Avg => match numbers(c, fl) {
                Err(e) => Err(e),
                Ok(v) => Ok(Cells::F64(Seq::new(groups, |g: int| mean(v, of, g, n, fl)))),
            },
            AggFunc::Min | AggFunc::Max => {
                let least = func == AggFunc::Min;
                match c {
                    Cells::Str(v) => as_column(
                        Cells::Str(
                            Seq::new(groups, |g: int| or_empty(text_best(v, of, g, n, least))),
                        ),
                    ),
                    Cells::I64(v) => Ok(
                        Cells::I64(
                            Seq::new(groups, |g: int| or_zero(int_best(v, of, g, n, least))),
                        ),
                    ),
                    _ => match numbers(c, fl) {
                        Err(e) => Err(e),
                        Ok(v) => Ok(
                            Cells::F64(
                                Seq::new(
                                    groups,
                                    |g: int| or_nought(float_best(v, of, g, n, least, fl)),
                                ),
                            ),
                        ),
                    },
                }
            },
        }
    }
}

/// An aggregate over groups of rows: one value for each group.
pub open spec fn aggregated<F: Floats>(
    t: Term,
    frame: Seq<Cells>,
    rows: Seq<usize>,
    of: Seq<usize>,
    groups: nat,
    fl: F,
) -> Result<Cells, Seq<char>> {
    match t {
        Term::Agg { func, arg, distinct } => match arg {
            None => Ok(counts(of, groups)),
            Some(a) => match evaluated(*a, frame, rows, fl) {
                Err(e) => Err(e),
                Ok(c) => aggregate_of(func, distinct, c, of, groups, fl),
            },
        },
        _ => Err("run_agg вызван не на агрегате"@),
    }
}

/// Whether the groups are numbers below their count.
pub open spec fn numbered_below(of: Seq<usize>, groups: nat) -> bool {
    forall|i: int| 0 <= i < of.len() ==> (#[trigger] of[i]) < groups
}

fn zeros(n: usize) -> (r: Vec<i64>)
    ensures
        r.len() == n,
        forall|k: int| 0 <= k < n ==> (#[trigger] r[k]) == 0,
{
    let mut out: Vec<i64> = Vec::new();
    let mut i: usize = 0;
    while i < n
        invariant
            i <= n,
            out.len() == i,
            forall|k: int| 0 <= k < i ==> (#[trigger] out[k]) == 0,
        decreases n - i,
    {
        out.push(0);
        i += 1;
    }
    out
}

fn noughts(n: usize) -> (r: Vec<u64>)
    ensures
        r.len() == n,
        forall|k: int| 0 <= k < n ==> (#[trigger] r[k]) == ZERO,
{
    let mut out: Vec<u64> = Vec::new();
    let mut i: usize = 0;
    while i < n
        invariant
            i <= n,
            out.len() == i,
            forall|k: int| 0 <= k < i ==> (#[trigger] out[k]) == ZERO,
        decreases n - i,
    {
        out.push(ZERO);
        i += 1;
    }
    out
}

fn count_rows(of: &Vec<usize>, groups: usize) -> (r: Vec<i64>)
    requires
        numbered_below(of@, groups as nat),
    ensures
        Cells::I64(r@) == counts(of@, groups as nat),
{
    let mut acc = zeros(groups);
    let mut i: usize = 0;
    while i < of.len()
        invariant
            i <= of.len(),
            numbered_below(of@, groups as nat),
            acc.len() == groups,
            forall|g: int|
                0 <= g < groups ==> (#[trigger] acc[g]) == held(count_in(of@, g, i as nat) as int),
        decreases of.len() - i,
    {
        let g: usize = of[i];
        let next: i64 = add_held(acc[g], 1);
        acc.set(g, next);
        i += 1;
    }
    assert(acc@ =~= Seq::new(groups as nat, |g: int| held(count_in(of@, g, of@.len()) as int)));
    acc
}

fn sum_ints(v: &Vec<i64>, of: &Vec<usize>, groups: usize) -> (r: Vec<i64>)
    requires
        numbered_below(of@, groups as nat),
        v@.len() == 1 || v@.len() == of@.len(),
    ensures
        r@ == Seq::new(groups as nat, |g: int| int_sum(v@, of@, g, of@.len())),
{
    let mut acc = zeros(groups);
    let mut i: usize = 0;
    while i < of.len()
        invariant
            i <= of.len(),
            numbered_below(of@, groups as nat),
            v@.len() == 1 || v@.len() == of@.len(),
            acc.len() == groups,
            forall|g: int| 0 <= g < groups ==> (#[trigger] acc[g]) == int_sum(v@, of@, g, i as nat),
        decreases of.len() - i,
    {
        let g: usize = of[i];
        let next: i64 = add_held(acc[g], v[place_of(v.len(), i)]);
        acc.set(g, next);
        i += 1;
    }
    assert(acc@ =~= Seq::new(groups as nat, |g: int| int_sum(v@, of@, g, of@.len())));
    acc
}

fn sum_floats<F: Floats>(v: &Vec<u64>, of: &Vec<usize>, groups: usize, fl: &F) -> (r: Vec<u64>)
    requires
        fl.exact(),
        numbered_below(of@, groups as nat),
        v@.len() == 1 || v@.len() == of@.len(),
    ensures
        r@ == Seq::new(groups as nat, |g: int| float_sum(v@, of@, g, of@.len(), *fl)),
{
    let mut acc = noughts(groups);
    let mut i: usize = 0;
    while i < of.len()
        invariant
            i <= of.len(),
            fl.exact(),
            numbered_below(of@, groups as nat),
            v@.len() == 1 || v@.len() == of@.len(),
            acc.len() == groups,
            forall|g: int|
                0 <= g < groups ==> (#[trigger] acc[g]) == float_sum(v@, of@, g, i as nat, *fl),
        decreases of.len() - i,
    {
        let g: usize = of[i];
        let next: u64 = fl.compute(FloatOp::Add, acc[g], v[place_of(v.len(), i)]);
        acc.set(g, next);
        i += 1;
    }
    assert(acc@ =~= Seq::new(groups as nat, |g: int| float_sum(v@, of@, g, of@.len(), *fl)));
    acc
}

fn means<F: Floats>(v: &Vec<u64>, of: &Vec<usize>, groups: usize, fl: &F) -> (r: Vec<u64>)
    requires
        fl.exact(),
        numbered_below(of@, groups as nat),
        v@.len() == 1 || v@.len() == of@.len(),
    ensures
        r@ == Seq::new(groups as nat, |g: int| mean(v@, of@, g, of@.len(), *fl)),
{
    let sums = sum_floats(v, of, groups, fl);
    let mut cnt = noughts(groups);
    let mut i: usize = 0;
    while i < of.len()
        invariant
            i <= of.len(),
            fl.exact(),
            numbered_below(of@, groups as nat),
            cnt.len() == groups,
            forall|g: int|
                0 <= g < groups ==> (#[trigger] cnt[g]) == float_count(of@, g, i as nat, *fl),
        decreases of.len() - i,
    {
        let g: usize = of[i];
        let next: u64 = fl.compute(FloatOp::Add, cnt[g], ONE);
        cnt.set(g, next);
        i += 1;
    }
    let mut out: Vec<u64> = Vec::new();
    let mut g: usize = 0;
    while g < groups
        invariant
            g <= groups,
            fl.exact(),
            sums.len() == groups,
            cnt.len() == groups,
            forall|k: int|
                0 <= k < groups ==> (#[trigger] cnt[k]) == float_count(of@, k, of@.len(), *fl),
            forall|k: int|
                0 <= k < groups ==> (#[trigger] sums[k]) == float_sum(v@, of@, k, of@.len(), *fl),
            out.len() == g,
            forall|k: int| 0 <= k < g ==> (#[trigger] out[k]) == mean(v@, of@, k, of@.len(), *fl),
        decreases groups - g,
    {
        out.push(
            if eq_numbers(cnt[g], ZERO) {
                ZERO
            } else {
                fl.compute(FloatOp::Div, sums[g], cnt[g])
            },
        );
        g += 1;
    }
    assert(out@ =~= Seq::new(groups as nat, |g: int| mean(v@, of@, g, of@.len(), *fl)));
    out
}

fn best_ints(v: &Vec<i64>, of: &Vec<usize>, groups: usize, least: bool) -> (r: Vec<i64>)
    requires
        numbered_below(of@, groups as nat),
        v@.len() == 1 || v@.len() == of@.len(),
    ensures
        r@ == Seq::new(groups as nat, |g: int| or_zero(int_best(v@, of@, g, of@.len(), least))),
{
    let mut acc: Vec<Option<i64>> = Vec::new();
    let mut k: usize = 0;
    while k < groups
        invariant
            k <= groups,
            acc.len() == k,
            forall|g: int| 0 <= g < k ==> (#[trigger] acc[g]) is None,
        decreases groups - k,
    {
        acc.push(None);
        k += 1;
    }
    let mut i: usize = 0;
    while i < of.len()
        invariant
            i <= of.len(),
            numbered_below(of@, groups as nat),
            v@.len() == 1 || v@.len() == of@.len(),
            acc.len() == groups,
            forall|g: int|
                0 <= g < groups ==> (#[trigger] acc[g]) == int_best(v@, of@, g, i as nat, least),
        decreases of.len() - i,
    {
        let g: usize = of[i];
        let x: i64 = v[place_of(v.len(), i)];
        let next: Option<i64> = match acc[g] {
            None => Some(x),
            Some(c) => Some(
                if (x < c) == least {
                    x
                } else {
                    c
                },
            ),
        };
        acc.set(g, next);
        i += 1;
    }
    let mut out: Vec<i64> = Vec::new();
    let mut g: usize = 0;
    while g < groups
        invariant
            g <= groups,
            acc.len() == groups,
            forall|k: int|
                0 <= k < groups ==> (#[trigger] acc[k]) == int_best(v@, of@, k, of@.len(), least),
            out.len() == g,
            forall|k: int|
                0 <= k < g ==> (#[trigger] out[k]) == or_zero(
                    int_best(v@, of@, k, of@.len(), least),
                ),
        decreases groups - g,
    {
        out.push(
            match acc[g] {
                Some(x) => x,
                None => 0,
            },
        );
        g += 1;
    }
    assert(out@ =~= Seq::new(
        groups as nat,
        |g: int| or_zero(int_best(v@, of@, g, of@.len(), least)),
    ));
    out
}

fn best_floats<F: Floats>(
    v: &Vec<u64>,
    of: &Vec<usize>,
    groups: usize,
    least: bool,
    fl: &F,
) -> (r: Vec<u64>)
    requires
        fl.exact(),
        numbered_below(of@, groups as nat),
        v@.len() == 1 || v@.len() == of@.len(),
    ensures
        r@ == Seq::new(
            groups as nat,
            |g: int| or_nought(float_best(v@, of@, g, of@.len(), least, *fl)),
        ),
{
    let op = if least {
        FloatOp::Min
    } else {
        FloatOp::Max
    };
    let mut acc: Vec<Option<u64>> = Vec::new();
    let mut k: usize = 0;
    while k < groups
        invariant
            k <= groups,
            acc.len() == k,
            forall|g: int| 0 <= g < k ==> (#[trigger] acc[g]) is None,
        decreases groups - k,
    {
        acc.push(None);
        k += 1;
    }
    let mut i: usize = 0;
    while i < of.len()
        invariant
            i <= of.len(),
            fl.exact(),
            op == (if least {
                FloatOp::Min
            } else {
                FloatOp::Max
            }),
            numbered_below(of@, groups as nat),
            v@.len() == 1 || v@.len() == of@.len(),
            acc.len() == groups,
            forall|g: int|
                0 <= g < groups ==> (#[trigger] acc[g]) == float_best(
                    v@,
                    of@,
                    g,
                    i as nat,
                    least,
                    *fl,
                ),
        decreases of.len() - i,
    {
        let g: usize = of[i];
        let x: u64 = v[place_of(v.len(), i)];
        let next: Option<u64> = match acc[g] {
            None => Some(x),
            Some(c) => Some(fl.compute(op, c, x)),
        };
        acc.set(g, next);
        i += 1;
    }
    let mut out: Vec<u64> = Vec::new();
    let mut g: usize = 0;
    while g < groups
        invariant
            g <= groups,
            acc.len() == groups,
            forall|k: int|
                0 <= k < groups ==> (#[trigger] acc[k]) == float_best(
                    v@,
                    of@,
                    k,
                    of@.len(),
                    least,
                    *fl,
                ),
            out.len() == g,
            forall|k: int|
                0 <= k < g ==> (#[trigger] out[k]) == or_nought(
                    float_best(v@, of@, k, of@.len(), least, *fl),
                ),
        decreases groups - g,
    {
        out.push(
            match acc[g] {
                Some(x) => x,
                None => ZERO,
            },
        );
        g += 1;
    }
    assert(out@ =~= Seq::new(
        groups as nat,
        |g: int| or_nought(float_best(v@, of@, g, of@.len(), least, *fl)),
    ));
    out
}

/// The place of the best text of each group, or none.
spec fn best_places(
    v: Seq<Seq<char>>,
    of: Seq<usize>,
    n: nat,
    least: bool,
    acc: Seq<Option<usize>>,
) -> bool {
    forall|g: int|
        0 <= g < acc.len() ==> match #[trigger] acc[g] {
            None => text_best(v, of, g, n, least) is None,
            Some(p) => p < v.len() && text_best(v, of, g, n, least) == Some(v[p as int]),
        }
}

fn best_texts(v: &Vec<String>, of: &Vec<usize>, groups: usize, least: bool) -> (r: Vec<String>)
    requires
        numbered_below(of@, groups as nat),
        v@.len() == 1 || v@.len() == of@.len(),
    ensures
        strings(r@) == Seq::new(
            groups as nat,
            |g: int| or_empty(text_best(strings(v@), of@, g, of@.len(), least)),
        ),
{
    let ghost vs = strings(v@);
    let mut acc: Vec<Option<usize>> = Vec::new();
    let mut k: usize = 0;
    while k < groups
        invariant
            k <= groups,
            acc.len() == k,
            forall|g: int| 0 <= g < k ==> (#[trigger] acc[g]) is None,
        decreases groups - k,
    {
        acc.push(None);
        k += 1;
    }
    let mut i: usize = 0;
    while i < of.len()
        invariant
            i <= of.len(),
            vs == strings(v@),
            numbered_below(of@, groups as nat),
            v@.len() == 1 || v@.len() == of@.len(),
            acc.len() == groups,
            best_places(vs, of@, i as nat, least, acc@),
        decreases of.len() - i,
    {
        let g: usize = of[i];
        let p: usize = place_of(v.len(), i);
        let ghost before = acc@;
        assert(match before[g as int] {
            None => text_best(vs, of@, g as int, i as nat, least) is None,
            Some(q) => q < vs.len() && text_best(vs, of@, g as int, i as nat, least) == Some(
                vs[q as int],
            ),
        });
        let next: Option<usize> = match acc[g] {
            None => Some(p),
            Some(q) => {
                let less: bool = rank_text(v[p].as_str(), v[q].as_str()) == Rank::Less;
                Some(
                    if less == least {
                        p
                    } else {
                        q
                    },
                )
            },
        };
        acc.set(g, next);
        assert forall|h: int| 0 <= h < acc@.len() implies match #[trigger] acc@[h] {
            None => text_best(vs, of@, h, (i + 1) as nat, least) is None,
            Some(q) => q < vs.len() && text_best(vs, of@, h, (i + 1) as nat, least) == Some(
                vs[q as int],
            ),
        } by {
            if h != g {
                assert(acc@[h] == before[h]);
            }
        }
        i += 1;
    }
    let mut out: Vec<String> = Vec::new();
    let mut g: usize = 0;
    while g < groups
        invariant
            g <= groups,
            vs == strings(v@),
            acc.len() == groups,
            best_places(vs, of@, of@.len(), least, acc@),
            out.len() == g,
            forall|k: int|
                0 <= k < g ==> (#[trigger] out[k])@ == or_empty(
                    text_best(vs, of@, k, of@.len(), least),
                ),
        decreases groups - g,
    {
        assert(match acc@[g as int] {
            None => text_best(vs, of@, g as int, of@.len(), least) is None,
            Some(q) => q < vs.len() && text_best(vs, of@, g as int, of@.len(), least) == Some(
                vs[q as int],
            ),
        });
        out.push(
            match acc[g] {
                Some(p) => v[p].clone(),
                None => String::new(),
            },
        );
        g += 1;
    }
    assert(strings(out@) =~= Seq::new(
        groups as nat,
        |g: int| or_empty(text_best(vs, of@, g, of@.len(), least)),
    ));
    out
}

// --- different values ----------------------------------------------------------------------

pub open spec fn pair_bytes(c: Cells, of: Seq<usize>, i: int) -> Seq<u8> {
    u64_bytes(of[i] as u64) + value_bytes(distinct_key(c, i))
}

proof fn lemma_pairs(c: Cells, of: Seq<usize>, i: int, j: int)
    requires
        storable(distinct_key(c, i)),
        storable(distinct_key(c, j)),
        cell_type(distinct_key(c, i)) == cell_type(distinct_key(c, j)),
        pair_bytes(c, of, i) == pair_bytes(c, of, j),
    ensures
        of[i] == of[j],
        distinct_key(c, i) == distinct_key(c, j),
{
    let (a, b) = (distinct_key(c, i), distinct_key(c, j));
    let none = Seq::<u8>::empty();
    lemma_u64_back(of[i] as u64, value_bytes(a));
    lemma_u64_back(of[j] as u64, value_bytes(b));
    lemma_value_back(a, none);
    lemma_value_back(b, none);
    assert(value_bytes(a) + none =~= value_bytes(a));
    assert(value_bytes(b) + none =~= value_bytes(b));
}

proof fn lemma_values_in(c: Cells, of: Seq<usize>, g: int, n: nat, x: Cell)
    ensures
        values_in(c, of, g, n).finite(),
        values_in(c, of, g, n).contains(x) <==> exists|i: int|
            0 <= i < n && of[i] == g && #[trigger] distinct_key(c, i) == x,
    decreases n,
{
    if n > 0 {
        lemma_values_in(c, of, g, (n - 1) as nat, x);
        if values_in(c, of, g, n).contains(x) {
            if values_in(c, of, g, (n - 1) as nat).contains(x) {
                let i = choose|i: int|
                    0 <= i < n - 1 && of[i] == g && #[trigger] distinct_key(c, i) == x;
                assert(0 <= i < n && of[i] == g && distinct_key(c, i) == x);
            } else {
                assert(distinct_key(c, n - 1) == x);
            }
        }
    }
}

fn count_distinct(v: &Arr, of: &Vec<usize>, groups: usize) -> (r: Vec<i64>)
    requires
        numbered_below(of@, groups as nat),
        v@.len() == 1 || v@.len() == of@.len(),
    ensures
        r@ == Seq::new(
            groups as nat,
            |g: int| held(values_in(v@, of@, g, of@.len()).len() as int),
        ),
{
    let mut map = no_numbers();
    let mut acc = zeros(groups);
    let mut i: usize = 0;
    assert forall|g: int| 0 <= g < groups implies (#[trigger] acc[g]) == held(
        values_in(v@, of@, g, 0).len() as int,
    ) by {
        assert(values_in(v@, of@, g, 0) =~= Set::<Cell>::empty());
    }
    while i < of.len()
        invariant
            i <= of.len(),
            numbered_below(of@, groups as nat),
            v@.len() == 1 || v@.len() == of@.len(),
            acc.len() == groups,
            forall|g: int|
                0 <= g < groups ==> (#[trigger] acc[g]) == held(
                    values_in(v@, of@, g, i as nat).len() as int,
                ),
            forall|b: Seq<u8>| #[trigger]
                numbered(map).dom().contains(b) <==> exists|k: int|
                    0 <= k < i && #[trigger] pair_bytes(v@, of@, k) == b,
            forall|k: int|
                0 <= k < i ==> storable(#[trigger] distinct_key(v@, k)) && cell_type(
                    distinct_key(v@, k),
                ) == cell_type(distinct_key(v@, 0)),
        decreases of.len() - i,
    {
        let g: usize = of[i];
        let one: Value = match v {
            Arr::Vector { .. } => Value::I64(0),
            other => other.key(i),
        };
        assert(one@ == distinct_key(v@, i as int));
        let mut w = Writer::new();
        w.u64(g as u64);
        w.value(&one);
        let ghost b = w.buf@;
        let ghost m0 = numbered(map);
        assert(b =~= pair_bytes(v@, of@, i as int));
        assert(cell_type(distinct_key(v@, i as int)) == cell_type(distinct_key(v@, 0)));
        let fresh: bool = number_under(&map, &w.buf).is_none();
        proof {
            lemma_values_in(v@, of@, g as int, i as nat, one@);
            if m0.dom().contains(b) {
                let k = choose|k: int| 0 <= k < i && #[trigger] pair_bytes(v@, of@, k) == b;
                lemma_pairs(v@, of@, k, i as int);
                assert(0 <= k < i && of@[k] == g && distinct_key(v@, k) == one@);
            }
            if values_in(v@, of@, g as int, i as nat).contains(one@) {
                let k = choose|k: int|
                    0 <= k < i && of@[k] == g && #[trigger] distinct_key(v@, k) == one@;
                assert(pair_bytes(v@, of@, k) == b);
            }
        }
        if fresh {
            let next: i64 = add_held(acc[g], 1);
            acc.set(g, next);
            put_number(&mut map, w.buf, 0);
        } else {
            assert(values_in(v@, of@, g as int, (i + 1) as nat) =~= values_in(
                v@,
                of@,
                g as int,
                i as nat,
            ));
        }
        proof {
            let m1 = numbered(map);
            assert forall|x: Seq<u8>| #[trigger] m1.dom().contains(x) <==> exists|k: int|
                0 <= k < i + 1 && #[trigger] pair_bytes(v@, of@, k) == x by {
                if m1.dom().contains(x) {
                    if m0.dom().contains(x) {
                        let k = choose|k: int| 0 <= k < i && #[trigger] pair_bytes(v@, of@, k) == x;
                        assert(0 <= k < i + 1 && pair_bytes(v@, of@, k) == x);
                    } else {
                        assert(pair_bytes(v@, of@, i as int) == x);
                    }
                }
                if exists|k: int| 0 <= k < i + 1 && #[trigger] pair_bytes(v@, of@, k) == x {
                    let k = choose|k: int| 0 <= k < i + 1 && #[trigger] pair_bytes(v@, of@, k) == x;
                    if k < i {
                        assert(m0.dom().contains(x));
                    }
                }
            }
        }
        i += 1;
    }
    assert(acc@ =~= Seq::new(
        groups as nat,
        |g: int| held(values_in(v@, of@, g, of@.len()).len() as int),
    ));
    acc
}

/// An aggregate over groups of rows: one value for each group.
pub fn run_agg<'a, F: Floats>(
    agg: &Expr,
    base: &Frame<'a>,
    sel: &Sel,
    of: &Vec<usize>,
    groups: usize,
    fl: &F,
) -> (r: Result<Column, Error>)
    requires
        fl.exact(),
        base.wf(),
        covers(base@, sel@),
        of@.len() == sel@.len(),
        numbered_below(of@, groups as nat),
    ensures
        match r {
            Ok(c) => aggregated(agg.view(), base@, sel@, of@, groups as nat, *fl) == Ok::<
                Cells,
                Seq<char>,
            >(c@) && c.wf(),
            Err(e) => aggregated(agg.view(), base@, sel@, of@, groups as nat, *fl) == Err::<
                Cells,
                Seq<char>,
            >(e@),
        },
{
    let (func, arg, distinct) = match agg {
        Expr::Agg { func, arg, distinct } => (*func, arg, *distinct),
        _ => {
            return Err(err("run_agg вызван не на агрегате".to_owned()));
        },
    };
    let arg = match arg {
        Some(a) => a,
        None => {
            return Ok(Column::I64(count_rows(of, groups)));
        },
    };
    let v = match eval(arg, base, sel, fl) {
        Ok(v) => v,
        Err(e) => {
            return Err(e);
        },
    };
    proof {
        lemma_evaluated_len(arg.view(), base@, sel@, *fl);
    }
    if distinct {
        if func != AggFunc::Count {
            return Err(err("DISTINCT допустим только в count".to_owned()));
        }
        return Ok(Column::I64(count_distinct(&v, of, groups)));
    }
    match func {
        AggFunc::Count => Ok(Column::I64(count_rows(of, groups))),
        AggFunc::Sum => match &v {
            Arr::I64(x) => Ok(Column::I64(sum_ints(x, of, groups))),
            other => match other.to_f64(fl) {
                Err(e) => Err(e),
                Ok(x) => Ok(Column::F64(sum_floats(&x, of, groups, fl))),
            },
        },
        AggFunc::Avg => match v.to_f64(fl) {
            Err(e) => Err(e),
            Ok(x) => Ok(Column::F64(means(&x, of, groups, fl))),
        },
        AggFunc::Min | AggFunc::Max => {
            let least: bool = func == AggFunc::Min;
            match &v {
                Arr::Str(x) => Arr::Str(best_texts(x, of, groups, least)).into_column(),
                Arr::I64(x) => Ok(Column::I64(best_ints(x, of, groups, least))),
                other => match other.to_f64(fl) {
                    Err(e) => Err(e),
                    Ok(x) => Ok(Column::F64(best_floats(&x, of, groups, least, fl))),
                },
            }
        },
    }
}

// --- laws -------------------------------------------------------------------------------------

/// Whether row `i` is one of the first `n` and in group `g`.
pub open spec fn row_in(of: Seq<usize>, g: int, n: nat, i: int) -> bool {
    0 <= i < n && of[i] == g
}

/// There is no NULL: over no rows an aggregate is zero or the empty text.
pub proof fn lemma_of_nothing<F: Floats>(
    func: AggFunc,
    distinct: bool,
    c: Cells,
    of: Seq<usize>,
    groups: nat,
    g: int,
    fl: F,
)
    requires
        0 <= g < groups,
        forall|i: int| 0 <= i < of.len() ==> #[trigger] of[i] != g,
    ensures
        aggregate_of(func, distinct, c, of, groups, fl) matches Ok(x) ==> match x {
            Cells::I64(v) => v[g] == 0,
            Cells::F64(v) => v[g] == ZERO,
            Cells::Str(v) => v[g].len() == 0,
            _ => false,
        },
{
    lemma_none_in(c, of, g, of.len(), fl);
    match c {
        Cells::I64(v) => lemma_no_ints(v, of, g, of.len()),
        Cells::Str(v) => lemma_no_texts(v, of, g, of.len()),
        _ => {},
    }
    match numbers(c, fl) {
        Ok(v) => lemma_no_floats(v, of, g, of.len(), fl),
        Err(_) => {},
    }
}

proof fn lemma_none_in<F: Floats>(c: Cells, of: Seq<usize>, g: int, n: nat, fl: F)
    requires
        n <= of.len(),
        forall|i: int| 0 <= i < of.len() ==> #[trigger] of[i] != g,
    ensures
        count_in(of, g, n) == 0,
        float_count(of, g, n, fl) == ZERO,
        values_in(c, of, g, n) == Set::<Cell>::empty(),
    decreases n,
{
    if n > 0 {
        lemma_none_in(c, of, g, (n - 1) as nat, fl);
        assert(of[n - 1] != g);
    }
}

proof fn lemma_no_ints(v: Seq<i64>, of: Seq<usize>, g: int, n: nat)
    requires
        n <= of.len(),
        forall|i: int| 0 <= i < of.len() ==> #[trigger] of[i] != g,
    ensures
        int_sum(v, of, g, n) == 0,
        int_best(v, of, g, n, true) is None,
        int_best(v, of, g, n, false) is None,
    decreases n,
{
    if n > 0 {
        lemma_no_ints(v, of, g, (n - 1) as nat);
        assert(of[n - 1] != g);
    }
}

proof fn lemma_no_texts(v: Seq<Seq<char>>, of: Seq<usize>, g: int, n: nat)
    requires
        n <= of.len(),
        forall|i: int| 0 <= i < of.len() ==> #[trigger] of[i] != g,
    ensures
        text_best(v, of, g, n, true) is None,
        text_best(v, of, g, n, false) is None,
    decreases n,
{
    if n > 0 {
        lemma_no_texts(v, of, g, (n - 1) as nat);
        assert(of[n - 1] != g);
    }
}

proof fn lemma_no_floats<F: Floats>(v: Seq<u64>, of: Seq<usize>, g: int, n: nat, fl: F)
    requires
        n <= of.len(),
        forall|i: int| 0 <= i < of.len() ==> #[trigger] of[i] != g,
    ensures
        float_sum(v, of, g, n, fl) == ZERO,
        float_best(v, of, g, n, true, fl) is None,
        float_best(v, of, g, n, false, fl) is None,
    decreases n,
{
    if n > 0 {
        lemma_no_floats(v, of, g, (n - 1) as nat, fl);
        assert(of[n - 1] != g);
    }
}

/// The different values are counted exactly: those that some row of the group has, and no
/// others.
pub proof fn lemma_distinct_exact(c: Cells, of: Seq<usize>, g: int, n: nat, x: Cell)
    requires
        n <= of.len(),
    ensures
        values_in(c, of, g, n).finite(),
        values_in(c, of, g, n).contains(x) <==> exists|i: int| #[trigger]
            row_in(of, g, n, i) && distinct_key(c, i) == x,
    decreases n,
{
    if n > 0 {
        let m = (n - 1) as nat;
        lemma_distinct_exact(c, of, g, m, x);
        if exists|i: int| #[trigger] row_in(of, g, n, i) && distinct_key(c, i) == x {
            let i = choose|i: int| #[trigger] row_in(of, g, n, i) && distinct_key(c, i) == x;
            if i < m {
                assert(row_in(of, g, m, i));
            }
        }
        if values_in(c, of, g, n).contains(x) {
            if values_in(c, of, g, m).contains(x) {
                let i = choose|i: int| #[trigger] row_in(of, g, m, i) && distinct_key(c, i) == x;
                assert(row_in(of, g, n, i));
            } else {
                assert(row_in(of, g, n, m as int));
            }
        }
    } else {
        assert forall|i: int| !#[trigger] row_in(of, g, n, i) by {}
    }
}

/// The least integer of a group is that of a row, and no row of the group is below it; the
/// greatest likewise.
pub proof fn lemma_best_int(v: Seq<i64>, of: Seq<usize>, g: int, n: nat, least: bool)
    requires
        n <= of.len(),
    ensures
        match int_best(v, of, g, n, least) {
            None => forall|i: int| !#[trigger] row_in(of, g, n, i),
            Some(x) => {
                &&& exists|i: int| #[trigger] row_in(of, g, n, i) && v[spread(v.len(), i)] == x
                &&& forall|i: int| #[trigger]
                    row_in(of, g, n, i) ==> if least {
                        x <= v[spread(v.len(), i)]
                    } else {
                        v[spread(v.len(), i)] <= x
                    }
            },
        },
    decreases n,
{
    if n > 0 {
        let m = (n - 1) as nat;
        lemma_best_int(v, of, g, m, least);
        let before = int_best(v, of, g, m, least);
        let now = int_best(v, of, g, n, least);
        assert forall|i: int| #[trigger] row_in(of, g, n, i) && i < m implies row_in(
            of,
            g,
            m,
            i,
        ) by {}
        if let Some(x) = before {
            let i = choose|i: int| #[trigger] row_in(of, g, m, i) && v[spread(v.len(), i)] == x;
            assert(row_in(of, g, n, i));
        }
        if of[m as int] == g {
            assert(row_in(of, g, n, m as int));
        }
    }
}

/// How many rows the first `k` groups have.
pub open spec fn rows_of_groups(of: Seq<usize>, k: nat) -> nat
    decreases k,
{
    if k == 0 {
        0
    } else {
        rows_of_groups(of, (k - 1) as nat) + count_in(of, k - 1, of.len())
    }
}

/// Every row is in one group: the counts of the groups add up to the number of rows.
pub proof fn lemma_counts_add_up(of: Seq<usize>, groups: nat)
    requires
        numbered_below(of, groups),
    ensures
        rows_of_groups(of, groups) == of.len(),
{
    lemma_counted(of, groups, of.len());
}

spec fn rows_below(of: Seq<usize>, k: nat, n: nat) -> nat
    decreases k,
{
    if k == 0 {
        0
    } else {
        rows_below(of, (k - 1) as nat, n) + count_in(of, k - 1, n)
    }
}

proof fn lemma_counted(of: Seq<usize>, groups: nat, n: nat)
    requires
        n <= of.len(),
        numbered_below(of, groups),
    ensures
        rows_below(of, groups, n) == n,
        n == of.len() ==> rows_of_groups(of, groups) == n,
    decreases n,
{
    if n == 0 {
        lemma_rows_step(of, groups, 0);
    } else {
        lemma_counted(of, groups, (n - 1) as nat);
        lemma_rows_step(of, groups, n);
    }
    if n == of.len() {
        lemma_rows_whole(of, groups);
    }
}

proof fn lemma_rows_step(of: Seq<usize>, k: nat, n: nat)
    requires
        n <= of.len(),
    ensures
        n == 0 ==> rows_below(of, k, n) == 0,
        n > 0 ==> rows_below(of, k, n) == rows_below(of, k, (n - 1) as nat) + if of[n - 1] < k {
            1nat
        } else {
            0nat
        },
    decreases k,
{
    if k > 0 {
        lemma_rows_step(of, (k - 1) as nat, n);
    }
}

proof fn lemma_rows_whole(of: Seq<usize>, k: nat)
    ensures
        rows_of_groups(of, k) == rows_below(of, k, of.len()),
    decreases k,
{
    if k > 0 {
        lemma_rows_whole(of, (k - 1) as nat);
    }
}

} // verus!
