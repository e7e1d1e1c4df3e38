//! Expressions over a selection.
use crate::column::{bit, bit_of, bits, truths, Cell, Cells, Column, Value};
use crate::exec::arr::{covers, word_rows, Arr, Frame, Sel};
use crate::exec::ops::{agrees, binary, eval_binary};
use crate::exec::scalar::{aligned, arrays, cast, cast_to, eval_unary, flip, scalar, scalar_func, unary};
use crate::float::Floats;
use crate::like::{like, Pattern};
use crate::plan::{terms, BinOp, Expr, Metric, Term};
use crate::simd::{distance, measure};
use crate::text::{dec, dec_usize, err, lowercase, strings, text4, text5, to_lowercase, Error};
use vstd::prelude::*;
use vstd::string::*;

verus! {

broadcast use vstd::string::group_string_axioms;

/// The values of a column at some rows.
pub open spec fn gathered(c: Cells, rows: Seq<usize>) -> Cells {
    match c {
        Cells::I64(v) => Cells::I64(Seq::new(rows.len(), |i: int| v[rows[i] as int])),
        Cells::F64(v) => Cells::F64(Seq::new(rows.len(), |i: int| v[rows[i] as int])),
        Cells::Bool(v) => Cells::Bool(Seq::new(rows.len(), |i: int| v[rows[i] as int])),
        Cells::Str(v) => Cells::Str(Seq::new(rows.len(), |i: int| v[rows[i] as int])),
        Cells::Vector { dim, rows: v } => Cells::Vector {
            dim,
            rows: Seq::new(rows.len(), |i: int| v[rows[i] as int]),
        },
    }
}

/// A literal as a constant.
pub open spec fn constant(c: Cell) -> Result<Cells, Seq<char>> {
    match c {
        Cell::I64(x) => Ok(Cells::I64(seq![x])),
        Cell::F64(x) => Ok(Cells::F64(seq![x])),
        Cell::Bool(x) => Ok(Cells::Bool(seq![bit(x)])),
        Cell::Str(x) => Ok(Cells::Str(seq![x])),
        Cell::Vector(_) => Err("вектор допустим только как аргумент метрики"@),
    }
}

/// Which values match a pattern.
pub open spec fn liked(
    c: Cells,
    pattern: Seq<char>,
    negated: bool,
    case_insensitive: bool,
) -> Result<Cells, Seq<char>> {
    match c {
        Cells::Str(v) => Ok(
            Cells::Bool(
                bits(
                    Seq::new(
                        v.len(),
                        |i: int|
                            negated != if case_insensitive {
                                like(lowercase(v[i]), lowercase(pattern))
                            } else {
                                like(v[i], pattern)
                            },
                    ),
                ),
            ),
        ),
        _ => Err("LIKE применим только к строкам"@),
    }
}

/// Which values equal one of the first `k` of a list.
pub open spec fn listed<F: Floats>(c: Cells, list: Seq<Cell>, k: nat, fl: F) -> Result<
    Seq<bool>,
    Seq<char>,
>
    decreases k,
{
    if k == 0 || k > list.len() {
        Ok(Seq::new(c.len(), |i: int| false))
    } else {
        match listed(c, list, (k - 1) as nat, fl) {
            Err(e) => Err(e),
            Ok(m) => match constant(list[k - 1]) {
                Err(e) => Err(e),
                Ok(l) => match binary(BinOp::Eq, c, l, fl) {
                    Err(e) => Err(e),
                    Ok(eq) => Ok(Seq::new(c.len(), |i: int| m[i] || eq->Bool_0[i] != 0)),
                },
            },
        }
    }
}

pub open spec fn flipped(v: Seq<bool>, negated: bool) -> Seq<bool> {
    if negated {
        Seq::new(v.len(), |i: int| !v[i])
    } else {
        v
    }
}

/// The distances from a vector at each row to a constant vector.
pub open spec fn distances_to<F: Floats>(
    c: Cells,
    rows: Seq<usize>,
    metric: Metric,
    q: Seq<u32>,
    fl: F,
) -> Result<Seq<u64>, Seq<char>> {
    match c {
        Cells::Vector { dim, rows: v } => if dim != q.len() {
            Err("вектор запроса длины "@ + dec(q.len() as int) + ", колонка VECTOR("@ + dec(dim as int) + ")"@)
        } else {
            Ok(Seq::new(rows.len(), |i: int| distance(metric, v[rows[i] as int], q, fl)))
        },
        _ => Err("метрика применима только к VECTOR-колонке"@),
    }
}

/// An expression has one value for each row, or one for all.
pub open spec fn sized(r: Result<Cells, Seq<char>>, n: nat) -> Result<Cells, Seq<char>> {
    match r {
        Ok(c) if c.len() != n && c.len() != 1 => Err(
            "выражение дало "@ + dec(c.len() as int) + " значений вместо "@ + dec(n as int),
        ),
        _ => r,
    }
}

pub open spec fn between<F: Floats>(
    v: Cells,
    low: Cells,
    high: Result<Cells, Seq<char>>,
    negated: bool,
    fl: F,
) -> Result<Cells, Seq<char>> {
    match binary(BinOp::GtEq, v, low, fl) {
        Err(e) => Err(e),
        Ok(above) => match high {
            Err(e) => Err(e),
            Ok(h) => match binary(BinOp::LtEq, v, h, fl) {
                Err(e) => Err(e),
                Ok(below) => match binary(BinOp::And, above, below, fl) {
                    Err(e) => Err(e),
                    Ok(m) => Ok(Cells::Bool(bits(flipped(truths(m->Bool_0), negated)))),
                },
            },
        },
    }
}

/// The value of an expression over the rows of a frame.
pub open spec fn evaluated<F: Floats>(
    t: Term,
    frame: Seq<Cells>,
    rows: Seq<usize>,
    fl: F,
) -> Result<Cells, Seq<char>>
    decreases t, 1nat,
{
    sized(
        match t {
            Term::Col(i) => if i < frame.len() {
                Ok(gathered(frame[i as int], rows))
            } else {
                Err("индекс колонки вне схемы кадра"@)
            },
            Term::Lit(c) => constant(c),
            Term::Binary { op, l, r } => match evaluated(*l, frame, rows, fl) {
                Err(e) => Err(e),
                Ok(a) => match evaluated(*r, frame, rows, fl) {
                    Err(e) => Err(e),
                    Ok(b) => binary(op, a, b, fl),
                },
            },
            Term::Unary { op, e } => match evaluated(*e, frame, rows, fl) {
                Err(x) => Err(x),
                Ok(a) => unary(op, a, fl),
            },
            Term::Like { e, pattern, negated, case_insensitive } => match evaluated(
                *e,
                frame,
                rows,
                fl,
            ) {
                Err(x) => Err(x),
                Ok(a) => liked(a, pattern, negated, case_insensitive),
            },
            Term::InList { e, list, negated } => match evaluated(*e, frame, rows, fl) {
                Err(x) => Err(x),
                Ok(a) => match listed(a, list, list.len(), fl) {
                    Err(x) => Err(x),
                    Ok(m) => Ok(Cells::Bool(bits(flipped(m, negated)))),
                },
            },
            Term::Between { e, low, high, negated } => match evaluated(*e, frame, rows, fl) {
                Err(x) => Err(x),
                Ok(v) => match evaluated(*low, frame, rows, fl) {
                    Err(x) => Err(x),
                    Ok(lo) => between(v, lo, evaluated(*high, frame, rows, fl), negated, fl),
                },
            },
            Term::Cast { e, ty } => match evaluated(*e, frame, rows, fl) {
                Err(x) => Err(x),
                Ok(a) => cast_to(a, ty, fl),
            },
            Term::Func { func, args } => match evaluated_all(args, args.len(), frame, rows, fl) {
                Err(x) => Err(x),
                Ok(v) => scalar(func, v, fl),
            },
            Term::Distance { metric, col, query } => if col < frame.len() {
                match distances_to(frame[col as int], rows, metric, query, fl) {
                    Err(x) => Err(x),
                    Ok(v) => Ok(Cells::F64(v)),
                }
            } else {
                Err("индекс векторной колонки вне схемы"@)
            },
            Term::Agg { .. } => Err("агрегат вычисляется на этапе группировки, а не здесь"@),
        },
        rows.len(),
    )
}

/// The values of the first `n` of some expressions.
pub open spec fn evaluated_all<F: Floats>(
    args: Seq<Term>,
    n: nat,
    frame: Seq<Cells>,
    rows: Seq<usize>,
    fl: F,
) -> Result<Seq<Cells>, Seq<char>>
    decreases args, n,
{
    if n == 0 || n > args.len() {
        Ok(Seq::empty())
    } else {
        match evaluated_all(args, (n - 1) as nat, frame, rows, fl) {
            Err(e) => Err(e),
            Ok(v) => match evaluated(args[n - 1], frame, rows, fl) {
                Err(e) => Err(e),
                Ok(c) => Ok(v.push(c)),
            },
        }
    }
}

/// An expression over a selection has as many values as the selection has rows, or
/// one that stands for all.
pub proof fn lemma_evaluated_len<F: Floats>(
    t: Term,
    frame: Seq<Cells>,
    rows: Seq<usize>,
    fl: F,
)
    ensures
        evaluated(t, frame, rows, fl) matches Ok(c) ==> c.len() == rows.len() || c.len() == 1,
{
}

pub fn gather(col: &Column, sel: &Sel) -> (r: Arr)
    requires
        col.wf(),
        forall|i: int| 0 <= i < sel@.len() ==> (#[trigger] sel@[i]) < col@.len(),
    ensures
        r@ == gathered(col@, sel@),
{
    let n: usize = sel.len();
    let mut i: usize = 0;
    match col {
        Column::I64(v) => {
            let mut out: Vec<i64> = Vec::new();
            while i < n
                invariant
                    i <= n,
                    n == sel@.len(),
                    forall|k: int| 0 <= k < sel@.len() ==> (#[trigger] sel@[k]) < v@.len(),
                    out.len() == i,
                    forall|k: int| 0 <= k < i ==> (#[trigger] out[k]) == v@[sel@[k] as int],
                decreases n - i,
            {
                out.push(v[sel.row(i)]);
                i += 1;
            }
            assert(out@ =~= Seq::new(sel@.len(), |i: int| v@[sel@[i] as int]));
            Arr::I64(out)
        },
        Column::F64(v) => {
            let mut out: Vec<u64> = Vec::new();
            while i < n
                invariant
                    i <= n,
                    n == sel@.len(),
                    forall|k: int| 0 <= k < sel@.len() ==> (#[trigger] sel@[k]) < v@.len(),
                    out.len() == i,
                    forall|k: int| 0 <= k < i ==> (#[trigger] out[k]) == v@[sel@[k] as int],
                decreases n - i,
            {
                out.push(v[sel.row(i)]);
                i += 1;
            }
            assert(out@ =~= Seq::new(sel@.len(), |i: int| v@[sel@[i] as int]));
            Arr::F64(out)
        },
        Column::Bool(v) => {
            let mut out: Vec<u8> = Vec::new();
            while i < n
                invariant
                    i <= n,
                    n == sel@.len(),
                    forall|k: int| 0 <= k < sel@.len() ==> (#[trigger] sel@[k]) < v@.len(),
                    out.len() == i,
                    forall|k: int| 0 <= k < i ==> (#[trigger] out[k]) == v@[sel@[k] as int],
                decreases n - i,
            {
                out.push(v[sel.row(i)]);
                i += 1;
            }
            assert(out@ =~= Seq::new(sel@.len(), |i: int| v@[sel@[i] as int]));
            Arr::Bool(out)
        },
        Column::Str(v) => {
            let mut out: Vec<String> = Vec::new();
            while i < n
                invariant
                    i <= n,
                    n == sel@.len(),
                    v.wf(),
                    forall|k: int| 0 <= k < sel@.len() ==> (#[trigger] sel@[k]) < v@.len(),
                    out.len() == i,
                    forall|k: int| 0 <= k < i ==> (#[trigger] out[k])@ == v@[sel@[k] as int],
                decreases n - i,
            {
                out.push(v.get(sel.row(i)).to_owned());
                i += 1;
            }
            assert(strings(out@) =~= Seq::new(sel@.len(), |i: int| v@[sel@[i] as int]));
            Arr::Str(out)
        },
        Column::Vector { dim, .. } => {
            let ghost rows = col@->Vector_rows;
            let mut out: Vec<Vec<u32>> = Vec::new();
            while i < n
                invariant
                    i <= n,
                    n == sel@.len(),
                    col.wf(),
                    col@ == (Cells::Vector { dim: *dim, rows }),
                    forall|k: int| 0 <= k < sel@.len() ==> (#[trigger] sel@[k]) < col@.len(),
                    out.len() == i,
                    forall|k: int| 0 <= k < i ==> (#[trigger] out[k])@ == rows[sel@[k] as int],
                decreases n - i,
            {
                let mut one: Vec<u32> = Vec::new();
                match col.vector_at(sel.row(i)) {
                    Some(s) => {
                        one.extend_from_slice(s);
                        assert(one@ =~= s@);
                    },
                    None => {},
                }
                out.push(one);
                i += 1;
            }
            assert(word_rows(out@) =~= Seq::new(sel@.len(), |i: int| rows[sel@[i] as int]));
            Arr::Vector { dim: *dim, rows: out }
        },
    }
}

pub fn distances<F: Floats>(
    col: &Column,
    sel: &Sel,
    metric: Metric,
    q: &Vec<u32>,
    fl: &F,
) -> (r: Result<Vec<u64>, Error>)
    requires
        fl.exact(),
        col.wf(),
        forall|i: int| 0 <= i < sel@.len() ==> (#[trigger] sel@[i]) < col@.len(),
    ensures
        match r {
            Ok(v) => distances_to(col@, sel@, metric, q@, *fl) == Ok::<Seq<u64>, Seq<char>>(v@),
            Err(e) => distances_to(col@, sel@, metric, q@, *fl) == Err::<Seq<u64>, Seq<char>>(e@),
        },
{
    let dim: usize = match col {
        Column::Vector { dim, .. } => *dim,
        _ => {
            return Err(err("метрика применима только к VECTOR-колонке".to_owned()));
        },
    };
    if dim != q.len() {
        return Err(
            err(
                text5(
                    "вектор запроса длины ",
                    dec_usize(q.len()).as_str(),
                    ", колонка VECTOR(",
                    dec_usize(dim).as_str(),
                    ")",
                ),
            ),
        );
    }
    let ghost rows = col@->Vector_rows;
    let n: usize = sel.len();
    let mut out: Vec<u64> = Vec::new();
    let mut i: usize = 0;
    while i < n
        invariant
            i <= n,
            n == sel@.len(),
            dim == q.len(),
            fl.exact(),
            col.wf(),
            col@ == (Cells::Vector { dim, rows }),
            forall|k: int| 0 <= k < sel@.len() ==> (#[trigger] sel@[k]) < col@.len(),
            out.len() == i,
            forall|k: int|
                0 <= k < i ==> (#[trigger] out[k]) == distance(metric, rows[sel@[k] as int], q@, *fl),
        decreases n - i,
    {
        match col.vector_at(sel.row(i)) {
            Some(s) => out.push(measure(metric, s, q.as_slice(), fl)),
            None => {},
        }
        i += 1;
    }
    assert(out@ =~= Seq::new(sel@.len(), |i: int| distance(metric, rows[sel@[i] as int], q@, *fl)));
    Ok(out)
}

fn eval_like(v: &Arr, pattern: &str, negated: bool, case_insensitive: bool) -> (r: Result<
    Arr,
    Error,
>)
    ensures
        agrees(r, liked(v@, pattern@, negated, case_insensitive)),
{
    match v {
        Arr::Str(items) => {
            let pat = if case_insensitive {
                Pattern::compile(to_lowercase(pattern).as_str())
            } else {
                Pattern::compile(pattern)
            };
            let ghost want = liked(v@, pattern@, negated, case_insensitive)->Ok_0->Bool_0;
            let mut out: Vec<u8> = Vec::new();
            let mut i: usize = 0;
            while i < items.len()
                invariant
                    i <= items.len(),
                    pat.wf(),
                    forall|s: Seq<char>|
                        #[trigger] pat.accepts(s) == like(
                            s,
                            if case_insensitive {
                                lowercase(pattern@)
                            } else {
                                pattern@
                            },
                        ),
                    want.len() == items@.len(),
                    forall|k: int|
                        0 <= k < items@.len() ==> (#[trigger] want[k]) == bit(
                            negated != if case_insensitive {
                                like(lowercase(items@[k]@), lowercase(pattern@))
                            } else {
                                like(items@[k]@, pattern@)
                            },
                        ),
                    out@ == want.take(i as int),
                decreases items.len() - i,
            {
                let hit: bool = if case_insensitive {
                    pat.matches(to_lowercase(items[i].as_str()).as_str())
                } else {
                    pat.matches(items[i].as_str())
                };
                out.push(bit_of(hit != negated));
                assert(out@ =~= want.take(i + 1));
                i += 1;
            }
            assert(out@ =~= want);
            Ok(Arr::Bool(out))
        },
        _ => Err(err("LIKE применим только к строкам".to_owned())),
    }
}

fn eval_constant(v: &Value) -> (r: Result<Arr, Error>)
    ensures
        agrees(r, constant(v@)),
{
    match v {
        Value::I64(x) => {
            let mut out: Vec<i64> = Vec::new();
            out.push(*x);
            assert(out@ =~= seq![*x]);
            Ok(Arr::I64(out))
        },
        Value::F64(x) => {
            let mut out: Vec<u64> = Vec::new();
            out.push(*x);
            assert(out@ =~= seq![*x]);
            Ok(Arr::F64(out))
        },
        Value::Bool(x) => {
            let mut out: Vec<u8> = Vec::new();
            out.push(bit_of(*x));
            assert(out@ =~= seq![bit(*x)]);
            Ok(Arr::Bool(out))
        },
        Value::Str(x) => {
            let mut out: Vec<String> = Vec::new();
            out.push(x.clone());
            assert(strings(out@) =~= seq![x@]);
            Ok(Arr::Str(out))
        },
        Value::Vector(_) => Err(err("вектор допустим только как аргумент метрики".to_owned())),
    }
}

proof fn lemma_eq_is_mask<F: Floats>(c: Cells, l: Cells, fl: F)
    requires
        l.len() == 1,
    ensures
        binary(BinOp::Eq, c, l, fl) matches Ok(m) ==> m is Bool && m.len() == c.len(),
{
}

fn eval_in_list<F: Floats>(v: &Arr, list: &Vec<Value>, fl: &F) -> (r: Result<Vec<bool>, Error>)
    requires
        fl.exact(),
    ensures
        match r {
            Ok(m) => listed(v@, crate::column::cells(list@), list@.len(), *fl) == Ok::<
                Seq<bool>,
                Seq<char>,
            >(m@),
            Err(e) => listed(v@, crate::column::cells(list@), list@.len(), *fl) == Err::<
                Seq<bool>,
                Seq<char>,
            >(e@),
        },
{
    let ghost lits = crate::column::cells(list@);
    let n: usize = v.len();
    let mut mask: Vec<bool> = Vec::new();
    let mut i: usize = 0;
    while i < n
        invariant
            i <= n,
            mask.len() == i,
            forall|k: int| 0 <= k < i ==> !(#[trigger] mask[k]),
        decreases n - i,
    {
        mask.push(false);
        i += 1;
    }
    assert(mask@ =~= Seq::new(v@.len(), |i: int| false));
    let mut k: usize = 0;
    while k < list.len()
        invariant
            k <= list.len(),
            n == v@.len(),
            fl.exact(),
            lits == crate::column::cells(list@),
            listed(v@, lits, k as nat, *fl) == Ok::<Seq<bool>, Seq<char>>(mask@),
            mask@.len() == n,
            forall|j: nat|
                k <= j <= lits.len() && listed(v@, lits, k as nat, *fl) is Err ==> #[trigger] listed(
                    v@,
                    lits,
                    j,
                    *fl,
                ) == listed(v@, lits, k as nat, *fl),
        decreases list.len() - k,
    {
        assert(lits[k as int] == list@[k as int]@);
        let lit = match eval_constant(&list[k]) {
            Ok(a) => a,
            Err(e) => {
                proof {
                    lemma_listed_err(v@, lits, (k + 1) as nat, lits.len(), *fl);
                }
                return Err(e);
            },
        };
        let eq = match eval_binary(BinOp::Eq, v, &lit, fl) {
            Ok(a) => a,
            Err(e) => {
                proof {
                    lemma_listed_err(v@, lits, (k + 1) as nat, lits.len(), *fl);
                }
                return Err(e);
            },
        };
        proof {
            lemma_eq_is_mask(v@, lit@, *fl);
        }
        let mut next: Vec<bool> = Vec::new();
        match &eq {
            Arr::Bool(b) => {
                let mut i: usize = 0;
                while i < n
                    invariant
                        i <= n,
                        mask@.len() == n,
                        b@.len() == n,
                        next.len() == i,
                        forall|j: int| 0 <= j < i ==> (#[trigger] next[j]) == (mask[j] || b[j] != 0),
                    decreases n - i,
                {
                    next.push(mask[i] || b[i] != 0);
                    i += 1;
                }
                assert(next@ =~= Seq::new(v@.len(), |i: int| mask@[i] || b@[i] != 0));
            },
            _ => {},
        }
        mask = next;
        k += 1;
    }
    Ok(mask)
}

proof fn lemma_listed_err<F: Floats>(c: Cells, list: Seq<Cell>, k: nat, n: nat, fl: F)
    requires
        k <= n <= list.len(),
        listed(c, list, k, fl) is Err,
    ensures
        listed(c, list, n, fl) == listed(c, list, k, fl),
    decreases n - k,
{
    if k < n {
        lemma_listed_err(c, list, k, (n - 1) as nat, fl);
    }
}

/// The values of some expressions.
pub fn eval_all<'a, F: Floats>(args: &Vec<Expr>, f: &Frame<'a>, sel: &Sel, fl: &F) -> (r: Result<
    Vec<Arr>,
    Error,
>)
    requires
        fl.exact(),
        f.wf(),
        covers(f@, sel@),
    ensures
        match r {
            Ok(v) => evaluated_all(terms(args@), terms(args@).len(), f@, sel@, *fl) == Ok::<
                Seq<Cells>,
                Seq<char>,
            >(arrays(v@)) && aligned(arrays(v@), sel@.len()) && v@.len() == args@.len(),
            Err(e) => evaluated_all(terms(args@), terms(args@).len(), f@, sel@, *fl) == Err::<
                Seq<Cells>,
                Seq<char>,
            >(e@),
        },
    decreases args@, 0nat,
{
    let ghost ts = terms(args@);
    let mut out: Vec<Arr> = Vec::new();
    let mut i: usize = 0;
    assert(arrays(out@) =~= Seq::<Cells>::empty());
    while i < args.len()
        invariant
            i <= args.len(),
            fl.exact(),
            f.wf(),
            covers(f@, sel@),
            ts == terms(args@),
            out@.len() == i,
            evaluated_all(ts, i as nat, f@, sel@, *fl) == Ok::<Seq<Cells>, Seq<char>>(arrays(out@)),
            aligned(arrays(out@), sel@.len()),
        decreases args.len() - i,
    {
        assert(decreases_to!(args@ => args@[i as int]));
        assert(ts[i as int] == args@[i as int].view());
        match eval(&args[i], f, sel, fl) {
            Ok(a) => {
                let ghost before = arrays(out@);
                proof {
                    lemma_evaluated_len(ts[i as int], f@, sel@, *fl);
                }
                out.push(a);
                assert(arrays(out@) =~= before.push(a@));
                assert forall|k: int| 0 <= k < arrays(out@).len() implies (#[trigger] arrays(
                    out@,
                )[k]).len() == 1 || arrays(out@)[k].len() == sel@.len() by {
                    if k < i {
                        assert(arrays(out@)[k] == before[k]);
                    }
                }
            },
            Err(x) => {
                proof {
                    lemma_all_err(ts, (i + 1) as nat, ts.len(), f@, sel@, *fl);
                }
                return Err(x);
            },
        }
        i += 1;
    }
    Ok(out)
}

/// The first error among some expressions is the error of all of them.
pub proof fn lemma_all_err<F: Floats>(
    args: Seq<Term>,
    k: nat,
    n: nat,
    frame: Seq<Cells>,
    rows: Seq<usize>,
    fl: F,
)
    requires
        k <= n <= args.len(),
        evaluated_all(args, k, frame, rows, fl) is Err,
    ensures
        evaluated_all(args, n, frame, rows, fl) == evaluated_all(args, k, frame, rows, fl),
    decreases n - k,
{
    if k < n {
        lemma_all_err(args, k, (n - 1) as nat, frame, rows, fl);
    }
}

/// `And` of two masks is a mask.
proof fn lemma_and_is_mask<F: Floats>(a: Cells, b: Cells, fl: F)
    ensures
        binary(BinOp::And, a, b, fl) matches Ok(m) ==> m is Bool && bits(truths(m->Bool_0))
            == m->Bool_0,
{
    if let Ok(m) = binary(BinOp::And, a, b, fl) {
        assert(bits(truths(m->Bool_0)) =~= m->Bool_0);
    }
}

/// Truth values as bytes, turned round where that is asked for.
fn mask_bytes(m: &Vec<bool>, negated: bool) -> (r: Vec<u8>)
    ensures
        r@ == bits(flipped(m@, negated)),
{
    let mut out: Vec<u8> = Vec::new();
    let mut i: usize = 0;
    while i < m.len()
        invariant
            i <= m.len(),
            out@ == bits(flipped(m@, negated)).take(i as int),
        decreases m.len() - i,
    {
        out.push(bit_of(m[i] != negated));
        assert(out@ =~= bits(flipped(m@, negated)).take(i + 1));
        i += 1;
    }
    assert(out@ =~= bits(flipped(m@, negated)));
    out
}

fn eval_between<F: Floats>(
    v: &Arr,
    low: &Arr,
    high: Result<Arr, Error>,
    negated: bool,
    fl: &F,
) -> (r: Result<Arr, Error>)
    requires
        fl.exact(),
    ensures
        agrees(
            r,
            between(
                v@,
                low@,
                match high {
                    Ok(h) => Ok::<Cells, Seq<char>>(h@),
                    Err(e) => Err::<Cells, Seq<char>>(e@),
                },
                negated,
                *fl,
            ),
        ),
{
    let above = match eval_binary(BinOp::GtEq, v, low, fl) {
        Ok(a) => a,
        Err(e) => {
            return Err(e);
        },
    };
    let h = match high {
        Ok(a) => a,
        Err(e) => {
            return Err(e);
        },
    };
    let below = match eval_binary(BinOp::LtEq, v, &h, fl) {
        Ok(a) => a,
        Err(e) => {
            return Err(e);
        },
    };
    let both = match eval_binary(BinOp::And, &above, &below, fl) {
        Ok(a) => a,
        Err(e) => {
            return Err(e);
        },
    };
    proof {
        lemma_and_is_mask(above@, below@, *fl);
    }
    if negated {
        match &both {
            Arr::Bool(m) => {
                return Ok(Arr::Bool(flip(m)));
            },
            _ => {},
        }
    }
    Ok(both)
}

/// The value of an expression over a selection of the rows of a frame.
pub fn eval<'a, F: Floats>(e: &Expr, f: &Frame<'a>, sel: &Sel, fl: &F) -> (r: Result<Arr, Error>)
    requires
        fl.exact(),
        f.wf(),
        covers(f@, sel@),
    ensures
        agrees(r, evaluated(e.view(), f@, sel@, *fl)),
    decreases *e, 1nat,
{
    let node: Result<Arr, Error> = match e {
        Expr::Col(i) => if *i < f.cols.len() {
            let col: &Column = f.cols[*i];
            proof {
                assert(f@[*i as int] == col@);
                assert forall|k: int| 0 <= k < sel@.len() implies (#[trigger] sel@[k])
                    < col@.len() by {
                    assert(sel@[k] < f@[*i as int].len());
                }
            }
            Ok(gather(col, sel))
        } else {
            Err(err("индекс колонки вне схемы кадра".to_owned()))
        },
        Expr::Lit(v) => eval_constant(v),
        Expr::Binary { op, l, r } => match eval(l, f, sel, fl) {
            Err(x) => Err(x),
            Ok(a) => match eval(r, f, sel, fl) {
                Err(x) => Err(x),
                Ok(b) => eval_binary(*op, &a, &b, fl),
            },
        },
        Expr::Unary { op, e: inner } => match eval(inner, f, sel, fl) {
            Err(x) => Err(x),
            Ok(a) => eval_unary(*op, &a, fl),
        },
        Expr::Like { e: inner, pattern, negated, case_insensitive } => match eval(
            inner,
            f,
            sel,
            fl,
        ) {
            Err(x) => Err(x),
            Ok(a) => eval_like(&a, pattern.as_str(), *negated, *case_insensitive),
        },
        Expr::InList { e: inner, list, negated } => match eval(inner, f, sel, fl) {
            Err(x) => Err(x),
            Ok(a) => match eval_in_list(&a, list, fl) {
                Err(x) => Err(x),
                Ok(m) => Ok(Arr::Bool(mask_bytes(&m, *negated))),
            },
        },
        Expr::Between { e: inner, low, high, negated } => match eval(inner, f, sel, fl) {
            Err(x) => Err(x),
            Ok(v) => match eval(low, f, sel, fl) {
                Err(x) => Err(x),
                Ok(lo) => eval_between(&v, &lo, eval(high, f, sel, fl), *negated, fl),
            },
        },
        Expr::Cast { e: inner, ty } => match eval(inner, f, sel, fl) {
            Err(x) => Err(x),
            Ok(a) => cast(&a, *ty, fl),
        },
        Expr::Func { func, args } => match eval_all(args, f, sel, fl) {
            Err(x) => Err(x),
            Ok(v) => scalar_func(*func, v, fl),
        },
        Expr::Distance { metric, col, query } => if *col < f.cols.len() {
            let c: &Column = f.cols[*col];
            proof {
                assert(f@[*col as int] == c@);
                assert forall|k: int| 0 <= k < sel@.len() implies (#[trigger] sel@[k])
                    < c@.len() by {
                    assert(sel@[k] < f@[*col as int].len());
                }
            }
            match distances(c, sel, *metric, query, fl) {
                Err(x) => Err(x),
                Ok(v) => Ok(Arr::F64(v)),
            }
        } else {
            Err(err("индекс векторной колонки вне схемы".to_owned()))
        },
        Expr::Agg { .. } => Err(
            err("агрегат вычисляется на этапе группировки, а не здесь".to_owned()),
        ),
    };
    let a = match node {
        Ok(a) => a,
        Err(x) => {
            return Err(x);
        },
    };
    let n: usize = sel.len();
    if a.len() == n || a.len() == 1 {
        Ok(a)
    } else {
        Err(
            err(
                text4(
                    "выражение дало ",
                    dec_usize(a.len()).as_str(),
                    " значений вместо ",
                    dec_usize(n).as_str(),
                ),
            ),
        )
    }
}

} // verus!
