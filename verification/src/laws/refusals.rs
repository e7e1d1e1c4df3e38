//! What has no value: expressions over values of the wrong types.
use crate::column::{str_bytes, Cell, Cells, DataType};
use crate::exec::agg::{aggregated, or_empty, text_best};
use crate::exec::eval::{evaluated, evaluated_all};
use crate::float::Floats;
use crate::laws::casts::cast;
use crate::laws::conditions::both;
use crate::laws::groups::aggregate;
use crate::laws::values::{call, lemma_one, minus};
use crate::plan::{AggFunc, BinOp, ScalarFunc, Term, UnOp};
use vstd::prelude::*;

verus! {

/// Whether values are numbers: integers, doubles or truth values.
pub open spec fn are_numbers(c: Cells) -> bool {
    c is I64 || c is F64 || c is Bool
}

/// Whether an expression over some rows has no value.
pub open spec fn fails<F: Floats>(t: Term, frame: Seq<Cells>, rows: Seq<usize>, fl: F) -> bool {
    evaluated(t, frame, rows, fl) is Err
}

/// `AND` and `OR` take truth values only. Texts compare with texts only and do not add up;
/// vectors do neither.
pub proof fn lemma_operators_refuse<F: Floats>(
    op: BinOp,
    l: Term,
    r: Term,
    a: Cells,
    b: Cells,
    frame: Seq<Cells>,
    rows: Seq<usize>,
    fl: F,
)
    requires
        evaluated(l, frame, rows, fl) == Ok::<Cells, Seq<char>>(a),
        evaluated(r, frame, rows, fl) == Ok::<Cells, Seq<char>>(b),
    ensures
        op == BinOp::And || op == BinOp::Or ==> (fails(both(op, l, r), frame, rows, fl) <==> !(
        a is Bool && b is Bool)),
        op != BinOp::And && op != BinOp::Or ==> {
            let compared = op == BinOp::Eq || op == BinOp::NotEq || op == BinOp::Lt || op
                == BinOp::LtEq || op == BinOp::Gt || op == BinOp::GtEq;
            fails(both(op, l, r), frame, rows, fl) <==> !(are_numbers(a) && are_numbers(b)
                || a is Str && b is Str && compared)
        },
{
    assert(a.len() == 1 || a.len() == rows.len());
    assert(b.len() == 1 || b.len() == rows.len());
}

/// What has no value gives none to what it is a part of; aggregates have none row by row.
pub proof fn lemma_parts_refuse<F: Floats>(
    op: BinOp,
    sign: UnOp,
    ty: DataType,
    func: AggFunc,
    l: Term,
    r: Term,
    frame: Seq<Cells>,
    rows: Seq<usize>,
    fl: F,
)
    requires
        fails(l, frame, rows, fl),
    ensures
        fails(both(op, l, r), frame, rows, fl),
        evaluated(r, frame, rows, fl) is Ok ==> fails(both(op, r, l), frame, rows, fl),
        fails(Term::Unary { op: sign, e: Box::new(l) }, frame, rows, fl),
        fails(cast(l, ty), frame, rows, fl),
        fails(aggregate(func, r), frame, rows, fl),
{
}

/// An argument without a value gives none to a function, a list or a range of values that it
/// stands in, nor to an aggregate over any groups, `count` too.
pub proof fn lemma_arguments_refuse<F: Floats>(
    e: Term,
    r: Term,
    scalar_func: ScalarFunc,
    func: AggFunc,
    distinct: bool,
    list: Seq<Cell>,
    pattern: Seq<char>,
    negated: bool,
    frame: Seq<Cells>,
    rows: Seq<usize>,
    of: Seq<usize>,
    groups: nat,
    fl: F,
)
    requires
        fails(e, frame, rows, fl),
    ensures
        fails(call(scalar_func, seq![e]), frame, rows, fl),
        fails(call(scalar_func, seq![e, r]), frame, rows, fl),
        fails(call(scalar_func, seq![r, e]), frame, rows, fl),
        fails(Term::InList { e: Box::new(e), list, negated }, frame, rows, fl),
        fails(
            Term::Like { e: Box::new(e), pattern, negated, case_insensitive: false },
            frame,
            rows,
            fl,
        ),
        fails(
            Term::Between { e: Box::new(e), low: Box::new(r), high: Box::new(r), negated },
            frame,
            rows,
            fl,
        ),
        fails(
            Term::Between { e: Box::new(r), low: Box::new(e), high: Box::new(r), negated },
            frame,
            rows,
            fl,
        ),
        fails(
            Term::Between { e: Box::new(r), low: Box::new(r), high: Box::new(e), negated },
            frame,
            rows,
            fl,
        ),
        aggregated(
            Term::Agg { func, arg: Some(Box::new(e)), distinct },
            frame,
            rows,
            of,
            groups,
            fl,
        ) is Err,
{
    let (one, two, other) = (seq![e], seq![e, r], seq![r, e]);
    assert(one[0] == e && two[0] == e && two[1] == r && other[0] == r && other[1] == e);
    assert(evaluated(e, frame, rows, fl) is Err);
    assert(evaluated_all(one, 1, frame, rows, fl) is Err);
    assert(evaluated_all(two, 1, frame, rows, fl) is Err);
    assert(evaluated_all(two, 2, frame, rows, fl) is Err);
    assert(evaluated_all(other, 2, frame, rows, fl) is Err);
}

/// `NOT` takes truth values, a minus numbers, `LIKE` texts.
pub proof fn lemma_signs_refuse<F: Floats>(
    e: Term,
    c: Cells,
    pattern: Seq<char>,
    negated: bool,
    case_insensitive: bool,
    frame: Seq<Cells>,
    rows: Seq<usize>,
    fl: F,
)
    requires
        evaluated(e, frame, rows, fl) == Ok::<Cells, Seq<char>>(c),
    ensures
        fails(Term::Unary { op: UnOp::Not, e: Box::new(e) }, frame, rows, fl) <==> !(c is Bool),
        fails(minus(e), frame, rows, fl) <==> !are_numbers(c),
        fails(
            Term::Like { e: Box::new(e), pattern, negated, case_insensitive },
            frame,
            rows,
            fl,
        ) <==> !(c is Str),
{
    assert(c.len() == 1 || c.len() == rows.len());
}

/// Functions of texts take texts, functions of numbers and moments take numbers; everything
/// has a text, no vector is a number.
pub proof fn lemma_functions_refuse<F: Floats>(
    e: Term,
    c: Cells,
    frame: Seq<Cells>,
    rows: Seq<usize>,
    fl: F,
)
    requires
        evaluated(e, frame, rows, fl) == Ok::<Cells, Seq<char>>(c),
    ensures
        ({
            let f = |func: ScalarFunc| fails(call(func, seq![e]), frame, rows, fl);
            let t = |ty: DataType| fails(cast(e, ty), frame, rows, fl);
            &&& f(ScalarFunc::Length) <==> !(c is Str)
            &&& f(ScalarFunc::Lower) <==> !(c is Str)
            &&& f(ScalarFunc::Upper) <==> !(c is Str)
            &&& f(ScalarFunc::Abs) <==> !are_numbers(c)
            &&& f(ScalarFunc::Floor) <==> !are_numbers(c)
            &&& f(ScalarFunc::Ceil) <==> !are_numbers(c)
            &&& f(ScalarFunc::Sqrt) <==> !are_numbers(c)
            &&& f(ScalarFunc::Round) <==> !are_numbers(c)
            &&& f(ScalarFunc::ExtractHour) <==> !are_numbers(c)
            &&& f(ScalarFunc::ExtractMinute) <==> !are_numbers(c)
            &&& f(ScalarFunc::ExtractDay) <==> !are_numbers(c)
            &&& f(ScalarFunc::ExtractMonth) <==> !are_numbers(c)
            &&& f(ScalarFunc::ExtractYear) <==> !are_numbers(c)
            &&& f(ScalarFunc::Substring) && f(ScalarFunc::If) && f(ScalarFunc::DateTrunc)
            &&& t(DataType::I64) <==> c is Vector
            &&& t(DataType::F64) <==> c is Vector
            &&& t(DataType::Bool) <==> c is Vector || c is Str
            &&& !t(DataType::Str)
        }),
{
    lemma_one(e, c, frame, rows, fl);
    assert(c.len() == 1 || c.len() == rows.len());
}

/// Sums and means are of numbers, the least and the greatest are of anything but vectors, and
/// only `count` takes `DISTINCT`.
pub proof fn lemma_aggregates_refuse<F: Floats>(
    e: Term,
    c: Cells,
    frame: Seq<Cells>,
    rows: Seq<usize>,
    of: Seq<usize>,
    groups: nat,
    fl: F,
)
    requires
        evaluated(e, frame, rows, fl) == Ok::<Cells, Seq<char>>(c),
    ensures
        ({
            let f = |func: AggFunc, distinct: bool|
                aggregated(
                    Term::Agg { func, arg: Some(Box::new(e)), distinct },
                    frame,
                    rows,
                    of,
                    groups,
                    fl,
                ) is Err;
            &&& f(AggFunc::Sum, false) <==> !are_numbers(c)
            &&& f(AggFunc::Avg, false) <==> !are_numbers(c)
            &&& !(c is Str) ==> (f(AggFunc::Min, false) <==> !are_numbers(c))
            &&& !(c is Str) ==> (f(AggFunc::Max, false) <==> !are_numbers(c))
            &&& !f(AggFunc::Count, false) && !f(AggFunc::Count, true)
            &&& f(AggFunc::Sum, true) && f(AggFunc::Avg, true)
            &&& f(AggFunc::Min, true) && f(AggFunc::Max, true)
            &&& c matches Cells::Str(v) ==> (f(AggFunc::Min, false) <==> str_bytes(
                Seq::new(groups, |g: int| or_empty(text_best(v, of, g, of.len(), true))),
            ) > u32::MAX)
            &&& c matches Cells::Str(v) ==> (f(AggFunc::Max, false) <==> str_bytes(
                Seq::new(groups, |g: int| or_empty(text_best(v, of, g, of.len(), false))),
            ) > u32::MAX)
        }),
{
}

} // verus!
