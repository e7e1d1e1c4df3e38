//! What conditions say of the rows they are asked of.
use crate::column::{Cell, Cells};
use crate::exec::arr::numbers;
use crate::exec::eval::{constant, evaluated, listed};
use crate::exec::ops::{binary, compares, number_holds};
use crate::float::{number_rank, Floats};
use crate::laws::order::{below, earlier, lemma_numbers, lemma_texts, no_number};
use crate::like::like;
use crate::plan::{BinOp, Term, UnOp};
use crate::text::{lowercase, text_rank, Rank};
use vstd::prelude::*;

verus! {

/// The value at row `i`: one value alone stands for all rows.
pub open spec fn at_row<T>(v: Seq<T>, i: int) -> T {
    if v.len() == 1 {
        v[0]
    } else {
        v[i]
    }
}

/// Whether an expression over some rows is a truth value, true at just the rows of `p`.
pub open spec fn holds_at<F: Floats>(
    t: Term,
    frame: Seq<Cells>,
    rows: Seq<usize>,
    fl: F,
    p: spec_fn(int) -> bool,
) -> bool {
    evaluated(t, frame, rows, fl) matches Ok(c) && c matches Cells::Bool(m) && (m.len() == 1
        || m.len() == rows.len()) && forall|i: int|
        0 <= i < rows.len() ==> (#[trigger] at_row(m, i) != 0) == p(i)
}

pub open spec fn both(op: BinOp, l: Term, r: Term) -> Term {
    Term::Binary { op, l: Box::new(l), r: Box::new(r) }
}

/// A comparison of integers holds of the rows where it holds of the integers.
pub proof fn lemma_compare_ints<F: Floats>(
    l: Term,
    r: Term,
    a: Seq<i64>,
    b: Seq<i64>,
    frame: Seq<Cells>,
    rows: Seq<usize>,
    fl: F,
)
    requires
        evaluated(l, frame, rows, fl) == Ok::<Cells, Seq<char>>(Cells::I64(a)),
        evaluated(r, frame, rows, fl) == Ok::<Cells, Seq<char>>(Cells::I64(b)),
    ensures
        holds_at(both(BinOp::Lt, l, r), frame, rows, fl, |i: int| at_row(a, i) < at_row(b, i)),
        holds_at(both(BinOp::LtEq, l, r), frame, rows, fl, |i: int| at_row(a, i) <= at_row(b, i)),
        holds_at(both(BinOp::Gt, l, r), frame, rows, fl, |i: int| at_row(a, i) > at_row(b, i)),
        holds_at(both(BinOp::GtEq, l, r), frame, rows, fl, |i: int| at_row(a, i) >= at_row(b, i)),
        holds_at(both(BinOp::Eq, l, r), frame, rows, fl, |i: int| at_row(a, i) == at_row(b, i)),
        holds_at(both(BinOp::NotEq, l, r), frame, rows, fl, |i: int| at_row(a, i) != at_row(b, i)),
{
    assert(a.len() == 1 || a.len() == rows.len());
    assert(b.len() == 1 || b.len() == rows.len());
}

/// A comparison of texts holds of the rows where the text on the left stands so to the text
/// on the right in a dictionary.
pub proof fn lemma_compare_texts<F: Floats>(
    l: Term,
    r: Term,
    a: Seq<Seq<char>>,
    b: Seq<Seq<char>>,
    frame: Seq<Cells>,
    rows: Seq<usize>,
    fl: F,
)
    requires
        evaluated(l, frame, rows, fl) == Ok::<Cells, Seq<char>>(Cells::Str(a)),
        evaluated(r, frame, rows, fl) == Ok::<Cells, Seq<char>>(Cells::Str(b)),
    ensures
        holds_at(
            both(BinOp::Lt, l, r),
            frame,
            rows,
            fl,
            |i: int| earlier(at_row(a, i), at_row(b, i)),
        ),
        holds_at(
            both(BinOp::LtEq, l, r),
            frame,
            rows,
            fl,
            |i: int| !earlier(at_row(b, i), at_row(a, i)),
        ),
        holds_at(
            both(BinOp::Gt, l, r),
            frame,
            rows,
            fl,
            |i: int| earlier(at_row(b, i), at_row(a, i)),
        ),
        holds_at(
            both(BinOp::GtEq, l, r),
            frame,
            rows,
            fl,
            |i: int| !earlier(at_row(a, i), at_row(b, i)),
        ),
        holds_at(both(BinOp::Eq, l, r), frame, rows, fl, |i: int| at_row(a, i) == at_row(b, i)),
        holds_at(both(BinOp::NotEq, l, r), frame, rows, fl, |i: int| at_row(a, i) != at_row(b, i)),
{
    assert(a.len() == 1 || a.len() == rows.len());
    assert(b.len() == 1 || b.len() == rows.len());
    assert forall|i: int, j: int| true implies {
        let (x, y) = (#[trigger] a[i], #[trigger] b[j]);
        let o = text_rank(x, y);
        &&& o == Rank::Less <==> earlier(x, y)
        &&& o == Rank::Greater <==> earlier(y, x)
        &&& o == Rank::Equal <==> x == y
    } by {
        lemma_texts(a[i], b[j]);
    }
}

/// Whether some values are numbers, with these doubles for them: an integer and the byte of a
/// truth value count as the doubles nearest to them.
pub open spec fn are_doubles<F: Floats>(c: Cells, d: Seq<u64>, fl: F) -> bool {
    match c {
        Cells::F64(v) => d == v,
        Cells::I64(v) => d.len() == v.len() && forall|i: int|
            0 <= i < v.len() ==> #[trigger] d[i] == fl.from_int(v[i]),
        Cells::Bool(v) => d.len() == v.len() && forall|i: int|
            0 <= i < v.len() ==> #[trigger] d[i] == fl.from_int(v[i] as i64),
        _ => false,
    }
}

/// A comparison of numbers one of which is no integer goes by the numbers of the doubles. What
/// is no number differs from everything and stands in no order.
pub proof fn lemma_compare_numbers<F: Floats>(
    l: Term,
    r: Term,
    x: Cells,
    y: Cells,
    a: Seq<u64>,
    b: Seq<u64>,
    frame: Seq<Cells>,
    rows: Seq<usize>,
    fl: F,
)
    requires
        evaluated(l, frame, rows, fl) == Ok::<Cells, Seq<char>>(x),
        evaluated(r, frame, rows, fl) == Ok::<Cells, Seq<char>>(y),
        !(x is I64 && y is I64),
        are_doubles(x, a, fl),
        are_doubles(y, b, fl),
    ensures
        ({
            let any = |i: int| !no_number(at_row(a, i)) && !no_number(at_row(b, i));
            let less = |i: int| below(at_row(a, i), at_row(b, i));
            let more = |i: int| below(at_row(b, i), at_row(a, i));
            &&& holds_at(both(BinOp::Lt, l, r), frame, rows, fl, |i: int| any(i) && less(i))
            &&& holds_at(both(BinOp::LtEq, l, r), frame, rows, fl, |i: int| any(i) && !more(i))
            &&& holds_at(both(BinOp::Gt, l, r), frame, rows, fl, |i: int| any(i) && more(i))
            &&& holds_at(both(BinOp::GtEq, l, r), frame, rows, fl, |i: int| any(i) && !less(i))
            &&& holds_at(
                both(BinOp::Eq, l, r),
                frame,
                rows,
                fl,
                |i: int| any(i) && !less(i) && !more(i),
            )
            &&& holds_at(
                both(BinOp::NotEq, l, r),
                frame,
                rows,
                fl,
                |i: int| !any(i) || less(i) || more(i),
            )
        }),
{
    let less = |i: int| below(at_row(a, i), at_row(b, i));
    let more = |i: int| below(at_row(b, i), at_row(a, i));
    let any = |i: int| !no_number(at_row(a, i)) && !no_number(at_row(b, i));
    assert forall|i: int| true implies {
        let o = #[trigger] number_rank(at_row(a, i), at_row(b, i));
        &&& o is None <==> !any(i)
        &&& o is Some ==> {
            &&& o == Some(Rank::Less) <==> less(i)
            &&& o == Some(Rank::Greater) <==> more(i)
            &&& o == Some(Rank::Equal) <==> !less(i) && !more(i)
        }
    } by {
        lemma_numbers(at_row(a, i), at_row(b, i));
    }
    lemma_numbers_at(BinOp::Lt, l, r, x, y, a, b, frame, rows, fl);
    lemma_numbers_at(BinOp::LtEq, l, r, x, y, a, b, frame, rows, fl);
    lemma_numbers_at(BinOp::Gt, l, r, x, y, a, b, frame, rows, fl);
    lemma_numbers_at(BinOp::GtEq, l, r, x, y, a, b, frame, rows, fl);
    lemma_numbers_at(BinOp::Eq, l, r, x, y, a, b, frame, rows, fl);
    lemma_numbers_at(BinOp::NotEq, l, r, x, y, a, b, frame, rows, fl);
    let f = |op: BinOp| (|i: int| number_holds(op, at_row(a, i), at_row(b, i)));
    lemma_same_rows(
        both(BinOp::Lt, l, r),
        f(BinOp::Lt),
        |i: int| any(i) && less(i),
        frame,
        rows,
        fl,
    );
    lemma_same_rows(
        both(BinOp::LtEq, l, r),
        f(BinOp::LtEq),
        |i: int| any(i) && !more(i),
        frame,
        rows,
        fl,
    );
    lemma_same_rows(
        both(BinOp::Gt, l, r),
        f(BinOp::Gt),
        |i: int| any(i) && more(i),
        frame,
        rows,
        fl,
    );
    lemma_same_rows(
        both(BinOp::GtEq, l, r),
        f(BinOp::GtEq),
        |i: int| any(i) && !less(i),
        frame,
        rows,
        fl,
    );
    lemma_same_rows(
        both(BinOp::Eq, l, r),
        f(BinOp::Eq),
        |i: int| any(i) && !less(i) && !more(i),
        frame,
        rows,
        fl,
    );
    lemma_same_rows(
        both(BinOp::NotEq, l, r),
        f(BinOp::NotEq),
        |i: int| !any(i) || less(i) || more(i),
        frame,
        rows,
        fl,
    );
}

proof fn lemma_numbers_at<F: Floats>(
    op: BinOp,
    l: Term,
    r: Term,
    x: Cells,
    y: Cells,
    a: Seq<u64>,
    b: Seq<u64>,
    frame: Seq<Cells>,
    rows: Seq<usize>,
    fl: F,
)
    requires
        evaluated(l, frame, rows, fl) == Ok::<Cells, Seq<char>>(x),
        evaluated(r, frame, rows, fl) == Ok::<Cells, Seq<char>>(y),
        !(x is I64 && y is I64),
        are_doubles(x, a, fl),
        are_doubles(y, b, fl),
        compares(op),
    ensures
        holds_at(
            both(op, l, r),
            frame,
            rows,
            fl,
            |i: int| number_holds(op, at_row(a, i), at_row(b, i)),
        ),
{
    assert(x.len() == 1 || x.len() == rows.len());
    assert(y.len() == 1 || y.len() == rows.len());
    assert(numbers(x, fl)->Ok_0 =~= a);
    assert(numbers(y, fl)->Ok_0 =~= b);
}

proof fn lemma_same_rows<F: Floats>(
    t: Term,
    p: spec_fn(int) -> bool,
    q: spec_fn(int) -> bool,
    frame: Seq<Cells>,
    rows: Seq<usize>,
    fl: F,
)
    requires
        holds_at(t, frame, rows, fl, p),
        forall|i: int| 0 <= i < rows.len() ==> #[trigger] p(i) == q(i),
    ensures
        holds_at(t, frame, rows, fl, q),
{
    let m = evaluated(t, frame, rows, fl)->Ok_0->Bool_0;
    assert forall|i: int| 0 <= i < rows.len() implies (#[trigger] at_row(m, i) != 0) == q(i) by {
        assert((at_row(m, i) != 0) == p(i));
    }
}

/// `AND` holds where both sides do, `OR` where one of them does, `NOT` where its side does not.
pub proof fn lemma_connectives<F: Floats>(
    l: Term,
    r: Term,
    p: spec_fn(int) -> bool,
    q: spec_fn(int) -> bool,
    frame: Seq<Cells>,
    rows: Seq<usize>,
    fl: F,
)
    requires
        holds_at(l, frame, rows, fl, p),
        holds_at(r, frame, rows, fl, q),
    ensures
        holds_at(both(BinOp::And, l, r), frame, rows, fl, |i: int| p(i) && q(i)),
        holds_at(both(BinOp::Or, l, r), frame, rows, fl, |i: int| p(i) || q(i)),
        holds_at(
            Term::Unary { op: UnOp::Not, e: Box::new(l) },
            frame,
            rows,
            fl,
            |i: int| !p(i),
        ),
{
    let a = evaluated(l, frame, rows, fl)->Ok_0->Bool_0;
    let b = evaluated(r, frame, rows, fl)->Ok_0->Bool_0;
    let not = Term::Unary { op: UnOp::Not, e: Box::new(l) };
    let k = evaluated(not, frame, rows, fl)->Ok_0->Bool_0;
    assert forall|i: int| 0 <= i < rows.len() implies (#[trigger] at_row(k, i) != 0) == !p(i) by {
        assert((at_row(a, i) != 0) == p(i));
    }
    let m = evaluated(both(BinOp::And, l, r), frame, rows, fl)->Ok_0->Bool_0;
    assert forall|i: int| 0 <= i < rows.len() implies (#[trigger] at_row(m, i) != 0) == (p(i)
        && q(i)) by {
        assert((at_row(a, i) != 0) == p(i));
        assert((at_row(b, i) != 0) == q(i));
    }
    let n = evaluated(both(BinOp::Or, l, r), frame, rows, fl)->Ok_0->Bool_0;
    assert forall|i: int| 0 <= i < rows.len() implies (#[trigger] at_row(n, i) != 0) == (p(i)
        || q(i)) by {
        assert((at_row(a, i) != 0) == p(i));
        assert((at_row(b, i) != 0) == q(i));
    }
}

pub open spec fn within(e: Term, low: Term, high: Term, negated: bool) -> Term {
    Term::Between { e: Box::new(e), low: Box::new(low), high: Box::new(high), negated }
}

/// `BETWEEN` says what the two comparisons with its ends say together: it holds where the
/// value is at least the lower end and at most the upper one, `NOT BETWEEN` where not.
pub proof fn lemma_between<F: Floats>(
    e: Term,
    low: Term,
    high: Term,
    p: spec_fn(int) -> bool,
    q: spec_fn(int) -> bool,
    frame: Seq<Cells>,
    rows: Seq<usize>,
    fl: F,
)
    requires
        holds_at(both(BinOp::GtEq, e, low), frame, rows, fl, p),
        holds_at(both(BinOp::LtEq, e, high), frame, rows, fl, q),
    ensures
        holds_at(within(e, low, high, false), frame, rows, fl, |i: int| p(i) && q(i)),
        holds_at(within(e, low, high, true), frame, rows, fl, |i: int| !(p(i) && q(i))),
{
    let (above, beneath) = (both(BinOp::GtEq, e, low), both(BinOp::LtEq, e, high));
    lemma_connectives(above, beneath, p, q, frame, rows, fl);
    let m = evaluated(both(BinOp::And, above, beneath), frame, rows, fl)->Ok_0->Bool_0;
    let x = evaluated(within(e, low, high, false), frame, rows, fl)->Ok_0->Bool_0;
    assert forall|i: int| 0 <= i < rows.len() implies (#[trigger] at_row(x, i) != 0) == (p(i)
        && q(i)) by {
        assert((at_row(m, i) != 0) == (p(i) && q(i)));
    }
    let y = evaluated(within(e, low, high, true), frame, rows, fl)->Ok_0->Bool_0;
    assert forall|i: int| 0 <= i < rows.len() implies (#[trigger] at_row(y, i) != 0) == !(p(i)
        && q(i)) by {
        assert((at_row(m, i) != 0) == (p(i) && q(i)));
    }
}

/// Integers `BETWEEN` integers.
pub proof fn lemma_between_ints<F: Floats>(
    e: Term,
    low: Term,
    high: Term,
    v: Seq<i64>,
    a: Seq<i64>,
    b: Seq<i64>,
    frame: Seq<Cells>,
    rows: Seq<usize>,
    fl: F,
)
    requires
        evaluated(e, frame, rows, fl) == Ok::<Cells, Seq<char>>(Cells::I64(v)),
        evaluated(low, frame, rows, fl) == Ok::<Cells, Seq<char>>(Cells::I64(a)),
        evaluated(high, frame, rows, fl) == Ok::<Cells, Seq<char>>(Cells::I64(b)),
    ensures
        holds_at(
            within(e, low, high, false),
            frame,
            rows,
            fl,
            |i: int| at_row(a, i) <= at_row(v, i) <= at_row(b, i),
        ),
        holds_at(
            within(e, low, high, true),
            frame,
            rows,
            fl,
            |i: int| at_row(v, i) < at_row(a, i) || at_row(v, i) > at_row(b, i),
        ),
{
    let p = |i: int| at_row(v, i) >= at_row(a, i);
    let q = |i: int| at_row(v, i) <= at_row(b, i);
    lemma_compare_ints(e, low, v, a, frame, rows, fl);
    lemma_compare_ints(e, high, v, b, frame, rows, fl);
    lemma_between(e, low, high, p, q, frame, rows, fl);
}

/// Texts `BETWEEN` texts.
pub proof fn lemma_between_texts<F: Floats>(
    e: Term,
    low: Term,
    high: Term,
    v: Seq<Seq<char>>,
    a: Seq<Seq<char>>,
    b: Seq<Seq<char>>,
    frame: Seq<Cells>,
    rows: Seq<usize>,
    fl: F,
)
    requires
        evaluated(e, frame, rows, fl) == Ok::<Cells, Seq<char>>(Cells::Str(v)),
        evaluated(low, frame, rows, fl) == Ok::<Cells, Seq<char>>(Cells::Str(a)),
        evaluated(high, frame, rows, fl) == Ok::<Cells, Seq<char>>(Cells::Str(b)),
    ensures
        holds_at(
            within(e, low, high, false),
            frame,
            rows,
            fl,
            |i: int|
                !earlier(at_row(v, i), at_row(a, i)) && !earlier(at_row(b, i), at_row(v, i)),
        ),
        holds_at(
            within(e, low, high, true),
            frame,
            rows,
            fl,
            |i: int| earlier(at_row(v, i), at_row(a, i)) || earlier(at_row(b, i), at_row(v, i)),
        ),
{
    let p = |i: int| !earlier(at_row(v, i), at_row(a, i));
    let q = |i: int| !earlier(at_row(b, i), at_row(v, i));
    lemma_compare_texts(e, low, v, a, frame, rows, fl);
    lemma_compare_texts(e, high, v, b, frame, rows, fl);
    lemma_between(e, low, high, p, q, frame, rows, fl);
}

pub open spec fn one_of(e: Term, list: Seq<Cell>, negated: bool) -> Term {
    Term::InList { e: Box::new(e), list, negated }
}

proof fn lemma_listed_ints<F: Floats>(v: Seq<i64>, list: Seq<Cell>, k: nat, fl: F)
    requires
        k <= list.len(),
        forall|j: int| 0 <= j < list.len() ==> #[trigger] list[j] is I64,
    ensures
        listed(Cells::I64(v), list, k, fl) matches Ok(m) && m.len() == v.len() && forall|i: int|
            0 <= i < v.len() ==> #[trigger] m[i] == exists|j: int|
                0 <= j < k && #[trigger] list[j] == Cell::I64(v[i]),
    decreases k,
{
    if k > 0 {
        lemma_listed_ints(v, list, (k - 1) as nat, fl);
        assert(list[k - 1] is I64);
    }
}

proof fn lemma_listed_texts<F: Floats>(v: Seq<Seq<char>>, list: Seq<Cell>, k: nat, fl: F)
    requires
        k <= list.len(),
        forall|j: int| 0 <= j < list.len() ==> #[trigger] list[j] is Str,
    ensures
        listed(Cells::Str(v), list, k, fl) matches Ok(m) && m.len() == v.len() && forall|i: int|
            0 <= i < v.len() ==> #[trigger] m[i] == exists|j: int|
                0 <= j < k && #[trigger] list[j] == Cell::Str(v[i]),
    decreases k,
{
    if k > 0 {
        lemma_listed_texts(v, list, (k - 1) as nat, fl);
        assert(list[k - 1] is Str);
        assert forall|i: int| 0 <= i < v.len() implies (text_rank(
            #[trigger] v[i],
            list[k - 1]->Str_0,
        ) == Rank::Equal) == (list[k - 1] == Cell::Str(v[i])) by {
            lemma_texts(v[i], list[k - 1]->Str_0);
        }
    }
}

/// `IN` holds of the rows whose integer is in the list, `NOT IN` of the others.
pub proof fn lemma_in_ints<F: Floats>(
    e: Term,
    v: Seq<i64>,
    list: Seq<Cell>,
    frame: Seq<Cells>,
    rows: Seq<usize>,
    fl: F,
)
    requires
        evaluated(e, frame, rows, fl) == Ok::<Cells, Seq<char>>(Cells::I64(v)),
        forall|j: int| 0 <= j < list.len() ==> #[trigger] list[j] is I64,
    ensures
        holds_at(
            one_of(e, list, false),
            frame,
            rows,
            fl,
            |i: int| list.contains(Cell::I64(at_row(v, i))),
        ),
        holds_at(
            one_of(e, list, true),
            frame,
            rows,
            fl,
            |i: int| !list.contains(Cell::I64(at_row(v, i))),
        ),
{
    assert(v.len() == 1 || v.len() == rows.len());
    lemma_listed_ints(v, list, list.len(), fl);
    assert forall|i: int| 0 <= i < v.len() implies (exists|j: int|
        0 <= j < list.len() && #[trigger] list[j] == Cell::I64(#[trigger] v[i])) == list.contains(
        Cell::I64(v[i]),
    ) by {
    }
}

/// `IN` holds of the rows whose text is in the list, `NOT IN` of the others.
pub proof fn lemma_in_texts<F: Floats>(
    e: Term,
    v: Seq<Seq<char>>,
    list: Seq<Cell>,
    frame: Seq<Cells>,
    rows: Seq<usize>,
    fl: F,
)
    requires
        evaluated(e, frame, rows, fl) == Ok::<Cells, Seq<char>>(Cells::Str(v)),
        forall|j: int| 0 <= j < list.len() ==> #[trigger] list[j] is Str,
    ensures
        holds_at(
            one_of(e, list, false),
            frame,
            rows,
            fl,
            |i: int| list.contains(Cell::Str(at_row(v, i))),
        ),
        holds_at(
            one_of(e, list, true),
            frame,
            rows,
            fl,
            |i: int| !list.contains(Cell::Str(at_row(v, i))),
        ),
{
    assert(v.len() == 1 || v.len() == rows.len());
    lemma_listed_texts(v, list, list.len(), fl);
    assert forall|i: int| 0 <= i < v.len() implies (exists|j: int|
        0 <= j < list.len() && #[trigger] list[j] == Cell::Str(#[trigger] v[i])) == list.contains(
        Cell::Str(v[i]),
    ) by {
    }
}

/// `IN` is the same as comparing with each of the list: a list with one more value holds of
/// the rows of the shorter list and of those that equal the value.
pub proof fn lemma_in_grows<F: Floats>(
    e: Term,
    list: Seq<Cell>,
    x: Cell,
    p: spec_fn(int) -> bool,
    q: spec_fn(int) -> bool,
    frame: Seq<Cells>,
    rows: Seq<usize>,
    fl: F,
)
    requires
        holds_at(one_of(e, list, false), frame, rows, fl, p),
        holds_at(both(BinOp::Eq, e, Term::Lit(x)), frame, rows, fl, q),
    ensures
        holds_at(one_of(e, list.push(x), false), frame, rows, fl, |i: int| p(i) || q(i)),
        holds_at(one_of(e, list.push(x), true), frame, rows, fl, |i: int| !(p(i) || q(i))),
{
    let c = evaluated(e, frame, rows, fl)->Ok_0;
    let all = list.push(x);
    lemma_listed_alike(c, list, all, list.len(), fl);
    let m = evaluated(one_of(e, list, false), frame, rows, fl)->Ok_0->Bool_0;
    let n = evaluated(both(BinOp::Eq, e, Term::Lit(x)), frame, rows, fl)->Ok_0->Bool_0;
    assert(all[all.len() - 1] == x);
    assert(evaluated(Term::Lit(x), frame, rows, fl) is Ok);
    let one = constant(x)->Ok_0;
    assert(one.len() == 1);
    assert(binary(BinOp::Eq, c, one, fl) == Ok::<Cells, Seq<char>>(Cells::Bool(n)));
    assert(n.len() == c.len());
    let old = listed(c, list, list.len(), fl)->Ok_0;
    let new = listed(c, all, all.len(), fl)->Ok_0;
    assert(new == Seq::new(c.len(), |i: int| old[i] || n[i] != 0));
    lemma_listed_len(c, list, list.len(), fl);
    assert forall|i: int| 0 <= i < c.len() implies (m[i] != 0) == #[trigger] old[i] by {
    }
    let y = evaluated(one_of(e, all, false), frame, rows, fl)->Ok_0->Bool_0;
    assert forall|i: int| 0 <= i < rows.len() implies (#[trigger] at_row(y, i) != 0) == (p(i)
        || q(i)) by {
        assert((at_row(m, i) != 0) == p(i));
        assert((at_row(n, i) != 0) == q(i));
    }
    let z = evaluated(one_of(e, all, true), frame, rows, fl)->Ok_0->Bool_0;
    assert forall|i: int| 0 <= i < rows.len() implies (#[trigger] at_row(z, i) != 0) == !(p(i)
        || q(i)) by {
        assert((at_row(m, i) != 0) == p(i));
        assert((at_row(n, i) != 0) == q(i));
    }
}

proof fn lemma_listed_len<F: Floats>(c: Cells, list: Seq<Cell>, k: nat, fl: F)
    ensures
        listed(c, list, k, fl) matches Ok(m) ==> m.len() == c.len(),
    decreases k,
{
    if k > 0 && k <= list.len() {
        lemma_listed_len(c, list, (k - 1) as nat, fl);
    }
}

proof fn lemma_listed_alike<F: Floats>(c: Cells, a: Seq<Cell>, b: Seq<Cell>, k: nat, fl: F)
    requires
        k <= a.len(),
        k <= b.len(),
        forall|i: int| 0 <= i < k ==> a[i] == #[trigger] b[i],
    ensures
        listed(c, a, k, fl) == listed(c, b, k, fl),
    decreases k,
{
    if k > 0 {
        lemma_listed_alike(c, a, b, (k - 1) as nat, fl);
        assert(a[k - 1] == b[k - 1]);
    }
}

/// `LIKE` holds of the rows whose text matches the pattern, `ILIKE` of those whose text does
/// so in lower case, and with `NOT` of the others.
pub proof fn lemma_like_rows<F: Floats>(
    e: Term,
    v: Seq<Seq<char>>,
    pattern: Seq<char>,
    frame: Seq<Cells>,
    rows: Seq<usize>,
    fl: F,
)
    requires
        evaluated(e, frame, rows, fl) == Ok::<Cells, Seq<char>>(Cells::Str(v)),
    ensures
        ({
            let t = |negated: bool, case_insensitive: bool|
                Term::Like { e: Box::new(e), pattern, negated, case_insensitive };
            let exact = |i: int| like(at_row(v, i), pattern);
            let lower = |i: int| like(lowercase(at_row(v, i)), lowercase(pattern));
            &&& holds_at(t(false, false), frame, rows, fl, exact)
            &&& holds_at(t(true, false), frame, rows, fl, |i: int| !exact(i))
            &&& holds_at(t(false, true), frame, rows, fl, lower)
            &&& holds_at(t(true, true), frame, rows, fl, |i: int| !lower(i))
        }),
{
    assert(v.len() == 1 || v.len() == rows.len());
}

} // verus!
