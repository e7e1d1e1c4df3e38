//! What expressions give, row by row.
use crate::column::{Cell, Cells};
use crate::exec::arr::numbers;
use crate::exec::eval::{evaluated, evaluated_all};
use crate::exec::ops::remainder;
use crate::exec::scalar::{common_len, cut};
use crate::float::{FloatOp, Floats};
use crate::laws::conditions::{are_doubles, at_row, both, holds_at};
use crate::plan::{BinOp, ScalarFunc, Term, UnOp};
use crate::text::{lowercase, uppercase};
use vstd::arithmetic::div_mod::*;
use vstd::prelude::*;

verus! {

/// Whether an expression over some rows gives integers, and `p` holds of each row and its
/// integer.
pub open spec fn ints_at<F: Floats>(
    t: Term,
    frame: Seq<Cells>,
    rows: Seq<usize>,
    fl: F,
    p: spec_fn(int, i64) -> bool,
) -> bool {
    evaluated(t, frame, rows, fl) matches Ok(c) && c matches Cells::I64(v) && (v.len() == 1
        || v.len() == rows.len()) && forall|i: int|
        0 <= i < rows.len() ==> p(i, #[trigger] at_row(v, i))
}

/// Whether an expression over some rows gives doubles, and `p` holds of each row and the bits
/// of its double.
pub open spec fn doubles_at<F: Floats>(
    t: Term,
    frame: Seq<Cells>,
    rows: Seq<usize>,
    fl: F,
    p: spec_fn(int, u64) -> bool,
) -> bool {
    evaluated(t, frame, rows, fl) matches Ok(c) && c matches Cells::F64(v) && (v.len() == 1
        || v.len() == rows.len()) && forall|i: int|
        0 <= i < rows.len() ==> p(i, #[trigger] at_row(v, i))
}

/// Whether an expression over some rows gives texts, and `p` holds of each row and its text.
pub open spec fn texts_at<F: Floats>(
    t: Term,
    frame: Seq<Cells>,
    rows: Seq<usize>,
    fl: F,
    p: spec_fn(int, Seq<char>) -> bool,
) -> bool {
    evaluated(t, frame, rows, fl) matches Ok(c) && c matches Cells::Str(v) && (v.len() == 1
        || v.len() == rows.len()) && forall|i: int|
        0 <= i < rows.len() ==> p(i, #[trigger] at_row(v, i))
}

/// Whether an integer is a number, or the end of the range that the number lies beyond.
pub open spec fn nearest(x: int, r: i64) -> bool {
    &&& i64::MIN <= x <= i64::MAX ==> r == x
    &&& x > i64::MAX ==> r == i64::MAX
    &&& x < i64::MIN ==> r == i64::MIN
}

/// A column is read at the rows that are asked for, in their order.
pub proof fn lemma_column<F: Floats>(k: usize, frame: Seq<Cells>, rows: Seq<usize>, fl: F)
    requires
        k < frame.len(),
    ensures
        evaluated(Term::Col(k), frame, rows, fl) matches Ok(c) && c.len() == rows.len() && match (
            frame[k as int],
            c,
        ) {
            (Cells::I64(v), Cells::I64(w)) => forall|i: int|
                0 <= i < rows.len() ==> #[trigger] w[i] == v[rows[i] as int],
            (Cells::F64(v), Cells::F64(w)) => forall|i: int|
                0 <= i < rows.len() ==> #[trigger] w[i] == v[rows[i] as int],
            (Cells::Bool(v), Cells::Bool(w)) => forall|i: int|
                0 <= i < rows.len() ==> #[trigger] w[i] == v[rows[i] as int],
            (Cells::Str(v), Cells::Str(w)) => forall|i: int|
                0 <= i < rows.len() ==> #[trigger] w[i] == v[rows[i] as int],
            (Cells::Vector { dim: d, rows: v }, Cells::Vector { dim: e, rows: w }) => d == e
                && forall|i: int| 0 <= i < rows.len() ==> #[trigger] w[i] == v[rows[i] as int],
            _ => false,
        },
{
}

/// A literal is its value, whatever the rows.
pub proof fn lemma_literal<F: Floats>(
    x: i64,
    d: u64,
    b: bool,
    s: Seq<char>,
    frame: Seq<Cells>,
    rows: Seq<usize>,
    fl: F,
)
    ensures
        ints_at(Term::Lit(Cell::I64(x)), frame, rows, fl, |i: int, y: i64| y == x),
        doubles_at(Term::Lit(Cell::F64(d)), frame, rows, fl, |i: int, y: u64| y == d),
        holds_at(Term::Lit(Cell::Bool(b)), frame, rows, fl, |i: int| b),
        texts_at(Term::Lit(Cell::Str(s)), frame, rows, fl, |i: int, y: Seq<char>| y == s),
{
}

// --- arithmetic ------------------------------------------------------------------------------

/// Whether `r` is what division of `a` by `b` leaves: smaller than the divisor, on the side of
/// zero where the dividend is, and the rest of the dividend is a multiple of the divisor.
pub open spec fn left_over(a: int, b: int, r: int) -> bool {
    let d = if b < 0 {
        -b
    } else {
        b
    };
    &&& -d < r < d
    &&& r > 0 ==> a > 0
    &&& r < 0 ==> a < 0
    &&& (a - r) % d == 0
}

proof fn lemma_remainder(a: int, b: int)
    requires
        b != 0,
    ensures
        left_over(a, b, remainder(a, b)),
{
    let m = if a < 0 {
        -a
    } else {
        a
    };
    let d = if b < 0 {
        -b
    } else {
        b
    };
    lemma_fundamental_div_mod(m, d);
    lemma_mod_bound(m, d);
    let q = m / d;
    if a < 0 {
        assert(a - remainder(a, b) == d * (-q)) by (nonlinear_arith)
            requires
                a == -m,
                remainder(a, b) == -(m % d),
                m == d * q + m % d,
        ;
        lemma_mod_multiples_basic(-q, d);
        assert(d * (-q) == (-q) * d) by (nonlinear_arith);
    } else {
        lemma_mod_multiples_basic(q, d);
        assert(d * q == q * d) by (nonlinear_arith);
    }
}

/// Sums, differences and products of integers are those of the numbers, up to the ends of
/// their range. The remainder is what division leaves; by zero it is zero. Division gives the
/// quotient of the doubles.
pub proof fn lemma_compute_ints<F: Floats>(
    l: Term,
    r: Term,
    a: Seq<i64>,
    b: Seq<i64>,
    frame: Seq<Cells>,
    rows: Seq<usize>,
    fl: F,
)
    requires
        evaluated(l, frame, rows, fl) == Ok::<Cells, Seq<char>>(Cells::I64(a)),
        evaluated(r, frame, rows, fl) == Ok::<Cells, Seq<char>>(Cells::I64(b)),
    ensures
        ints_at(
            both(BinOp::Add, l, r),
            frame,
            rows,
            fl,
            |i: int, y: i64| nearest(at_row(a, i) + at_row(b, i), y),
        ),
        ints_at(
            both(BinOp::Sub, l, r),
            frame,
            rows,
            fl,
            |i: int, y: i64| nearest(at_row(a, i) - at_row(b, i), y),
        ),
        ints_at(
            both(BinOp::Mul, l, r),
            frame,
            rows,
            fl,
            |i: int, y: i64| nearest(at_row(a, i) * at_row(b, i), y),
        ),
        ints_at(
            both(BinOp::Mod, l, r),
            frame,
            rows,
            fl,
            |i: int, y: i64|
                if at_row(b, i) == 0 {
                    y == 0
                } else {
                    left_over(at_row(a, i) as int, at_row(b, i) as int, y as int)
                },
        ),
        doubles_at(
            both(BinOp::Div, l, r),
            frame,
            rows,
            fl,
            |i: int, y: u64|
                y == fl.apply(
                    FloatOp::Div,
                    fl.from_int(at_row(a, i)),
                    fl.from_int(at_row(b, i)),
                ),
        ),
{
    assert(a.len() == 1 || a.len() == rows.len());
    assert(b.len() == 1 || b.len() == rows.len());
    let w = evaluated(both(BinOp::Mod, l, r), frame, rows, fl)->Ok_0->I64_0;
    assert forall|i: int| 0 <= i < rows.len() implies if at_row(b, i) == 0 {
        #[trigger] at_row(w, i) == 0
    } else {
        left_over(at_row(a, i) as int, at_row(b, i) as int, at_row(w, i) as int)
    } by {
        if at_row(b, i) != 0 {
            lemma_remainder(at_row(a, i) as int, at_row(b, i) as int);
        }
    }
}

/// Arithmetic on numbers one of which is no integer is that of the doubles.
pub proof fn lemma_compute_numbers<F: Floats>(
    l: Term,
    r: Term,
    x: Cells,
    y: Cells,
    a: Seq<u64>,
    b: Seq<u64>,
    frame: Seq<Cells>,
    rows: Seq<usize>,
    fl: F,
)
    requires
        evaluated(l, frame, rows, fl) == Ok::<Cells, Seq<char>>(x),
        evaluated(r, frame, rows, fl) == Ok::<Cells, Seq<char>>(y),
        !(x is I64 && y is I64),
        are_doubles(x, a, fl),
        are_doubles(y, b, fl),
    ensures
        ({
            let f = |op: FloatOp|
                (|i: int, z: u64| z == fl.apply(op, at_row(a, i), at_row(b, i)));
            &&& doubles_at(both(BinOp::Add, l, r), frame, rows, fl, f(FloatOp::Add))
            &&& doubles_at(both(BinOp::Sub, l, r), frame, rows, fl, f(FloatOp::Sub))
            &&& doubles_at(both(BinOp::Mul, l, r), frame, rows, fl, f(FloatOp::Mul))
            &&& doubles_at(both(BinOp::Div, l, r), frame, rows, fl, f(FloatOp::Div))
            &&& doubles_at(both(BinOp::Mod, l, r), frame, rows, fl, f(FloatOp::Rem))
        }),
{
    assert(x.len() == 1 || x.len() == rows.len());
    assert(y.len() == 1 || y.len() == rows.len());
    assert(numbers(x, fl)->Ok_0 =~= a);
    assert(numbers(y, fl)->Ok_0 =~= b);
}

pub open spec fn minus(e: Term) -> Term {
    Term::Unary { op: UnOp::Neg, e: Box::new(e) }
}

/// Whether two doubles differ in their sign and in nothing else.
pub open spec fn opposite(x: u64, y: u64) -> bool {
    if x < 0x8000_0000_0000_0000u64 {
        y == x + 0x8000_0000_0000_0000u64
    } else {
        x == y + 0x8000_0000_0000_0000u64
    }
}

/// A minus gives the opposite number.
pub proof fn lemma_minus<F: Floats>(
    e: Term,
    f: Term,
    a: Seq<i64>,
    b: Seq<u64>,
    frame: Seq<Cells>,
    rows: Seq<usize>,
    fl: F,
)
    requires
        evaluated(e, frame, rows, fl) == Ok::<Cells, Seq<char>>(Cells::I64(a)),
        evaluated(f, frame, rows, fl) == Ok::<Cells, Seq<char>>(Cells::F64(b)),
    ensures
        ints_at(minus(e), frame, rows, fl, |i: int, y: i64| nearest(-at_row(a, i), y)),
        doubles_at(minus(f), frame, rows, fl, |i: int, y: u64| opposite(at_row(b, i), y)),
{
    assert(a.len() == 1 || a.len() == rows.len());
    assert(b.len() == 1 || b.len() == rows.len());
}

// --- functions -------------------------------------------------------------------------------

pub open spec fn call(func: ScalarFunc, args: Seq<Term>) -> Term {
    Term::Func { func, args }
}

pub proof fn lemma_one<F: Floats>(e: Term, c: Cells, frame: Seq<Cells>, rows: Seq<usize>, fl: F)
    requires
        evaluated(e, frame, rows, fl) == Ok::<Cells, Seq<char>>(c),
    ensures
        evaluated_all(seq![e], 1, frame, rows, fl) == Ok::<Seq<Cells>, Seq<char>>(seq![c]),
{
    reveal_with_fuel(evaluated_all, 2);
    assert(Seq::<Cells>::empty().push(c) =~= seq![c]);
}

pub proof fn lemma_two<F: Floats>(
    e: Term,
    f: Term,
    c: Cells,
    d: Cells,
    frame: Seq<Cells>,
    rows: Seq<usize>,
    fl: F,
)
    requires
        evaluated(e, frame, rows, fl) == Ok::<Cells, Seq<char>>(c),
        evaluated(f, frame, rows, fl) == Ok::<Cells, Seq<char>>(d),
    ensures
        evaluated_all(seq![e, f], 2, frame, rows, fl) == Ok::<Seq<Cells>, Seq<char>>(seq![c, d]),
{
    reveal_with_fuel(evaluated_all, 3);
    assert(Seq::<Cells>::empty().push(c).push(d) =~= seq![c, d]);
}

proof fn lemma_three<F: Floats>(
    e: Term,
    f: Term,
    g: Term,
    c: Cells,
    d: Cells,
    h: Cells,
    frame: Seq<Cells>,
    rows: Seq<usize>,
    fl: F,
)
    requires
        evaluated(e, frame, rows, fl) == Ok::<Cells, Seq<char>>(c),
        evaluated(f, frame, rows, fl) == Ok::<Cells, Seq<char>>(d),
        evaluated(g, frame, rows, fl) == Ok::<Cells, Seq<char>>(h),
    ensures
        evaluated_all(seq![e, f, g], 3, frame, rows, fl) == Ok::<Seq<Cells>, Seq<char>>(
            seq![c, d, h],
        ),
{
    reveal_with_fuel(evaluated_all, 4);
    assert(Seq::<Cells>::empty().push(c).push(d).push(h) =~= seq![c, d, h]);
}

/// `length` counts the characters of a text; `lower` and `upper` change its case.
pub proof fn lemma_text_functions<F: Floats>(
    e: Term,
    v: Seq<Seq<char>>,
    frame: Seq<Cells>,
    rows: Seq<usize>,
    fl: F,
)
    requires
        evaluated(e, frame, rows, fl) == Ok::<Cells, Seq<char>>(Cells::Str(v)),
    ensures
        ints_at(
            call(ScalarFunc::Length, seq![e]),
            frame,
            rows,
            fl,
            |i: int, y: i64| nearest(at_row(v, i).len() as int, y),
        ),
        texts_at(
            call(ScalarFunc::Lower, seq![e]),
            frame,
            rows,
            fl,
            |i: int, y: Seq<char>| y == lowercase(at_row(v, i)),
        ),
        texts_at(
            call(ScalarFunc::Upper, seq![e]),
            frame,
            rows,
            fl,
            |i: int, y: Seq<char>| y == uppercase(at_row(v, i)),
        ),
{
    lemma_one(e, Cells::Str(v), frame, rows, fl);
    assert(v.len() == 1 || v.len() == rows.len());
}

/// `abs` takes the sign away.
pub proof fn lemma_abs<F: Floats>(
    e: Term,
    f: Term,
    a: Seq<i64>,
    b: Seq<u64>,
    frame: Seq<Cells>,
    rows: Seq<usize>,
    fl: F,
)
    requires
        evaluated(e, frame, rows, fl) == Ok::<Cells, Seq<char>>(Cells::I64(a)),
        evaluated(f, frame, rows, fl) == Ok::<Cells, Seq<char>>(Cells::F64(b)),
    ensures
        ints_at(
            call(ScalarFunc::Abs, seq![e]),
            frame,
            rows,
            fl,
            |i: int, y: i64|
                y >= 0 && (nearest(at_row(a, i) as int, y) || nearest(-at_row(a, i), y)),
        ),
        doubles_at(
            call(ScalarFunc::Abs, seq![f]),
            frame,
            rows,
            fl,
            |i: int, y: u64|
                y < 0x8000_0000_0000_0000u64 && (y == at_row(b, i) || opposite(y, at_row(b, i))),
        ),
{
    lemma_one(e, Cells::I64(a), frame, rows, fl);
    lemma_one(f, Cells::F64(b), frame, rows, fl);
    assert(a.len() == 1 || a.len() == rows.len());
    assert(b.len() == 1 || b.len() == rows.len());
}

/// `floor`, `ceil` and `sqrt` are those of the doubles; `round` takes the number of decimal
/// places from its second argument, and none where there is none.
pub proof fn lemma_number_functions<F: Floats>(
    e: Term,
    p: Term,
    x: Cells,
    y: Cells,
    a: Seq<u64>,
    b: Seq<u64>,
    frame: Seq<Cells>,
    rows: Seq<usize>,
    fl: F,
)
    requires
        evaluated(e, frame, rows, fl) == Ok::<Cells, Seq<char>>(x),
        evaluated(p, frame, rows, fl) == Ok::<Cells, Seq<char>>(y),
        are_doubles(x, a, fl),
        are_doubles(y, b, fl),
        b.len() == 1,
    ensures
        ({
            let f = |op: FloatOp, d: u64| (|i: int, z: u64| z == fl.apply(op, at_row(a, i), d));
            let one = |func: ScalarFunc| call(func, seq![e]);
            &&& doubles_at(one(ScalarFunc::Floor), frame, rows, fl, f(FloatOp::Floor, 0))
            &&& doubles_at(one(ScalarFunc::Ceil), frame, rows, fl, f(FloatOp::Ceil, 0))
            &&& doubles_at(one(ScalarFunc::Sqrt), frame, rows, fl, f(FloatOp::Sqrt, 0))
            &&& doubles_at(one(ScalarFunc::Round), frame, rows, fl, f(FloatOp::Round, 0))
            &&& doubles_at(
                call(ScalarFunc::Round, seq![e, p]),
                frame,
                rows,
                fl,
                f(FloatOp::Round, b[0]),
            )
        }),
{
    lemma_one(e, x, frame, rows, fl);
    lemma_two(e, p, x, y, frame, rows, fl);
    assert(x.len() == 1 || x.len() == rows.len());
    assert(numbers(x, fl)->Ok_0 =~= a);
    assert(numbers(y, fl)->Ok_0 =~= b);
}

/// Whether a text is the part of another that begins at a place counted from one, at most so
/// many characters of it. What lies before the first character or behind the last is not there.
pub open spec fn part_of(r: Seq<char>, s: Seq<char>, start: int, count: int) -> bool {
    let from = if start < 1 {
        0
    } else {
        start - 1
    };
    &&& forall|j: int| 0 <= j < r.len() ==> from + j < s.len() && #[trigger] r[j] == s[from + j]
    &&& r.len() == count || (r.len() < count && from + r.len() >= s.len()) || (r.len() == 0
        && count < 0)
}

/// `substring` gives the part of a text that begins at a place, to its end or so many
/// characters long.
pub proof fn lemma_substring<F: Floats>(
    e: Term,
    f: Term,
    g: Term,
    s: Seq<Seq<char>>,
    x: Cells,
    y: Cells,
    a: Seq<u64>,
    b: Seq<u64>,
    frame: Seq<Cells>,
    rows: Seq<usize>,
    fl: F,
)
    requires
        evaluated(e, frame, rows, fl) == Ok::<Cells, Seq<char>>(Cells::Str(s)),
        evaluated(f, frame, rows, fl) == Ok::<Cells, Seq<char>>(x),
        evaluated(g, frame, rows, fl) == Ok::<Cells, Seq<char>>(y),
        are_doubles(x, a, fl),
        are_doubles(y, b, fl),
    ensures
        texts_at(
            call(ScalarFunc::Substring, seq![e, f, g]),
            frame,
            rows,
            fl,
            |i: int, r: Seq<char>|
                part_of(
                    r,
                    at_row(s, i),
                    fl.to_int(at_row(a, i)) as int,
                    fl.to_int(at_row(b, i)) as int,
                ),
        ),
        texts_at(
            call(ScalarFunc::Substring, seq![e, f]),
            frame,
            rows,
            fl,
            |i: int, r: Seq<char>|
                part_of(
                    r,
                    at_row(s, i),
                    fl.to_int(at_row(a, i)) as int,
                    at_row(s, i).len() as int,
                ),
        ),
{
    lemma_substring_to(e, f, g, s, x, y, a, b, frame, rows, fl);
    lemma_substring_rest(e, f, s, x, a, frame, rows, fl);
}

proof fn lemma_cut(s: Seq<char>, start: i64, count: i64)
    ensures
        part_of(cut(s, start, Some(count)), s, start as int, count as int),
        part_of(cut(s, start, None), s, start as int, s.len() as int),
{
}

proof fn lemma_substring_to<F: Floats>(
    e: Term,
    f: Term,
    g: Term,
    s: Seq<Seq<char>>,
    x: Cells,
    y: Cells,
    a: Seq<u64>,
    b: Seq<u64>,
    frame: Seq<Cells>,
    rows: Seq<usize>,
    fl: F,
)
    requires
        evaluated(e, frame, rows, fl) == Ok::<Cells, Seq<char>>(Cells::Str(s)),
        evaluated(f, frame, rows, fl) == Ok::<Cells, Seq<char>>(x),
        evaluated(g, frame, rows, fl) == Ok::<Cells, Seq<char>>(y),
        are_doubles(x, a, fl),
        are_doubles(y, b, fl),
    ensures
        texts_at(
            call(ScalarFunc::Substring, seq![e, f, g]),
            frame,
            rows,
            fl,
            |i: int, r: Seq<char>|
                part_of(
                    r,
                    at_row(s, i),
                    fl.to_int(at_row(a, i)) as int,
                    fl.to_int(at_row(b, i)) as int,
                ),
        ),
{
    lemma_three(e, f, g, Cells::Str(s), x, y, frame, rows, fl);
    assert(numbers(x, fl)->Ok_0 =~= a);
    assert(numbers(y, fl)->Ok_0 =~= b);
    lemma_common(Cells::Str(s), x, y, rows.len());
    let w = evaluated(call(ScalarFunc::Substring, seq![e, f, g]), frame, rows, fl)->Ok_0->Str_0;
    assert forall|i: int| 0 <= i < rows.len() implies part_of(
        #[trigger] at_row(w, i),
        at_row(s, i),
        fl.to_int(at_row(a, i)) as int,
        fl.to_int(at_row(b, i)) as int,
    ) by {
        lemma_cut(at_row(s, i), fl.to_int(at_row(a, i)), fl.to_int(at_row(b, i)));
    }
}

proof fn lemma_substring_rest<F: Floats>(
    e: Term,
    f: Term,
    s: Seq<Seq<char>>,
    x: Cells,
    a: Seq<u64>,
    frame: Seq<Cells>,
    rows: Seq<usize>,
    fl: F,
)
    requires
        evaluated(e, frame, rows, fl) == Ok::<Cells, Seq<char>>(Cells::Str(s)),
        evaluated(f, frame, rows, fl) == Ok::<Cells, Seq<char>>(x),
        are_doubles(x, a, fl),
    ensures
        texts_at(
            call(ScalarFunc::Substring, seq![e, f]),
            frame,
            rows,
            fl,
            |i: int, r: Seq<char>|
                part_of(
                    r,
                    at_row(s, i),
                    fl.to_int(at_row(a, i)) as int,
                    at_row(s, i).len() as int,
                ),
        ),
{
    lemma_two(e, f, Cells::Str(s), x, frame, rows, fl);
    assert(numbers(x, fl)->Ok_0 =~= a);
    lemma_common(Cells::Str(s), x, x, rows.len());
    let w = evaluated(call(ScalarFunc::Substring, seq![e, f]), frame, rows, fl)->Ok_0->Str_0;
    assert forall|i: int| 0 <= i < rows.len() implies part_of(
        #[trigger] at_row(w, i),
        at_row(s, i),
        fl.to_int(at_row(a, i)) as int,
        at_row(s, i).len() as int,
    ) by {
        lemma_cut(at_row(s, i), fl.to_int(at_row(a, i)), 0);
    }
}

/// The length that arguments agree on.
proof fn lemma_common(c: Cells, d: Cells, h: Cells, n: nat)
    requires
        c.len() == 1 || c.len() == n,
        d.len() == 1 || d.len() == n,
        h.len() == 1 || h.len() == n,
    ensures
        ({
            let (k, m) = (
                common_len(seq![c, d]),
                common_len(seq![c, d, h]),
            );
            &&& k == if c.len() == 1 && d.len() == 1 {
                1
            } else {
                n
            }
            &&& m == if c.len() == 1 && d.len() == 1 && h.len() == 1 {
                1
            } else {
                n
            }
        }),
{
    reveal_with_fuel(common_len, 4);
    let (s, t) = (seq![c, d], seq![c, d, h]);
    assert(s.skip(1)[0] == d && s.skip(1).len() == 1);
    assert(t.skip(1)[0] == d && t.skip(1).len() == 2);
    assert(t.skip(1).skip(1)[0] == h && t.skip(1).skip(1).len() == 1);
    assert(s.skip(1).skip(1).len() == 0);
    assert(t.skip(1).skip(1).skip(1).len() == 0);
}

/// `if` gives its second argument at the rows where the first holds, and its third at the
/// others: texts where both are texts, else numbers.
pub proof fn lemma_if<F: Floats>(
    cond: Term,
    e: Term,
    f: Term,
    p: spec_fn(int) -> bool,
    s: Seq<Seq<char>>,
    t: Seq<Seq<char>>,
    frame: Seq<Cells>,
    rows: Seq<usize>,
    fl: F,
)
    requires
        holds_at(cond, frame, rows, fl, p),
        evaluated(e, frame, rows, fl) == Ok::<Cells, Seq<char>>(Cells::Str(s)),
        evaluated(f, frame, rows, fl) == Ok::<Cells, Seq<char>>(Cells::Str(t)),
    ensures
        texts_at(
            call(ScalarFunc::If, seq![cond, e, f]),
            frame,
            rows,
            fl,
            |i: int, y: Seq<char>|
                y == if p(i) {
                    at_row(s, i)
                } else {
                    at_row(t, i)
                },
        ),
{
    let c = evaluated(cond, frame, rows, fl)->Ok_0;
    let m = c->Bool_0;
    lemma_three(cond, e, f, c, Cells::Str(s), Cells::Str(t), frame, rows, fl);
    lemma_common(c, Cells::Str(s), Cells::Str(t), rows.len());
    let w = evaluated(call(ScalarFunc::If, seq![cond, e, f]), frame, rows, fl)->Ok_0->Str_0;
    assert forall|i: int| 0 <= i < rows.len() implies #[trigger] at_row(w, i) == if p(i) {
        at_row(s, i)
    } else {
        at_row(t, i)
    } by {
        assert((at_row(m, i) != 0) == p(i));
    }
}

/// `if` on numbers.
pub proof fn lemma_if_numbers<F: Floats>(
    cond: Term,
    e: Term,
    f: Term,
    p: spec_fn(int) -> bool,
    x: Cells,
    y: Cells,
    a: Seq<u64>,
    b: Seq<u64>,
    frame: Seq<Cells>,
    rows: Seq<usize>,
    fl: F,
)
    requires
        holds_at(cond, frame, rows, fl, p),
        evaluated(e, frame, rows, fl) == Ok::<Cells, Seq<char>>(x),
        evaluated(f, frame, rows, fl) == Ok::<Cells, Seq<char>>(y),
        are_doubles(x, a, fl),
        are_doubles(y, b, fl),
    ensures
        doubles_at(
            call(ScalarFunc::If, seq![cond, e, f]),
            frame,
            rows,
            fl,
            |i: int, z: u64|
                z == if p(i) {
                    at_row(a, i)
                } else {
                    at_row(b, i)
                },
        ),
{
    let c = evaluated(cond, frame, rows, fl)->Ok_0;
    let m = c->Bool_0;
    lemma_three(cond, e, f, c, x, y, frame, rows, fl);
    lemma_common(c, x, y, rows.len());
    assert(numbers(x, fl)->Ok_0 =~= a);
    assert(numbers(y, fl)->Ok_0 =~= b);
    let w = evaluated(call(ScalarFunc::If, seq![cond, e, f]), frame, rows, fl)->Ok_0->F64_0;
    assert forall|i: int| 0 <= i < rows.len() implies #[trigger] at_row(w, i) == if p(i) {
        at_row(a, i)
    } else {
        at_row(b, i)
    } by {
        assert((at_row(m, i) != 0) == p(i));
    }
}

/// `coalesce` gives its first argument: there is nothing else than values.
pub proof fn lemma_coalesce<F: Floats>(
    e: Term,
    f: Term,
    c: Cells,
    d: Cells,
    frame: Seq<Cells>,
    rows: Seq<usize>,
    fl: F,
)
    requires
        evaluated(e, frame, rows, fl) == Ok::<Cells, Seq<char>>(c),
        evaluated(f, frame, rows, fl) == Ok::<Cells, Seq<char>>(d),
    ensures
        evaluated(call(ScalarFunc::Coalesce, seq![e, f]), frame, rows, fl) == Ok::<
            Cells,
            Seq<char>,
        >(c),
{
    lemma_two(e, f, c, d, frame, rows, fl);
}

} // verus!
