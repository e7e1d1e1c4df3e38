//! What values become as other types.
use crate::column::{Cells, DataType};
use crate::exec::arr::numbers;
use crate::exec::eval::evaluated;
use crate::float::Floats;
use crate::laws::conditions::{are_doubles, at_row, holds_at};
use crate::laws::order::lemma_numbers;
use crate::laws::texts::lemma_integer_back;
use crate::laws::values::{doubles_at, ints_at, texts_at};
use crate::plan::Term;
use crate::text::{dec, integer, is_space, trim};
use vstd::prelude::*;

verus! {

pub open spec fn cast(e: Term, ty: DataType) -> Term {
    Term::Cast { e: Box::new(e), ty }
}

/// A number as an integer loses its fraction, as a double stays what it is, as a truth value
/// is true unless it is zero.
pub proof fn lemma_cast_numbers<F: Floats>(
    e: Term,
    c: Cells,
    a: Seq<u64>,
    frame: Seq<Cells>,
    rows: Seq<usize>,
    fl: F,
)
    requires
        evaluated(e, frame, rows, fl) == Ok::<Cells, Seq<char>>(c),
        are_doubles(c, a, fl),
    ensures
        ints_at(
            cast(e, DataType::I64),
            frame,
            rows,
            fl,
            |i: int, y: i64| y == fl.to_int(at_row(a, i)),
        ),
        doubles_at(
            cast(e, DataType::F64),
            frame,
            rows,
            fl,
            |i: int, y: u64| y == at_row(a, i),
        ),
        holds_at(
            cast(e, DataType::Bool),
            frame,
            rows,
            fl,
            |i: int| at_row(a, i) != 0 && at_row(a, i) != 0x8000_0000_0000_0000u64,
        ),
{
    assert(numbers(c, fl)->Ok_0 =~= a);
    let w = evaluated(cast(e, DataType::Bool), frame, rows, fl)->Ok_0->Bool_0;
    assert forall|i: int| 0 <= i < rows.len() implies (#[trigger] at_row(w, i) != 0) == (at_row(
        a,
        i,
    ) != 0 && at_row(a, i) != 0x8000_0000_0000_0000u64) by {
        lemma_numbers(at_row(a, i), 0);
    }
}

/// A text as a number is the number it writes, with white space around it or without; a text
/// that writes none is zero.
pub proof fn lemma_cast_texts<F: Floats>(
    e: Term,
    v: Seq<Seq<char>>,
    frame: Seq<Cells>,
    rows: Seq<usize>,
    fl: F,
)
    requires
        evaluated(e, frame, rows, fl) == Ok::<Cells, Seq<char>>(Cells::Str(v)),
    ensures
        ints_at(
            cast(e, DataType::I64),
            frame,
            rows,
            fl,
            |i: int, y: i64|
                match integer(trim(at_row(v, i))) {
                    Some(n) => if i64::MIN <= n <= i64::MAX {
                        y == n
                    } else {
                        y == 0
                    },
                    None => y == 0,
                },
        ),
        doubles_at(
            cast(e, DataType::F64),
            frame,
            rows,
            fl,
            |i: int, y: u64|
                match fl.double_in(trim(at_row(v, i))) {
                    Some(x) => y == x,
                    None => y == 0,
                },
        ),
        texts_at(
            cast(e, DataType::Str),
            frame,
            rows,
            fl,
            |i: int, y: Seq<char>| y == at_row(v, i),
        ),
        evaluated(cast(e, DataType::Bool), frame, rows, fl) is Err,
{
    assert(v.len() == 1 || v.len() == rows.len());
    let w = evaluated(cast(e, DataType::Str), frame, rows, fl);
    if let Ok(c) = w {
        assert(c->Str_0 =~= v);
    }
}

/// An integer as a text is its digits, a truth value its word, a double what shows it.
pub proof fn lemma_cast_to_texts<F: Floats>(
    e: Term,
    f: Term,
    g: Term,
    a: Seq<i64>,
    b: Seq<u8>,
    d: Seq<u64>,
    frame: Seq<Cells>,
    rows: Seq<usize>,
    fl: F,
)
    requires
        evaluated(e, frame, rows, fl) == Ok::<Cells, Seq<char>>(Cells::I64(a)),
        evaluated(f, frame, rows, fl) == Ok::<Cells, Seq<char>>(Cells::Bool(b)),
        evaluated(g, frame, rows, fl) == Ok::<Cells, Seq<char>>(Cells::F64(d)),
    ensures
        texts_at(
            cast(e, DataType::Str),
            frame,
            rows,
            fl,
            |i: int, y: Seq<char>| y == dec(at_row(a, i) as int),
        ),
        texts_at(
            cast(f, DataType::Str),
            frame,
            rows,
            fl,
            |i: int, y: Seq<char>|
                y == if at_row(b, i) != 0 {
                    "true"@
                } else {
                    "false"@
                },
        ),
        texts_at(
            cast(g, DataType::Str),
            frame,
            rows,
            fl,
            |i: int, y: Seq<char>| y == fl.double_text(at_row(d, i)),
        ),
        evaluated(cast(e, DataType::Vector(1)), frame, rows, fl) is Err,
{
    assert(a.len() == 1 || a.len() == rows.len());
    assert(b.len() == 1 || b.len() == rows.len());
    assert(d.len() == 1 || d.len() == rows.len());
}

/// An integer that became a text becomes that integer again.
pub proof fn lemma_cast_back<F: Floats>(
    e: Term,
    a: Seq<i64>,
    frame: Seq<Cells>,
    rows: Seq<usize>,
    fl: F,
)
    requires
        evaluated(e, frame, rows, fl) == Ok::<Cells, Seq<char>>(Cells::I64(a)),
    ensures
        ints_at(
            cast(cast(e, DataType::Str), DataType::I64),
            frame,
            rows,
            fl,
            |i: int, y: i64| y == at_row(a, i),
        ),
{
    let t = cast(e, DataType::Str);
    lemma_cast_to_texts_int(e, a, frame, rows, fl);
    let v = evaluated(t, frame, rows, fl)->Ok_0->Str_0;
    lemma_cast_texts(t, v, frame, rows, fl);
    let u = cast(t, DataType::I64);
    let w = evaluated(u, frame, rows, fl)->Ok_0->I64_0;
    assert forall|i: int| 0 <= i < rows.len() implies #[trigger] at_row(w, i) == at_row(a, i) by {
        let n = at_row(a, i) as int;
        lemma_integer_back(n);
        lemma_no_space(n);
        assert(at_row(v, i) == dec(n));
    }
}

proof fn lemma_cast_to_texts_int<F: Floats>(
    e: Term,
    a: Seq<i64>,
    frame: Seq<Cells>,
    rows: Seq<usize>,
    fl: F,
)
    requires
        evaluated(e, frame, rows, fl) == Ok::<Cells, Seq<char>>(Cells::I64(a)),
    ensures
        texts_at(
            cast(e, DataType::Str),
            frame,
            rows,
            fl,
            |i: int, y: Seq<char>| y == dec(at_row(a, i) as int),
        ),
{
    assert(a.len() == 1 || a.len() == rows.len());
}

proof fn lemma_no_space(n: int)
    ensures
        trim(dec(n)) == dec(n),
{
    let s = dec(n);
    lemma_integer_back(n);
    lemma_integer_back(-n);
    assert(s.len() > 0);
    assert(!is_space(s[0]));
    assert(!is_space(s.last()));
    let none = Seq::<char>::empty();
    crate::laws::texts::lemma_trim_gives(none, s, none);
    assert(none + s + none =~= s);
}

} // verus!
