//! What tables hold and how much memory they take, and other things that are counted.
use crate::bench::{timed, Row};
use crate::cli::{in_word, word_start};
use crate::column::{cells_bytes, pushed, same_cell, Cell, Cells, DataType};
use crate::db::{in_order, tables_bytes, used};
use crate::float::{single_eq, Floats, SingleOp};
use crate::http::rows_in;
use crate::json::worded;
use crate::laws::changes::{is_schema, lemma_schema};
use crate::laws::order::{below, lemma_numbers, no_number};
use crate::laws::vectors::{in_all, lemma_length, products};
use crate::simd::{bounds, common, normalized};
use crate::storage::later;
use crate::table::{columns_bytes, columns_error, table_of, Attr, Relation};
use vstd::prelude::*;
use vstd::utf8::encode_utf8;

verus! {

// --- memory ----------------------------------------------------------------------------------

/// How many bytes of memory a value takes in a column.
pub open spec fn weight(c: Cell) -> int {
    match c {
        Cell::I64(_) => 8,
        Cell::F64(_) => 8,
        Cell::Bool(_) => 1,
        Cell::Str(s) => encode_utf8(s).len() as int + 4,
        Cell::Vector(v) => 4 * v.len() as int,
    }
}

/// A column takes as much memory more as the value weighs that is put into it: eight bytes for
/// a number, one for a truth value, for a text its bytes and four, for a vector four for each
/// element. An empty one takes none, one of texts four bytes.
pub proof fn lemma_column_grows<F: Floats>(c: Cells, v: Cell, dim: usize, fl: F)
    requires
        pushed(c, v, fl) is Ok,
        !(c matches Cells::Vector { dim, .. } && dim == 0),
    ensures
        cells_bytes(pushed(c, v, fl)->Ok_0) == cells_bytes(c) + weight(v),
        cells_bytes(Cells::none(DataType::I64)) == 0,
        cells_bytes(Cells::none(DataType::F64)) == 0,
        cells_bytes(Cells::none(DataType::Bool)) == 0,
        cells_bytes(Cells::none(DataType::Str)) == 4,
        cells_bytes(Cells::none(DataType::Vector(dim))) == 0,
{
    match (c, v) {
        (Cells::Str(s), Cell::Str(x)) => {
            assert(s.push(x).drop_last() =~= s);
        },
        (Cells::Vector { dim: d, rows }, Cell::Vector(x)) => {
            let n = rows.len() as int;
            assert((n + 1) * d * 4 == n * d * 4 + 4 * d) by (nonlinear_arith);
        },
        _ => {},
    }
}

/// All of some numbers added up.
pub open spec fn sum_of(v: Seq<int>) -> int {
    v.fold_left(0int, |a: int, b: int| a + b)
}

proof fn lemma_columns_sum(cols: Seq<Cells>)
    ensures
        columns_bytes(cols) == sum_of(Seq::new(cols.len(), |i: int| cells_bytes(cols[i]))),
    decreases cols.len(),
{
    let v = Seq::new(cols.len(), |i: int| cells_bytes(cols[i]));
    if cols.len() > 0 {
        let before = cols.drop_last();
        lemma_columns_sum(before);
        assert(v.drop_last() =~= Seq::new(before.len(), |i: int| cells_bytes(before[i])));
    }
}

/// A table takes the memory of all its columns, a database that of all its tables, as far as
/// that can be counted.
pub proof fn lemma_memory(v: Seq<Relation>, m: Map<Seq<char>, Relation>)
    requires
        in_order(m) == v,
    ensures
        forall|i: int|
            0 <= i < v.len() ==> columns_bytes((#[trigger] v[i]).columns) == sum_of(
                Seq::new(v[i].columns.len(), |k: int| cells_bytes(v[i].columns[k])),
            ),
        tables_bytes(v) == sum_of(Seq::new(v.len(), |i: int| columns_bytes(v[i].columns))),
        tables_bytes(v) <= usize::MAX && tables_bytes(v) >= 0 ==> used(m) == tables_bytes(v),
        tables_bytes(v) > usize::MAX ==> used(m) == usize::MAX,
{
    assert forall|i: int| 0 <= i < v.len() implies columns_bytes((#[trigger] v[i]).columns)
        == sum_of(Seq::new(v[i].columns.len(), |k: int| cells_bytes(v[i].columns[k]))) by {
        lemma_columns_sum(v[i].columns);
    }
    lemma_tables_sum(v);
}

proof fn lemma_tables_sum(v: Seq<Relation>)
    ensures
        tables_bytes(v) == sum_of(Seq::new(v.len(), |i: int| columns_bytes(v[i].columns))),
    decreases v.len(),
{
    let w = Seq::new(v.len(), |i: int| columns_bytes(v[i].columns));
    if v.len() > 0 {
        let before = v.drop_last();
        lemma_tables_sum(before);
        assert(w.drop_last() =~= Seq::new(before.len(), |i: int| columns_bytes(before[i].columns)));
    }
}

/// The rows of all tables together.
pub proof fn lemma_rows_in(v: Seq<Relation>)
    ensures
        rows_in(v) == sum_of(Seq::new(v.len(), |i: int| v[i].rows as int)),
    decreases v.len(),
{
    let w = Seq::new(v.len(), |i: int| v[i].rows as int);
    if v.len() > 0 {
        let before = v.drop_last();
        lemma_rows_in(before);
        assert(w.drop_last() =~= Seq::new(before.len(), |i: int| before[i].rows as int));
    }
}

// --- tables of columns -----------------------------------------------------------------------

proof fn lemma_columns_right(s: Seq<Attr>, cols: Seq<Cells>, n: nat, i: int)
    requires
        0 <= i <= cols.len(),
        cols.len() == s.len(),
    ensures
        columns_error(s, cols, n, i) is None <==> forall|k: int|
            i <= k < cols.len() ==> holds_type(#[trigger] cols[k], s[k].ty) && cols[k].len() == n,
    decreases cols.len() - i,
{
    if i < cols.len() {
        lemma_columns_right(s, cols, n, i + 1);
        if columns_error(s, cols, n, i) is Some && columns_error(s, cols, n, i + 1) is None {
            assert(!(holds_type(cols[i], s[i].ty) && cols[i].len() == n));
        }
    }
}

/// Whether a column is one of a type.
pub open spec fn holds_type(c: Cells, ty: DataType) -> bool {
    match ty {
        DataType::I64 => c is I64,
        DataType::F64 => c is F64,
        DataType::Bool => c is Bool,
        DataType::Str => c is Str,
        DataType::Vector(d) => c matches Cells::Vector { dim, .. } && dim == d,
    }
}

/// Columns are a table if there is one for each field of a schema, of its type, and all are of
/// one length; that is how many rows the table has.
pub proof fn lemma_table_of(name: Seq<char>, s: Seq<Attr>, cols: Seq<Cells>)
    ensures
        table_of(name, s, cols) is Ok <==> is_schema(s) && cols.len() == s.len() && forall|k: int|
            0 <= k < cols.len() ==> holds_type(#[trigger] cols[k], s[k].ty) && cols[k].len()
                == cols[0].len(),
        table_of(name, s, cols) matches Ok(t) ==> t.name == name && t.schema == s && t.columns
            == cols && t.rows == cols[0].len(),
{
    lemma_schema(s);
    if cols.len() == s.len() && s.len() > 0 {
        lemma_columns_right(s, cols, cols[0].len(), 0);
    }
}

// --- values ----------------------------------------------------------------------------------

/// Two values are equal if they are of one type and the same; doubles if they are one number,
/// and what is no number is equal to nothing.
pub proof fn lemma_equal(a: Cell, b: Cell)
    ensures
        match (a, b) {
            (Cell::I64(x), Cell::I64(y)) => same_cell(a, b) == (x == y),
            (Cell::F64(x), Cell::F64(y)) => same_cell(a, b) == (!no_number(x) && !no_number(y)
                && !below(x, y) && !below(y, x)),
            (Cell::Bool(x), Cell::Bool(y)) => same_cell(a, b) == (x == y),
            (Cell::Str(x), Cell::Str(y)) => same_cell(a, b) == (x == y),
            (Cell::Vector(x), Cell::Vector(y)) => same_cell(a, b) == (x.len() == y.len()
                && forall|i: int| 0 <= i < x.len() ==> same_single(#[trigger] x[i], y[i])),
            _ => !same_cell(a, b),
        },
{
    match (a, b) {
        (Cell::F64(x), Cell::F64(y)) => {
            lemma_numbers(x, y);
        },
        (Cell::Vector(x), Cell::Vector(y)) => {
            assert forall|p: u32, q: u32| #[trigger] same_single(p, q) == single_eq(p, q) by {}
            if same_cell(a, b) {
                assert forall|i: int| 0 <= i < x.len() implies same_single(#[trigger] x[i], y[i]) by {
                    assert(single_eq(x[i], y[i]));
                }
            }
        },
        _ => {},
    }
}

/// Whether two singles are one number: their bits are the same, or both are a zero.
pub open spec fn same_single(x: u32, y: u32) -> bool {
    let (m, n) = (x % 0x8000_0000u32, y % 0x8000_0000u32);
    m <= 0x7F80_0000u32 && n <= 0x7F80_0000u32 && (x == y || m == 0 && n == 0)
}

/// Doubles that JSON cannot hold become texts, no others do, and nothing else changes.
pub proof fn lemma_worded<F: Floats>(c: Cell, fl: F)
    ensures
        match c {
            Cell::F64(x) => if x % 0x8000_0000_0000_0000u64 < 0x7FF0_0000_0000_0000u64 {
                worded(c, fl) == c
            } else {
                worded(c, fl) == Cell::Str(fl.double_text(x))
            },
            _ => worded(c, fl) == c,
        },
{
}

// --- vectors ---------------------------------------------------------------------------------

/// A vector is brought to length one by dividing all its elements by its length, the root of
/// the sum of their squares; one without a length stays.
pub proof fn lemma_normalized<F: Floats>(a: Seq<u32>, fl: F)
    ensures
        ({
            let n = fl.apply_single(
                SingleOp::Sqrt,
                in_all(products(a, a, fl), 0x8000_0000u32, fl),
                0,
            );
            &&& normalized(a, fl).len() == a.len()
            &&& forall|i: int|
                0 <= i < a.len() ==> #[trigger] normalized(a, fl)[i] == if 0 < n
                    <= 0x7F80_0000u32 {
                    fl.apply_single(
                        SingleOp::Mul,
                        a[i],
                        fl.apply_single(SingleOp::Div, 0x3F80_0000u32, n),
                    )
                } else {
                    a[i]
                }
        }),
{
    lemma_length(a, fl);
}

/// Two vectors are held against each other as far as the shorter goes.
pub proof fn lemma_common(a: Seq<u32>, b: Seq<u32>)
    ensures
        common(a, b) <= a.len(),
        common(a, b) <= b.len(),
        common(a, b) == a.len() || common(a, b) == b.len(),
{
}

/// The least and the greatest of some integers are among them, and no other lies beyond.
pub proof fn lemma_bounds(v: Seq<i64>, lo: i64, hi: i64, i: int)
    requires
        bounds(v, lo, hi),
        0 <= i < v.len(),
    ensures
        lo <= v[i] <= hi,
        exists|k: int| 0 <= k < v.len() && v[k] == lo,
        exists|k: int| 0 <= k < v.len() && v[k] == hi,
{
}

// --- other things ----------------------------------------------------------------------------

/// A follower is sent the records above the number it has, all of them, in their order.
pub proof fn lemma_later(v: Seq<(u64, Seq<u8>)>, after: u64)
    ensures
        later(v, after) == v.filter(|r: (u64, Seq<u8>)| r.0 > after),
    decreases v.len(),
{
    reveal(Seq::filter);
    if v.len() > 0 {
        lemma_later(v.drop_last(), after);
    }
}

/// How many queries of a run were timed.
pub proof fn lemma_timed(v: Seq<Row>, n: nat)
    requires
        n <= v.len(),
    ensures
        timed(v, n) == v.take(n as int).filter(|r: Row| r.median is Some).len(),
    decreases n,
{
    reveal(Seq::filter);
    if n > 0 {
        lemma_timed(v, (n - 1) as nat);
        assert(v.take(n as int).drop_last() =~= v.take(n - 1));
    }
}

/// The word that is being typed is all that is left of the cursor up to the first character
/// that is of no word.
pub proof fn lemma_word_start(s: Seq<char>, i: int)
    requires
        0 <= i <= s.len(),
    ensures
        0 <= word_start(s, i) <= i,
        forall|k: int| word_start(s, i) <= k < i ==> in_word(#[trigger] s[k]),
        word_start(s, i) > 0 ==> !in_word(s[word_start(s, i) - 1]),
    decreases i,
{
    if i > 0 && in_word(s[i - 1]) {
        lemma_word_start(s, i - 1);
    }
}

} // verus!
