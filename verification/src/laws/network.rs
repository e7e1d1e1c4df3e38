//! What rows that come over a network become, and what sizes and bytes are written as.
use crate::column::{Cell, DataType};
use crate::db::{ran, table_named, State};
use crate::float::{FloatOp, Floats};
use crate::grpc::{wire_cell, wire_inserted, wire_row, wire_rows};
use crate::http::{hex_text, json_inserted, json_row, json_rows};
use crate::json::{json_cell, json_singles, Json, JsonNode};
use crate::laws::changes::{becomes, suits};
use crate::laws::order::{below, lemma_numbers, no_number};
use crate::laws::texts::{in_digits, lemma_trim_gives};
use crate::plan::Command;
use crate::size::{ascii_upper, ascii_uppered, bytes_in, unit_start};
use crate::table::Attr;
use crate::text::is_space;
use vstd::prelude::*;

verus! {

// --- JSON ------------------------------------------------------------------------------------

/// Whether a value of JSON is a value for a column of a type: a whole number for an integer,
/// any number for a double, a list of so many numbers for a vector.
pub open spec fn json_is<F: Floats>(j: Json, ty: DataType, c: Cell, fl: F) -> bool {
    match ty {
        DataType::I64 => *j.node matches JsonNode::Number { whole: Some(x), .. } && c == Cell::I64(
            x,
        ),
        DataType::F64 => *j.node matches JsonNode::Number { bits, .. } && c == Cell::F64(bits),
        DataType::Bool => *j.node matches JsonNode::Bool(b) && c == Cell::Bool(b),
        DataType::Str => *j.node matches JsonNode::Text(s) && c == Cell::Str(s),
        DataType::Vector(dim) => {
            &&& *j.node matches JsonNode::Array(v)
            &&& v.len() == dim
            &&& c matches Cell::Vector(x)
            &&& x.len() == dim
            &&& forall|i: int|
                0 <= i < dim ==> (*(#[trigger] v[i]).node matches JsonNode::Number { bits, .. }
                    && x[i] == fl.narrowed(bits))
        },
    }
}

proof fn lemma_json_singles<F: Floats>(v: Seq<Json>, n: nat, fl: F)
    requires
        n <= v.len(),
    ensures
        json_singles(v, n, fl) is Ok <==> forall|i: int|
            0 <= i < n ==> *(#[trigger] v[i]).node is Number,
        json_singles(v, n, fl) matches Ok(x) ==> x.len() == n && forall|i: int|
            0 <= i < n ==> (*v[i].node matches JsonNode::Number { bits, .. } && #[trigger] x[i]
                == fl.narrowed(bits)),
    decreases n,
{
    if n > 0 {
        lemma_json_singles(v, (n - 1) as nat, fl);
        if json_singles(v, n, fl) is Err && json_singles(v, (n - 1) as nat, fl) is Ok {
            assert(!(*v[n - 1].node is Number));
        }
    }
}

/// A value of JSON is taken for a column if and only if it is one for it, and then as that.
pub proof fn lemma_json_value<F: Floats>(j: Json, ty: DataType, c: Cell, fl: F)
    ensures
        json_cell(j, ty, fl) == Ok::<Cell, Seq<char>>(c) <==> json_is(j, ty, c, fl),
{
    if let JsonNode::Array(v) = *j.node {
        lemma_json_singles(v, v.len(), fl);
        if let DataType::Vector(dim) = ty {
            if json_is(j, ty, c, fl) {
                assert forall|i: int| 0 <= i < v.len() implies *(#[trigger] v[i]).node is Number by {}
                let x = json_singles(v, v.len(), fl)->Ok_0;
                assert forall|i: int| 0 <= i < v.len() implies x[i] == c->Vector_0[i] by {
                    assert(*v[i].node is Number);
                }
                assert(x =~= c->Vector_0);
            }
        }
    }
}

proof fn lemma_json_row<F: Floats>(row: Seq<Json>, s: Seq<Attr>, i: int, n: nat, fl: F)
    requires
        n <= row.len(),
    ensures
        json_row(row, s, i, n, fl) matches Ok(v) ==> v.len() == n && forall|k: int|
            0 <= k < n ==> json_is(row[k], s[k].ty, #[trigger] v[k], fl),
    decreases n,
{
    if n > 0 {
        lemma_json_row(row, s, i, (n - 1) as nat, fl);
        if let Ok(v) = json_row(row, s, i, n, fl) {
            lemma_json_value(row[n - 1], s[n - 1].ty, v[n - 1], fl);
        }
    }
}

proof fn lemma_json_row_back<F: Floats>(
    row: Seq<Json>,
    s: Seq<Attr>,
    i: int,
    n: nat,
    values: Seq<Cell>,
    fl: F,
)
    requires
        n <= row.len(),
        values.len() == row.len(),
        forall|k: int|
            0 <= k < row.len() ==> json_is(row[k], s[k].ty, #[trigger] values[k], fl),
    ensures
        json_row(row, s, i, n, fl) == Ok::<Seq<Cell>, Seq<char>>(values.take(n as int)),
    decreases n,
{
    if n == 0 {
        assert(values.take(0) =~= Seq::empty());
    } else {
        lemma_json_row_back(row, s, i, (n - 1) as nat, values, fl);
        lemma_json_value(row[n - 1], s[n - 1].ty, values[n - 1], fl);
        assert(values.take(n - 1).push(values[n - 1]) =~= values.take(n as int));
    }
}

/// Whether a row of JSON has a value for each column, and they are these.
pub open spec fn json_row_is<F: Floats>(
    row: Seq<Json>,
    s: Seq<Attr>,
    values: Seq<Cell>,
    fl: F,
) -> bool {
    &&& row.len() == s.len()
    &&& values.len() == s.len()
    &&& forall|k: int| 0 <= k < s.len() ==> json_is(row[k], s[k].ty, #[trigger] values[k], fl)
}

proof fn lemma_json_rows<F: Floats>(rows: Seq<Seq<Json>>, s: Seq<Attr>, n: nat, fl: F)
    requires
        n <= rows.len(),
    ensures
        json_rows(rows, s, n, fl) matches Ok(v) ==> v.len() == n && forall|i: int|
            0 <= i < n ==> json_row_is(rows[i], s, #[trigger] v[i], fl),
    decreases n,
{
    if n > 0 {
        lemma_json_rows(rows, s, (n - 1) as nat, fl);
        lemma_json_row(rows[n - 1], s, n - 1, rows[n - 1].len(), fl);
    }
}

proof fn lemma_json_rows_back<F: Floats>(
    rows: Seq<Seq<Json>>,
    s: Seq<Attr>,
    n: nat,
    values: Seq<Seq<Cell>>,
    fl: F,
)
    requires
        n <= rows.len(),
        values.len() == rows.len(),
        forall|i: int| 0 <= i < rows.len() ==> json_row_is(rows[i], s, #[trigger] values[i], fl),
    ensures
        json_rows(rows, s, n, fl) == Ok::<Seq<Seq<Cell>>, Seq<char>>(values.take(n as int)),
    decreases n,
{
    if n == 0 {
        assert(values.take(0) =~= Seq::empty());
    } else {
        lemma_json_rows_back(rows, s, (n - 1) as nat, values, fl);
        let (row, v) = (rows[n - 1], values[n - 1]);
        assert(json_row_is(row, s, v, fl));
        lemma_json_row_back(row, s, n - 1, row.len(), v, fl);
        assert(v.take(row.len() as int) =~= v);
        assert(values.take(n - 1).push(v) =~= values.take(n as int));
    }
}

/// Rows of JSON are put into a table as `INSERT` puts their values in.
pub proof fn lemma_json_insert<F: Floats>(
    st: State,
    table: Seq<char>,
    rows: Seq<Seq<Json>>,
    values: Seq<Seq<Cell>>,
    fl: F,
)
    requires
        values.len() == rows.len(),
        table_named(st.tables, table) matches Some(t) ==> forall|i: int|
            0 <= i < rows.len() ==> json_row_is(rows[i], t.schema, #[trigger] values[i], fl),
    ensures
        ({
            let (r, now) = json_inserted(st, table, rows, fl);
            let (a, then) = ran(st, Command::Insert { table, columns: None, rows: values }, fl);
            &&& now == then
            &&& r is Ok <==> a is Ok
            &&& r is Ok ==> r == Ok::<nat, Seq<char>>(rows.len())
        }),
{
    if let Some(t) = table_named(st.tables, table) {
        lemma_json_rows_back(rows, t.schema, rows.len(), values, fl);
        assert(values.take(rows.len() as int) =~= values);
    }
}

/// Where one of the rows is none for the table, nothing is put in.
pub proof fn lemma_json_refused<F: Floats>(
    st: State,
    table: Seq<char>,
    rows: Seq<Seq<Json>>,
    i: int,
    fl: F,
)
    requires
        0 <= i < rows.len(),
        table_named(st.tables, table) matches Some(t) ==> forall|values: Seq<Cell>|
            !#[trigger] json_row_is(rows[i], t.schema, values, fl),
    ensures
        json_inserted(st, table, rows, fl).0 is Err,
        json_inserted(st, table, rows, fl).1 == st,
{
    if let Some(t) = table_named(st.tables, table) {
        lemma_json_rows(rows, t.schema, rows.len(), fl);
        if let Ok(v) = json_rows(rows, t.schema, rows.len(), fl) {
            assert(json_row_is(rows[i], t.schema, v[i], fl));
        }
    }
}

// --- values on the wire ----------------------------------------------------------------------

/// Whether a value that was sent is one for a column, and is `x` there.
pub open spec fn taken_as<F: Floats>(w: Option<Cell>, ty: DataType, x: Cell, fl: F) -> bool {
    w matches Some(c) && suits(c, ty) && x == becomes(c, ty, fl)
}

/// A value that was sent is taken for a column if and only if it is one for it.
pub proof fn lemma_wire_value<F: Floats>(w: Option<Cell>, ty: DataType, fl: F)
    ensures
        wire_cell(w, ty, fl) is Ok <==> (w matches Some(c) && suits(c, ty)),
        wire_cell(w, ty, fl) matches Ok(x) ==> x == becomes(w->0, ty, fl),
{
}

proof fn lemma_wire_row<F: Floats>(row: Seq<Option<Cell>>, s: Seq<Attr>, i: int, n: nat, fl: F)
    requires
        n <= row.len(),
    ensures
        wire_row(row, s, i, n, fl) matches Ok(v) ==> v.len() == n && forall|k: int|
            0 <= k < n ==> taken_as(row[k], s[k].ty, #[trigger] v[k], fl),
    decreases n,
{
    if n > 0 {
        lemma_wire_row(row, s, i, (n - 1) as nat, fl);
        lemma_wire_value(row[n - 1], s[n - 1].ty, fl);
    }
}

proof fn lemma_wire_row_back<F: Floats>(
    row: Seq<Option<Cell>>,
    s: Seq<Attr>,
    i: int,
    n: nat,
    values: Seq<Cell>,
    fl: F,
)
    requires
        n <= row.len(),
        values.len() == row.len(),
        forall|k: int|
            0 <= k < row.len() ==> taken_as(row[k], s[k].ty, #[trigger] values[k], fl),
    ensures
        wire_row(row, s, i, n, fl) == Ok::<Seq<Cell>, Seq<char>>(values.take(n as int)),
    decreases n,
{
    if n == 0 {
        assert(values.take(0) =~= Seq::empty());
    } else {
        lemma_wire_row_back(row, s, i, (n - 1) as nat, values, fl);
        lemma_wire_value(row[n - 1], s[n - 1].ty, fl);
        assert(values.take(n - 1).push(values[n - 1]) =~= values.take(n as int));
    }
}

/// Whether a row that was sent has a value for each column, and they are these.
pub open spec fn wire_row_is<F: Floats>(
    row: Seq<Option<Cell>>,
    s: Seq<Attr>,
    values: Seq<Cell>,
    fl: F,
) -> bool {
    &&& row.len() == s.len()
    &&& values.len() == s.len()
    &&& forall|k: int|
        0 <= k < s.len() ==> taken_as(row[k], s[k].ty, #[trigger] values[k], fl)
}

proof fn lemma_wire_rows<F: Floats>(
    rows: Seq<Seq<Option<Cell>>>,
    s: Seq<Attr>,
    n: nat,
    fl: F,
)
    requires
        n <= rows.len(),
    ensures
        wire_rows(rows, s, n, fl) matches Ok(v) ==> v.len() == n && forall|i: int|
            0 <= i < n ==> wire_row_is(rows[i], s, #[trigger] v[i], fl),
    decreases n,
{
    if n > 0 {
        lemma_wire_rows(rows, s, (n - 1) as nat, fl);
        lemma_wire_row(rows[n - 1], s, n - 1, rows[n - 1].len(), fl);
    }
}

proof fn lemma_wire_rows_back<F: Floats>(
    rows: Seq<Seq<Option<Cell>>>,
    s: Seq<Attr>,
    n: nat,
    values: Seq<Seq<Cell>>,
    fl: F,
)
    requires
        n <= rows.len(),
        values.len() == rows.len(),
        forall|i: int| 0 <= i < rows.len() ==> wire_row_is(rows[i], s, #[trigger] values[i], fl),
    ensures
        wire_rows(rows, s, n, fl) == Ok::<Seq<Seq<Cell>>, Seq<char>>(values.take(n as int)),
    decreases n,
{
    if n == 0 {
        assert(values.take(0) =~= Seq::empty());
    } else {
        lemma_wire_rows_back(rows, s, (n - 1) as nat, values, fl);
        let (row, v) = (rows[n - 1], values[n - 1]);
        assert(wire_row_is(row, s, v, fl));
        lemma_wire_row_back(row, s, n - 1, row.len(), v, fl);
        assert(v.take(row.len() as int) =~= v);
        assert(values.take(n - 1).push(v) =~= values.take(n as int));
    }
}

/// Rows that were sent are put into a table as `INSERT` puts their values in.
pub proof fn lemma_wire_insert<F: Floats>(
    st: State,
    table: Seq<char>,
    rows: Seq<Seq<Option<Cell>>>,
    values: Seq<Seq<Cell>>,
    fl: F,
)
    requires
        values.len() == rows.len(),
        table_named(st.tables, table) matches Some(t) ==> forall|i: int|
            0 <= i < rows.len() ==> wire_row_is(rows[i], t.schema, #[trigger] values[i], fl),
    ensures
        ({
            let (r, now) = wire_inserted(st, table, rows, fl);
            let (a, then) = ran(st, Command::Insert { table, columns: None, rows: values }, fl);
            &&& now == then
            &&& r is Ok <==> a is Ok
            &&& r is Ok ==> r == Ok::<nat, Seq<char>>(rows.len())
        }),
{
    if let Some(t) = table_named(st.tables, table) {
        lemma_wire_rows_back(rows, t.schema, rows.len(), values, fl);
        assert(values.take(rows.len() as int) =~= values);
    }
}

/// Where one of the rows is none for the table, nothing is put in.
pub proof fn lemma_wire_refused<F: Floats>(
    st: State,
    table: Seq<char>,
    rows: Seq<Seq<Option<Cell>>>,
    i: int,
    fl: F,
)
    requires
        0 <= i < rows.len(),
        table_named(st.tables, table) matches Some(t) ==> forall|values: Seq<Cell>|
            !#[trigger] wire_row_is(rows[i], t.schema, values, fl),
    ensures
        wire_inserted(st, table, rows, fl).0 is Err,
        wire_inserted(st, table, rows, fl).1 == st,
{
    if let Some(t) = table_named(st.tables, table) {
        lemma_wire_rows(rows, t.schema, rows.len(), fl);
        if let Ok(v) = wire_rows(rows, t.schema, rows.len(), fl) {
            assert(wire_row_is(rows[i], t.schema, v[i], fl));
        }
    }
}

// --- bytes -----------------------------------------------------------------------------------

/// The sixteen digits.
pub open spec fn sixteenth(d: int) -> char {
    seq!['0', '1', '2', '3', '4', '5', '6', '7', '8', '9', 'a', 'b', 'c', 'd', 'e', 'f'][d]
}

/// Each byte is written in two digits, the one that counts for more first.
pub proof fn lemma_hex(b: Seq<u8>)
    ensures
        hex_text(b).len() == 2 * b.len(),
        forall|i: int|
            0 <= i < b.len() ==> hex_text(b)[2 * i] == sixteenth(#[trigger] b[i] as int / 16)
                && hex_text(b)[2 * i + 1] == sixteenth(b[i] as int % 16),
    decreases b.len(),
{
    if b.len() > 0 {
        let a = b.drop_last();
        lemma_hex(a);
        assert forall|i: int| 0 <= i < b.len() implies hex_text(b)[2 * i] == sixteenth(
            #[trigger] b[i] as int / 16,
        ) && hex_text(b)[2 * i + 1] == sixteenth(b[i] as int % 16) by {
            if i < a.len() {
                assert(a[i] == b[i]);
            } else {
                let (x, y) = (b[i] as int / 16, b[i] as int % 16);
                assert(0 <= x < 16 && 0 <= y < 16);
            }
        }
    }
}

// --- sizes -----------------------------------------------------------------------------------

/// Whether a text is a unit of sizes: its letter, alone or with `B` or `iB` behind it, in any
/// case.
pub open spec fn is_unit(t: Seq<char>, letter: char) -> bool {
    let u = ascii_uppered(t);
    u == seq![letter] || u == seq![letter, 'B'] || u == seq![letter, 'I', 'B']
}

proof fn lemma_unit_start(v: Seq<char>, letter: char, n: int, i: int)
    requires
        0 < n <= i <= v.len(),
        '0' as int <= v[n - 1] as int <= '9' as int,
        letter == 'G' || letter == 'M' || letter == 'K',
        forall|k: int|
            n <= k < i ==> #[trigger] v[k] == letter || v[k] == 'I' || v[k] == 'B',
    ensures
        unit_start(v, letter, i) == n,
    decreases i - n,
{
    if n < i {
        lemma_unit_start(v, letter, n, i - 1);
    }
}

/// A size is a number of bytes, or of `K`, `M` or `G`: 1024, 1024 times that, and 1024 times
/// that again. White space around it does not count.
pub proof fn lemma_size<F: Floats>(
    before: Seq<char>,
    d: Seq<char>,
    t: Seq<char>,
    letter: char,
    after: Seq<char>,
    fl: F,
)
    requires
        forall|i: int| 0 <= i < before.len() ==> is_space(#[trigger] before[i]),
        forall|i: int| 0 <= i < after.len() ==> is_space(#[trigger] after[i]),
        in_digits(d),
        letter == 'G' || letter == 'M' || letter == 'K',
        is_unit(t, letter),
        fl.double_in(d) matches Some(x) && !(!no_number(x) && below(x, 0)),
    ensures
        ({
            let times = |k: i64|
                fl.to_count(fl.apply(FloatOp::Mul, fl.double_in(d)->0, fl.from_int(k)));
            let k: i64 = if letter == 'G' {
                1_073_741_824
            } else if letter == 'M' {
                1_048_576
            } else {
                1024
            };
            &&& bytes_in(before + (d + t) + after, fl) == Ok::<u64, Seq<char>>(times(k))
            &&& bytes_in(before + d + after, fl) == Ok::<u64, Seq<char>>(times(1))
        }),
{
    let s = d + t;
    let u = ascii_uppered(t);
    let n = d.len() as int;
    assert(t.len() == u.len());
    assert(u.last() == letter || u.last() == 'B');
    assert(!is_space(t.last())) by {
        assert(u[u.len() - 1] == ascii_upper(t[u.len() - 1]));
    }
    assert('0' as int <= d[0] as int <= '9' as int);
    assert('0' as int <= d[n - 1] as int <= '9' as int);
    assert(s[0] == d[0]);
    assert(s.last() == t.last());
    lemma_trim_gives(before, s, after);
    lemma_trim_gives(before, d, after);
    let v = ascii_uppered(s);
    assert forall|i: int| 0 <= i < n implies v[i] == d[i] by {
        assert('0' as int <= d[i] as int <= '9' as int);
        assert(s[i] == d[i]);
    }
    assert forall|i: int| 0 <= i < u.len() implies v[n + i] == #[trigger] u[i] by {
        assert(s[n + i] == t[i]);
    }
    assert(v =~= d + u);
    assert forall|k: int| n <= k < v.len() implies #[trigger] v[k] == letter || v[k] == 'I' || v[k]
        == 'B' by {
        assert(v[k] == u[k - n]);
    }
    lemma_unit_start(v, letter, n, v.len() as int);
    assert(v.take(n) =~= d);
    let none = Seq::<char>::empty();
    lemma_trim_gives(none, d, none);
    assert(none + d + none =~= d);
    assert(ascii_uppered(d) =~= d) by {
        assert forall|i: int| 0 <= i < n implies #[trigger] ascii_uppered(d)[i] == d[i] by {
            assert('0' as int <= d[i] as int <= '9' as int);
        }
    }
    let x = fl.double_in(d)->0;
    lemma_numbers(x, 0);
    assert(v[v.len() - 1] == u[u.len() - 1]);
    assert(u.len() >= 2 ==> v[v.len() - 2] == u[u.len() - 2]);
    assert(u.len() >= 3 ==> v[v.len() - 3] == u[u.len() - 3]);
    assert(v[n - 1] == d[n - 1]);
    assert(n >= 2 ==> '0' as int <= d[n - 2] as int <= '9' as int && v[n - 2] == d[n - 2]);
}

} // verus!
