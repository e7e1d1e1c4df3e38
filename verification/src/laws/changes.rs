//! What statements do to tables.
use crate::column::{cell_type, name_of_type, room_for, str_bytes, Cell, Cells, DataType};
use crate::db::{
    described, in_order, lemma_in_order, lemma_place, lists, named_before, names_error, ran,
    reordered, reordered_row, shown_tables, table_named, State,
};
use crate::exec::select::{selected, Answer};
use crate::float::Floats;
use crate::laws::order::{earlier, lemma_texts};
use crate::laws::texts::{lemma_same_name, same_letter};
use crate::plan::{Command, Query};
use crate::table::{
    accepts, attr_error, attrs_error, column_named, fits, has_room, held_in_memory, inserted,
    inserted_many, lemma_column_from, lemma_insert_whole, lemma_valid_schema, schema_error,
    stored_row, Attr, Relation,
};
use crate::text::{ascii_lowered, dec, lowercase, same_name, text_rank, Rank};
use vstd::prelude::*;
use vstd::utf8::encode_utf8;

verus! {

// --- rows ------------------------------------------------------------------------------------

/// What stands in a table at a row and a column.
pub open spec fn entry(t: Relation, i: int, c: int) -> Cell {
    match t.columns[c] {
        Cells::I64(v) => Cell::I64(v[i]),
        Cells::F64(v) => Cell::F64(v[i]),
        Cells::Bool(v) => Cell::Bool(v[i] != 0),
        Cells::Str(v) => Cell::Str(v[i]),
        Cells::Vector { rows, .. } => Cell::Vector(rows[i]),
    }
}

/// What a value becomes in a column of a type: an integer among doubles the double nearest to
/// it, any other what it was.
pub open spec fn becomes<F: Floats>(v: Cell, ty: DataType, fl: F) -> Cell {
    if ty is F64 && v is I64 {
        Cell::F64(fl.from_int(v->I64_0))
    } else {
        v
    }
}

/// Whether a value is one for a column of a type: of the type itself, an integer for a double
/// too.
pub open spec fn suits(c: Cell, ty: DataType) -> bool {
    match ty {
        DataType::I64 => c is I64,
        DataType::F64 => c is F64 || c is I64,
        DataType::Bool => c is Bool,
        DataType::Str => c is Str,
        DataType::Vector(dim) => c matches Cell::Vector(x) && x.len() == dim,
    }
}

/// Whether a row has a value for each column of a table, and each is one for it.
pub open spec fn row_suits(row: Seq<Cell>, s: Seq<Attr>) -> bool {
    row.len() == s.len() && forall|c: int| 0 <= c < s.len() ==> suits(#[trigger] row[c], s[c].ty)
}

/// A row that does not suit a table is refused. One that does is put in wherever the table can
/// have one row more and the bytes of its texts fit.
pub proof fn lemma_row_accepted<F: Floats>(t: Relation, row: Seq<Cell>, fl: F)
    requires
        t.aligned(),
        held_in_memory(row),
    ensures
        inserted(t, row, fl) is Ok <==> row_suits(row, t.schema) && t.rows < usize::MAX && forall|
            c: int,
        |
            0 <= c < row.len() && t.columns[c] is Str ==> str_bytes(t.columns[c]->Str_0)
                + encode_utf8((#[trigger] row[c])->Str_0).len() <= u32::MAX,
{
    lemma_insert_whole(t, row, fl);
    assert forall|c: int| 0 <= c < row.len() && row.len() == t.schema.len() implies (accepts(
        t.schema[c].ty,
        cell_type(#[trigger] row[c]),
    ) <==> suits(row[c], t.schema[c].ty)) by {
        assert(row[c] matches Cell::Vector(x) ==> x.len() <= usize::MAX);
        assert(t.columns[c].data_type() == t.schema[c].ty);
    }
    if fits(t, row) && has_room(t, row) {
        assert forall|c: int| 0 <= c < row.len() && t.columns[c] is Str implies str_bytes(
            t.columns[c]->Str_0,
        ) + encode_utf8((#[trigger] row[c])->Str_0).len() <= u32::MAX by {
            assert(t.columns[c].data_type() == t.schema[c].ty);
            assert(suits(row[c], t.schema[c].ty));
        }
    }
}

/// The bytes of the texts that the first `n` of some rows have for a column.
pub open spec fn bytes_for(rows: Seq<Seq<Cell>>, c: int, n: nat) -> int
    decreases n,
{
    if n == 0 {
        0
    } else {
        bytes_for(rows, c, (n - 1) as nat) + encode_utf8(rows[n - 1][c]->Str_0).len()
    }
}

/// Rows that suit a table are all put in, where it can have so many and their texts fit.
pub proof fn lemma_rows_accepted<F: Floats>(t: Relation, rows: Seq<Seq<Cell>>, k: nat, fl: F)
    requires
        t.aligned(),
        k <= rows.len(),
        t.rows + rows.len() <= usize::MAX,
        forall|i: int| 0 <= i < rows.len() ==> held_in_memory(#[trigger] rows[i]),
        forall|i: int| 0 <= i < rows.len() ==> row_suits(#[trigger] rows[i], t.schema),
        forall|c: int, i: nat|
            0 <= c < t.columns.len() && (#[trigger] t.columns[c]) is Str && i <= rows.len()
                ==> str_bytes(t.columns[c]->Str_0) + #[trigger] bytes_for(rows, c, i) <= u32::MAX,
    ensures
        inserted_many(t, rows, k, fl).0 is None,
        forall|c: int|
            0 <= c < t.columns.len() && t.columns[c] is Str ==> (#[trigger] inserted_many(
                t,
                rows,
                k,
                fl,
            ).1.columns[c] matches Cells::Str(v) && str_bytes(v) == str_bytes(t.columns[c]->Str_0)
                + bytes_for(rows, c, k)),
    decreases k,
{
    if k > 0 {
        let m = (k - 1) as nat;
        lemma_rows_accepted(t, rows, m, fl);
        lemma_rows_put(t, rows, m, fl);
        let before = inserted_many(t, rows, m, fl).1;
        let row = rows[k - 1];
        assert(held_in_memory(row));
        assert(row_suits(row, t.schema));
        assert forall|c: int| 0 <= c < row.len() && before.columns[c] is Str implies str_bytes(
            before.columns[c]->Str_0,
        ) + encode_utf8((#[trigger] row[c])->Str_0).len() <= u32::MAX by {
            assert(before.columns[c].data_type() == t.schema[c].ty);
            assert(t.columns[c].data_type() == t.schema[c].ty);
            assert(bytes_for(rows, c, k) == bytes_for(rows, c, m) + encode_utf8(
                row[c]->Str_0,
            ).len());
            assert(str_bytes(t.columns[c]->Str_0) + bytes_for(rows, c, k) <= u32::MAX);
        }
        lemma_row_accepted(before, row, fl);
        let now = inserted_many(t, rows, k, fl).1;
        assert forall|c: int| 0 <= c < t.columns.len() && t.columns[c] is Str implies (
        #[trigger] now.columns[c] matches Cells::Str(v) && str_bytes(v) == str_bytes(
            t.columns[c]->Str_0,
        ) + bytes_for(rows, c, k)) by {
            let v = before.columns[c]->Str_0;
            assert(before.columns[c] is Str);
            assert(t.columns[c].data_type() == t.schema[c].ty);
            assert(suits(row[c], t.schema[c].ty));
            let x = row[c]->Str_0;
            assert(v.push(x).drop_last() =~= v);
            assert(bytes_for(rows, c, k) == bytes_for(rows, c, m) + encode_utf8(x).len());
            assert(room_for(v, x));
        }
    }
}

/// Whether `u` is `t` with rows behind its own.
pub open spec fn has_more<F: Floats>(u: Relation, t: Relation, rows: Seq<Seq<Cell>>, fl: F) -> bool {
    &&& u.name == t.name
    &&& u.schema == t.schema
    &&& u.columns.len() == t.columns.len()
    &&& u.rows == t.rows + rows.len()
    &&& forall|i: int, c: int|
        0 <= i < t.rows && 0 <= c < t.columns.len() ==> #[trigger] entry(u, i, c) == entry(t, i, c)
    &&& forall|i: int, c: int|
        t.rows <= i < u.rows && 0 <= c < t.columns.len() ==> #[trigger] entry(u, i, c) == becomes(
            rows[i - t.rows][c],
            t.schema[c].ty,
            fl,
        )
}

/// Rows that are put into a table are its last rows, each value in its column; the rows that
/// were there stay.
pub proof fn lemma_rows_put<F: Floats>(t: Relation, rows: Seq<Seq<Cell>>, k: nat, fl: F)
    requires
        t.aligned(),
        k <= rows.len(),
        forall|i: int| 0 <= i < rows.len() ==> held_in_memory(#[trigger] rows[i]),
    ensures
        inserted_many(t, rows, k, fl).1.aligned(),
        inserted_many(t, rows, k, fl).0 is None ==> has_more(
            inserted_many(t, rows, k, fl).1,
            t,
            rows.take(k as int),
            fl,
        ),
    decreases k,
{
    if k > 0 {
        lemma_rows_put(t, rows, (k - 1) as nat, fl);
        let (e, before) = inserted_many(t, rows, (k - 1) as nat, fl);
        let (f, now) = inserted_many(t, rows, k, fl);
        if e is None {
            let row = rows[k - 1];
            lemma_insert_whole(before, row, fl);
            if f is None {
                assert(now.row(before.rows as int) == stored_row(row, t.schema, fl));
                assert forall|i: int, c: int|
                    0 <= i < t.rows && 0 <= c < t.columns.len() implies #[trigger] entry(now, i, c)
                    == entry(t, i, c) by {
                    assert(now.row(i) == before.row(i));
                    assert(now.row(i)[c] == entry(now, i, c));
                    assert(before.row(i)[c] == entry(before, i, c));
                }
                assert forall|i: int, c: int|
                    t.rows <= i < now.rows && 0 <= c < t.columns.len() implies #[trigger] entry(
                    now,
                    i,
                    c,
                ) == becomes(rows.take(k as int)[i - t.rows][c], t.schema[c].ty, fl) by {
                    assert(now.row(i)[c] == entry(now, i, c));
                    if i < before.rows {
                        assert(now.row(i) == before.row(i));
                        assert(before.row(i)[c] == entry(before, i, c));
                        assert(entry(before, i, c) == becomes(
                            rows.take(k - 1)[i - t.rows][c],
                            t.schema[c].ty,
                            fl,
                        ));
                        assert(rows.take(k - 1)[i - t.rows] == rows[i - t.rows]);
                    } else {
                        assert(stored_row(row, t.schema, fl)[c] == becomes(
                            row[c],
                            t.schema[c].ty,
                            fl,
                        ));
                    }
                }
            }
        }
    }
}

/// Whether tables other than one are what they were.
pub open spec fn others_stay(st: State, now: State, name: Seq<char>) -> bool {
    &&& forall|other: Seq<char>|
        lowercase(other) != lowercase(name) ==> #[trigger] table_named(now.tables, other)
            == table_named(st.tables, other)
    &&& now.read_only == st.read_only
    &&& now.limit == st.limit
}

/// `INSERT` that succeeds has put all its rows behind those of the table and left the other
/// tables alone. A node that takes writes, has no log to fail and no limit refuses rows only
/// where a row cannot be put in.
pub proof fn lemma_insert<F: Floats>(
    st: State,
    table: Seq<char>,
    rows: Seq<Seq<Cell>>,
    t: Relation,
    fl: F,
)
    requires
        table_named(st.tables, table) == Some(t),
        t.aligned(),
        forall|i: int| 0 <= i < rows.len() ==> held_in_memory(#[trigger] rows[i]),
    ensures
        ({
            let (r, now) = ran(st, Command::Insert { table, columns: None, rows }, fl);
            &&& others_stay(st, now, table)
            &&& r is Ok ==> !st.read_only && (table_named(now.tables, table) matches Some(u)
                && has_more(u, t, rows, fl))
            &&& st.read_only ==> r is Err && now == st
            &&& !st.read_only && st.limit == 0 && st.log is None ==> (r is Ok <==> inserted_many(
                t,
                rows,
                rows.len(),
                fl,
            ).0 is None)
        }),
{
    lemma_rows_put(t, rows, rows.len(), fl);
    assert(rows.take(rows.len() as int) =~= rows);
}

/// `INSERT` into a table that there is not fails and changes no table.
pub proof fn lemma_insert_nowhere<F: Floats>(
    st: State,
    table: Seq<char>,
    columns: Option<Seq<Seq<char>>>,
    rows: Seq<Seq<Cell>>,
    fl: F,
)
    requires
        table_named(st.tables, table) is None,
    ensures
        ran(st, Command::Insert { table, columns, rows }, fl).0 is Err,
        ran(st, Command::Insert { table, columns, rows }, fl).1 == st,
{
}

// --- columns by name -------------------------------------------------------------------------

/// Whether a schema is one of a table: it has columns, each with a name of its own, whatever
/// the case, and no vectors without elements.
pub open spec fn is_schema(s: Seq<Attr>) -> bool {
    &&& s.len() > 0
    &&& forall|i: int| 0 <= i < s.len() ==> (#[trigger] s[i]).name.len() > 0
    &&& forall|i: int| 0 <= i < s.len() ==> (#[trigger] s[i]).ty != DataType::Vector(0)
    &&& forall|i: int, j: int|
        0 <= i < j < s.len() ==> !alike((#[trigger] s[i]).name, (#[trigger] s[j]).name)
}

/// Whether two names are one, whatever the case of their Latin letters.
pub open spec fn alike(a: Seq<char>, b: Seq<char>) -> bool {
    a.len() == b.len() && forall|i: int| 0 <= i < a.len() ==> same_letter(#[trigger] a[i], b[i])
}

proof fn lemma_no_attr_error(s: Seq<Attr>, i: int)
    requires
        0 <= i <= s.len(),
        forall|k: int| i <= k < s.len() ==> #[trigger] attr_error(s, k) is None,
    ensures
        attrs_error(s, i) is None,
    decreases s.len() - i,
{
    if i < s.len() {
        assert(attr_error(s, i) is None);
        lemma_no_attr_error(s, i + 1);
    }
}

/// A schema is accepted if and only if it is one.
pub proof fn lemma_schema(s: Seq<Attr>)
    ensures
        schema_error(s) is None <==> is_schema(s),
{
    assert forall|a: Seq<char>, b: Seq<char>| #[trigger] alike(a, b) == same_name(a, b) by {
        lemma_same_name(a, b);
    }
    if schema_error(s) is None {
        lemma_valid_schema(s, 0);
        assert forall|i: int| 0 <= i < s.len() implies (#[trigger] s[i]).name.len() > 0 && s[i].ty
            != DataType::Vector(0) by {
            assert(attr_error(s, i) is None);
        }
        assert forall|i: int, j: int| 0 <= i < j < s.len() implies !alike(
            (#[trigger] s[i]).name,
            (#[trigger] s[j]).name,
        ) by {
            assert(attr_error(s, j) is None);
        }
    }
    if is_schema(s) {
        assert forall|k: int| 0 <= k < s.len() implies #[trigger] attr_error(s, k) is None by {
            assert(s[k].name.len() > 0);
            assert forall|j: int| 0 <= j < k implies !same_name(
                (#[trigger] s[j]).name,
                s[k].name,
            ) by {
                assert(!alike(s[j].name, s[k].name));
            }
        }
        lemma_no_attr_error(s, 0);
    }
}

/// The column that a name means is the one of that name, whatever the case.
pub proof fn lemma_column_named(s: Seq<Attr>, name: Seq<char>, c: usize)
    requires
        is_schema(s),
        s.len() <= usize::MAX,
    ensures
        column_named(s, name) == Some(c) <==> c < s.len() && alike(s[c as int].name, name),
        column_named(s, name) is None <==> forall|k: int|
            0 <= k < s.len() ==> !alike((#[trigger] s[k]).name, name),
{
    assert forall|a: Seq<char>, b: Seq<char>| #[trigger] alike(a, b) == same_name(a, b) by {
        lemma_same_name(a, b);
    }
    lemma_column_from(s, name, 0);
    if c < s.len() && alike(s[c as int].name, name) {
        let k = column_named(s, name)->0;
        assert(ascii_lowered(s[c as int].name) == ascii_lowered(name));
        if k < c {
            assert(!alike(s[k as int].name, s[c as int].name));
        } else if c < k {
            assert(!alike(s[c as int].name, s[k as int].name));
        }
    }
    if column_named(s, name) is Some {
        let k = column_named(s, name)->0;
        assert(alike(s[k as int].name, name));
    }
}

proof fn lemma_no_names_error(names: Seq<Seq<char>>, s: Seq<Attr>, i: nat)
    requires
        i <= names.len(),
    ensures
        names_error(names, s, i) is None <==> forall|j: int|
            i <= j < names.len() ==> column_named(s, #[trigger] names[j]) is Some && !named_before(
                names,
                s,
                column_named(s, names[j])->0,
                j as nat,
            ),
    decreases names.len() - i,
{
    if i < names.len() {
        lemma_no_names_error(names, s, i + 1);
        let j = i as int;
        if names_error(names, s, i) is None {
            assert(column_named(s, names[j]) is Some);
            assert(!named_before(names, s, column_named(s, names[j])->0, i));
        }
        if forall|j: int|
            i <= j < names.len() ==> column_named(s, #[trigger] names[j]) is Some && !named_before(
                names,
                s,
                column_named(s, names[j])->0,
                j as nat,
            ) {
            assert(column_named(s, names[j]) is Some);
        }
    }
}

/// An `INSERT` that names its columns puts each value into the column of its name. It has to
/// name every column once.
pub proof fn lemma_insert_named<F: Floats>(
    st: State,
    table: Seq<char>,
    names: Seq<Seq<char>>,
    rows: Seq<Seq<Cell>>,
    t: Relation,
    fl: F,
) -> (moved: Seq<Seq<Cell>>)
    requires
        table_named(st.tables, table) == Some(t),
        is_schema(t.schema),
        t.schema.len() <= usize::MAX,
        forall|i: int| 0 <= i < rows.len() ==> (#[trigger] rows[i]).len() == names.len(),
    ensures
        ({
            let by_name = Command::Insert { table, columns: Some(names), rows };
            let in_place = Command::Insert { table, columns: None, rows: moved };
            let s = t.schema;
            if names.len() == s.len() && (forall|j: int|
                0 <= j < names.len() ==> exists|c: int|
                    0 <= c < s.len() && alike((#[trigger] s[c]).name, #[trigger] names[j])) && (
            forall|i: int, j: int|
                0 <= i < j < names.len() ==> !alike(#[trigger] names[i], #[trigger] names[j])) {
                &&& ran(st, by_name, fl) == ran(st, in_place, fl)
                &&& moved.len() == rows.len()
                &&& forall|i: int, j: int, c: int|
                    #![trigger rows[i], names[j], s[c]]
                    0 <= i < rows.len() && 0 <= j < names.len() && 0 <= c < s.len() && alike(
                        s[c].name,
                        names[j],
                    ) ==> moved[i][c] == rows[i][j]
            } else {
                ran(st, by_name, fl).0 is Err && ran(st, by_name, fl).1 == st
            }
        }),
{
    let s = t.schema;
    assert forall|a: Seq<char>, b: Seq<char>| #[trigger] alike(a, b) == same_name(a, b) by {
        lemma_same_name(a, b);
    }
    lemma_no_names_error(names, s, 0);
    assert forall|j: int| 0 <= j < names.len() implies (column_named(s, #[trigger] names[j]) is Some
        <==> exists|c: int| 0 <= c < s.len() && alike((#[trigger] s[c]).name, names[j])) by {
        lemma_column_named(s, names[j], 0);
    }
    assert forall|i: int, j: int|
        0 <= i < names.len() && 0 <= j < names.len() && column_named(s, names[i]) is Some
            && column_named(s, names[j]) is Some implies (#[trigger] column_named(s, names[i])
        == #[trigger] column_named(s, names[j]) <==> alike(names[i], names[j])) by {
        lemma_one_column(s, names[i], names[j]);
    }
    let moved = match reordered(table, names, rows, st.tables) {
        Ok(v) => v,
        Err(_) => Seq::empty(),
    };
    let good = names.len() == s.len() && (forall|j: int|
        0 <= j < names.len() ==> exists|c: int|
            0 <= c < s.len() && alike((#[trigger] s[c]).name, #[trigger] names[j])) && (forall|
        i: int,
        j: int,
    |
        0 <= i < j < names.len() ==> !alike(#[trigger] names[i], #[trigger] names[j]));
    if good {
        assert forall|j: int| 0 <= j < names.len() implies column_named(s, #[trigger] names[j])
            is Some && !named_before(names, s, column_named(s, names[j])->0, j as nat) by {
            if named_before(names, s, column_named(s, names[j])->0, j as nat) {
                let c = column_named(s, names[j])->0;
                let i = choose|i: int|
                    0 <= i < j && column_named(s, #[trigger] names[i]) == Some(c);
                assert(!alike(names[i], names[j]));
            }
        }
        assert forall|i: int, j: int, c: int|
            #![trigger rows[i], names[j], s[c]]
            0 <= i < rows.len() && 0 <= j < names.len() && 0 <= c < s.len() && alike(
                s[c].name,
                names[j],
            ) implies moved[i][c] == rows[i][j] by {
            lemma_column_named(s, names[j], c as usize);
            assert forall|k: int| 0 <= k < j implies column_named(s, #[trigger] names[k]) != Some(
                c as usize,
            ) by {
                assert(!named_before(names, s, column_named(s, names[j])->0, j as nat));
            }
            lemma_place(names, s, c as usize, 0, j as nat);
            assert(moved[i] == reordered_row(rows[i], names, s));
        }
    } else if names.len() == s.len() && names_error(names, s, 0) is None {
        assert forall|j: int| 0 <= j < names.len() implies exists|c: int|
            0 <= c < s.len() && alike((#[trigger] s[c]).name, #[trigger] names[j]) by {
            assert(column_named(s, names[j]) is Some);
        }
        assert forall|i: int, j: int| 0 <= i < j < names.len() implies !alike(
            #[trigger] names[i],
            #[trigger] names[j],
        ) by {
            assert(column_named(s, names[i]) is Some);
            assert(!named_before(names, s, column_named(s, names[j])->0, j as nat));
        }
    }
    moved
}

proof fn lemma_one_column(s: Seq<Attr>, a: Seq<char>, b: Seq<char>)
    requires
        is_schema(s),
        s.len() <= usize::MAX,
        column_named(s, a) is Some,
        column_named(s, b) is Some,
    ensures
        column_named(s, a) == column_named(s, b) <==> alike(a, b),
{
    let (p, q) = (column_named(s, a)->0, column_named(s, b)->0);
    lemma_column_named(s, a, p);
    lemma_column_named(s, b, q);
    lemma_column_named(s, b, p);
    lemma_same_name(a, b);
    lemma_same_name(s[p as int].name, a);
    lemma_same_name(s[p as int].name, b);
}

// --- tables ----------------------------------------------------------------------------------

/// `CREATE TABLE` makes an empty table with the columns it names and leaves the others alone.
/// One that is there is not made again: that is an error, or with `IF NOT EXISTS` none.
pub proof fn lemma_create<F: Floats>(
    st: State,
    name: Seq<char>,
    schema: Seq<Attr>,
    if_not_exists: bool,
    fl: F,
)
    ensures
        ({
            let (r, now) = ran(st, Command::CreateTable { name, schema, if_not_exists }, fl);
            &&& others_stay(st, now, name)
            &&& table_named(st.tables, name) is Some ==> now == st && (r is Ok <==> if_not_exists)
            &&& table_named(st.tables, name) is None && st.log is None ==> (r is Ok
                <==> !st.read_only && is_schema(schema))
            &&& table_named(st.tables, name) is None && r is Ok ==> (table_named(now.tables, name)
                matches Some(t) && t.name == name && t.schema == schema && t.rows == 0
                && t.columns.len() == schema.len() && forall|c: int|
                0 <= c < schema.len() ==> match (#[trigger] t.columns[c]) {
                    Cells::I64(v) => schema[c].ty == DataType::I64 && v.len() == 0,
                    Cells::F64(v) => schema[c].ty == DataType::F64 && v.len() == 0,
                    Cells::Bool(v) => schema[c].ty == DataType::Bool && v.len() == 0,
                    Cells::Str(v) => schema[c].ty == DataType::Str && v.len() == 0,
                    Cells::Vector { dim, rows } => schema[c].ty == DataType::Vector(dim)
                        && rows.len() == 0,
                })
        }),
{
    lemma_schema(schema);
}

/// `DROP TABLE` takes a table away and leaves the others alone. To drop one that is not there
/// is an error, or with `IF EXISTS` none.
pub proof fn lemma_drop<F: Floats>(st: State, name: Seq<char>, if_exists: bool, fl: F)
    ensures
        ({
            let (r, now) = ran(st, Command::DropTable { name, if_exists }, fl);
            &&& others_stay(st, now, name)
            &&& st.read_only ==> r is Err && now == st
            &&& !st.read_only ==> table_named(now.tables, name) is None
            &&& !st.read_only && table_named(st.tables, name) is None ==> now == st && (r is Ok
                <==> if_exists)
            &&& !st.read_only && st.log is None && table_named(st.tables, name) is Some ==> r is Ok
        }),
{
}

/// Whether an answer has a row for each column, with its name and its type.
pub open spec fn names_columns(a: Answer, s: Seq<Attr>) -> bool {
    a.rows.len() == s.len() && forall|i: int|
        0 <= i < s.len() ==> #[trigger] a.rows[i] == seq![
            Cell::Str(s[i].name),
            Cell::Str(
                match s[i].ty {
                    DataType::I64 => "INT"@,
                    DataType::F64 => "DOUBLE"@,
                    DataType::Bool => "BOOL"@,
                    DataType::Str => "TEXT"@,
                    DataType::Vector(d) => "VECTOR("@ + dec(d as int) + ")"@,
                },
            ),
        ]
}

proof fn lemma_described(s: Seq<Attr>)
    ensures
        names_columns(described(s), s),
{
    let a = described(s);
    assert forall|i: int| 0 <= i < s.len() implies #[trigger] a.rows[i] == seq![
        Cell::Str(s[i].name),
        Cell::Str(
            match s[i].ty {
                DataType::I64 => "INT"@,
                DataType::F64 => "DOUBLE"@,
                DataType::Bool => "BOOL"@,
                DataType::Str => "TEXT"@,
                DataType::Vector(d) => "VECTOR("@ + dec(d as int) + ")"@,
            },
        ),
    ] by {
        assert(a.rows[i] =~= seq![Cell::Str(s[i].name), Cell::Str(name_of_type(s[i].ty))]);
    }
}

/// `DESCRIBE` gives the columns of a table.
pub proof fn lemma_describe<F: Floats>(st: State, name: Seq<char>, fl: F)
    ensures
        ran(st, Command::Describe(name), fl).1 == st,
        match table_named(st.tables, name) {
            None => ran(st, Command::Describe(name), fl).0 is Err,
            Some(t) => ran(st, Command::Describe(name), fl).0 is Ok && names_columns(
                ran(st, Command::Describe(name), fl).0->Ok_0,
                t.schema,
            ),
        },
{
    if let Some(t) = table_named(st.tables, name) {
        lemma_described(t.schema);
    }
}

/// Whether some tables are all there are, by their names in the order of a dictionary.
#[verifier::opaque]
pub open spec fn all_in_turn(v: Seq<Relation>, m: Map<Seq<char>, Relation>) -> bool {
    &&& forall|i: int, j: int|
        0 <= i < j < v.len() ==> earlier((#[trigger] v[i]).name, (#[trigger] v[j]).name)
    &&& forall|i: int| 0 <= i < v.len() ==> table_named(m, (#[trigger] v[i]).name) == Some(v[i])
    &&& forall|k: Seq<char>| #[trigger] m.dom().contains(k) ==> v.contains(m[k])
}

/// Whether an answer has a row for each of some tables, with its name and the number of its
/// rows.
pub open spec fn names_tables(a: Answer, v: Seq<Relation>) -> bool {
    a.rows.len() == v.len() && forall|i: int|
        0 <= i < v.len() ==> #[trigger] a.rows[i] == seq![
            Cell::Str(v[i].name),
            Cell::I64(v[i].rows as i64),
        ]
}

proof fn lemma_shown(v: Seq<Relation>)
    requires
        forall|i: int| 0 <= i < v.len() ==> (#[trigger] v[i]).rows <= i64::MAX && v[i].rows
            <= usize::MAX,
    ensures
        names_tables(shown_tables(v), v),
{
    let a = shown_tables(v);
    assert forall|i: int| 0 <= i < v.len() implies #[trigger] a.rows[i] == seq![
        Cell::Str(v[i].name),
        Cell::I64(v[i].rows as i64),
    ] by {
        assert(v[i].rows <= i64::MAX);
        assert(a.rows[i] =~= seq![Cell::Str(v[i].name), Cell::I64(v[i].rows as i64)]);
    }
}

/// `SHOW TABLES` gives all tables in the order of their names.
pub proof fn lemma_show<F: Floats>(st: State, v: Seq<Relation>, fl: F)
    requires
        all_in_turn(v, st.tables),
        forall|i: int| 0 <= i < v.len() ==> (#[trigger] v[i]).rows <= i64::MAX && v[i].rows
            <= usize::MAX,
    ensures
        ran(st, Command::ShowTables, fl).1 == st,
        ran(st, Command::ShowTables, fl).0 is Ok,
        names_tables(ran(st, Command::ShowTables, fl).0->Ok_0, v),
{
    lemma_listed(v, st.tables);
    lemma_shown(v);
}

proof fn lemma_listed(v: Seq<Relation>, m: Map<Seq<char>, Relation>)
    requires
        all_in_turn(v, m),
    ensures
        in_order(m) == v,
{
    reveal(all_in_turn);
    assert forall|i: int, j: int| 0 <= i < j < v.len() implies text_rank(
        (#[trigger] v[i]).name,
        (#[trigger] v[j]).name,
    ) == Rank::Less by {
        lemma_texts(v[i].name, v[j].name);
    }
    assert forall|i: int| 0 <= i < v.len() implies m.dom().contains(
        lowercase((#[trigger] v[i]).name),
    ) && m[lowercase(v[i].name)] == v[i] by {
        assert(table_named(m, v[i].name) == Some(v[i]));
    }
    assert(lists(v, m));
    lemma_in_order(v, m);
}

/// A question goes to the table it names, and changes nothing.
pub proof fn lemma_question<F: Floats>(st: State, q: Query, fl: F)
    ensures
        ran(st, Command::Select(q), fl).1 == st,
        q.table matches Some(name) ==> match table_named(st.tables, name) {
            None => ran(st, Command::Select(q), fl).0 is Err,
            Some(t) => ran(st, Command::Select(q), fl).0 == selected(
                q,
                t.columns,
                t.rows,
                fl,
            ),
        },
        q.table is None ==> ran(st, Command::Select(q), fl).0 == selected(
            q,
            Seq::empty(),
            1,
            fl,
        ),
{
}

} // verus!
