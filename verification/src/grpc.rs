//! Values as the gRPC interface carries them.
use crate::column::{cell_rows, cell_type, cells, copy_words, name_of_type, Cell, DataType, Value};
use crate::db::{not_found, put_rows, schema_in, Database, State};
use crate::float::Floats;
use crate::http::{value_error, width_error, wrong_value, wrong_width};
use crate::sql::statement::Catalog;
use crate::table::{Attr, Schema};
use crate::text::{dec, dec_usize, err, text2, text3, text5, Error};
use vstd::prelude::*;
use vstd::string::*;

verus! {

broadcast use vstd::string::group_string_axioms;

/// A value of a message. The type of a column is that of the schema, whatever the client
/// has sent.
#[derive(Debug)]
pub enum Wire {
    Missing,
    I(i64),
    /// A double by its bits.
    F(u64),
    B(bool),
    S(String),
    /// Singles by their bits.
    V(Vec<u32>),
}

/// What a [`Wire`] value is: `None` where there is none.
pub open spec fn sent(w: Wire) -> Option<Cell> {
    match w {
        Wire::Missing => None,
        Wire::I(x) => Some(Cell::I64(x)),
        Wire::F(x) => Some(Cell::F64(x)),
        Wire::B(x) => Some(Cell::Bool(x)),
        Wire::S(x) => Some(Cell::Str(x@)),
        Wire::V(x) => Some(Cell::Vector(x@)),
    }
}

pub open spec fn all_sent(v: Seq<Wire>) -> Seq<Option<Cell>> {
    Seq::new(v.len(), |i: int| sent(v[i]))
}

pub open spec fn sent_rows(v: Seq<Vec<Wire>>) -> Seq<Seq<Option<Cell>>> {
    Seq::new(v.len(), |i: int| all_sent(v[i]@))
}

pub fn to_pb(v: &Value) -> (r: Wire)
    ensures
        sent(r) == Some(v@),
{
    match v {
        Value::I64(x) => Wire::I(*x),
        Value::F64(x) => Wire::F(*x),
        Value::Bool(x) => Wire::B(*x),
        Value::Str(x) => Wire::S(x.clone()),
        Value::Vector(x) => Wire::V(copy_words(x)),
    }
}

/// A value that was sent, for a column of a type.
pub open spec fn wire_cell<F: Floats>(w: Option<Cell>, ty: DataType, fl: F) -> Result<
    Cell,
    Seq<char>,
> {
    match w {
        None => Err("пустое значение"@),
        Some(c) => match (ty, c) {
            (DataType::I64, Cell::I64(_)) => Ok(c),
            (DataType::F64, Cell::F64(_)) => Ok(c),
            (DataType::F64, Cell::I64(x)) => Ok(Cell::F64(fl.from_int(x))),
            (DataType::Bool, Cell::Bool(_)) => Ok(c),
            (DataType::Str, Cell::Str(_)) => Ok(c),
            (DataType::Vector(dim), Cell::Vector(v)) => if v.len() != dim {
                Err(
                    "вектор длины "@ + dec(v.len() as int) + " в колонку VECTOR("@ + dec(
                        dim as int,
                    ) + ")"@,
                )
            } else {
                Ok(c)
            },
            _ => Err("значение не подходит колонке "@ + name_of_type(ty)),
        },
    }
}

pub fn from_pb<F: Floats>(w: &Wire, ty: DataType, fl: &F) -> (r: Result<Value, Error>)
    requires
        fl.exact(),
    ensures
        match r {
            Ok(v) => wire_cell(sent(*w), ty, *fl) == Ok::<Cell, Seq<char>>(v@),
            Err(e) => wire_cell(sent(*w), ty, *fl) == Err::<Cell, Seq<char>>(e@),
        },
{
    match (ty, w) {
        (_, Wire::Missing) => Err(err("пустое значение".to_owned())),
        (DataType::I64, Wire::I(x)) => Ok(Value::I64(*x)),
        (DataType::F64, Wire::F(x)) => Ok(Value::F64(*x)),
        (DataType::F64, Wire::I(x)) => Ok(Value::F64(fl.of_int(*x))),
        (DataType::Bool, Wire::B(x)) => Ok(Value::Bool(*x)),
        (DataType::Str, Wire::S(x)) => Ok(Value::Str(x.clone())),
        (DataType::Vector(dim), Wire::V(x)) => {
            if x.len() != dim {
                return Err(
                    err(
                        text5(
                            "вектор длины ",
                            dec_usize(x.len()).as_str(),
                            " в колонку VECTOR(",
                            dec_usize(dim).as_str(),
                            ")",
                        ),
                    ),
                );
            }
            Ok(Value::Vector(copy_words(x)))
        },
        (ty, _) => Err(err(text2("значение не подходит колонке ", ty.name().as_str()))),
    }
}

/// A value that is sent is taken as it was, for a column of its type.
pub proof fn lemma_sent_back<F: Floats>(c: Cell, fl: F)
    requires
        crate::codec::storable(c),
    ensures
        wire_cell(Some(c), cell_type(c), fl) == Ok::<Cell, Seq<char>>(c),
{
}

/// The first `n` values of the `i`-th row, each for its column.
pub open spec fn wire_row<F: Floats>(
    row: Seq<Option<Cell>>,
    s: Seq<Attr>,
    i: int,
    n: nat,
    fl: F,
) -> Result<Seq<Cell>, Seq<char>>
    decreases n,
{
    if n == 0 || n > row.len() {
        Ok(Seq::empty())
    } else {
        match wire_row(row, s, i, (n - 1) as nat, fl) {
            Err(e) => Err(e),
            Ok(out) => match wire_cell(row[n - 1], s[n - 1].ty, fl) {
                Err(e) => Err(wrong_value(i, s[n - 1].name, e)),
                Ok(c) => Ok(out.push(c)),
            },
        }
    }
}

/// The first `n` rows.
pub open spec fn wire_rows<F: Floats>(
    rows: Seq<Seq<Option<Cell>>>,
    s: Seq<Attr>,
    n: nat,
    fl: F,
) -> Result<Seq<Seq<Cell>>, Seq<char>>
    decreases n,
{
    if n == 0 || n > rows.len() {
        Ok(Seq::empty())
    } else {
        match wire_rows(rows, s, (n - 1) as nat, fl) {
            Err(e) => Err(e),
            Ok(out) => {
                let row = rows[n - 1];
                if row.len() != s.len() {
                    Err(wrong_width(n - 1, row.len(), s.len()))
                } else {
                    match wire_row(row, s, n - 1, row.len(), fl) {
                        Err(e) => Err(e),
                        Ok(x) => Ok(out.push(x)),
                    }
                }
            },
        }
    }
}

proof fn lemma_row_err<F: Floats>(
    row: Seq<Option<Cell>>,
    s: Seq<Attr>,
    i: int,
    k: nat,
    n: nat,
    fl: F,
)
    requires
        k <= n <= row.len(),
        wire_row(row, s, i, k, fl) is Err,
    ensures
        wire_row(row, s, i, n, fl) == wire_row(row, s, i, k, fl),
    decreases n - k,
{
    if k < n {
        lemma_row_err(row, s, i, k, (n - 1) as nat, fl);
    }
}

proof fn lemma_rows_err<F: Floats>(
    rows: Seq<Seq<Option<Cell>>>,
    s: Seq<Attr>,
    k: nat,
    n: nat,
    fl: F,
)
    requires
        k <= n <= rows.len(),
        wire_rows(rows, s, k, fl) is Err,
    ensures
        wire_rows(rows, s, n, fl) == wire_rows(rows, s, k, fl),
    decreases n - k,
{
    if k < n {
        lemma_rows_err(rows, s, k, (n - 1) as nat, fl);
    }
}

fn read_row<F: Floats>(row: &Vec<Wire>, schema: &Schema, i: usize, fl: &F) -> (r: Result<
    Vec<Value>,
    Error,
>)
    requires
        fl.exact(),
        row@.len() == schema@.len(),
    ensures
        match r {
            Ok(x) => wire_row(all_sent(row@), schema@, i as int, row@.len(), *fl) == Ok::<
                Seq<Cell>,
                Seq<char>,
            >(cells(x@)),
            Err(e) => wire_row(all_sent(row@), schema@, i as int, row@.len(), *fl) == Err::<
                Seq<Cell>,
                Seq<char>,
            >(e@),
        },
{
    let ghost t = all_sent(row@);
    let mut out: Vec<Value> = Vec::new();
    let mut k: usize = 0;
    assert(cells(out@) =~= Seq::<Cell>::empty());
    while k < row.len()
        invariant
            k <= row.len(),
            fl.exact(),
            row@.len() == schema@.len(),
            t == all_sent(row@),
            wire_row(t, schema@, i as int, k as nat, *fl) == Ok::<Seq<Cell>, Seq<char>>(
                cells(out@),
            ),
        decreases row.len() - k,
    {
        assert(t[k as int] == sent(row@[k as int]));
        let f = &schema.fields[k];
        match from_pb(&row[k], f.ty, fl) {
            Ok(v) => {
                let ghost before = cells(out@);
                out.push(v);
                assert(cells(out@) =~= before.push(v@));
            },
            Err(e) => {
                proof {
                    lemma_row_err(t, schema@, i as int, (k + 1) as nat, t.len(), *fl);
                }
                return Err(value_error(i, f.name.as_str(), e));
            },
        }
        k += 1;
    }
    Ok(out)
}

/// Rows of a message as rows of a table of a schema.
pub fn read_rows<F: Floats>(rows: &Vec<Vec<Wire>>, schema: &Schema, fl: &F) -> (r: Result<
    Vec<Vec<Value>>,
    Error,
>)
    requires
        fl.exact(),
    ensures
        match r {
            Ok(x) => wire_rows(sent_rows(rows@), schema@, rows@.len(), *fl) == Ok::<
                Seq<Seq<Cell>>,
                Seq<char>,
            >(cell_rows(x@)),
            Err(e) => wire_rows(sent_rows(rows@), schema@, rows@.len(), *fl) == Err::<
                Seq<Seq<Cell>>,
                Seq<char>,
            >(e@),
        },
{
    let ghost t = sent_rows(rows@);
    let mut out: Vec<Vec<Value>> = Vec::new();
    let mut i: usize = 0;
    assert(cell_rows(out@) =~= Seq::<Seq<Cell>>::empty());
    while i < rows.len()
        invariant
            i <= rows.len(),
            fl.exact(),
            t == sent_rows(rows@),
            wire_rows(t, schema@, i as nat, *fl) == Ok::<Seq<Seq<Cell>>, Seq<char>>(
                cell_rows(out@),
            ),
        decreases rows.len() - i,
    {
        let row = &rows[i];
        assert(t[i as int] == all_sent(row@));
        proof {
            if wire_rows(t, schema@, (i + 1) as nat, *fl) is Err {
                lemma_rows_err(t, schema@, (i + 1) as nat, t.len(), *fl);
            }
        }
        if row.len() != schema.len() {
            return Err(width_error(i, row.len(), schema.len()));
        }
        match read_row(row, schema, i, fl) {
            Ok(v) => {
                let ghost before = cell_rows(out@);
                out.push(v);
                assert(cell_rows(out@) =~= before.push(cells(v@)));
            },
            Err(e) => {
                return Err(e);
            },
        }
        i += 1;
    }
    Ok(out)
}

/// What the insertion of rows of a message does, and how many rows there were.
pub open spec fn wire_inserted<F: Floats>(
    st: State,
    table: Seq<char>,
    rows: Seq<Seq<Option<Cell>>>,
    fl: F,
) -> (Result<nat, Seq<char>>, State) {
    match schema_in(st.tables, table) {
        None => (Err(not_found(table)), st),
        Some(s) => match wire_rows(rows, s, rows.len(), fl) {
            Err(e) => (Err(e), st),
            Ok(x) => put_rows(st, table, x, fl),
        },
    }
}

/// Why a request is turned down: it names a table that is not there, or is wrong in itself.
#[derive(Debug)]
pub enum Refusal {
    NotFound(Error),
    Invalid(Error),
}

/// Inserts rows of a message into a table.
pub fn insert<F: Floats>(db: &mut Database, table: &str, rows: &Vec<Vec<Wire>>, fl: &F) -> (r:
    Result<usize, Refusal>)
    requires
        old(db).wf(),
        fl.exact(),
    ensures
        final(db).wf(),
        final(db)@ == wire_inserted(old(db)@, table@, sent_rows(rows@), *fl).1,
        match r {
            Ok(n) => wire_inserted(old(db)@, table@, sent_rows(rows@), *fl).0 == Ok::<
                nat,
                Seq<char>,
            >(n as nat),
            Err(Refusal::NotFound(e)) => schema_in(old(db)@.tables, table@) is None
                && wire_inserted(old(db)@, table@, sent_rows(rows@), *fl).0 == Err::<
                nat,
                Seq<char>,
            >(e@),
            Err(Refusal::Invalid(e)) => schema_in(old(db)@.tables, table@) is Some
                && wire_inserted(old(db)@, table@, sent_rows(rows@), *fl).0 == Err::<
                nat,
                Seq<char>,
            >(e@),
        },
{
    let schema = match db.schema_of(table) {
        Some(s) => s,
        None => {
            return Err(Refusal::NotFound(err(text3("таблица '", table, "' не найдена"))));
        },
    };
    let x = match read_rows(rows, &schema, fl) {
        Ok(x) => x,
        Err(e) => {
            return Err(Refusal::Invalid(e));
        },
    };
    match db.insert_rows(table, &x, fl) {
        Ok(n) => Ok(n),
        Err(e) => Err(Refusal::Invalid(e)),
    }
}

} // verus!
