//! What the REST interface computes: rows out of JSON, bytes as text, numbers of the health
//! page.
use crate::column::{add_sizes, capped, cell_rows, cells, Cell, Value};
use crate::db::{in_order, not_found, put_rows, schema_in, tables_bytes, Database, State};
use crate::float::Floats;
use crate::json::{json_cell, json_tree, json_trees, Json};
use crate::sql::statement::Catalog;
use crate::storage::{decoded, schemas, Change, WalRecord};
use crate::table::{Attr, Relation, Schema};
use crate::text::{dec, dec_usize, err, text3, text5, text6, Error};
use serde_json::Value as JsonValue;
use vstd::prelude::*;
use vstd::string::*;
use vstd::utf8::*;

verus! {

broadcast use vstd::string::group_string_axioms;

// --- bytes as text ---------------------------------------------------------------------------

pub open spec fn hex_digit(d: int) -> char {
    if d < 10 {
        (48 + d) as char
    } else {
        (87 + d) as char
    }
}

/// Two hexadecimal digits for each byte.
pub open spec fn hex_text(b: Seq<u8>) -> Seq<char>
    decreases b.len(),
{
    if b.len() == 0 {
        Seq::empty()
    } else {
        hex_text(b.drop_last()).push(hex_digit(b.last() as int / 16)).push(
            hex_digit(b.last() as int % 16),
        )
    }
}

/// What a digit, small or capital, stands for.
pub open spec fn hex_value(c: u8) -> Option<u8> {
    if 48 <= c <= 57 {
        Some((c - 48) as u8)
    } else if 97 <= c <= 102 {
        Some((c - 87) as u8)
    } else if 65 <= c <= 70 {
        Some((c - 55) as u8)
    } else {
        None
    }
}

/// What two characters stand for: two digits, or a plus and a digit.
pub open spec fn hex_pair(a: u8, b: u8) -> Option<u8> {
    match (hex_value(a), hex_value(b)) {
        (Some(x), Some(y)) => Some((x * 16 + y) as u8),
        (None, Some(y)) if a == 43 => Some(y),
        _ => None,
    }
}

/// The bytes of the first `n` pairs.
pub open spec fn hex_pairs(b: Seq<u8>, n: nat) -> Option<Seq<u8>>
    decreases n,
{
    if n == 0 {
        Some(Seq::empty())
    } else {
        match hex_pairs(b, (n - 1) as nat) {
            None => None,
            Some(out) => match hex_pair(b[2 * n - 2], b[2 * n - 1]) {
                None => None,
                Some(x) => Some(out.push(x)),
            },
        }
    }
}

/// The bytes that a text of hexadecimal digits stands for.
pub open spec fn unhexed(s: Seq<char>) -> Result<Seq<u8>, Seq<char>> {
    let b = encode_utf8(s);
    if b.len() % 2 != 0 {
        Err("нечётная длина hex-строки"@)
    } else {
        match hex_pairs(b, b.len() / 2) {
            Some(x) => Ok(x),
            None => Err("hex: invalid digit found in string"@),
        }
    }
}

fn hex_char(d: u8) -> (r: char)
    requires
        d < 16,
    ensures
        r == hex_digit(d as int),
{
    match d {
        0 => '0',
        1 => '1',
        2 => '2',
        3 => '3',
        4 => '4',
        5 => '5',
        6 => '6',
        7 => '7',
        8 => '8',
        9 => '9',
        10 => 'a',
        11 => 'b',
        12 => 'c',
        13 => 'd',
        14 => 'e',
        _ => 'f',
    }
}

/// Two hexadecimal digits for each byte.
pub fn hex(b: &[u8]) -> (r: String)
    ensures
        r@ == hex_text(b@),
{
    let mut out = String::new();
    let mut i: usize = 0;
    assert(out@ =~= Seq::<char>::empty());
    assert(b@.take(0) =~= Seq::<u8>::empty());
    while i < b.len()
        invariant
            i <= b.len(),
            out@ == hex_text(b@.take(i as int)),
        decreases b.len() - i,
    {
        assert(b@.take(i + 1).drop_last() =~= b@.take(i as int));
        out.push(hex_char(b[i] / 16));
        out.push(hex_char(b[i] % 16));
        i += 1;
    }
    assert(b@.take(i as int) =~= b@);
    out
}

fn value_of_hex(c: u8) -> (r: Option<u8>)
    ensures
        r == hex_value(c),
        r matches Some(x) ==> x < 16,
{
    if 48 <= c && c <= 57 {
        Some(c - 48)
    } else if 97 <= c && c <= 102 {
        Some(c - 87)
    } else if 65 <= c && c <= 70 {
        Some(c - 55)
    } else {
        None
    }
}

proof fn lemma_pairs_none(b: Seq<u8>, k: nat, n: nat)
    requires
        k <= n,
        hex_pairs(b, k) is None,
    ensures
        hex_pairs(b, n) is None,
    decreases n - k,
{
    if k < n {
        lemma_pairs_none(b, k, (n - 1) as nat);
    }
}

/// The bytes that a text of hexadecimal digits stands for.
pub fn unhex(s: &str) -> (r: Result<Vec<u8>, Error>)
    ensures
        match r {
            Ok(b) => unhexed(s@) == Ok::<Seq<u8>, Seq<char>>(b@),
            Err(e) => unhexed(s@) == Err::<Seq<u8>, Seq<char>>(e@),
        },
{
    let b = s.as_bytes();
    if b.len() % 2 != 0 {
        return Err(err("нечётная длина hex-строки".to_owned()));
    }
    let n: usize = b.len() / 2;
    let mut out: Vec<u8> = Vec::new();
    let mut i: usize = 0;
    while i < n
        invariant
            i <= n,
            b@ == encode_utf8(s@),
            b@.len() == 2 * n,
            hex_pairs(b@, i as nat) == Some(out@),
        decreases n - i,
    {
        let x = value_of_hex(b[2 * i]);
        let y = value_of_hex(b[2 * i + 1]);
        let v = match (x, y) {
            (Some(x), Some(y)) => x * 16 + y,
            (None, Some(y)) if b[2 * i] == 43 => y,
            _ => {
                proof {
                    lemma_pairs_none(b@, (i + 1) as nat, n as nat);
                }
                return Err(err("hex: invalid digit found in string".to_owned()));
            },
        };
        out.push(v);
        i += 1;
    }
    Ok(out)
}

proof fn lemma_hex_text(b: Seq<u8>)
    ensures
        hex_text(b).len() == 2 * b.len(),
        is_ascii_chars(hex_text(b)),
        forall|i: int|
            0 <= i < b.len() ==> #[trigger] hex_text(b)[2 * i] == hex_digit(b[i] as int / 16),
        forall|i: int|
            0 <= i < b.len() ==> #[trigger] hex_text(b)[2 * i + 1] == hex_digit(b[i] as int % 16),
    decreases b.len(),
{
    if b.len() > 0 {
        let a = b.drop_last();
        lemma_hex_text(a);
        assert forall|i: int| 0 <= i < b.len() implies #[trigger] hex_text(b)[2 * i] == hex_digit(
            b[i] as int / 16,
        ) by {
            if i < a.len() {
                assert(hex_text(a)[2 * i] == hex_digit(a[i] as int / 16));
            }
        }
        assert forall|i: int| 0 <= i < b.len() implies #[trigger] hex_text(b)[2 * i + 1]
            == hex_digit(b[i] as int % 16) by {
            if i < a.len() {
                assert(hex_text(a)[2 * i + 1] == hex_digit(a[i] as int % 16));
            }
        }
    }
}

proof fn lemma_hex_pairs(b: Seq<u8>, n: nat)
    requires
        n <= b.len(),
    ensures
        hex_pairs(encode_utf8(hex_text(b)), n) == Some(b.take(n as int)),
    decreases n,
{
    lemma_hex_text(b);
    let t = hex_text(b);
    is_ascii_chars_encode_utf8(t);
    if n == 0 {
        assert(b.take(0) =~= Seq::<u8>::empty());
    } else {
        lemma_hex_pairs(b, (n - 1) as nat);
        let e = encode_utf8(t);
        let i = n - 1;
        assert(t[2 * i] == hex_digit(b[i] as int / 16));
        assert(t[2 * i + 1] == hex_digit(b[i] as int % 16));
        assert(e[2 * i] == t[2 * i] as u8);
        assert(e[2 * i + 1] == t[2 * i + 1] as u8);
        let x = b[i] as int / 16;
        let y = b[i] as int % 16;
        assert(b[i] as int == x * 16 + y);
        assert(hex_value(e[2 * i]) == Some(x as u8));
        assert(hex_value(e[2 * i + 1]) == Some(y as u8));
        assert(b.take(n as int) =~= b.take(n - 1).push(b[i]));
    }
}

/// Bytes that were written as text are read back.
pub proof fn lemma_hex_back(b: Seq<u8>)
    ensures
        unhexed(hex_text(b)) == Ok::<Seq<u8>, Seq<char>>(b),
{
    lemma_hex_text(b);
    is_ascii_chars_encode_utf8(hex_text(b));
    lemma_hex_pairs(b, b.len());
    assert(b.take(b.len() as int) =~= b);
}

/// The record in some bytes, under the schemas of a database.
pub fn decode_record(payload: &[u8], db: &Database) -> (r: Result<WalRecord, Error>)
    ensures
        match r {
            Ok(x) => decoded(payload@, schemas(*db)) == Ok::<Change, Seq<char>>(x@),
            Err(e) => decoded(payload@, schemas(*db)) == Err::<Change, Seq<char>>(e@),
        },
{
    WalRecord::decode(payload, db)
}

/// What a replica asks for: the records with a number above `after`.
#[derive(Debug, Clone, Copy)]
pub struct WalQuery {
    pub after: u64,
}

impl Default for WalQuery {
    fn default() -> (r: WalQuery)
        ensures
            r.after == 0,
    {
        WalQuery { after: 0 }
    }
}

// --- rows ----------------------------------------------------------------------------------------

pub open spec fn wrong_width(i: int, got: nat, want: nat) -> Seq<char> {
    "строка "@ + dec(i) + ": "@ + dec(got as int) + " значений при "@ + dec(want as int)
        + " колонках"@
}

pub open spec fn wrong_value(i: int, column: Seq<char>, e: Seq<char>) -> Seq<char> {
    "строка "@ + dec(i) + ", колонка '"@ + column + "': "@ + e
}

pub fn width_error(i: usize, got: usize, want: usize) -> (r: Error)
    ensures
        r@ == wrong_width(i as int, got as nat, want as nat),
{
    let head = text3("строка ", dec_usize(i).as_str(), ": ");
    err(
        text5(
            head.as_str(),
            dec_usize(got).as_str(),
            " значений при ",
            dec_usize(want).as_str(),
            " колонках",
        ),
    )
}

pub fn value_error(i: usize, column: &str, e: Error) -> (r: Error)
    ensures
        r@ == wrong_value(i as int, column@, e@),
{
    err(
        text6(
            "строка ",
            dec_usize(i).as_str(),
            ", колонка '",
            column,
            "': ",
            e.message().as_str(),
        ),
    )
}

/// The first `n` values of the `i`-th row, each for its column.
pub open spec fn json_row<F: Floats>(row: Seq<Json>, s: Seq<Attr>, i: int, n: nat, fl: F) -> Result<
    Seq<Cell>,
    Seq<char>,
>
    decreases n,
{
    if n == 0 || n > row.len() {
        Ok(Seq::empty())
    } else {
        match json_row(row, s, i, (n - 1) as nat, fl) {
            Err(e) => Err(e),
            Ok(out) => match json_cell(row[n - 1], s[n - 1].ty, fl) {
                Err(e) => Err(wrong_value(i, s[n - 1].name, e)),
                Ok(c) => Ok(out.push(c)),
            },
        }
    }
}

/// The first `n` rows.
pub open spec fn json_rows<F: Floats>(rows: Seq<Seq<Json>>, s: Seq<Attr>, n: nat, fl: F) -> Result<
    Seq<Seq<Cell>>,
    Seq<char>,
>
    decreases n,
{
    if n == 0 || n > rows.len() {
        Ok(Seq::empty())
    } else {
        match json_rows(rows, s, (n - 1) as nat, fl) {
            Err(e) => Err(e),
            Ok(out) => {
                let row = rows[n - 1];
                if row.len() != s.len() {
                    Err(wrong_width(n - 1, row.len(), s.len()))
                } else {
                    match json_row(row, s, n - 1, row.len(), fl) {
                        Err(e) => Err(e),
                        Ok(x) => Ok(out.push(x)),
                    }
                }
            },
        }
    }
}

pub open spec fn json_table(v: Seq<Vec<JsonValue>>) -> Seq<Seq<Json>> {
    Seq::new(v.len(), |i: int| json_trees(v[i]@))
}

proof fn lemma_row_err<F: Floats>(row: Seq<Json>, s: Seq<Attr>, i: int, k: nat, n: nat, fl: F)
    requires
        k <= n <= row.len(),
        json_row(row, s, i, k, fl) is Err,
    ensures
        json_row(row, s, i, n, fl) == json_row(row, s, i, k, fl),
    decreases n - k,
{
    if k < n {
        lemma_row_err(row, s, i, k, (n - 1) as nat, fl);
    }
}

proof fn lemma_rows_err<F: Floats>(rows: Seq<Seq<Json>>, s: Seq<Attr>, k: nat, n: nat, fl: F)
    requires
        k <= n <= rows.len(),
        json_rows(rows, s, k, fl) is Err,
    ensures
        json_rows(rows, s, n, fl) == json_rows(rows, s, k, fl),
    decreases n - k,
{
    if k < n {
        lemma_rows_err(rows, s, k, (n - 1) as nat, fl);
    }
}

fn read_row<F: Floats>(row: &Vec<JsonValue>, schema: &Schema, i: usize, fl: &F) -> (r: Result<
    Vec<Value>,
    Error,
>)
    requires
        fl.exact(),
        row@.len() == schema@.len(),
    ensures
        match r {
            Ok(x) => json_row(json_trees(row@), schema@, i as int, row@.len(), *fl) == Ok::<
                Seq<Cell>,
                Seq<char>,
            >(cells(x@)),
            Err(e) => json_row(json_trees(row@), schema@, i as int, row@.len(), *fl) == Err::<
                Seq<Cell>,
                Seq<char>,
            >(e@),
        },
{
    let ghost t = json_trees(row@);
    let mut out: Vec<Value> = Vec::new();
    let mut k: usize = 0;
    assert(cells(out@) =~= Seq::<Cell>::empty());
    while k < row.len()
        invariant
            k <= row.len(),
            fl.exact(),
            row@.len() == schema@.len(),
            t == json_trees(row@),
            json_row(t, schema@, i as int, k as nat, *fl) == Ok::<Seq<Cell>, Seq<char>>(
                cells(out@),
            ),
        decreases row.len() - k,
    {
        assert(t[k as int] == json_tree(row@[k as int]));
        let f = &schema.fields[k];
        match Value::from_json(&row[k], f.ty, fl) {
            Ok(v) => {
                let ghost before = cells(out@);
                out.push(v);
                assert(cells(out@) =~= before.push(v@));
            },
            Err(e) => {
                proof {
                    lemma_row_err(t, schema@, i as int, (k + 1) as nat, t.len(), *fl);
                }
                return Err(value_error(i, f.name.as_str(), e));
            },
        }
        k += 1;
    }
    Ok(out)
}

/// Rows of JSON as rows of a table of a schema.
pub fn read_rows<F: Floats>(rows: &Vec<Vec<JsonValue>>, schema: &Schema, fl: &F) -> (r: Result<
    Vec<Vec<Value>>,
    Error,
>)
    requires
        fl.exact(),
    ensures
        match r {
            Ok(x) => json_rows(json_table(rows@), schema@, rows@.len(), *fl) == Ok::<
                Seq<Seq<Cell>>,
                Seq<char>,
            >(cell_rows(x@)),
            Err(e) => json_rows(json_table(rows@), schema@, rows@.len(), *fl) == Err::<
                Seq<Seq<Cell>>,
                Seq<char>,
            >(e@),
        },
{
    let ghost t = json_table(rows@);
    let mut out: Vec<Vec<Value>> = Vec::new();
    let mut i: usize = 0;
    assert(cell_rows(out@) =~= Seq::<Seq<Cell>>::empty());
    while i < rows.len()
        invariant
            i <= rows.len(),
            fl.exact(),
            t == json_table(rows@),
            json_rows(t, schema@, i as nat, *fl) == Ok::<Seq<Seq<Cell>>, Seq<char>>(
                cell_rows(out@),
            ),
        decreases rows.len() - i,
    {
        let row = &rows[i];
        assert(t[i as int] == json_trees(row@));
        proof {
            if json_rows(t, schema@, (i + 1) as nat, *fl) is Err {
                lemma_rows_err(t, schema@, (i + 1) as nat, t.len(), *fl);
            }
        }
        if row.len() != schema.len() {
            return Err(width_error(i, row.len(), schema.len()));
        }
        match read_row(row, schema, i, fl) {
            Ok(v) => {
                let ghost before = cell_rows(out@);
                out.push(v);
                assert(cell_rows(out@) =~= before.push(cells(v@)));
            },
            Err(e) => {
                return Err(e);
            },
        }
        i += 1;
    }
    Ok(out)
}

/// What the insertion of rows of JSON does, and how many rows there were.
pub open spec fn json_inserted<F: Floats>(
    st: State,
    table: Seq<char>,
    rows: Seq<Seq<Json>>,
    fl: F,
) -> (Result<nat, Seq<char>>, State) {
    match schema_in(st.tables, table) {
        None => (Err(not_found(table)), st),
        Some(s) => match json_rows(rows, s, rows.len(), fl) {
            Err(e) => (Err(e), st),
            Ok(x) => put_rows(st, table, x, fl),
        },
    }
}

/// Inserts rows of JSON into a table.
pub fn insert<F: Floats>(db: &mut Database, table: &str, rows: &Vec<Vec<JsonValue>>, fl: &F) -> (r:
    Result<usize, Error>)
    requires
        old(db).wf(),
        fl.exact(),
    ensures
        final(db).wf(),
        final(db)@ == json_inserted(old(db)@, table@, json_table(rows@), *fl).1,
        match r {
            Ok(n) => json_inserted(old(db)@, table@, json_table(rows@), *fl).0 == Ok::<
                nat,
                Seq<char>,
            >(n as nat),
            Err(e) => json_inserted(old(db)@, table@, json_table(rows@), *fl).0 == Err::<
                nat,
                Seq<char>,
            >(e@),
        },
{
    let schema = match db.schema_of(table) {
        Some(s) => s,
        None => {
            return Err(err(text3("таблица '", table, "' не найдена")));
        },
    };
    match read_rows(rows, &schema, fl) {
        Ok(x) => db.insert_rows(table, &x, fl),
        Err(e) => Err(e),
    }
}

// --- health ----------------------------------------------------------------------------------------

/// How many rows some tables have.
pub open spec fn rows_in(v: Seq<Relation>) -> int
    decreases v.len(),
{
    if v.len() == 0 {
        0
    } else {
        rows_in(v.drop_last()) + v.last().rows
    }
}

/// What a database holds.
#[derive(Debug, Clone, Copy)]
pub struct Health {
    pub tables: usize,
    pub rows: usize,
    pub bytes_used: usize,
}

/// What a database holds: its tables, rows and bytes, as far as a `usize` can tell.
pub fn health(db: &Database) -> (r: Health)
    requires
        db.wf(),
    ensures
        r.tables == in_order(db@.tables).len(),
        r.rows == capped(rows_in(in_order(db@.tables))),
        r.bytes_used == capped(tables_bytes(in_order(db@.tables))),
{
    let v = db.ordered();
    let ghost t = crate::storage::relations_of(v@);
    let mut rows: usize = 0;
    let mut i: usize = 0;
    assert(t.take(0) =~= Seq::<Relation>::empty());
    while i < v.len()
        invariant
            i <= v.len(),
            t == crate::storage::relations_of(v@),
            rows_in(t.take(i as int)) >= 0,
            rows == capped(rows_in(t.take(i as int))),
        decreases v.len() - i,
    {
        proof {
            assert(t.take(i + 1).drop_last() =~= t.take(i as int));
            assert(t.take(i + 1).last() == v@[i as int]@);
        }
        rows = add_sizes(rows, v[i].nrows);
        i += 1;
    }
    assert(t.take(i as int) =~= t);
    Health { tables: v.len(), rows, bytes_used: db.bytes_used() }
}

} // verus!
