//! What lies on disk: a snapshot of the tables, and a log of what changed since.
//!
//! A change is made in memory, then goes to the log, and only then is it answered for. The
//! bytes are made and read here; the files are the caller's.
use crate::codec::{
    column_bytes, crc32, crc_of, lemma_column_back, lemma_crc_tells, lemma_row_back, lemma_schema_back,
    lemma_text_back, lemma_u32_back, lemma_u64_back, nameable, read_column, read_len, read_row,
    read_schema, read_text, read_u32, read_u64, read_u8, row_bytes, schema_bytes, storable_column,
    storable, storable_row, text_bytes, typed, u32_bytes, u64_bytes, Read, Reader, Writer,
};
use crate::column::{cell_rows, cell_type, cells, Cell, Cells, Column, DataType, Value};
use crate::exec::arr::contents;
use crate::float::Floats;
use crate::sql::statement::{schema_types, Catalog};
use crate::table::{
    as_stored, stored, stored_rows, table_of, Attr, Relation, Schema, Table,
};
use crate::text::{
    dec, dec_u64, dec_usize, err, in_context, text2, text3, text4, text5, text6, Error,
};
use vstd::bytes::*;
use vstd::prelude::*;
use vstd::string::*;
use vstd::utf8::*;

verus! {

broadcast use vstd::string::group_string_axioms;

pub const FORMAT_VERSION: u32 = 1;

/// How much is paid for that a change outlasts a crash.
#[derive(Debug, Clone, Copy, PartialEq, Eq, Structural)]
pub enum Durability {
    /// The log is synchronised after each record: outlasts a loss of power.
    Fsync,
    /// The log is only written: outlasts the process, not the machine.
    Buffered,
}

impl Default for Durability {
    fn default() -> (r: Durability)
        ensures
            r == Durability::Fsync,
    {
        Durability::Fsync
    }
}

/// A record that was read from a log: its number and its bytes.
pub type RawRecord = (u64, Vec<u8>);

pub open spec fn raw_records(v: Seq<RawRecord>) -> Seq<(u64, Seq<u8>)> {
    Seq::new(v.len(), |i: int| (v[i].0, v[i].1@))
}

// --- records --------------------------------------------------------------------------------

/// A change of the database.
#[derive(Debug)]
#[allow(inconsistent_fields)]
pub enum WalRecord {
    CreateTable { name: String, schema: Schema },
    DropTable { name: String },
    Insert { table: String, rows: Vec<Vec<Value>> },
}

/// What a [`WalRecord`] is.
#[verifier::ext_equal]
#[allow(inconsistent_fields)]
pub enum Change {
    CreateTable { name: Seq<char>, schema: Seq<Attr> },
    DropTable { name: Seq<char> },
    Insert { table: Seq<char>, rows: Seq<Seq<Cell>> },
}

impl View for WalRecord {
    type V = Change;

    open spec fn view(&self) -> Change {
        match *self {
            WalRecord::CreateTable { name, schema } => Change::CreateTable {
                name: name@,
                schema: schema@,
            },
            WalRecord::DropTable { name } => Change::DropTable { name: name@ },
            WalRecord::Insert { table, rows } => Change::Insert {
                table: table@,
                rows: cell_rows(rows@),
            },
        }
    }
}

pub open spec fn rows_bytes(rows: Seq<Seq<Cell>>) -> Seq<u8>
    decreases rows.len(),
{
    if rows.len() == 0 {
        Seq::empty()
    } else {
        rows_bytes(rows.drop_last()) + row_bytes(rows.last())
    }
}

/// The bytes of a record: its code, its table, and what it is about.
pub open spec fn change_bytes(c: Change) -> Seq<u8> {
    match c {
        Change::CreateTable { name, schema } => seq![1u8] + text_bytes(name) + schema_bytes(schema),
        Change::DropTable { name } => seq![2u8] + text_bytes(name),
        Change::Insert { table, rows } => seq![3u8] + text_bytes(table) + u64_bytes(
            rows.len() as u64,
        ) + rows_bytes(rows),
    }
}

/// Why rows from the `i`-th on are no rows of a table with so many columns.
pub open spec fn width_error(rows: Seq<Seq<Cell>>, width: nat, i: nat) -> Option<Seq<char>>
    decreases rows.len() - i,
{
    if i >= rows.len() {
        None
    } else if rows[i as int].len() != width {
        Some(
            "строка из "@ + dec(rows[i as int].len() as int) + " значений при "@ + dec(
                width as int,
            ) + " колонках"@,
        )
    } else {
        width_error(rows, width, i + 1)
    }
}

fn wide(got: usize, width: usize) -> (r: Error)
    ensures
        r@ == "строка из "@ + dec(got as int) + " значений при "@ + dec(width as int)
            + " колонках"@,
{
    err(
        text5(
            "строка из ",
            dec_usize(got).as_str(),
            " значений при ",
            dec_usize(width).as_str(),
            " колонках",
        ),
    )
}

/// The schemas that a catalog knows.
pub open spec fn schemas<C: Catalog>(cat: C) -> spec_fn(Seq<char>) -> Option<Seq<Attr>> {
    |table: Seq<char>| cat.schema(table)
}

/// The bytes of a record, where it can be written.
pub open spec fn encoded(c: Change, known: spec_fn(Seq<char>) -> Option<Seq<Attr>>) -> Result<Seq<u8>, Seq<char>> {
    match c {
        Change::Insert { table, rows } => match known(table) {
            None => Err("схема таблицы '"@ + table + "' для WAL"@),
            Some(s) => match width_error(rows, s.len(), 0) {
                Some(e) => Err(e),
                None => Ok(change_bytes(c)),
            },
        },
        _ => Ok(change_bytes(c)),
    }
}

/// The first `n` rows of the given types.
pub open spec fn read_rows(b: Seq<u8>, types: Seq<DataType>, n: nat) -> Read<Seq<Seq<Cell>>>
    decreases n,
{
    if n == 0 {
        (Ok(Seq::empty()), b)
    } else {
        let (r, rest) = read_rows(b, types, (n - 1) as nat);
        match r {
            Err(e) => (Err(e), rest),
            Ok(out) => {
                let (row, rest) = read_row(rest, types, types.len());
                match row {
                    Err(e) => (Err(e), rest),
                    Ok(x) => (Ok(out.push(x)), rest),
                }
            },
        }
    }
}

proof fn lemma_rows_err(b: Seq<u8>, types: Seq<DataType>, k: nat, n: nat)
    requires
        k <= n,
        read_rows(b, types, k).0 is Err,
    ensures
        read_rows(b, types, n) == read_rows(b, types, k),
    decreases n - k,
{
    if k < n {
        lemma_rows_err(b, types, k, (n - 1) as nat);
    }
}

proof fn lemma_row_err(b: Seq<u8>, types: Seq<DataType>, k: nat, n: nat)
    requires
        k <= n,
        read_row(b, types, k).0 is Err,
    ensures
        read_row(b, types, n) == read_row(b, types, k),
    decreases n - k,
{
    if k < n {
        lemma_row_err(b, types, k, (n - 1) as nat);
    }
}

/// The record that some bytes begin with.
pub open spec fn decoded(b: Seq<u8>, known: spec_fn(Seq<char>) -> Option<Seq<Attr>>) -> Result<Change, Seq<char>> {
    let (code, rest) = read_u8(b);
    match code {
        Err(e) => Err(e),
        Ok(code) => if code == 1 {
            let (name, rest) = read_text(rest);
            match name {
                Err(e) => Err(e),
                Ok(name) => match read_schema(rest).0 {
                    Err(e) => Err(e),
                    Ok(schema) => Ok(Change::CreateTable { name, schema }),
                },
            }
        } else if code == 2 {
            match read_text(rest).0 {
                Err(e) => Err(e),
                Ok(name) => Ok(Change::DropTable { name }),
            }
        } else if code == 3 {
            let (table, rest) = read_text(rest);
            match table {
                Err(e) => Err(e),
                Ok(table) => match known(table) {
                    None => Err("WAL ссылается на неизвестную таблицу '"@ + table + "'"@),
                    Some(s) => {
                        let (n, rest) = read_len(rest);
                        match n {
                            Err(e) => Err(e),
                            Ok(n) => match read_rows(rest, schema_types(s), n as nat).0 {
                                Err(e) => Err(e),
                                Ok(rows) => Ok(Change::Insert { table, rows }),
                            },
                        }
                    },
                },
            }
        } else {
            Err("неизвестный код записи WAL: "@ + dec(code as int))
        },
    }
}

/// A change with its rows as the table stores them.
pub open spec fn stored_change<F: Floats>(
    c: Change,
    known: spec_fn(Seq<char>) -> Option<Seq<Attr>>,
    fl: F,
) -> Change {
    match c {
        Change::Insert { table, rows } => match known(table) {
            Some(s) => Change::Insert { table, rows: stored_rows(rows, s, fl) },
            None => c,
        },
        _ => c,
    }
}

proof fn lemma_stored_width<F: Floats>(rows: Seq<Seq<Cell>>, s: Seq<Attr>, i: nat, fl: F)
    ensures
        width_error(stored_rows(rows, s, fl), s.len(), i) == width_error(rows, s.len(), i),
    decreases rows.len() - i,
{
    if i < rows.len() {
        lemma_stored_width(rows, s, i + 1, fl);
    }
}

impl WalRecord {
    /// The bytes of a record, its rows as the table stores them: an integer for a column of
    /// doubles is written as a double.
    pub fn encode<C: Catalog, F: Floats>(&self, cat: &C, fl: &F) -> (r: Result<Vec<u8>, Error>)
        requires
            fl.exact(),
        ensures
            match r {
                Ok(b) => encoded(stored_change(self@, schemas(*cat), *fl), schemas(*cat)) == Ok::<
                    Seq<u8>,
                    Seq<char>,
                >(b@),
                Err(e) => encoded(stored_change(self@, schemas(*cat), *fl), schemas(*cat)) == Err::<
                    Seq<u8>,
                    Seq<char>,
                >(e@),
            },
    {
        if let WalRecord::Insert { table, rows } = self {
            if let Some(s) = cat.schema_of(table.as_str()) {
                let ghost t = cell_rows(rows@);
                let width: usize = s.len();
                let mut i: usize = 0;
                while i < rows.len()
                    invariant
                        i <= rows.len(),
                        t == cell_rows(rows@),
                        width == s@.len(),
                        cat.schema(table@) == Some(s@),
                        self@ == (Change::Insert { table: table@, rows: t }),
                        width_error(t, width as nat, i as nat) == width_error(t, width as nat, 0),
                        forall|k: int| 0 <= k < i ==> (#[trigger] rows@[k])@.len() == width,
                    decreases rows.len() - i,
                {
                    assert(t[i as int] == cells(rows@[i as int]@));
                    if rows[i].len() != width {
                        proof {
                            lemma_stored_width(t, s@, 0, *fl);
                        }
                        return Err(wide(rows[i].len(), width));
                    }
                    i += 1;
                }
                let rows = as_stored(rows, &s, fl);
                let rec = WalRecord::Insert { table: table.clone(), rows };
                return rec.encode_stored(cat);
            }
        }
        self.encode_stored(cat)
    }

    /// The bytes of a record whose rows are as the table stores them.
    pub(crate) fn encode_stored<C: Catalog>(&self, cat: &C) -> (r: Result<Vec<u8>, Error>)
        ensures
            match r {
                Ok(b) => encoded(self@, schemas(*cat)) == Ok::<Seq<u8>, Seq<char>>(b@),
                Err(e) => encoded(self@, schemas(*cat)) == Err::<Seq<u8>, Seq<char>>(e@),
            },
    {
        let mut w = Writer::new();
        match self {
            WalRecord::CreateTable { name, schema } => {
                w.u8(1);
                w.str(name.as_str());
                w.schema(schema);
                assert(w.buf@ =~= change_bytes(self@));
            },
            WalRecord::DropTable { name } => {
                w.u8(2);
                w.str(name.as_str());
                assert(w.buf@ =~= change_bytes(self@));
            },
            WalRecord::Insert { table, rows } => {
                let schema = match cat.schema_of(table.as_str()) {
                    Some(s) => s,
                    None => {
                        return Err(
                            err(text3("схема таблицы '", table.as_str(), "' для WAL")),
                        );
                    },
                };
                w.u8(3);
                w.str(table.as_str());
                w.u64(rows.len() as u64);
                let ghost t = cell_rows(rows@);
                let ghost head = w.buf@;
                let width: usize = schema.len();
                let mut i: usize = 0;
                assert(t.take(0) =~= Seq::<Seq<Cell>>::empty());
                while i < rows.len()
                    invariant
                        i <= rows.len(),
                        t == cell_rows(rows@),
                        width_error(t, width as nat, i as nat) == width_error(t, width as nat, 0),
                        w.buf@ == head + rows_bytes(t.take(i as int)),
                        width == schema@.len(),
                        cat.schema(table@) == Some(schema@),
                        self@ == (Change::Insert { table: table@, rows: t }),
                    decreases rows.len() - i,
                {
                    let row = &rows[i];
                    assert(t[i as int] == cells(row@));
                    if row.len() != width {
                        return Err(wide(row.len(), width));
                    }
                    put_row(&mut w, row);
                    assert(t.take(i + 1).drop_last() =~= t.take(i as int));
                    i += 1;
                    assert(w.buf@ =~= head + rows_bytes(t.take(i as int)));
                }
                assert(t.take(i as int) =~= t);
                assert(head =~= seq![3u8] + text_bytes(table@) + u64_bytes(t.len() as u64));
            },
        }
        Ok(w.buf)
    }

    pub fn decode<C: Catalog>(payload: &[u8], cat: &C) -> (r: Result<WalRecord, Error>)
        ensures
            match r {
                Ok(x) => decoded(payload@, schemas(*cat)) == Ok::<Change, Seq<char>>(x@),
                Err(e) => decoded(payload@, schemas(*cat)) == Err::<Change, Seq<char>>(e@),
            },
    {
        let mut r = Reader::new(payload);
        let code: u8 = match r.u8() {
            Ok(c) => c,
            Err(e) => {
                return Err(e);
            },
        };
        if code == 1 {
            let name = match r.str() {
                Ok(s) => s,
                Err(e) => {
                    return Err(e);
                },
            };
            match r.schema() {
                Ok(schema) => Ok(WalRecord::CreateTable { name, schema }),
                Err(e) => Err(e),
            }
        } else if code == 2 {
            match r.str() {
                Ok(name) => Ok(WalRecord::DropTable { name }),
                Err(e) => Err(e),
            }
        } else if code == 3 {
            let table = match r.str() {
                Ok(s) => s,
                Err(e) => {
                    return Err(e);
                },
            };
            let schema = match cat.schema_of(table.as_str()) {
                Some(s) => s,
                None => {
                    return Err(
                        err(
                            text3("WAL ссылается на неизвестную таблицу '", table.as_str(), "'"),
                        ),
                    );
                },
            };
            let n: usize = match r.count() {
                Ok(n) => n,
                Err(e) => {
                    return Err(e);
                },
            };
            match take_rows(&mut r, &schema, n) {
                Ok(rows) => Ok(WalRecord::Insert { table, rows }),
                Err(e) => Err(e),
            }
        } else {
            Err(err(text2("неизвестный код записи WAL: ", dec_u64(code as u64).as_str())))
        }
    }
}

fn put_row(w: &mut Writer, row: &Vec<Value>)
    ensures
        final(w).buf@ == old(w).buf@ + row_bytes(cells(row@)),
{
    let ghost t = cells(row@);
    let ghost head = w.buf@;
    let mut i: usize = 0;
    assert(t.take(0) =~= Seq::<Cell>::empty());
    assert(head + row_bytes(t.take(0)) =~= head);
    while i < row.len()
        invariant
            i <= row.len(),
            t == cells(row@),
            w.buf@ == head + row_bytes(t.take(i as int)),
        decreases row.len() - i,
    {
        assert(t[i as int] == row@[i as int]@);
        w.value(&row[i]);
        assert(t.take(i + 1).drop_last() =~= t.take(i as int));
        i += 1;
        assert(w.buf@ =~= head + row_bytes(t.take(i as int)));
    }
    assert(t.take(i as int) =~= t);
}

fn take_row(r: &mut Reader, schema: &Schema) -> (x: Result<Vec<Value>, Error>)
    requires
        old(r).wf(),
    ensures
        final(r).wf(),
        final(r).rest() == read_row(old(r).rest(), schema_types(schema@), schema@.len()).1,
        match x {
            Ok(row) => read_row(old(r).rest(), schema_types(schema@), schema@.len()).0 == Ok::<
                Seq<Cell>,
                Seq<char>,
            >(cells(row@)),
            Err(e) => read_row(old(r).rest(), schema_types(schema@), schema@.len()).0 == Err::<
                Seq<Cell>,
                Seq<char>,
            >(e@),
        },
{
    let ghost b = r.rest();
    let ghost types = schema_types(schema@);
    let mut out: Vec<Value> = Vec::new();
    let mut i: usize = 0;
    assert(cells(out@) =~= Seq::<Cell>::empty());
    while i < schema.fields.len()
        invariant
            r.wf(),
            b == old(r).rest(),
            i <= schema.fields.len(),
            types == schema_types(schema@),
            read_row(b, types, i as nat) == (Ok::<Seq<Cell>, Seq<char>>(cells(out@)), r.rest()),
        decreases schema.fields.len() - i,
    {
        assert(types[i as int] == schema.fields@[i as int].ty);
        let ghost before = cells(out@);
        match r.value(schema.fields[i].ty) {
            Ok(v) => {
                out.push(v);
                assert(cells(out@) =~= before.push(v@));
            },
            Err(e) => {
                proof {
                    lemma_row_err(b, types, (i + 1) as nat, types.len());
                }
                return Err(e);
            },
        }
        i += 1;
    }
    Ok(out)
}

fn take_rows(r: &mut Reader, schema: &Schema, n: usize) -> (x: Result<Vec<Vec<Value>>, Error>)
    requires
        old(r).wf(),
    ensures
        final(r).wf(),
        match x {
            Ok(rows) => read_rows(old(r).rest(), schema_types(schema@), n as nat).0 == Ok::<
                Seq<Seq<Cell>>,
                Seq<char>,
            >(cell_rows(rows@)),
            Err(e) => read_rows(old(r).rest(), schema_types(schema@), n as nat).0 == Err::<
                Seq<Seq<Cell>>,
                Seq<char>,
            >(e@),
        },
{
    let ghost b = r.rest();
    let ghost types = schema_types(schema@);
    let mut out: Vec<Vec<Value>> = Vec::new();
    let mut i: usize = 0;
    assert(cell_rows(out@) =~= Seq::<Seq<Cell>>::empty());
    while i < n
        invariant
            r.wf(),
            b == old(r).rest(),
            i <= n,
            types == schema_types(schema@),
            read_rows(b, types, i as nat) == (
                Ok::<Seq<Seq<Cell>>, Seq<char>>(cell_rows(out@)),
                r.rest(),
            ),
        decreases n - i,
    {
        let ghost before = cell_rows(out@);
        match take_row(r, schema) {
            Ok(row) => {
                out.push(row);
                assert(cell_rows(out@) =~= before.push(cells(row@)));
            },
            Err(e) => {
                proof {
                    lemma_rows_err(b, types, (i + 1) as nat, n as nat);
                }
                return Err(e);
            },
        }
        i += 1;
    }
    Ok(out)
}

// --- the log ----------------------------------------------------------------------------------

/// What a log begins with.
pub open spec fn wal_magic() -> Seq<u8> {
    seq![0x56u8, 0x45, 0x4c, 0x44, 0x42, 0x57, 0x41, 0x4c]
}

/// The header of a log: the letters `VELDBWAL` and the version.
pub open spec fn wal_header() -> Seq<u8> {
    wal_magic() + u32_bytes(FORMAT_VERSION)
}

/// The part of a frame that the checksum covers.
pub open spec fn frame_body(lsn: u64, payload: Seq<u8>) -> Seq<u8> {
    u64_bytes(lsn) + payload
}

/// A frame: the length of the record, the checksum, the number of the record, the record.
pub open spec fn frame_bytes(lsn: u64, payload: Seq<u8>) -> Seq<u8> {
    u32_bytes(payload.len() as u32) + u32_bytes(crc_of(frame_body(lsn, payload))) + frame_body(
        lsn,
        payload,
    )
}

/// The length of the record in the frame that some bytes begin with.
pub open spec fn frame_len(b: Seq<u8>) -> u32 {
    spec_u32_from_le_bytes(b.subrange(0, 4))
}

/// Whether some bytes begin with a whole frame whose checksum is right.
pub open spec fn frame_ok(b: Seq<u8>) -> bool {
    &&& b.len() >= 16
    &&& b.len() >= 16 + frame_len(b)
    &&& crc_of(b.subrange(8, 16 + frame_len(b))) == spec_u32_from_le_bytes(b.subrange(4, 8))
}

/// The record in the frame that some bytes begin with.
pub open spec fn frame_record(b: Seq<u8>) -> (u64, Seq<u8>) {
    (spec_u64_from_le_bytes(b.subrange(8, 16)), b.subrange(16, 16 + frame_len(b)))
}

/// The records of a log, up to the first frame that is cut short or damaged.
pub open spec fn frames(b: Seq<u8>) -> Seq<(u64, Seq<u8>)>
    decreases b.len(),
{
    if frame_ok(b) {
        seq![frame_record(b)] + frames(b.skip(16 + frame_len(b)))
    } else {
        Seq::empty()
    }
}

/// How many bytes those records take.
pub open spec fn frames_size(b: Seq<u8>) -> nat
    decreases b.len(),
{
    if frame_ok(b) {
        16 + frame_len(b) as nat + frames_size(b.skip(16 + frame_len(b)))
    } else {
        0
    }
}

/// The number after that of the last record; 1 where there is none.
pub open spec fn next_number(v: Seq<(u64, Seq<u8>)>) -> u64 {
    if v.len() == 0 {
        1
    } else {
        succ(v.last().0)
    }
}

/// The next number; the greatest has none after it.
pub open spec fn succ(n: u64) -> u64 {
    if n < u64::MAX {
        (n + 1) as u64
    } else {
        n
    }
}

/// Why the bytes of a file are no log, if they are none.
pub open spec fn wal_error(path: Seq<char>, raw: Seq<u8>) -> Option<Seq<char>> {
    if raw.len() == 0 {
        None
    } else if raw.len() < 12 || raw.take(8) != wal_magic() {
        Some(path + " не похож на WAL veldb"@)
    } else if spec_u32_from_le_bytes(raw.subrange(8, 12)) != FORMAT_VERSION {
        Some(
            "версия WAL "@ + dec(spec_u32_from_le_bytes(raw.subrange(8, 12)) as int)
                + ", поддерживается "@ + dec(FORMAT_VERSION as int),
        )
    } else {
        None
    }
}

/// The records in the bytes of a file.
pub open spec fn wal_records(raw: Seq<u8>) -> Seq<(u64, Seq<u8>)> {
    if raw.len() == 0 {
        Seq::empty()
    } else {
        frames(raw.skip(12))
    }
}

/// How much of the file is kept: what follows the last good record is cut off.
pub open spec fn wal_kept(raw: Seq<u8>) -> nat {
    if raw.len() == 0 {
        0
    } else {
        12 + frames_size(raw.skip(12))
    }
}

/// The records with a number above `after`.
pub open spec fn later(v: Seq<(u64, Seq<u8>)>, after: u64) -> Seq<(u64, Seq<u8>)>
    decreases v.len(),
{
    if v.len() == 0 {
        Seq::empty()
    } else if v.last().0 > after {
        later(v.drop_last(), after).push(v.last())
    } else {
        later(v.drop_last(), after)
    }
}

/// The frames of some records.
pub open spec fn log_bytes(v: Seq<(u64, Seq<u8>)>) -> Seq<u8>
    decreases v.len(),
{
    if v.len() == 0 {
        Seq::empty()
    } else {
        log_bytes(v.drop_last()) + frame_bytes(v.last().0, v.last().1)
    }
}

/// The letters that a log begins with.
fn wal_letters() -> (r: Vec<u8>)
    ensures
        r@ == wal_magic(),
{
    let r: Vec<u8> = vec![0x56u8, 0x45, 0x4c, 0x44, 0x42, 0x57, 0x41, 0x4c];
    assert(r@ =~= wal_magic());
    r
}

fn header_of_wal() -> (r: Vec<u8>)
    ensures
        r@ == wal_header(),
{
    let mut w = Writer { buf: wal_letters() };
    w.u32(FORMAT_VERSION);
    w.buf
}

fn same_bytes(a: &[u8], b: &[u8]) -> (r: bool)
    ensures
        r == (a@ == b@),
{
    if a.len() != b.len() {
        return false;
    }
    let mut i: usize = 0;
    while i < a.len()
        invariant
            i <= a.len(),
            a.len() == b.len(),
            forall|k: int| 0 <= k < i ==> a@[k] == b@[k],
        decreases a.len() - i,
    {
        if a[i] != b[i] {
            assert(a@[i as int] != b@[i as int]);
            return false;
        }
        i += 1;
    }
    assert(a@ =~= b@);
    true
}

fn u32_at(b: &[u8], pos: usize) -> (r: u32)
    requires
        pos + 4 <= b@.len(),
    ensures
        r == spec_u32_from_le_bytes(b@.subrange(pos as int, pos + 4)),
{
    let n: usize = b.len();
    assert(pos + 4 <= n);
    u32_from_le_bytes(vstd::slice::slice_subrange(b, pos, pos + 4))
}

fn u64_at(b: &[u8], pos: usize) -> (r: u64)
    requires
        pos + 8 <= b@.len(),
    ensures
        r == spec_u64_from_le_bytes(b@.subrange(pos as int, pos + 8)),
{
    let n: usize = b.len();
    assert(pos + 8 <= n);
    u64_from_le_bytes(vstd::slice::slice_subrange(b, pos, pos + 8))
}

/// A copy of some bytes.
pub fn copy_bytes(b: &[u8]) -> (r: Vec<u8>)
    ensures
        r@ == b@,
{
    let mut w = Writer::new();
    w.put(b);
    assert(w.buf@ =~= b@);
    w.buf
}

/// The records of a log, and how many bytes they take.
fn read_frames(raw: &[u8], from: usize) -> (r: (Vec<RawRecord>, usize))
    requires
        from <= raw@.len(),
    ensures
        raw_records(r.0@) == frames(raw@.skip(from as int)),
        r.1 == from + frames_size(raw@.skip(from as int)),
        r.1 <= raw@.len(),
{
    let mut out: Vec<RawRecord> = Vec::new();
    let mut pos: usize = from;
    let ghost all = frames(raw@.skip(from as int));
    let ghost size = frames_size(raw@.skip(from as int));
    assert(raw_records(out@) + all =~= all);
    while raw.len() - pos >= 16
        invariant_except_break
            from <= pos <= raw@.len(),
            raw_records(out@) + frames(raw@.skip(pos as int)) == all,
            pos + frames_size(raw@.skip(pos as int)) == from + size,
        ensures
            from <= pos <= raw@.len(),
            raw_records(out@) == all,
            pos == from + size,
        decreases raw.len() - pos,
    {
        let ghost b = raw@.skip(pos as int);
        let len = u32_at(raw, pos);
        let crc = u32_at(raw, pos + 4);
        proof {
            assert(b.subrange(0, 4) =~= raw@.subrange(pos as int, pos + 4));
            assert(b.subrange(4, 8) =~= raw@.subrange(pos + 4, pos + 8));
            assert(b.subrange(8, 16) =~= raw@.subrange(pos + 8, pos + 16));
        }
        if len as u64 > (raw.len() - pos - 16) as u64 {
            assert(raw_records(out@) + frames(b) =~= raw_records(out@));
            break;
        }
        let end: usize = pos + 16 + len as usize;
        let body = vstd::slice::slice_subrange(raw, pos + 8, end);
        assert(b.subrange(8, 16 + frame_len(b)) =~= body@);
        if crc32(body) != crc {
            assert(raw_records(out@) + frames(b) =~= raw_records(out@));
            break;
        }
        let lsn = u64_at(raw, pos + 8);
        let payload = copy_bytes(vstd::slice::slice_subrange(raw, pos + 16, end));
        let ghost before = raw_records(out@);
        out.push((lsn, payload));
        proof {
            assert(payload@ =~= b.subrange(16, 16 + frame_len(b)));
            assert(raw_records(out@) =~= before.push(frame_record(b)));
            assert(b.skip(16 + frame_len(b)) =~= raw@.skip(end as int));
            assert(before + (seq![frame_record(b)] + frames(raw@.skip(end as int)))
                =~= before.push(frame_record(b)) + frames(raw@.skip(end as int)));
        }
        pos = end;
        if raw.len() - pos < 16 {
            assert(raw_records(out@) + frames(raw@.skip(pos as int)) =~= raw_records(out@));
            assert(frames_size(raw@.skip(pos as int)) == 0);
            assert(frames_size(b) == 16 + frame_len(b) as nat);
            break;
        }
    }
    (out, pos)
}

/// A log that records are appended to. What is appended stands in `tail` until the caller
/// has written it to the file.
#[derive(Debug)]
pub struct Wal {
    pub next_lsn: u64,
    pub durability: Durability,
    /// How much of the file is good: the rest is to be cut off.
    pub kept: usize,
    pub tail: Vec<u8>,
}

impl Wal {
    /// Opens a log whose file holds the bytes `raw`, and gives the records that are whole.
    /// `path` is how messages call the file.
    pub fn open(path: &str, raw: &[u8], durability: Durability) -> (r: Result<
        (Wal, Vec<RawRecord>),
        Error,
    >)
        ensures
            match r {
                Ok((w, records)) => wal_error(path@, raw@) is None && raw_records(records@)
                    == wal_records(raw@) && w.next_lsn == next_number(wal_records(raw@))
                    && w.durability == durability && w.kept == wal_kept(raw@) && w.tail@ == (
                if raw@.len() == 0 {
                    wal_header()
                } else {
                    Seq::empty()
                }),
                Err(e) => wal_error(path@, raw@) == Some(e@),
            },
    {
        if raw.len() == 0 {
            let records: Vec<RawRecord> = Vec::new();
            assert(raw_records(records@) =~= wal_records(raw@));
            return Ok((Wal { next_lsn: 1, durability, kept: 0, tail: header_of_wal() }, records));
        }
        if raw.len() < 12 {
            return Err(err(text2(path, " не похож на WAL veldb")));
        }
        let letters = wal_letters();
        let first = vstd::slice::slice_subrange(raw, 0, 8);
        assert(first@ =~= raw@.take(8));
        if !same_bytes(first, letters.as_slice()) {
            return Err(err(text2(path, " не похож на WAL veldb")));
        }
        let ver = u32_at(raw, 8);
        if ver != FORMAT_VERSION {
            return Err(
                err(
                    text4(
                        "версия WAL ",
                        dec_u64(ver as u64).as_str(),
                        ", поддерживается ",
                        dec_u64(FORMAT_VERSION as u64).as_str(),
                    ),
                ),
            );
        }
        let (records, kept) = read_frames(raw, 12);
        let ghost all = frames(raw@.skip(12));
        let next_lsn = if records.len() == 0 {
            1
        } else {
            let last = records[records.len() - 1].0;
            assert(all.last() == raw_records(records@)[records@.len() - 1]);
            if last < u64::MAX {
                last + 1
            } else {
                last
            }
        };
        assert(all.len() == records@.len());
        Ok((Wal { next_lsn, durability, kept, tail: Vec::new() }, records))
    }

    pub fn next_lsn(&self) -> (r: u64)
        ensures
            r == self.next_lsn,
    {
        self.next_lsn
    }

    /// Appends a record, which gets the next number. Refused are a record longer than a
    /// frame can say, and one for which no number is left.
    pub fn append(&mut self, payload: &[u8]) -> (r: Result<u64, Error>)
        ensures
            r matches Ok(lsn) ==> lsn == old(self).next_lsn && payload@.len() <= u32::MAX
                && final(self).next_lsn == old(self).next_lsn + 1 && final(self).tail@ == old(
                self,
            ).tail@ + frame_bytes(lsn, payload@),
            r is Err <==> payload@.len() > u32::MAX || old(self).next_lsn == u64::MAX,
            r matches Err(e) ==> *final(self) == *old(self) && e@ == too_much(payload@),
            final(self).durability == old(self).durability,
            final(self).kept == old(self).kept,
    {
        if payload.len() as u64 > u32::MAX as u64 {
            return Err(
                err(
                    text3("запись WAL из ", dec_usize(payload.len()).as_str(), " байт не пишется"),
                ),
            );
        }
        if self.next_lsn == u64::MAX {
            return Err(
                err(
                    text3("запись WAL из ", dec_usize(payload.len()).as_str(), " байт не пишется"),
                ),
            );
        }
        let lsn = self.next_lsn;
        let mut body = Writer::new();
        body.u64(lsn);
        body.put(payload);
        assert(body.buf@ =~= frame_body(lsn, payload@));
        let mut frame = Writer::new();
        frame.u32(payload.len() as u32);
        frame.u32(crc32(body.buf.as_slice()));
        frame.put(body.buf.as_slice());
        assert(frame.buf@ =~= frame_bytes(lsn, payload@));
        let ghost tail = self.tail@;
        self.tail.extend_from_slice(frame.buf.as_slice());
        assert(self.tail@ =~= tail + frame_bytes(lsn, payload@));
        self.next_lsn = lsn + 1;
        Ok(lsn)
    }

    /// What stands in `tail`, which is then empty: the caller writes it to the file.
    pub fn take_tail(&mut self) -> (r: Vec<u8>)
        ensures
            r@ == old(self).tail@,
            final(self).tail@ == Seq::<u8>::empty(),
            final(self).next_lsn == old(self).next_lsn,
            final(self).durability == old(self).durability,
            final(self).kept == old(self).kept,
    {
        let mut r: Vec<u8> = Vec::new();
        std::mem::swap(&mut r, &mut self.tail);
        r
    }

    /// The records with a number above `after` among the bytes of the file.
    pub fn records_after(path: &str, raw: &[u8], after: u64) -> (r: Result<Vec<RawRecord>, Error>)
        ensures
            match r {
                Ok(v) => wal_error(path@, raw@) is None && raw_records(v@) == later(
                    wal_records(raw@),
                    after,
                ),
                Err(e) => wal_error(path@, raw@) == Some(e@),
            },
    {
        let (_, all) = match Wal::open(path, raw, Durability::Buffered) {
            Ok(p) => p,
            Err(e) => {
                return Err(e);
            },
        };
        let ghost t = raw_records(all@);
        let mut out: Vec<RawRecord> = Vec::new();
        let mut i: usize = 0;
        assert(t.take(0) =~= Seq::<(u64, Seq<u8>)>::empty());
        assert(raw_records(out@) =~= Seq::<(u64, Seq<u8>)>::empty());
        while i < all.len()
            invariant
                i <= all.len(),
                t == raw_records(all@),
                raw_records(out@) == later(t.take(i as int), after),
            decreases all.len() - i,
        {
            assert(t.take(i + 1).drop_last() =~= t.take(i as int));
            assert(t.take(i + 1).last() == t[i as int]);
            if all[i].0 > after {
                let ghost before = raw_records(out@);
                out.push((all[i].0, copy_bytes(all[i].1.as_slice())));
                assert(raw_records(out@) =~= before.push(t[i as int]));
            }
            i += 1;
        }
        assert(t.take(i as int) =~= t);
        Ok(out)
    }

    /// Empties the log after a snapshot: the result is what the emptied file begins with.
    /// The numbers go on from where they were.
    pub fn reset(&mut self) -> (r: Vec<u8>)
        ensures
            r@ == wal_header(),
            final(self).tail@ == Seq::<u8>::empty(),
            final(self).next_lsn == old(self).next_lsn,
            final(self).durability == old(self).durability,
            final(self).kept == 12,
    {
        self.tail = Vec::new();
        self.kept = 12;
        header_of_wal()
    }
}

/// What is said of a record that cannot be appended.
pub open spec fn too_much(payload: Seq<u8>) -> Seq<char> {
    "запись WAL из "@ + dec(payload.len() as int) + " байт не пишется"@
}

// --- snapshots --------------------------------------------------------------------------------

/// What a snapshot begins with: the letters `VELDBSNP`.
pub open spec fn snapshot_magic() -> Seq<u8> {
    seq![0x56u8, 0x45, 0x4c, 0x44, 0x42, 0x53, 0x4e, 0x50]
}

pub open spec fn columns_body(v: Seq<Cells>) -> Seq<u8>
    decreases v.len(),
{
    if v.len() == 0 {
        Seq::empty()
    } else {
        columns_body(v.drop_last()) + column_bytes(v.last())
    }
}

/// A table: its name, its schema, the number of its rows, its columns.
pub open spec fn table_bytes(t: Relation) -> Seq<u8> {
    text_bytes(t.name) + schema_bytes(t.schema) + u64_bytes(t.rows as u64) + columns_body(t.columns)
}

pub open spec fn tables_body(v: Seq<Relation>) -> Seq<u8>
    decreases v.len(),
{
    if v.len() == 0 {
        Seq::empty()
    } else {
        tables_body(v.drop_last()) + table_bytes(v.last())
    }
}

/// What the checksum of a snapshot covers.
pub open spec fn snapshot_body(tables: Seq<Relation>, lsn: u64) -> Seq<u8> {
    snapshot_magic() + u32_bytes(FORMAT_VERSION) + u64_bytes(lsn) + u64_bytes(tables.len() as u64)
        + tables_body(tables)
}

/// A snapshot of some tables as of a record of the log.
pub open spec fn snapshot_of(tables: Seq<Relation>, lsn: u64) -> Seq<u8> {
    snapshot_body(tables, lsn) + u32_bytes(crc_of(snapshot_body(tables, lsn)))
}

/// The first `n` columns of a schema.
pub open spec fn read_columns(b: Seq<u8>, types: Seq<DataType>, n: nat) -> Read<Seq<Cells>>
    decreases n,
{
    if n == 0 {
        (Ok(Seq::empty()), b)
    } else {
        let (r, rest) = read_columns(b, types, (n - 1) as nat);
        match r {
            Err(e) => (Err(e), rest),
            Ok(out) => {
                let (c, rest) = read_column(rest, types[n - 1]);
                match c {
                    Err(e) => (Err(e), rest),
                    Ok(x) => (Ok(out.push(x)), rest),
                }
            },
        }
    }
}

/// The table that columns of a snapshot make up.
pub open spec fn snapshot_table(name: Seq<char>, s: Seq<Attr>, rows: nat, cols: Seq<Cells>) -> Result<
    Relation,
    Seq<char>,
> {
    match table_of(name, s, cols) {
        Err(e) => Err(in_context("таблица '"@ + name + "' из снапшота"@, e)),
        Ok(t) => if t.rows != rows {
            Err(
                "таблица '"@ + name + "': в снапшоте "@ + dec(rows as int) + " строк, прочитано "@
                    + dec(t.rows as int),
            )
        } else {
            Ok(t)
        },
    }
}

pub open spec fn read_table(b: Seq<u8>) -> Read<Relation> {
    let (name, rest) = read_text(b);
    match name {
        Err(e) => (Err(e), rest),
        Ok(name) => {
            let (s, rest) = read_schema(rest);
            match s {
                Err(e) => (Err(e), rest),
                Ok(s) => {
                    let (n, rest) = read_len(rest);
                    match n {
                        Err(e) => (Err(e), rest),
                        Ok(n) => {
                            let (cols, rest) = read_columns(rest, schema_types(s), s.len());
                            match cols {
                                Err(e) => (Err(e), rest),
                                Ok(cols) => (snapshot_table(name, s, n as nat, cols), rest),
                            }
                        },
                    }
                },
            }
        },
    }
}

pub open spec fn read_tables(b: Seq<u8>, n: nat) -> Read<Seq<Relation>>
    decreases n,
{
    if n == 0 {
        (Ok(Seq::empty()), b)
    } else {
        let (r, rest) = read_tables(b, (n - 1) as nat);
        match r {
            Err(e) => (Err(e), rest),
            Ok(out) => {
                let (t, rest) = read_table(rest);
                match t {
                    Err(e) => (Err(e), rest),
                    Ok(t) => (Ok(out.push(t)), rest),
                }
            },
        }
    }
}

/// The tables in what a snapshot's checksum covers, behind the letters.
pub open spec fn snapshot_tables(b: Seq<u8>) -> Result<(Seq<Relation>, u64), Seq<char>> {
    let (ver, rest) = read_u32(b);
    match ver {
        Err(e) => Err(e),
        Ok(ver) => if ver != FORMAT_VERSION {
            Err(
                "версия снапшота "@ + dec(ver as int) + ", поддерживается "@ + dec(
                    FORMAT_VERSION as int,
                ),
            )
        } else {
            let (lsn, rest) = read_u64(rest);
            match lsn {
                Err(e) => Err(e),
                Ok(lsn) => {
                    let (n, rest) = read_len(rest);
                    match n {
                        Err(e) => Err(e),
                        Ok(n) => match read_tables(rest, n as nat).0 {
                            Err(e) => Err(e),
                            Ok(tables) => Ok((tables, lsn)),
                        },
                    }
                },
            }
        },
    }
}

/// The tables of a snapshot, and the number of the record that it was made after.
pub open spec fn snapshot_in(raw: Seq<u8>) -> Result<(Seq<Relation>, u64), Seq<char>> {
    if raw.len() < 28 || raw.take(8) != snapshot_magic() {
        Err("данные не похожи на снапшот veldb"@)
    } else {
        let body = raw.take(raw.len() - 4);
        if crc_of(body) != spec_u32_from_le_bytes(raw.skip(raw.len() - 4)) {
            Err("снапшот повреждён (не сходится CRC)"@)
        } else {
            snapshot_tables(body.skip(8))
        }
    }
}

pub open spec fn relations(v: Seq<Table>) -> Seq<Relation> {
    Seq::new(v.len(), |i: int| v[i]@)
}

pub open spec fn relations_of(v: Seq<&Table>) -> Seq<Relation> {
    Seq::new(v.len(), |i: int| v[i]@)
}

fn put_table(w: &mut Writer, t: &Table)
    requires
        t.wf(),
    ensures
        final(w).buf@ == old(w).buf@ + table_bytes(t@),
{
    let ghost b0 = w.buf@;
    w.str(t.name.as_str());
    w.schema(&t.schema);
    w.u64(t.nrows as u64);
    let ghost head = w.buf@;
    let ghost cols = t@.columns;
    let mut i: usize = 0;
    assert(cols.take(0) =~= Seq::<Cells>::empty());
    assert(head + columns_body(cols.take(0)) =~= head);
    while i < t.columns.len()
        invariant
            t.wf(),
            i <= t.columns.len(),
            cols == t@.columns,
            w.buf@ == head + columns_body(cols.take(i as int)),
        decreases t.columns.len() - i,
    {
        assert(cols[i as int] == t.columns@[i as int]@);
        w.column(&t.columns[i]);
        assert(cols.take(i + 1).drop_last() =~= cols.take(i as int));
        i += 1;
        assert(w.buf@ =~= head + columns_body(cols.take(i as int)));
    }
    assert(cols.take(i as int) =~= cols);
    assert(w.buf@ =~= b0 + table_bytes(t@));
}

/// A snapshot of some tables as of the record `lsn` of the log.
pub fn encode_snapshot(tables: &Vec<&Table>, lsn: u64) -> (r: Vec<u8>)
    requires
        forall|i: int| 0 <= i < tables@.len() ==> (#[trigger] tables@[i]).wf(),
    ensures
        r@ == snapshot_of(relations_of(tables@), lsn),
{
    let letters: Vec<u8> = vec![0x56u8, 0x45, 0x4c, 0x44, 0x42, 0x53, 0x4e, 0x50];
    assert(letters@ =~= snapshot_magic());
    let mut w = Writer { buf: letters };
    w.u32(FORMAT_VERSION);
    w.u64(lsn);
    w.u64(tables.len() as u64);
    let ghost head = w.buf@;
    let ghost t = relations_of(tables@);
    let mut i: usize = 0;
    assert(t.take(0) =~= Seq::<Relation>::empty());
    assert(head + tables_body(t.take(0)) =~= head);
    while i < tables.len()
        invariant
            forall|i: int| 0 <= i < tables@.len() ==> (#[trigger] tables@[i]).wf(),
            i <= tables.len(),
            t == relations_of(tables@),
            w.buf@ == head + tables_body(t.take(i as int)),
        decreases tables.len() - i,
    {
        assert(t[i as int] == tables@[i as int]@);
        put_table(&mut w, tables[i]);
        assert(t.take(i + 1).drop_last() =~= t.take(i as int));
        i += 1;
        assert(w.buf@ =~= head + tables_body(t.take(i as int)));
    }
    assert(t.take(i as int) =~= t);
    assert(w.buf@ =~= snapshot_body(t, lsn));
    let crc = crc32(w.buf.as_slice());
    w.u32(crc);
    w.buf
}

proof fn lemma_columns_err(b: Seq<u8>, types: Seq<DataType>, k: nat, n: nat)
    requires
        k <= n,
        read_columns(b, types, k).0 is Err,
    ensures
        read_columns(b, types, n) == read_columns(b, types, k),
    decreases n - k,
{
    if k < n {
        lemma_columns_err(b, types, k, (n - 1) as nat);
    }
}

proof fn lemma_tables_err(b: Seq<u8>, k: nat, n: nat)
    requires
        k <= n,
        read_tables(b, k).0 is Err,
    ensures
        read_tables(b, n) == read_tables(b, k),
    decreases n - k,
{
    if k < n {
        lemma_tables_err(b, k, (n - 1) as nat);
    }
}

fn take_columns(r: &mut Reader, schema: &Schema) -> (x: Result<Vec<Column>, Error>)
    requires
        old(r).wf(),
    ensures
        final(r).wf(),
        final(r).rest() == read_columns(old(r).rest(), schema_types(schema@), schema@.len()).1,
        match x {
            Ok(v) => (forall|i: int| 0 <= i < v@.len() ==> (#[trigger] v@[i]).wf())
                && read_columns(old(r).rest(), schema_types(schema@), schema@.len()).0 == Ok::<
                Seq<Cells>,
                Seq<char>,
            >(contents(v@)),
            Err(e) => read_columns(old(r).rest(), schema_types(schema@), schema@.len()).0 == Err::<
                Seq<Cells>,
                Seq<char>,
            >(e@),
        },
{
    let ghost b = r.rest();
    let ghost types = schema_types(schema@);
    let mut out: Vec<Column> = Vec::new();
    let mut i: usize = 0;
    assert(contents(out@) =~= Seq::<Cells>::empty());
    while i < schema.fields.len()
        invariant
            r.wf(),
            b == old(r).rest(),
            i <= schema.fields.len(),
            types == schema_types(schema@),
            forall|i: int| 0 <= i < out@.len() ==> (#[trigger] out@[i]).wf(),
            read_columns(b, types, i as nat) == (
                Ok::<Seq<Cells>, Seq<char>>(contents(out@)),
                r.rest(),
            ),
        decreases schema.fields.len() - i,
    {
        assert(types[i as int] == schema.fields@[i as int].ty);
        let ghost before = contents(out@);
        match r.column(schema.fields[i].ty) {
            Ok(c) => {
                out.push(c);
                assert(contents(out@) =~= before.push(c@));
            },
            Err(e) => {
                proof {
                    lemma_columns_err(b, types, (i + 1) as nat, types.len());
                }
                return Err(e);
            },
        }
        i += 1;
    }
    Ok(out)
}

fn take_table(r: &mut Reader) -> (x: Result<Table, Error>)
    requires
        old(r).wf(),
    ensures
        final(r).wf(),
        x is Ok ==> final(r).rest() == read_table(old(r).rest()).1,
        match x {
            Ok(t) => t.wf() && read_table(old(r).rest()).0 == Ok::<Relation, Seq<char>>(t@),
            Err(e) => read_table(old(r).rest()).0 == Err::<Relation, Seq<char>>(e@),
        },
{
    let name = match r.str() {
        Ok(s) => s,
        Err(e) => {
            return Err(e);
        },
    };
    let schema = match r.schema() {
        Ok(s) => s,
        Err(e) => {
            return Err(e);
        },
    };
    let n: usize = match r.count() {
        Ok(n) => n,
        Err(e) => {
            return Err(e);
        },
    };
    let columns = match take_columns(r, &schema) {
        Ok(v) => v,
        Err(e) => {
            return Err(e);
        },
    };
    match Table::from_columns(name.as_str(), schema, columns) {
        Err(e) => {
            let place = text3("таблица '", name.as_str(), "' из снапшота");
            Err(e.context(place.as_str()))
        },
        Ok(t) => {
            if t.nrows != n {
                return Err(
                    err(
                        text6(
                            "таблица '",
                            name.as_str(),
                            "': в снапшоте ",
                            dec_usize(n).as_str(),
                            " строк, прочитано ",
                            dec_usize(t.nrows).as_str(),
                        ),
                    ),
                );
            }
            Ok(t)
        },
    }
}

fn take_tables<'a>(r: &mut Reader<'a>, n: usize) -> (res: Result<Vec<Table>, Error>)
    requires
        old(r).wf(),
    ensures
        match res {
            Ok(v) => read_tables(old(r).rest(), n as nat).0 == Ok::<Seq<Relation>, Seq<char>>(
                relations(v@),
            ) && forall|i: int| 0 <= i < v@.len() ==> (#[trigger] v@[i]).wf(),
            Err(e) => read_tables(old(r).rest(), n as nat).0 == Err::<Seq<Relation>, Seq<char>>(e@),
        },
{
    let ghost b = r.rest();
    let mut out: Vec<Table> = Vec::new();
    let mut i: usize = 0;
    assert(relations(out@) =~= Seq::<Relation>::empty());
    while i < n
        invariant
            r.wf(),
            i <= n,
            b == old(r).rest(),
            forall|i: int| 0 <= i < out@.len() ==> (#[trigger] out@[i]).wf(),
            read_tables(b, i as nat) == (
                Ok::<Seq<Relation>, Seq<char>>(relations(out@)),
                r.rest(),
            ),
        decreases n - i,
    {
        let ghost before = relations(out@);
        match take_table(r) {
            Ok(t) => {
                out.push(t);
                assert(relations(out@) =~= before.push(t@));
            },
            Err(e) => {
                proof {
                    lemma_tables_err(b, (i + 1) as nat, n as nat);
                }
                return Err(e);
            },
        }
        i += 1;
    }
    Ok(out)
}

/// The tables of a snapshot, and the number of the record that it was made after.
pub fn decode_snapshot(raw: &[u8]) -> (x: Result<(Vec<Table>, u64), Error>)
    ensures
        match x {
            Ok((v, lsn)) => (forall|i: int| 0 <= i < v@.len() ==> (#[trigger] v@[i]).wf())
                && snapshot_in(raw@) == Ok::<(Seq<Relation>, u64), Seq<char>>(
                (relations(v@), lsn),
            ),
            Err(e) => snapshot_in(raw@) == Err::<(Seq<Relation>, u64), Seq<char>>(e@),
        },
{
    if raw.len() < 28 {
        return Err(err("данные не похожи на снапшот veldb".to_owned()));
    }
    let letters: Vec<u8> = vec![0x56u8, 0x45, 0x4c, 0x44, 0x42, 0x53, 0x4e, 0x50];
    assert(letters@ =~= snapshot_magic());
    let first = vstd::slice::slice_subrange(raw, 0, 8);
    assert(first@ =~= raw@.take(8));
    if !same_bytes(first, letters.as_slice()) {
        return Err(err("данные не похожи на снапшот veldb".to_owned()));
    }
    let size: usize = raw.len() - 4;
    let body = vstd::slice::slice_subrange(raw, 0, size);
    assert(body@ =~= raw@.take(raw@.len() - 4));
    let stored = u32_at(raw, size);
    assert(raw@.subrange(size as int, size + 4) =~= raw@.skip(raw@.len() - 4));
    if crc32(body) != stored {
        return Err(err("снапшот повреждён (не сходится CRC)".to_owned()));
    }
    let mut r = Reader::new(vstd::slice::slice_subrange(body, 8, size));
    assert(r.rest() =~= body@.skip(8));
    let ver: u32 = match r.u32() {
        Ok(v) => v,
        Err(e) => {
            return Err(e);
        },
    };
    if ver != FORMAT_VERSION {
        return Err(
            err(
                text4(
                    "версия снапшота ",
                    dec_u64(ver as u64).as_str(),
                    ", поддерживается ",
                    dec_u64(FORMAT_VERSION as u64).as_str(),
                ),
            ),
        );
    }
    let lsn: u64 = match r.u64() {
        Ok(v) => v,
        Err(e) => {
            return Err(e);
        },
    };
    let n: usize = match r.count() {
        Ok(v) => v,
        Err(e) => {
            return Err(e);
        },
    };
    match take_tables(&mut r, n) {
        Ok(tables) => Ok((tables, lsn)),
        Err(e) => Err(e),
    }
}

// --- laws ---------------------------------------------------------------------------------------

pub open spec fn writable(s: Seq<char>) -> bool {
    encode_utf8(s).len() <= usize::MAX
}

/// Whether a change is no larger than memory can hold, and its rows are of the table that
/// the catalog knows.
pub open spec fn loggable(c: Change, known: spec_fn(Seq<char>) -> Option<Seq<Attr>>) -> bool {
    match c {
        Change::CreateTable { name, schema } => writable(name) && nameable(schema),
        Change::DropTable { name } => writable(name),
        Change::Insert { table, rows } => {
            &&& writable(table)
            &&& rows.len() <= usize::MAX
            &&& known(table) is Some
            &&& forall|i: int|
                0 <= i < rows.len() ==> storable_row(#[trigger] rows[i]) && typed(
                    rows[i],
                    schema_types(known(table)->0),
                )
        },
    }
}

proof fn lemma_rows_back(rows: Seq<Seq<Cell>>, types: Seq<DataType>, n: nat, rest: Seq<u8>)
    requires
        n <= rows.len(),
        forall|i: int|
            0 <= i < rows.len() ==> storable_row(#[trigger] rows[i]) && typed(rows[i], types),
    ensures
        read_rows(rows_bytes(rows.take(n as int)) + rest, types, n) == (
            Ok::<Seq<Seq<Cell>>, Seq<char>>(rows.take(n as int)),
            rest,
        ),
    decreases n,
{
    if n == 0 {
        assert(rows_bytes(rows.take(0)) + rest =~= rest);
        assert(rows.take(0) =~= Seq::<Seq<Cell>>::empty());
    } else {
        let t = rows.take(n as int);
        let x = t.last();
        assert(t.drop_last() =~= rows.take(n - 1));
        assert(x == rows[n - 1]);
        let tail = row_bytes(x) + rest;
        lemma_rows_back(rows, types, (n - 1) as nat, tail);
        assert(rows_bytes(t) + rest =~= rows_bytes(rows.take(n - 1)) + tail);
        lemma_row_back(x, types, x.len(), rest);
        assert(x.take(x.len() as int) =~= x);
        assert(rows.take(n - 1).push(x) =~= t);
    }
}

proof fn lemma_width(rows: Seq<Seq<Cell>>, width: nat, i: nat)
    requires
        forall|k: int| 0 <= k < rows.len() ==> (#[trigger] rows[k]).len() == width,
    ensures
        width_error(rows, width, i) is None,
    decreases rows.len() - i,
{
    if i < rows.len() {
        lemma_width(rows, width, i + 1);
    }
}

/// A record that was written is read back.
pub proof fn lemma_change_back(c: Change, known: spec_fn(Seq<char>) -> Option<Seq<Attr>>)
    requires
        loggable(c, known),
    ensures
        encoded(c, known) == Ok::<Seq<u8>, Seq<char>>(change_bytes(c)),
        decoded(change_bytes(c), known) == Ok::<Change, Seq<char>>(c),
{
    let b = change_bytes(c);
    match c {
        Change::CreateTable { name, schema } => {
            let tail = schema_bytes(schema);
            assert(b.skip(1) =~= text_bytes(name) + tail);
            lemma_text_back(name, tail);
            lemma_schema_back(schema, Seq::empty());
            assert(tail + Seq::<u8>::empty() =~= tail);
        },
        Change::DropTable { name } => {
            let none = Seq::<u8>::empty();
            assert(b.skip(1) =~= text_bytes(name) + none);
            lemma_text_back(name, none);
        },
        Change::Insert { table, rows } => {
            let s = known(table)->0;
            let types = schema_types(s);
            let tail = u64_bytes(rows.len() as u64) + rows_bytes(rows);
            assert(b.skip(1) =~= text_bytes(table) + tail);
            lemma_text_back(table, tail);
            lemma_u64_back(rows.len() as u64, rows_bytes(rows));
            lemma_rows_back(rows, types, rows.len(), Seq::empty());
            assert(rows.take(rows.len() as int) =~= rows);
            assert(rows_bytes(rows) + Seq::<u8>::empty() =~= rows_bytes(rows));
            lemma_width(rows, s.len(), 0);
        },
    }
}

/// Whether rows can be put into a table: each as wide as the table, each value of the type of
/// its column or an integer for a column of doubles.
pub open spec fn enterable(rows: Seq<Seq<Cell>>, s: Seq<Attr>) -> bool {
    &&& rows.len() <= usize::MAX
    &&& forall|i: int|
        0 <= i < rows.len() ==> storable_row(#[trigger] rows[i]) && rows[i].len() == s.len()
    &&& forall|i: int, k: int|
        #![trigger rows[i][k]]
        0 <= i < rows.len() && 0 <= k < s.len() ==> cell_type(rows[i][k]) == s[k].ty || (s[k].ty
            == DataType::F64 && rows[i][k] is I64)
}

/// Rows that were encoded are read back as the table stores them.
pub proof fn lemma_rows_stored_back<F: Floats>(
    table: Seq<char>,
    rows: Seq<Seq<Cell>>,
    s: Seq<Attr>,
    known: spec_fn(Seq<char>) -> Option<Seq<Attr>>,
    fl: F,
)
    requires
        writable(table),
        known(table) == Some(s),
        enterable(rows, s),
    ensures
        ({
            let c = stored_change(Change::Insert { table, rows }, known, fl);
            &&& c == Change::Insert { table, rows: stored_rows(rows, s, fl) }
            &&& encoded(c, known) == Ok::<Seq<u8>, Seq<char>>(change_bytes(c))
            &&& decoded(change_bytes(c), known) == Ok::<Change, Seq<char>>(c)
        }),
{
    let kept = stored_rows(rows, s, fl);
    assert forall|i: int| 0 <= i < kept.len() implies storable_row(#[trigger] kept[i]) && typed(
        kept[i],
        schema_types(s),
    ) by {
        assert(storable_row(rows[i]));
        assert forall|k: int| 0 <= k < kept[i].len() implies storable(#[trigger] kept[i][k])
            && cell_type(kept[i][k]) == schema_types(s)[k] by {
            assert(storable(rows[i][k]));
            assert(cell_type(rows[i][k]) == s[k].ty || rows[i][k] is I64);
        }
    }
    lemma_change_back(Change::Insert { table, rows: kept }, known);
}

/// Whether a record is no longer than a frame can say.
pub open spec fn framable(v: Seq<(u64, Seq<u8>)>) -> bool {
    forall|i: int| 0 <= i < v.len() ==> (#[trigger] v[i]).1.len() <= u32::MAX
}

proof fn lemma_frame_parts(lsn: u64, p: Seq<u8>, rest: Seq<u8>)
    requires
        p.len() <= u32::MAX,
    ensures
        ({
            let b = frame_bytes(lsn, p) + rest;
            &&& frame_bytes(lsn, p).len() == 16 + p.len()
            &&& frame_len(b) == p.len()
            &&& frame_ok(b)
            &&& frame_record(b) == (lsn, p)
            &&& b.skip(16 + frame_len(b)) == rest
        }),
{
    lemma_auto_spec_u32_to_from_le_bytes();
    lemma_auto_spec_u64_to_from_le_bytes();
    let b = frame_bytes(lsn, p) + rest;
    let n = p.len() as u32;
    let body = frame_body(lsn, p);
    assert(u32_bytes(n).len() == 4 && u32_bytes(crc_of(body)).len() == 4);
    assert(u64_bytes(lsn).len() == 8);
    assert(b.subrange(0, 4) =~= u32_bytes(n));
    assert(b.subrange(4, 8) =~= u32_bytes(crc_of(body)));
    assert(b.subrange(8, 16) =~= u64_bytes(lsn));
    assert(b.subrange(8, 16 + n) =~= body);
    assert(b.subrange(16, 16 + n) =~= p);
    assert(b.skip(16 + n) =~= rest);
}

/// What was appended to a log comes first when it is read, and then what follows it.
pub proof fn lemma_log_back(v: Seq<(u64, Seq<u8>)>, rest: Seq<u8>)
    requires
        framable(v),
    ensures
        frames(log_bytes(v) + rest) == v + frames(rest),
        frames_size(log_bytes(v) + rest) == log_bytes(v).len() + frames_size(rest),
    decreases v.len(),
{
    if v.len() == 0 {
        assert(log_bytes(v) + rest =~= rest);
        assert(v + frames(rest) =~= frames(rest));
    } else {
        let (lsn, p) = v.last();
        let w = v.drop_last();
        assert(p == v[v.len() - 1].1);
        let tail = frame_bytes(lsn, p) + rest;
        assert(framable(w)) by {
            assert forall|i: int| 0 <= i < w.len() implies (#[trigger] w[i]).1.len() <= u32::MAX by {
                assert(w[i] == v[i]);
            }
        }
        lemma_log_back(w, tail);
        lemma_frame_parts(lsn, p, rest);
        assert(log_bytes(v) + rest =~= log_bytes(w) + tail);
        assert(w + (seq![(lsn, p)] + frames(rest)) =~= v + frames(rest));
    }
}

/// A log is read back just as it was written; a frame that is cut short or damaged at its
/// end is dropped, with all that follows, and nothing else is.
pub proof fn lemma_log_damaged(v: Seq<(u64, Seq<u8>)>, bad: Seq<u8>)
    requires
        framable(v),
        !frame_ok(bad),
    ensures
        wal_error(Seq::empty(), wal_header() + log_bytes(v) + bad) is None,
        wal_records(wal_header() + log_bytes(v) + bad) == v,
        wal_kept(wal_header() + log_bytes(v) + bad) == (wal_header() + log_bytes(v)).len(),
{
    lemma_auto_spec_u32_to_from_le_bytes();
    let raw = wal_header() + log_bytes(v) + bad;
    assert(u32_bytes(FORMAT_VERSION).len() == 4);
    assert(raw.take(8) =~= wal_magic());
    assert(raw.subrange(8, 12) =~= u32_bytes(FORMAT_VERSION));
    assert(raw.skip(12) =~= log_bytes(v) + bad);
    lemma_log_back(v, bad);
    assert(v + frames(bad) =~= v);
}

/// How many of some records lie whole in the first `k` bytes of their log.
pub open spec fn whole_frames(v: Seq<(u64, Seq<u8>)>, k: nat) -> nat
    decreases v.len(),
{
    if v.len() == 0 || log_bytes(v).len() <= k {
        v.len()
    } else {
        whole_frames(v.drop_last(), k)
    }
}

/// A log that breaks off at any byte gives just the records that had been written whole.
pub proof fn lemma_log_torn(v: Seq<(u64, Seq<u8>)>, k: nat)
    requires
        framable(v),
        k <= log_bytes(v).len(),
    ensures
        whole_frames(v, k) <= v.len(),
        frames(log_bytes(v).take(k as int)) == v.take(whole_frames(v, k) as int),
    decreases v.len(),
{
    let all = log_bytes(v);
    if v.len() == 0 || all.len() <= k {
        assert(all.take(k as int) =~= all + Seq::<u8>::empty());
        lemma_log_back(v, Seq::empty());
        assert(v + frames(Seq::empty()) =~= v);
        assert(v.take(v.len() as int) =~= v);
    } else {
        let w = v.drop_last();
        let (lsn, p) = v.last();
        assert(p == v[v.len() - 1].1);
        assert(framable(w)) by {
            assert forall|i: int| 0 <= i < w.len() implies (#[trigger] w[i]).1.len() <= u32::MAX by {
                assert(w[i] == v[i]);
            }
        }
        let n = log_bytes(w).len();
        if k <= n {
            lemma_log_torn(w, k);
            assert(all.take(k as int) =~= log_bytes(w).take(k as int));
            assert(v.take(whole_frames(w, k) as int) =~= w.take(whole_frames(w, k) as int));
        } else {
            let frame = frame_bytes(lsn, p);
            let part = frame.take(k - n);
            lemma_frame_parts(lsn, p, Seq::empty());
            assert(frame + Seq::<u8>::empty() =~= frame);
            assert(all.take(k as int) =~= log_bytes(w) + part);
            lemma_log_back(w, part);
            if part.len() >= 16 {
                assert(part.subrange(0, 4) =~= frame.subrange(0, 4));
            }
            assert(!frame_ok(part));
            assert(w + frames(part) =~= w);
            assert(whole_frames(v, k) == w.len()) by {
                assert(whole_frames(w, k) == w.len());
            }
            assert(v.take(w.len() as int) =~= w);
        }
    }
}

/// Whether a table is no larger than memory can hold.
pub open spec fn savable(t: Relation) -> bool {
    &&& t.aligned()
    &&& t.rows <= usize::MAX
    &&& writable(t.name)
    &&& nameable(t.schema)
    &&& forall|i: int| 0 <= i < t.columns.len() ==> storable_column(#[trigger] t.columns[i])
}

/// A sound table is no larger than memory can hold, as far as its names are not.
pub proof fn lemma_sound_savable(t: &Table)
    requires
        t.wf(),
        writable(t@.name),
        nameable(t@.schema),
    ensures
        savable(t@),
{
    let cols = t@.columns;
    crate::table::lemma_valid_schema(t@.schema, 0);
    assert forall|i: int| 0 <= i < cols.len() implies storable_column(#[trigger] cols[i]) by {
        let c = t.columns@[i];
        assert(cols[i] == c@);
        assert(c.wf());
        assert(cols[i].len() == t@.rows);
        assert(cols[i].data_type() == t@.schema[i].ty);
        assert(crate::table::attr_error(t@.schema, i) is None);
        match c {
            Column::Str(s) => {
                s.lemma_layout();
                s.lemma_size();
                s.lemma_count();
            },
            Column::Vector { dim, data } => {
                crate::column::lemma_vectors_flat(dim, data@);
                assert(data.len() <= usize::MAX);
            },
            _ => {},
        }
    }
}

proof fn lemma_columns_back(t: Relation, n: nat, rest: Seq<u8>)
    requires
        savable(t),
        n <= t.columns.len(),
    ensures
        read_columns(columns_body(t.columns.take(n as int)) + rest, schema_types(t.schema), n) == (
            Ok::<Seq<Cells>, Seq<char>>(t.columns.take(n as int)),
            rest,
        ),
    decreases n,
{
    let cols = t.columns;
    if n == 0 {
        assert(columns_body(cols.take(0)) + rest =~= rest);
        assert(cols.take(0) =~= Seq::<Cells>::empty());
    } else {
        let x = cols.take(n as int);
        let c = x.last();
        assert(x.drop_last() =~= cols.take(n - 1));
        assert(c == cols[n - 1]);
        let tail = column_bytes(c) + rest;
        lemma_columns_back(t, (n - 1) as nat, tail);
        assert(columns_body(x) + rest =~= columns_body(cols.take(n - 1)) + tail);
        lemma_column_back(c, rest);
        assert(cols.take(n - 1).push(c) =~= x);
    }
}

proof fn lemma_table_back(t: Relation, rest: Seq<u8>)
    requires
        savable(t),
    ensures
        read_table(table_bytes(t) + rest) == (Ok::<Relation, Seq<char>>(t), rest),
{
    let body = columns_body(t.columns) + rest;
    let counted = u64_bytes(t.rows as u64) + body;
    let named = schema_bytes(t.schema) + counted;
    assert(table_bytes(t) + rest =~= text_bytes(t.name) + named);
    lemma_text_back(t.name, named);
    lemma_schema_back(t.schema, counted);
    lemma_u64_back(t.rows as u64, body);
    lemma_columns_back(t, t.columns.len(), rest);
    assert(t.columns.take(t.columns.len() as int) =~= t.columns);
    crate::table::lemma_aligned_of(t);
}

proof fn lemma_tables_back(v: Seq<Relation>, n: nat, rest: Seq<u8>)
    requires
        n <= v.len(),
        forall|i: int| 0 <= i < v.len() ==> savable(#[trigger] v[i]),
    ensures
        read_tables(tables_body(v.take(n as int)) + rest, n) == (
            Ok::<Seq<Relation>, Seq<char>>(v.take(n as int)),
            rest,
        ),
    decreases n,
{
    if n == 0 {
        assert(tables_body(v.take(0)) + rest =~= rest);
        assert(v.take(0) =~= Seq::<Relation>::empty());
    } else {
        let x = v.take(n as int);
        let t = x.last();
        assert(x.drop_last() =~= v.take(n - 1));
        assert(t == v[n - 1]);
        let tail = table_bytes(t) + rest;
        lemma_tables_back(v, (n - 1) as nat, tail);
        assert(tables_body(x) + rest =~= tables_body(v.take(n - 1)) + tail);
        lemma_table_back(t, rest);
        assert(v.take(n - 1).push(t) =~= x);
    }
}

proof fn lemma_listed_back(v: Seq<Relation>, lsn: u64)
    requires
        v.len() <= usize::MAX,
        forall|i: int| 0 <= i < v.len() ==> savable(#[trigger] v[i]),
    ensures
        snapshot_tables(
            u32_bytes(FORMAT_VERSION) + (u64_bytes(lsn) + (u64_bytes(v.len() as u64)
                + tables_body(v))),
        ) == Ok::<(Seq<Relation>, u64), Seq<char>>((v, lsn)),
{
    let tables = tables_body(v);
    let counted = u64_bytes(v.len() as u64) + tables;
    let numbered = u64_bytes(lsn) + counted;
    lemma_u64_back(lsn, counted);
    lemma_u64_back(v.len() as u64, tables);
    lemma_u32_back(FORMAT_VERSION, numbered);
    lemma_tables_back(v, v.len(), Seq::empty());
    assert(v.take(v.len() as int) =~= v);
    assert(tables + Seq::<u8>::empty() =~= tables);
}

proof fn lemma_sealed(body: Seq<u8>)
    requires
        body.len() >= 28,
        body.take(8) == snapshot_magic(),
    ensures
        snapshot_in(body + u32_bytes(crc_of(body))) == snapshot_tables(body.skip(8)),
{
    lemma_auto_spec_u32_to_from_le_bytes();
    let raw = body + u32_bytes(crc_of(body));
    assert(raw.take(raw.len() - 4) =~= body);
    assert(raw.skip(raw.len() - 4) =~= u32_bytes(crc_of(body)));
    assert(raw.take(8) =~= body.take(8));
}

/// A snapshot that was made is read back: the tables and the number of the record.
pub proof fn lemma_snapshot_back(v: Seq<Relation>, lsn: u64)
    requires
        v.len() <= usize::MAX,
        forall|i: int| 0 <= i < v.len() ==> savable(#[trigger] v[i]),
    ensures
        snapshot_in(snapshot_of(v, lsn)) == Ok::<(Seq<Relation>, u64), Seq<char>>((v, lsn)),
{
    let body = snapshot_body(v, lsn);
    let a = u32_bytes(FORMAT_VERSION);
    let b = u64_bytes(lsn);
    let c = u64_bytes(v.len() as u64);
    assert(a.len() == 4 && b.len() == 8 && c.len() == 8) by {
        lemma_auto_spec_u32_to_from_le_bytes();
        lemma_auto_spec_u64_to_from_le_bytes();
    }
    assert(body.skip(8) =~= a + (b + (c + tables_body(v))));
    assert(body.take(8) =~= snapshot_magic());
    lemma_sealed(body);
    lemma_listed_back(v, lsn);
}

/// A snapshot whose bytes do not match its checksum is refused.
pub proof fn lemma_snapshot_damaged(body: Seq<u8>, crc: u32)
    requires
        crc != crc_of(body),
    ensures
        snapshot_in(body + u32_bytes(crc)) is Err,
{
    lemma_auto_spec_u32_to_from_le_bytes();
    let raw = body + u32_bytes(crc);
    assert(raw.take(raw.len() - 4) =~= body);
    assert(raw.skip(raw.len() - 4) =~= u32_bytes(crc));
}

/// A snapshot in which one byte is another is refused, whichever byte it is.
pub proof fn lemma_snapshot_byte(raw: Seq<u8>, i: int, x: u8)
    requires
        snapshot_in(raw) is Ok,
        0 <= i < raw.len(),
        x != raw[i],
    ensures
        snapshot_in(raw.update(i, x)) is Err,
{
    let n = raw.len() - 4;
    let hurt = raw.update(i, x);
    let (body, seal) = (raw.take(n), raw.skip(n));
    if i < n {
        assert(hurt.take(n) =~= body.update(i, x));
        assert(hurt.skip(n) =~= seal);
        lemma_crc_tells(body, i, x);
    } else {
        assert(hurt.take(n) =~= body);
        let other = hurt.skip(n);
        lemma_auto_spec_u32_to_from_le_bytes();
        assert(u32_bytes(spec_u32_from_le_bytes(seal)) == seal);
        assert(u32_bytes(spec_u32_from_le_bytes(other)) == other);
        assert(seal[i - n] != other[i - n]);
    }
}

} // verus!
