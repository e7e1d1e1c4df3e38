//! The database: tables by name, and what a statement does to them.
//!
//! A change is made in memory and then goes to the log. What stands in the log's tail is
//! for the caller to write to the file before the change is answered for.
pub mod laws;

use crate::column::{add_sizes, capped, cell_rows, cells, Cell, DataType, Value};
use crate::exec::select::{
    message_answer, run_constant, run_select, selected, Answer, QueryResult,
};
use crate::float::Floats;
use crate::plan::{Command, Query, Select, Statement};
use crate::sql::statement::Catalog;
use crate::sql::{plan, planned};
use crate::storage::{
    decode_snapshot, decoded, encode_snapshot, encoded, frame_bytes, later, next_number,
    raw_records, relations, relations_of, schemas, snapshot_in, snapshot_of, succ, too_much,
    wal_error, wal_header, wal_kept, wal_records, Change, Durability, RawRecord, Wal, WalRecord,
};
use crate::table::{
    as_stored, column_named, columns_bytes, empty_table, inserted_many, schema_error, stored_rows,
    Attr, Relation, Schema, Table,
};
use crate::text::{
    dec, dec_u64, dec_usize, err, in_context, keys, lemma_text_rank_equal,
    lemma_text_rank_reversed, lowercase, put_in_order,
    strings, text2, text3, text5, text_rank, to_lowercase, Error, Rank,
};
use rustc_hash::FxHashMap;
use vstd::prelude::*;
use vstd::string::*;

verus! {

broadcast use vstd::string::group_string_axioms;

// --- tables by name ----------------------------------------------------------------------------

/// Which tables a map holds, and under which key.
pub uninterp spec fn tables_in(m: FxHashMap<String, Table>) -> Map<Seq<char>, Table>;

/// `FxHashMap::default` of `rustc_hash`: a map without entries.
#[verifier::external_body]
fn no_tables() -> (r: FxHashMap<String, Table>)
    ensures
        tables_in(r).dom() == Set::<Seq<char>>::empty(),
{
    FxHashMap::default()
}

/// `get` of an `FxHashMap` of `rustc_hash`: the table under the key, if any is.
#[verifier::external_body]
fn table_under<'a>(m: &'a FxHashMap<String, Table>, k: &str) -> (r: Option<&'a Table>)
    ensures
        match r {
            Some(t) => tables_in(*m).dom().contains(k@) && *t == tables_in(*m)[k@],
            None => !tables_in(*m).dom().contains(k@),
        },
{
    m.get(k)
}

/// `insert` of an `FxHashMap` of `rustc_hash`: the table stands under the key.
#[verifier::external_body]
fn put_under(m: &mut FxHashMap<String, Table>, k: String, t: Table)
    ensures
        tables_in(*final(m)) == tables_in(*old(m)).insert(k@, t),
{
    m.insert(k, t);
}

/// `remove` of an `FxHashMap` of `rustc_hash`: takes out the table under the key, if any is.
#[verifier::external_body]
fn take_under(m: &mut FxHashMap<String, Table>, k: &str) -> (r: Option<Table>)
    ensures
        tables_in(*final(m)) == tables_in(*old(m)).remove(k@),
        match r {
            Some(t) => tables_in(*old(m)).dom().contains(k@) && t == tables_in(*old(m))[k@],
            None => !tables_in(*old(m)).dom().contains(k@),
        },
{
    m.remove(k)
}

/// `iter` of an `FxHashMap` of `rustc_hash`: each entry once, in an order of which nothing
/// is claimed.
#[verifier::external_body]
fn entries<'a>(m: &'a FxHashMap<String, Table>) -> (r: Vec<(&'a String, &'a Table)>)
    ensures
        forall|i: int|
            0 <= i < r@.len() ==> tables_in(*m).dom().contains((#[trigger] r@[i]).0@) && *r@[i].1
                == tables_in(*m)[r@[i].0@],
        forall|i: int, j: int| 0 <= i < j < r@.len() ==> r@[i].0@ != r@[j].0@,
        forall|k: Seq<char>|
            tables_in(*m).dom().contains(k) ==> exists|i: int|
                0 <= i < r@.len() && (#[trigger] r@[i]).0@ == k,
{
    m.iter().collect()
}

// --- the tables in order -------------------------------------------------------------------------

/// Whether the names ascend.
pub open spec fn ascending(v: Seq<Relation>) -> bool {
    forall|i: int, j: int|
        0 <= i < j < v.len() ==> text_rank((#[trigger] v[i]).name, (#[trigger] v[j]).name)
            == Rank::Less
}

/// Whether some tables are those of a map, in the order of their names.
pub open spec fn lists(v: Seq<Relation>, m: Map<Seq<char>, Relation>) -> bool {
    &&& ascending(v)
    &&& forall|i: int|
        0 <= i < v.len() ==> m.dom().contains(lowercase((#[trigger] v[i]).name)) && m[lowercase(
            v[i].name,
        )] == v[i]
    &&& forall|k: Seq<char>| #[trigger] m.dom().contains(k) ==> v.contains(m[k])
}

/// The tables of a map in the order of their names.
pub open spec fn in_order(m: Map<Seq<char>, Relation>) -> Seq<Relation> {
    choose|v: Seq<Relation>| lists(v, m)
}

proof fn lemma_same_ascending(v: Seq<Relation>, w: Seq<Relation>)
    requires
        ascending(v),
        ascending(w),
        forall|x: Relation| v.contains(x) <==> w.contains(x),
    ensures
        v == w,
    decreases v.len(),
{
    if v.len() == 0 {
        if w.len() > 0 {
            assert(w.contains(w[0]));
            assert(v.contains(w[0]));
        }
        assert(v =~= w);
    } else {
        let x = v.last();
        assert(v.contains(x));
        assert(w.contains(x));
        let j = choose|j: int| 0 <= j < w.len() && w[j] == x;
        let y = w.last();
        assert(w.contains(y));
        assert(v.contains(y));
        let i = choose|i: int| 0 <= i < v.len() && v[i] == y;
        if j < w.len() - 1 {
            assert(text_rank(w[j].name, w[w.len() - 1].name) == Rank::Less);
            lemma_text_rank_reversed(x.name, y.name);
            lemma_text_rank_equal(x.name, y.name);
            if i < v.len() - 1 {
                assert(text_rank(v[i].name, v[v.len() - 1].name) == Rank::Less);
            }
        }
        assert(x == y);
        let a = v.drop_last();
        let b = w.drop_last();
        assert forall|z: Relation| a.contains(z) <==> b.contains(z) by {
            if a.contains(z) {
                let k = choose|k: int| 0 <= k < a.len() && a[k] == z;
                assert(v[k] == z);
                assert(v.contains(z) && w.contains(z));
                let l = choose|l: int| 0 <= l < w.len() && w[l] == z;
                assert(text_rank(v[k].name, v[v.len() - 1].name) == Rank::Less);
                lemma_text_rank_equal(z.name, x.name);
                assert(l < w.len() - 1);
                assert(b[l] == z);
            }
            if b.contains(z) {
                let k = choose|k: int| 0 <= k < b.len() && b[k] == z;
                assert(w[k] == z);
                assert(w.contains(z) && v.contains(z));
                let l = choose|l: int| 0 <= l < v.len() && v[l] == z;
                assert(text_rank(w[k].name, w[w.len() - 1].name) == Rank::Less);
                lemma_text_rank_equal(z.name, x.name);
                assert(l < v.len() - 1);
                assert(a[l] == z);
            }
        }
        assert forall|i: int, j: int| 0 <= i < j < a.len() implies text_rank(
            (#[trigger] a[i]).name,
            (#[trigger] a[j]).name,
        ) == Rank::Less by {
            assert(a[i] == v[i] && a[j] == v[j]);
        }
        assert forall|i: int, j: int| 0 <= i < j < b.len() implies text_rank(
            (#[trigger] b[i]).name,
            (#[trigger] b[j]).name,
        ) == Rank::Less by {
            assert(b[i] == w[i] && b[j] == w[j]);
        }
        lemma_same_ascending(a, b);
        assert(v =~= a.push(x));
        assert(w =~= b.push(x));
    }
}

/// There is only one order.
pub proof fn lemma_in_order(v: Seq<Relation>, m: Map<Seq<char>, Relation>)
    requires
        lists(v, m),
    ensures
        in_order(m) == v,
{
    let w = in_order(m);
    assert(lists(w, m));
    assert forall|x: Relation| v.contains(x) <==> w.contains(x) by {
        if v.contains(x) {
            let i = choose|i: int| 0 <= i < v.len() && v[i] == x;
            assert(m.dom().contains(lowercase(v[i].name)));
        }
        if w.contains(x) {
            let i = choose|i: int| 0 <= i < w.len() && w[i] == x;
            assert(m.dom().contains(lowercase(w[i].name)));
        }
    }
    lemma_same_ascending(v, w);
}

// --- what a database is ---------------------------------------------------------------------------

pub open spec fn views(m: Map<Seq<char>, Table>) -> Map<Seq<char>, Relation> {
    Map::new(|k: Seq<char>| m.dom().contains(k), |k: Seq<char>| m[k]@)
}

/// The end of a log: the number of the next record, and what is to be written to the file.
#[verifier::ext_equal]
pub struct LogEnd {
    pub next: u64,
    pub tail: Seq<u8>,
    /// How much of the file was good.
    pub kept: nat,
    pub durability: Durability,
}

/// What a [`Database`] is.
#[verifier::ext_equal]
pub struct State {
    /// Tables by their names in lower case.
    pub tables: Map<Seq<char>, Relation>,
    /// `None`: the database has no files.
    pub log: Option<LogEnd>,
    pub read_only: bool,
    /// How much memory the tables may take before a client may insert no more; 0: any.
    pub limit: u64,
}

/// The table of a name, whatever the case.
pub open spec fn table_named(m: Map<Seq<char>, Relation>, name: Seq<char>) -> Option<Relation> {
    if m.dom().contains(lowercase(name)) {
        Some(m[lowercase(name)])
    } else {
        None
    }
}

pub open spec fn schema_in(m: Map<Seq<char>, Relation>, name: Seq<char>) -> Option<Seq<Attr>> {
    match table_named(m, name) {
        Some(t) => Some(t.schema),
        None => None,
    }
}

/// The schemas of some tables.
pub open spec fn known_in(m: Map<Seq<char>, Relation>) -> spec_fn(Seq<char>) -> Option<Seq<Attr>> {
    |name: Seq<char>| schema_in(m, name)
}

pub open spec fn not_found(name: Seq<char>) -> Seq<char> {
    "таблица '"@ + name + "' не найдена"@
}

/// What a change makes of the tables, and why it could not be made, if it could not. Of
/// rows that are inserted, those before the first bad one stay.
pub open spec fn applied<F: Floats>(m: Map<Seq<char>, Relation>, c: Change, fl: F) -> (
    Option<Seq<char>>,
    Map<Seq<char>, Relation>,
) {
    match c {
        Change::CreateTable { name, schema } => match schema_error(schema) {
            Some(e) => (Some(e), m),
            None => (None, m.insert(lowercase(name), empty_table(name, schema))),
        },
        Change::DropTable { name } => (None, m.remove(lowercase(name))),
        Change::Insert { table, rows } => match table_named(m, table) {
            None => (Some(not_found(table)), m),
            Some(t) => {
                let (e, t1) = inserted_many(t, rows, rows.len(), fl);
                (e, m.insert(lowercase(table), t1))
            },
        },
    }
}

/// What becomes of the log when a change is written to it, and why it could not be, if it
/// could not.
pub open spec fn logged(
    log: Option<LogEnd>,
    c: Change,
    m: Map<Seq<char>, Relation>,
) -> (Option<Seq<char>>, Option<LogEnd>) {
    match log {
        None => (None, None),
        Some(l) => match encoded(c, known_in(m)) {
            Err(e) => (Some(e), log),
            Ok(b) => if b.len() > u32::MAX || l.next == u64::MAX {
                (Some(too_much(b)), log)
            } else {
                (
                    None,
                    Some(
                        LogEnd {
                            next: (l.next + 1) as u64,
                            tail: l.tail + frame_bytes(l.next, b),
                            ..l
                        },
                    ),
                )
            },
        },
    }
}

pub open spec fn denied(what: Seq<char>) -> Seq<char> {
    "узел работает как реплика: "@ + what + " принимает только первичный узел"@
}

/// A new table.
pub open spec fn created(st: State, name: Seq<char>, schema: Seq<Attr>) -> (
    Result<(), Seq<char>>,
    State,
) {
    if st.read_only {
        (Err(denied("CREATE TABLE"@)), st)
    } else if schema_error(schema) is Some {
        (Err(schema_error(schema)->0), st)
    } else if table_named(st.tables, name) is Some {
        (Err("таблица '"@ + name + "' уже существует"@), st)
    } else {
        let m = st.tables.insert(lowercase(name), empty_table(name, schema));
        let (e, log) = logged(st.log, Change::CreateTable { name, schema }, m);
        (
            match e {
                Some(e) => Err(e),
                None => Ok(()),
            },
            State { tables: m, log, ..st },
        )
    }
}

/// A table is dropped: whether there was one.
pub open spec fn dropped(st: State, name: Seq<char>) -> (Result<bool, Seq<char>>, State) {
    if st.read_only {
        (Err(denied("DROP TABLE"@)), st)
    } else if table_named(st.tables, name) is None {
        (Ok(false), st)
    } else {
        let m = st.tables.remove(lowercase(name));
        let (e, log) = logged(st.log, Change::DropTable { name }, m);
        (
            match e {
                Some(e) => Err(e),
                None => Ok(true),
            },
            State { tables: m, log, ..st },
        )
    }
}

/// The memory that some tables take.
pub open spec fn tables_bytes(v: Seq<Relation>) -> int
    decreases v.len(),
{
    if v.len() == 0 {
        0
    } else {
        tables_bytes(v.drop_last()) + columns_bytes(v.last().columns)
    }
}

/// The memory that the tables of a map take, as far as a `usize` can tell.
pub open spec fn used(m: Map<Seq<char>, Relation>) -> usize {
    capped(tables_bytes(in_order(m)))
}

pub open spec fn out_of_memory(used: usize, limit: u64) -> Seq<char> {
    "достигнут предел памяти: занято "@ + dec(used as int) + " байт из "@ + dec(limit as int)
        + ". Сделайте снапшот и перезапустите с большим --max-memory либо удалите данные"@
}

/// Rows of a client: refused on a replica and where memory is short, else put into the
/// table and written to the log as the table stores them.
pub open spec fn put_rows<F: Floats>(
    st: State,
    name: Seq<char>,
    rows: Seq<Seq<Cell>>,
    fl: F,
) -> (Result<nat, Seq<char>>, State) {
    if st.read_only {
        (Err(denied("INSERT"@)), st)
    } else if st.limit > 0 && used(st.tables) >= st.limit {
        (Err(out_of_memory(used(st.tables), st.limit)), st)
    } else {
        let (e, m) = applied(st.tables, Change::Insert { table: name, rows }, fl);
        match e {
            Some(e) => (Err(e), State { tables: m, ..st }),
            None => {
                let s = schema_in(st.tables, name)->0;
                let c = Change::Insert { table: name, rows: stored_rows(rows, s, fl) };
                let (e, log) = logged(st.log, c, m);
                (
                    match e {
                        Some(e) => Err(e),
                        None => Ok(rows.len()),
                    },
                    State { tables: m, log, ..st },
                )
            },
        }
    }
}

/// Tables by name, with a log where there are files.
pub struct Database {
    tables: FxHashMap<String, Table>,
    wal: Option<Wal>,
    read_only: bool,
    memory_limit: u64,
}

pub open spec fn log_end(w: Option<Wal>) -> Option<LogEnd> {
    match w {
        Some(w) => Some(
            LogEnd {
                next: w.next_lsn,
                tail: w.tail@,
                kept: w.kept as nat,
                durability: w.durability,
            },
        ),
        None => None,
    }
}

/// Whether each table is sound and stands under its name in lower case.
pub open spec fn sound(m: Map<Seq<char>, Table>) -> bool {
    forall|k: Seq<char>|
        #[trigger] m.dom().contains(k) ==> m[k].wf() && k == lowercase(m[k].name@)
}

impl View for Database {
    type V = State;

    closed spec fn view(&self) -> State {
        State {
            tables: views(tables_in(self.tables)),
            log: log_end(self.wal),
            read_only: self.read_only,
            limit: self.memory_limit,
        }
    }
}

impl Default for Database {
    fn default() -> (r: Database)
        ensures
            r.wf(),
            r@ == (State { tables: Map::empty(), log: None, read_only: false, limit: 0 }),
    {
        Database::new()
    }
}

impl Catalog for Database {
    open spec fn schema(&self, table: Seq<char>) -> Option<Seq<Attr>> {
        schema_in(self@.tables, table)
    }

    fn schema_of(&self, table: &str) -> (r: Option<Schema>) {
        match self.table(table) {
            Some(t) => Some(t.schema.clone()),
            None => None,
        }
    }
}

impl Database {
    /// Each table is sound and stands under its name; records are numbered from 1.
    pub closed spec fn wf(&self) -> bool {
        &&& sound(tables_in(self.tables))
        &&& self.wal matches Some(w) ==> w.next_lsn >= 1
    }

    /// Each table stands under its name in lower case and is sound, and there are no others.
    pub proof fn lemma_sound(&self)
        requires
            self.wf(),
        ensures
            forall|k: Seq<char>| #[trigger]
                self@.tables.dom().contains(k) ==> k == lowercase(self@.tables[k].name)
                    && self@.tables[k].aligned(),
            self@.log matches Some(l) ==> l.next >= 1,
    {
        let m = tables_in(self.tables);
        assert forall|k: Seq<char>| #[trigger] self@.tables.dom().contains(k) implies k
            == lowercase(self@.tables[k].name) && self@.tables[k].aligned() by {
            assert(m.dom().contains(k));
        }
    }

    /// A database without files.
    pub fn new() -> (r: Database)
        ensures
            r.wf(),
            r@ == (State {
                tables: Map::empty(),
                log: None,
                read_only: false,
                limit: 0,
            }),
    {
        let r = Database { tables: no_tables(), wal: None, read_only: false, memory_limit: 0 };
        assert(r@.tables =~= Map::<Seq<char>, Relation>::empty());
        r
    }

    /// The number that the next record of the log gets; 0 where there is no log.
    pub fn next_lsn(&self) -> (r: u64)
        ensures
            r == match self@.log {
                Some(l) => l.next,
                None => 0,
            },
    {
        match &self.wal {
            Some(w) => w.next_lsn(),
            None => 0,
        }
    }

    pub fn is_persistent(&self) -> (r: bool)
        ensures
            r == self@.log is Some,
    {
        self.wal.is_some()
    }

    /// How much memory the tables may take before a client may insert no more; 0: any.
    pub fn set_memory_limit(&mut self, bytes: u64)
        requires
            old(self).wf(),
        ensures
            final(self).wf(),
            final(self)@ == (State { limit: bytes, ..old(self)@ }),
    {
        self.memory_limit = bytes;
    }

    pub fn set_read_only(&mut self, v: bool)
        requires
            old(self).wf(),
        ensures
            final(self).wf(),
            final(self)@ == (State { read_only: v, ..old(self)@ }),
    {
        self.read_only = v;
    }

    pub fn is_read_only(&self) -> (r: bool)
        ensures
            r == self@.read_only,
    {
        self.read_only
    }

    /// The table of a name, whatever the case.
    pub fn table(&self, name: &str) -> (r: Option<&Table>)
        ensures
            match r {
                Some(t) => table_named(self@.tables, name@) == Some(t@) && (self.wf() ==> t.wf()),
                None => table_named(self@.tables, name@) is None,
            },
    {
        let key = to_lowercase(name);
        table_under(&self.tables, key.as_str())
    }

    /// The tables in the order of their names.
    pub fn ordered(&self) -> (r: Vec<&Table>)
        requires
            self.wf(),
        ensures
            relations_of(r@) == in_order(self@.tables),
            lists(relations_of(r@), self@.tables),
            forall|i: int| 0 <= i < r@.len() ==> (#[trigger] r@[i]).wf(),
    {
        let all = entries(&self.tables);
        let ghost m = tables_in(self.tables);
        let ghost t = self@.tables;
        let mut out: Vec<&Table> = Vec::new();
        let mut i: usize = 0;
        while i < all.len()
            invariant
                i <= all@.len(),
                sound(m),
                m == tables_in(self.tables),
                t == views(m),
                forall|j: int|
                    0 <= j < all@.len() ==> m.dom().contains((#[trigger] all@[j]).0@) && *all@[j].1
                        == m[all@[j].0@],
                forall|a: int, b: int| 0 <= a < b < all@.len() ==> all@[a].0@ != all@[b].0@,
                ascending(relations_of(out@)),
                forall|j: int| 0 <= j < out@.len() ==> (#[trigger] out@[j]).wf(),
                forall|j: int|
                    0 <= j < out@.len() ==> m.dom().contains(lowercase((#[trigger] out@[j]).name@))
                        && *out@[j] == m[lowercase(out@[j].name@)],
                forall|j: int| 0 <= j < i ==> out@.contains((#[trigger] all@[j]).1),
                forall|j: int|
                    0 <= j < out@.len() ==> exists|k: int|
                        0 <= k < i && (#[trigger] all@[k]).1 == #[trigger] out@[j],
            decreases all@.len() - i,
        {
            let x = all[i].1;
            proof {
                assert(m.dom().contains(all@[i as int].0@));
                assert forall|j: int| 0 <= j < out@.len() implies (#[trigger] out@[j]).name@
                    != x.name@ by {
                    let k = choose|k: int| 0 <= k < i && (#[trigger] all@[k]).1 == out@[j];
                    assert(all@[k].0@ != all@[i as int].0@);
                    assert(m.dom().contains(all@[k].0@));
                }
            }
            let ghost before = out@;
            put_table(&mut out, x);
            proof {
                assert forall|j: int| 0 <= j <= i implies out@.contains((#[trigger] all@[j]).1) by {
                    if j < i {
                        assert(before.contains(all@[j].1));
                    }
                }
                assert forall|j: int| 0 <= j < out@.len() implies exists|k: int|
                    0 <= k < i + 1 && (#[trigger] all@[k]).1 == #[trigger] out@[j] by {
                    if out@[j] == x {
                        assert(all@[i as int].1 == out@[j]);
                    } else {
                        assert(out@.contains(out@[j]));
                        assert(before.contains(out@[j]));
                        let l = choose|l: int| 0 <= l < before.len() && before[l] == out@[j];
                        let k = choose|k: int| 0 <= k < i && (#[trigger] all@[k]).1 == before[l];
                        assert(all@[k].1 == out@[j]);
                    }
                }
                assert forall|j: int| 0 <= j < out@.len() implies (#[trigger] out@[j]).wf()
                    && m.dom().contains(lowercase(out@[j].name@)) && *out@[j] == m[lowercase(
                    out@[j].name@,
                )] by {
                    assert(out@.contains(out@[j]));
                    if out@[j] != x {
                        assert(before.contains(out@[j]));
                    }
                }
            }
            i += 1;
        }
        proof {
            let v = relations_of(out@);
            assert forall|k: Seq<char>| #[trigger] t.dom().contains(k) implies v.contains(t[k]) by {
                let j = choose|j: int| 0 <= j < all@.len() && (#[trigger] all@[j]).0@ == k;
                assert(out@.contains(all@[j].1));
                let l = choose|l: int| 0 <= l < out@.len() && out@[l] == all@[j].1;
                assert(v[l] == t[k]);
            }
            lemma_in_order(v, t);
        }
        out
    }
}

// --- changes ------------------------------------------------------------------------------------

/// The tables after some were put in one after another.
pub open spec fn restored(v: Seq<Relation>, n: nat) -> Map<Seq<char>, Relation>
    decreases n,
{
    if n == 0 || n > v.len() {
        Map::empty()
    } else {
        restored(v, (n - 1) as nat).insert(lowercase(v[n - 1].name), v[n - 1])
    }
}

/// What the first `n` records of a log make of the tables, and how many of them were not
/// in the snapshot already: those up to number `after` are passed over.
pub open spec fn replayed<F: Floats>(
    m: Map<Seq<char>, Relation>,
    recs: Seq<(u64, Seq<u8>)>,
    n: nat,
    after: u64,
    fl: F,
) -> Result<(Map<Seq<char>, Relation>, nat), Seq<char>>
    decreases n,
{
    if n == 0 || n > recs.len() {
        Ok((m, 0))
    } else {
        match replayed(m, recs, (n - 1) as nat, after, fl) {
            Err(e) => Err(e),
            Ok((m1, count)) => {
                let (lsn, payload) = recs[n - 1];
                if lsn <= after {
                    Ok((m1, count))
                } else {
                    match decoded(payload, known_in(m1)) {
                        Err(e) => Err(in_context("запись WAL lsn="@ + dec(lsn as int), e)),
                        Ok(c) => match applied(m1, c, fl) {
                            (Some(e), _) => Err(
                                in_context("применение записи WAL lsn="@ + dec(lsn as int), e),
                            ),
                            (None, m2) => Ok((m2, count + 1)),
                        },
                    }
                }
            },
        }
    }
}

proof fn lemma_replayed_err<F: Floats>(
    m: Map<Seq<char>, Relation>,
    recs: Seq<(u64, Seq<u8>)>,
    k: nat,
    n: nat,
    after: u64,
    fl: F,
)
    requires
        k <= n <= recs.len(),
        replayed(m, recs, k, after, fl) is Err,
    ensures
        replayed(m, recs, n, after, fl) == replayed(m, recs, k, after, fl),
    decreases n - k,
{
    if k < n {
        lemma_replayed_err(m, recs, k, (n - 1) as nat, after, fl);
    }
}

/// The tables of a snapshot, and the number of the record that it was made after; no tables
/// where there is no snapshot.
pub open spec fn base_of(snapshot: Option<(Seq<char>, Seq<u8>)>) -> Result<
    (Map<Seq<char>, Relation>, u64),
    Seq<char>,
> {
    match snapshot {
        None => Ok((Map::empty(), 0)),
        Some((path, raw)) => match snapshot_in(raw) {
            Err(e) => Err(in_context("снапшот "@ + path, e)),
            Ok((v, lsn)) => Ok((restored(v, v.len()), lsn)),
        },
    }
}

/// What a restart makes of the files: the snapshot, and then the records of the log that
/// are not in it. The numbers go on from the greater of the two.
pub open spec fn recovered<F: Floats>(
    snapshot: Option<(Seq<char>, Seq<u8>)>,
    path: Seq<char>,
    raw: Seq<u8>,
    durability: Durability,
    fl: F,
) -> Result<(State, nat), Seq<char>> {
    match base_of(snapshot) {
        Err(e) => Err(e),
        Ok((m, lsn)) => match wal_error(path, raw) {
            Some(e) => Err(e),
            None => {
                let recs = wal_records(raw);
                match replayed(m, recs, recs.len(), lsn, fl) {
                    Err(e) => Err(e),
                    Ok((m1, count)) => Ok(
                        (
                            State {
                                tables: m1,
                                log: Some(
                                    LogEnd {
                                        next: if next_number(recs) > succ(lsn) {
                                            next_number(recs)
                                        } else {
                                            succ(lsn)
                                        },
                                        tail: if raw.len() == 0 {
                                            wal_header()
                                        } else {
                                            Seq::empty()
                                        },
                                        kept: wal_kept(raw),
                                        durability,
                                    },
                                ),
                                read_only: false,
                                limit: 0,
                            },
                            count,
                        ),
                    ),
                }
            },
        },
    }
}

proof fn lemma_views_insert(m: Map<Seq<char>, Table>, k: Seq<char>, t: Table)
    ensures
        views(m.insert(k, t)) == views(m).insert(k, t@),
        views(m.remove(k).insert(k, t)) == views(m).insert(k, t@),
        views(m.remove(k)) == views(m).remove(k),
{
    assert(views(m.insert(k, t)) =~= views(m).insert(k, t@));
    assert(views(m.remove(k).insert(k, t)) =~= views(m).insert(k, t@));
    assert(views(m.remove(k)) =~= views(m).remove(k));
}

impl Database {
    /// The memory that the tables take.
    pub fn bytes_used(&self) -> (r: usize)
        requires
            self.wf(),
        ensures
            r == used(self@.tables),
    {
        let v = self.ordered();
        let ghost t = relations_of(v@);
        let mut sum: usize = 0;
        let mut i: usize = 0;
        assert(t.take(0) =~= Seq::<Relation>::empty());
        while i < v.len()
            invariant
                i <= v.len(),
                t == relations_of(v@),
                forall|i: int| 0 <= i < v@.len() ==> (#[trigger] v@[i]).wf(),
                tables_bytes(t.take(i as int)) >= 0,
                sum == capped(tables_bytes(t.take(i as int))),
            decreases v.len() - i,
        {
            proof {
                assert(t.take(i + 1).drop_last() =~= t.take(i as int));
                assert(t.take(i + 1).last() == v@[i as int]@);
                crate::table::lemma_columns_natural(v@[i as int]@.columns);
            }
            sum = add_sizes(sum, v[i].bytes_used());
            i += 1;
        }
        assert(t.take(i as int) =~= t);
        sum
    }

    /// The names of the tables, in order.
    pub fn table_names(&self) -> (r: Vec<String>)
        requires
            self.wf(),
        ensures
            strings(r@) == in_order(self@.tables).map_values(|t: Relation| t.name),
    {
        let v = self.ordered();
        let mut out: Vec<String> = Vec::new();
        let mut i: usize = 0;
        while i < v.len()
            invariant
                i <= v.len(),
                out.len() == i,
                forall|k: int| 0 <= k < i ==> (#[trigger] out@[k])@ == v@[k].name@,
            decreases v.len() - i,
        {
            out.push(v[i].name.clone());
            i += 1;
        }
        proof {
            let names = in_order(self@.tables).map_values(|t: Relation| t.name);
            assert forall|k: int| 0 <= k < names.len() implies strings(out@)[k] == names[k] by {
                assert(relations_of(v@)[k].name == v@[k].name@);
            }
            assert(strings(out@) =~= names);
        }
        out
    }

    fn insert_inner<F: Floats>(&mut self, name: &str, rows: &Vec<Vec<Value>>, fl: &F) -> (r: Result<
        usize,
        Error,
    >)
        requires
            old(self).wf(),
            fl.exact(),
        ensures
            final(self).wf(),
            final(self)@ == (State {
                tables: applied(
                    old(self)@.tables,
                    Change::Insert { table: name@, rows: cell_rows(rows@) },
                    *fl,
                ).1,
                ..old(self)@
            }),
            match r {
                Ok(n) => n == rows@.len() && applied(
                    old(self)@.tables,
                    Change::Insert { table: name@, rows: cell_rows(rows@) },
                    *fl,
                ).0 is None,
                Err(e) => applied(
                    old(self)@.tables,
                    Change::Insert { table: name@, rows: cell_rows(rows@) },
                    *fl,
                ).0 == Some(e@),
            },
    {
        let key = to_lowercase(name);
        let ghost m0 = tables_in(self.tables);
        let ghost st0 = self@;
        match take_under(&mut self.tables, key.as_str()) {
            None => {
                proof {
                    assert(m0.remove(key@) =~= m0);
                    assert(self@.tables =~= st0.tables);
                }
                Err(err(text3("таблица '", name, "' не найдена")))
            },
            Some(mut t) => {
                assert(m0.dom().contains(key@));
                let r = t.insert_many(rows, fl);
                proof {
                    crate::table::lemma_inserted_many(
                        m0[key@]@,
                        cell_rows(rows@),
                        rows@.len(),
                        *fl,
                    );
                    lemma_views_insert(m0, key@, t);
                }
                put_under(&mut self.tables, key, t);
                assert(self@.tables =~= st0.tables.insert(key@, t@));
                r
            },
        }
    }

    fn put_table(&mut self, t: Table)
        requires
            old(self).wf(),
            t.wf(),
        ensures
            final(self).wf(),
            final(self)@ == (State {
                tables: old(self)@.tables.insert(lowercase(t@.name), t@),
                ..old(self)@
            }),
    {
        let key = to_lowercase(t.name.as_str());
        let ghost m0 = tables_in(self.tables);
        proof {
            lemma_views_insert(m0, key@, t);
        }
        put_under(&mut self.tables, key, t);
    }

    fn drop_table_inner(&mut self, name: &str) -> (r: bool)
        requires
            old(self).wf(),
        ensures
            final(self).wf(),
            final(self)@ == (State {
                tables: old(self)@.tables.remove(lowercase(name@)),
                ..old(self)@
            }),
            r == table_named(old(self)@.tables, name@) is Some,
    {
        let key = to_lowercase(name);
        let ghost m0 = tables_in(self.tables);
        let r = take_under(&mut self.tables, key.as_str());
        proof {
            assert(views(m0.remove(key@)) =~= views(m0).remove(key@));
        }
        r.is_some()
    }

    /// Makes a change without writing it to the log: what a restart and a replica do.
    pub fn apply<F: Floats>(&mut self, rec: &WalRecord, fl: &F) -> (r: Result<(), Error>)
        requires
            old(self).wf(),
            fl.exact(),
        ensures
            final(self).wf(),
            final(self)@ == (State {
                tables: applied(old(self)@.tables, rec@, *fl).1,
                ..old(self)@
            }),
            match r {
                Ok(_) => applied(old(self)@.tables, rec@, *fl).0 is None,
                Err(e) => applied(old(self)@.tables, rec@, *fl).0 == Some(e@),
            },
    {
        match rec {
            WalRecord::CreateTable { name, schema } => match Table::new(
                name.as_str(),
                schema.clone(),
            ) {
                Ok(t) => {
                    self.put_table(t);
                    Ok(())
                },
                Err(e) => Err(e),
            },
            WalRecord::DropTable { name } => {
                self.drop_table_inner(name.as_str());
                Ok(())
            },
            WalRecord::Insert { table, rows } => match self.insert_inner(table.as_str(), rows, fl) {
                Ok(_) => Ok(()),
                Err(e) => Err(e),
            },
        }
    }

    fn log(&mut self, rec: &WalRecord) -> (r: Result<(), Error>)
        requires
            old(self).wf(),
        ensures
            final(self).wf(),
            final(self)@ == (State {
                log: logged(old(self)@.log, rec@, old(self)@.tables).1,
                ..old(self)@
            }),
            match r {
                Ok(_) => logged(old(self)@.log, rec@, old(self)@.tables).0 is None,
                Err(e) => logged(old(self)@.log, rec@, old(self)@.tables).0 == Some(e@),
            },
    {
        if self.wal.is_none() {
            return Ok(());
        }
        assert(schemas(*self) =~= known_in(self@.tables));
        let payload = match rec.encode_stored(self) {
            Ok(b) => b,
            Err(e) => {
                return Err(e);
            },
        };
        let ghost st0 = self@;
        let mut wal = None;
        std::mem::swap(&mut wal, &mut self.wal);
        let mut w = match wal {
            Some(w) => w,
            None => {
                return Ok(());
            },
        };
        let r = w.append(payload.as_slice());
        self.wal = Some(w);
        assert(self@.tables =~= st0.tables);
        match r {
            Ok(_) => Ok(()),
            Err(e) => Err(e),
        }
    }

    /// A new table, in memory and in the log.
    pub fn create_table(&mut self, name: &str, schema: Schema) -> (r: Result<(), Error>)
        requires
            old(self).wf(),
        ensures
            final(self).wf(),
            final(self)@ == created(old(self)@, name@, schema@).1,
            match r {
                Ok(_) => created(old(self)@, name@, schema@).0 is Ok,
                Err(e) => created(old(self)@, name@, schema@).0 == Err::<(), Seq<char>>(e@),
            },
    {
        if self.read_only {
            return Err(
                err(
                    text3(
                        "узел работает как реплика: ",
                        "CREATE TABLE",
                        " принимает только первичный узел",
                    ),
                ),
            );
        }
        let t = match Table::new(name, schema.clone()) {
            Ok(t) => t,
            Err(e) => {
                return Err(e);
            },
        };
        if self.table(name).is_some() {
            return Err(err(text3("таблица '", name, "' уже существует")));
        }
        self.put_table(t);
        self.log(&WalRecord::CreateTable { name: name.to_owned(), schema })
    }

    /// Drops a table, in memory and in the log: whether there was one.
    pub fn drop_table(&mut self, name: &str) -> (r: Result<bool, Error>)
        requires
            old(self).wf(),
        ensures
            final(self).wf(),
            final(self)@ == dropped(old(self)@, name@).1,
            match r {
                Ok(b) => dropped(old(self)@, name@).0 == Ok::<bool, Seq<char>>(b),
                Err(e) => dropped(old(self)@, name@).0 == Err::<bool, Seq<char>>(e@),
            },
    {
        if self.read_only {
            return Err(
                err(
                    text3(
                        "узел работает как реплика: ",
                        "DROP TABLE",
                        " принимает только первичный узел",
                    ),
                ),
            );
        }
        let ghost st0 = self@;
        if !self.drop_table_inner(name) {
            assert(st0.tables.remove(lowercase(name@)) =~= st0.tables);
            return Ok(false);
        }
        match self.log(&WalRecord::DropTable { name: name.to_owned() }) {
            Ok(_) => Ok(true),
            Err(e) => Err(e),
        }
    }

    /// Puts rows of a client into a table, in memory and then in the log.
    pub fn insert_rows<F: Floats>(&mut self, name: &str, rows: &Vec<Vec<Value>>, fl: &F) -> (r:
        Result<usize, Error>)
        requires
            old(self).wf(),
            fl.exact(),
        ensures
            final(self).wf(),
            final(self)@ == put_rows(old(self)@, name@, cell_rows(rows@), *fl).1,
            match r {
                Ok(n) => put_rows(old(self)@, name@, cell_rows(rows@), *fl).0 == Ok::<
                    nat,
                    Seq<char>,
                >(n as nat),
                Err(e) => put_rows(old(self)@, name@, cell_rows(rows@), *fl).0 == Err::<
                    nat,
                    Seq<char>,
                >(e@),
            },
    {
        if self.read_only {
            return Err(
                err(
                    text3(
                        "узел работает как реплика: ",
                        "INSERT",
                        " принимает только первичный узел",
                    ),
                ),
            );
        }
        if self.memory_limit > 0 {
            let used: usize = self.bytes_used();
            if used as u64 >= self.memory_limit {
                return Err(
                    err(
                        text5(
                            "достигнут предел памяти: занято ",
                            dec_usize(used).as_str(),
                            " байт из ",
                            dec_u64(self.memory_limit).as_str(),
                            ". Сделайте снапшот и перезапустите с большим --max-memory либо удалите данные",
                        ),
                    ),
                );
            }
        }
        let schema = self.schema_of(name);
        let ghost t0 = tables_in(self.tables)[lowercase(name@)]@;
        proof {
            if table_named(self@.tables, name@) is Some {
                assert(tables_in(self.tables).dom().contains(lowercase(name@)));
                crate::table::lemma_inserted_many(t0, cell_rows(rows@), rows@.len(), *fl);
            }
        }
        let n = match self.insert_inner(name, rows, fl) {
            Ok(n) => n,
            Err(e) => {
                return Err(e);
            },
        };
        let schema = match schema {
            Some(s) => s,
            None => {
                return Err(err(text3("таблица '", name, "' не найдена")));
            },
        };
        proof {
            assert forall|i: int| 0 <= i < rows@.len() implies (#[trigger] rows@[i])@.len()
                == schema@.len() by {
                assert(cell_rows(rows@)[i].len() == rows@[i]@.len());
            }
        }
        let rows = as_stored(rows, &schema, fl);
        match self.log(&WalRecord::Insert { table: name.to_owned(), rows }) {
            Ok(_) => Ok(n),
            Err(e) => Err(e),
        }
    }
}

// --- files ---------------------------------------------------------------------------------------

pub open spec fn snapshot_arg(s: Option<(&str, &[u8])>) -> Option<(Seq<char>, Seq<u8>)> {
    match s {
        Some((path, raw)) => Some((path@, raw@)),
        None => None,
    }
}

/// The number of the last record in the log; 0 where there is none.
pub open spec fn last_number(log: Option<LogEnd>) -> u64 {
    match log {
        Some(l) => (l.next - 1) as u64,
        None => 0,
    }
}

impl Database {
    fn put_tables(&mut self, v: Vec<Table>)
        requires
            old(self).wf(),
            old(self)@.tables == Map::<Seq<char>, Relation>::empty(),
            forall|i: int| 0 <= i < v@.len() ==> (#[trigger] v@[i]).wf(),
        ensures
            final(self).wf(),
            final(self)@ == (State {
                tables: restored(relations(v@), v@.len()),
                ..old(self)@
            }),
    {
        let ghost t = relations(v@);
        let ghost all = v@;
        let ghost st0 = self@;
        let mut left = v;
        let mut turned: Vec<Table> = Vec::new();
        while left.len() > 0
            invariant
                left@ == all.take(left@.len() as int),
                left@.len() + turned@.len() == all.len(),
                forall|k: int| 0 <= k < turned@.len() ==> turned@[k] == all[all.len() - 1 - k],
            decreases left.len(),
        {
            let ghost before = left@;
            match left.pop() {
                Some(x) => {
                    assert(x == all[before.len() - 1]);
                    turned.push(x);
                    assert(left@ =~= all.take(left@.len() as int));
                },
                None => {},
            }
        }
        let ghost mut n: nat = 0;
        while turned.len() > 0
            invariant
                self.wf(),
                t == relations(all),
                n + turned@.len() == all.len(),
                forall|i: int| 0 <= i < all.len() ==> (#[trigger] all[i]).wf(),
                forall|k: int| 0 <= k < turned@.len() ==> turned@[k] == all[all.len() - 1 - k],
                self@ == (State { tables: restored(t, n), ..st0 }),
            decreases turned.len(),
        {
            let ghost before = turned@;
            match turned.pop() {
                Some(x) => {
                    assert(x == all[n as int]);
                    assert(t[n as int] == x@);
                    self.put_table(x);
                    proof {
                        n = n + 1;
                    }
                },
                None => {},
            }
        }
    }

    /// Makes the changes of the records with a number above `after`: how many there were.
    fn replay<F: Floats>(&mut self, records: &Vec<RawRecord>, after: u64, fl: &F) -> (r: Result<
        usize,
        Error,
    >)
        requires
            old(self).wf(),
            fl.exact(),
        ensures
            final(self).wf(),
            match r {
                Ok(n) => replayed(
                    old(self)@.tables,
                    raw_records(records@),
                    records@.len(),
                    after,
                    *fl,
                ) == Ok::<(Map<Seq<char>, Relation>, nat), Seq<char>>(
                    (final(self)@.tables, n as nat),
                ) && final(self)@ == (State { tables: final(self)@.tables, ..old(self)@ }),
                Err(e) => replayed(
                    old(self)@.tables,
                    raw_records(records@),
                    records@.len(),
                    after,
                    *fl,
                ) == Err::<(Map<Seq<char>, Relation>, nat), Seq<char>>(e@),
            },
    {
        let ghost recs = raw_records(records@);
        let ghost st0 = self@;
        let mut n: usize = 0;
        let mut i: usize = 0;
        while i < records.len()
            invariant
                self.wf(),
                fl.exact(),
                i <= records.len(),
                n <= i,
                recs == raw_records(records@),
                st0 == old(self)@,
                replayed(st0.tables, recs, i as nat, after, *fl) == Ok::<
                    (Map<Seq<char>, Relation>, nat),
                    Seq<char>,
                >((self@.tables, n as nat)),
                self@ == (State { tables: self@.tables, ..st0 }),
            decreases records.len() - i,
        {
            let lsn = records[i].0;
            assert(recs[i as int] == (lsn, records@[i as int].1@));
            proof {
                if replayed(st0.tables, recs, (i + 1) as nat, after, *fl) is Err {
                    lemma_replayed_err(st0.tables, recs, (i + 1) as nat, recs.len(), after, *fl);
                }
            }
            if lsn > after {
                assert(schemas(*self) =~= known_in(self@.tables));
                let rec = match WalRecord::decode(records[i].1.as_slice(), self) {
                    Ok(x) => x,
                    Err(e) => {
                        let place = text2("запись WAL lsn=", dec_u64(lsn).as_str());
                        return Err(e.context(place.as_str()));
                    },
                };
                match self.apply(&rec, fl) {
                    Ok(_) => {},
                    Err(e) => {
                        let place = text2("применение записи WAL lsn=", dec_u64(lsn).as_str());
                        return Err(e.context(place.as_str()));
                    },
                }
                n += 1;
            }
            i += 1;
        }
        Ok(n)
    }

    /// Opens a database on what its files hold: the snapshot, where there is one, and the
    /// log. The number is that of the records that were not in the snapshot. `path` and the
    /// first part of `snapshot` are how messages call the files.
    pub fn open<F: Floats>(
        snapshot: Option<(&str, &[u8])>,
        path: &str,
        raw: &[u8],
        durability: Durability,
        fl: &F,
    ) -> (r: Result<(Database, usize), Error>)
        requires
            fl.exact(),
        ensures
            match r {
                Ok((db, n)) => db.wf() && recovered(snapshot_arg(snapshot), path@, raw@, durability, *fl)
                    == Ok::<(State, nat), Seq<char>>((db@, n as nat)),
                Err(e) => recovered(snapshot_arg(snapshot), path@, raw@, durability, *fl) == Err::<
                    (State, nat),
                    Seq<char>,
                >(e@),
            },
    {
        let mut db = Database::new();
        let mut lsn: u64 = 0;
        if let Some((name, bytes)) = snapshot {
            match decode_snapshot(bytes) {
                Ok((tables, at)) => {
                    db.put_tables(tables);
                    lsn = at;
                },
                Err(e) => {
                    let place = text2("снапшот ", name);
                    return Err(e.context(place.as_str()));
                },
            }
        }
        let (mut wal, records) = match Wal::open(path, raw, durability) {
            Ok(p) => p,
            Err(e) => {
                return Err(e);
            },
        };
        let n = match db.replay(&records, lsn, fl) {
            Ok(n) => n,
            Err(e) => {
                return Err(e);
            },
        };
        let next = if lsn < u64::MAX {
            lsn + 1
        } else {
            lsn
        };
        if wal.next_lsn < next {
            wal.next_lsn = next;
        }
        db.wal = Some(wal);
        Ok((db, n))
    }

    /// What is to be written to the file of the log before the change before is answered
    /// for.
    pub fn take_log(&mut self) -> (r: Vec<u8>)
        requires
            old(self).wf(),
        ensures
            final(self).wf(),
            match old(self)@.log {
                Some(l) => r@ == l.tail && final(self)@ == (State {
                    log: Some(LogEnd { tail: Seq::empty(), ..l }),
                    ..old(self)@
                }),
                None => r@.len() == 0 && final(self)@ == old(self)@,
            },
    {
        let mut wal = None;
        std::mem::swap(&mut wal, &mut self.wal);
        match wal {
            Some(mut w) => {
                let r = w.take_tail();
                self.wal = Some(w);
                r
            },
            None => Vec::new(),
        }
    }

    /// How much of the log's file was good when it was opened, and how it is written.
    pub fn log_file(&self) -> (r: Option<(usize, Durability)>)
        ensures
            match self@.log {
                Some(l) => r matches Some((kept, durability)) && kept == l.kept && durability
                    == l.durability,
                None => r is None,
            },
    {
        match &self.wal {
            Some(w) => Some((w.kept, w.durability)),
            None => None,
        }
    }

    /// A snapshot of the tables, and the number of the record it is made after. The caller
    /// writes it to a file and then empties the log.
    pub fn snapshot(&self) -> (r: Result<(Vec<u8>, u64), Error>)
        requires
            self.wf(),
        ensures
            match r {
                Ok((b, lsn)) => self@.log is Some && lsn == last_number(self@.log) && b@
                    == snapshot_of(in_order(self@.tables), lsn),
                Err(e) => self@.log is None && e@
                    == "база открыта без каталога данных, снапшот некуда писать"@,
            },
    {
        match &self.wal {
            None => Err(
                err("база открыта без каталога данных, снапшот некуда писать".to_owned()),
            ),
            Some(w) => {
                let lsn = w.next_lsn - 1;
                Ok((encode_snapshot(&self.ordered(), lsn), lsn))
            },
        }
    }

    /// Empties the log after a snapshot: what its file then holds. The numbers go on.
    pub fn reset_log(&mut self) -> (r: Vec<u8>)
        requires
            old(self).wf(),
        ensures
            final(self).wf(),
            match old(self)@.log {
                Some(l) => r@ == wal_header() && final(self)@ == (State {
                    log: Some(LogEnd { tail: Seq::empty(), kept: 12, ..l }),
                    ..old(self)@
                }),
                None => r@.len() == 0 && final(self)@ == old(self)@,
            },
    {
        let mut wal = None;
        std::mem::swap(&mut wal, &mut self.wal);
        match wal {
            Some(mut w) => {
                let r = w.reset();
                self.wal = Some(w);
                r
            },
            None => Vec::new(),
        }
    }

    /// A snapshot for a replica that starts from nothing.
    pub fn snapshot_bytes(&self) -> (r: Vec<u8>)
        requires
            self.wf(),
        ensures
            r@ == snapshot_of(in_order(self@.tables), last_number(self@.log)),
    {
        let lsn = match &self.wal {
            Some(w) => w.next_lsn - 1,
            None => 0,
        };
        encode_snapshot(&self.ordered(), lsn)
    }

    /// Takes the tables of a snapshot in place of its own: the number of the record that it
    /// was made after.
    pub fn load_snapshot_bytes(&mut self, bytes: &[u8]) -> (r: Result<u64, Error>)
        requires
            old(self).wf(),
        ensures
            final(self).wf(),
            match r {
                Ok(lsn) => snapshot_in(bytes@) matches Ok((v, n)) && n == lsn && final(self)@
                    == (State { tables: restored(v, v.len()), ..old(self)@ }),
                Err(e) => snapshot_in(bytes@) == Err::<(Seq<Relation>, u64), Seq<char>>(e@)
                    && final(self)@ == old(self)@,
            },
    {
        let (tables, lsn) = match decode_snapshot(bytes) {
            Ok(p) => p,
            Err(e) => {
                return Err(e);
            },
        };
        self.tables = no_tables();
        assert(self@.tables =~= Map::<Seq<char>, Relation>::empty());
        self.put_tables(tables);
        Ok(lsn)
    }

    /// The records with a number above `after` among what the log's file holds.
    pub fn wal_since(&self, path: &str, raw: &[u8], after: u64) -> (r: Result<
        Vec<RawRecord>,
        Error,
    >)
        ensures
            match r {
                Ok(v) => raw_records(v@) == (if self@.log is Some {
                    later(wal_records(raw@), after)
                } else {
                    Seq::empty()
                }) && (self@.log is Some ==> wal_error(path@, raw@) is None),
                Err(e) => self@.log is Some && wal_error(path@, raw@) == Some(e@),
            },
    {
        match &self.wal {
            Some(_) => Wal::records_after(path, raw, after),
            None => {
                let v: Vec<RawRecord> = Vec::new();
                assert(raw_records(v@) =~= Seq::<(u64, Seq<u8>)>::empty());
                Ok(v)
            },
        }
    }
}

// --- statements -----------------------------------------------------------------------------------

/// Why names from the `i`-th on are no list of columns, each once.
pub open spec fn names_error(names: Seq<Seq<char>>, s: Seq<Attr>, i: nat) -> Option<Seq<char>>
    decreases names.len() - i,
{
    if i >= names.len() {
        None
    } else {
        match column_named(s, names[i as int]) {
            None => Some("нет колонки '"@ + names[i as int] + "'"@),
            Some(c) => if named_before(names, s, c, i) {
                Some("колонка '"@ + names[i as int] + "' указана дважды"@)
            } else {
                names_error(names, s, i + 1)
            },
        }
    }
}

/// Whether one of the first `i` names is that of a column.
pub open spec fn named_before(names: Seq<Seq<char>>, s: Seq<Attr>, c: usize, i: nat) -> bool {
    exists|j: int| 0 <= j < i && column_named(s, #[trigger] names[j]) == Some(c)
}

/// Where a column is named, from the `i`-th name on.
pub open spec fn place_of(names: Seq<Seq<char>>, s: Seq<Attr>, c: usize, i: nat) -> nat
    decreases names.len() - i,
{
    if i >= names.len() || column_named(s, names[i as int]) == Some(c) {
        i
    } else {
        place_of(names, s, c, i + 1)
    }
}

/// The values of a row in the order of the schema; values behind those that have a name are
/// left out. A row with fewer values than there are names stays as it is.
pub open spec fn reordered_row(row: Seq<Cell>, names: Seq<Seq<char>>, s: Seq<Attr>) -> Seq<Cell> {
    if row.len() < names.len() {
        row
    } else {
        Seq::new(s.len(), |c: int| row[place_of(names, s, c as usize, 0) as int])
    }
}

/// Rows whose values are in the order of some names, in the order of the schema.
pub open spec fn reordered(
    table: Seq<char>,
    names: Seq<Seq<char>>,
    rows: Seq<Seq<Cell>>,
    m: Map<Seq<char>, Relation>,
) -> Result<Seq<Seq<Cell>>, Seq<char>> {
    match schema_in(m, table) {
        None => Err(not_found(table)),
        Some(s) => if names.len() != s.len() {
            Err(
                "перечислено "@ + dec(names.len() as int) + " колонок из "@ + dec(s.len() as int)
                    + ": INSERT без части колонок не поддерживается (NULL нет)"@,
            )
        } else {
            match names_error(names, s, 0) {
                Some(e) => Err(e),
                None => Ok(Seq::new(rows.len(), |i: int| reordered_row(rows[i], names, s))),
            }
        },
    }
}

pub open spec fn shown_tables(v: Seq<Relation>) -> Answer {
    Answer {
        columns: seq!["name"@, "rows"@],
        types: seq![DataType::Str, DataType::I64],
        rows: v.map_values(
            |t: Relation| seq![Cell::Str(t.name), Cell::I64((t.rows as usize) as i64)],
        ),
    }
}

pub open spec fn described(s: Seq<Attr>) -> Answer {
    Answer {
        columns: seq!["column"@, "type"@],
        types: seq![DataType::Str, DataType::Str],
        rows: s.map_values(
            |a: Attr| seq![Cell::Str(a.name), Cell::Str(crate::column::name_of_type(a.ty))],
        ),
    }
}

/// The answer to a query over the tables; one that reads no table reads one row.
pub open spec fn answered<F: Floats>(q: Query, m: Map<Seq<char>, Relation>, fl: F) -> Result<
    Answer,
    Seq<char>,
> {
    match q.table {
        None => selected(q, Seq::empty(), 1, fl),
        Some(name) => match table_named(m, name) {
            None => Err(not_found(name)),
            Some(t) => selected(q, t.columns, t.rows, fl),
        },
    }
}

/// What a statement does, and the answer to it.
pub open spec fn ran<F: Floats>(st: State, c: Command, fl: F) -> (Result<Answer, Seq<char>>, State) {
    match c {
        Command::CreateTable { name, schema, if_not_exists } => if if_not_exists && table_named(
            st.tables,
            name,
        ) is Some {
            (Ok(message_answer("таблица '"@ + name + "' уже есть"@)), st)
        } else {
            let (r, st1) = created(st, name, schema);
            (
                match r {
                    Err(e) => Err(e),
                    Ok(_) => Ok(message_answer("таблица '"@ + name + "' создана"@)),
                },
                st1,
            )
        },
        Command::DropTable { name, if_exists } => {
            let (r, st1) = dropped(st, name);
            (
                match r {
                    Err(e) => Err(e),
                    Ok(was) => if !was && !if_exists {
                        Err(not_found(name))
                    } else {
                        Ok(message_answer("таблица '"@ + name + "' удалена"@))
                    },
                },
                st1,
            )
        },
        Command::Insert { table, columns, rows } => {
            let rows = match columns {
                None => Ok(rows),
                Some(names) => reordered(table, names, rows, st.tables),
            };
            match rows {
                Err(e) => (Err(e), st),
                Ok(rows) => {
                    let (r, st1) = put_rows(st, table, rows, fl);
                    (
                        match r {
                            Err(e) => Err(e),
                            Ok(n) => Ok(message_answer("вставлено строк: "@ + dec(n as int))),
                        },
                        st1,
                    )
                },
            }
        },
        Command::Select(q) => (answered(q, st.tables, fl), st),
        Command::ShowTables => (Ok(shown_tables(in_order(st.tables))), st),
        Command::Describe(name) => (
            match schema_in(st.tables, name) {
                None => Err(not_found(name)),
                Some(s) => Ok(described(s)),
            },
            st,
        ),
    }
}

pub proof fn lemma_place(names: Seq<Seq<char>>, s: Seq<Attr>, c: usize, i: nat, p: nat)
    requires
        i <= p < names.len(),
        column_named(s, names[p as int]) == Some(c),
        forall|j: int| i <= j < p ==> column_named(s, #[trigger] names[j]) != Some(c),
    ensures
        place_of(names, s, c, i) == p,
    decreases p - i,
{
    if i < p {
        assert(column_named(s, names[i as int]) != Some(c));
        lemma_place(names, s, c, i + 1, p);
    }
}

/// Names of as many different columns as there are name them all.
proof fn lemma_all_named(names: Seq<Seq<char>>, s: Seq<Attr>, c: usize)
    requires
        names.len() == s.len(),
        c < s.len(),
        forall|i: int|
            0 <= i < names.len() ==> (column_named(s, #[trigger] names[i]) matches Some(k) && k
                < s.len()),
        forall|i: int, j: int|
            0 <= i < j < names.len() ==> column_named(s, #[trigger] names[i]) != column_named(
                s,
                #[trigger] names[j],
            ),
    ensures
        named_before(names, s, c, names.len()),
{
    let n = s.len() as int;
    let cols = Seq::new(names.len(), |i: int| column_named(s, names[i])->0 as int);
    let all = vstd::set_lib::set_int_range(0, n);
    assert forall|i: int, j: int| 0 <= i < cols.len() && 0 <= j < cols.len() && i != j implies cols[i]
        != cols[j] by {
        if i < j {
            assert(column_named(s, names[i]) != column_named(s, names[j]));
        } else {
            assert(column_named(s, names[j]) != column_named(s, names[i]));
        }
    }
    cols.unique_seq_to_set();
    vstd::set_lib::lemma_int_range(0, n);
    assert(cols.to_set().subset_of(all)) by {
        assert forall|x: int| cols.to_set().contains(x) implies all.contains(x) by {
            let i = choose|i: int| 0 <= i < cols.len() && cols[i] == x;
            assert(column_named(s, names[i]) is Some);
        }
    }
    vstd::seq_lib::seq_to_set_is_finite(cols);
    vstd::set_lib::lemma_subset_equality(cols.to_set(), all);
    assert(all.contains(c as int));
    assert(cols.to_set().contains(c as int));
    let i = choose|i: int| 0 <= i < cols.len() && cols[i] == c;
    assert(column_named(s, names[i]) == Some(c));
}

/// Puts the values of rows, which are in the order of some names, in the order of the
/// schema.
fn reorder(table: &str, names: &Vec<String>, rows: &Vec<Vec<Value>>, db: &Database) -> (r: Result<
    Vec<Vec<Value>>,
    Error,
>)
    ensures
        match r {
            Ok(v) => reordered(table@, strings(names@), cell_rows(rows@), db@.tables) == Ok::<
                Seq<Seq<Cell>>,
                Seq<char>,
            >(cell_rows(v@)),
            Err(e) => reordered(table@, strings(names@), cell_rows(rows@), db@.tables) == Err::<
                Seq<Seq<Cell>>,
                Seq<char>,
            >(e@),
        },
{
    let schema = match db.schema_of(table) {
        Some(s) => s,
        None => {
            return Err(err(text3("таблица '", table, "' не найдена")));
        },
    };
    if names.len() != schema.len() {
        return Err(
            err(
                text5(
                    "перечислено ",
                    dec_usize(names.len()).as_str(),
                    " колонок из ",
                    dec_usize(schema.len()).as_str(),
                    ": INSERT без части колонок не поддерживается (NULL нет)",
                ),
            ),
        );
    }
    let ghost t = strings(names@);
    let ghost s = schema@;
    let n: usize = names.len();
    let mut pos: Vec<usize> = Vec::new();
    while pos.len() < n
        invariant
            pos@.len() <= n,
            forall|c: int| 0 <= c < pos@.len() ==> #[trigger] pos@[c] == n,
        decreases n - pos.len(),
    {
        pos.push(n);
    }
    let mut i: usize = 0;
    while i < n
        invariant
            i <= n,
            n == names@.len(),
            n == s.len(),
            s == schema@,
            t == strings(names@),
            pos@.len() == n,
            schema_in(db@.tables, table@) == Some(s),
            names_error(t, s, 0) == names_error(t, s, i as nat),
            forall|k: int|
                0 <= k < i ==> (column_named(s, #[trigger] t[k]) matches Some(c) && c < n && pos@[c as int]
                    == k),
            forall|c: int|
                0 <= c < n && #[trigger] pos@[c] != n ==> pos@[c] < i && column_named(
                    s,
                    t[pos@[c] as int],
                ) == Some(c as usize),
        decreases n - i,
    {
        let name = names[i].as_str();
        assert(t[i as int] == name@);
        let target = match schema.index_of(name) {
            Some(c) => c,
            None => {
                return Err(err(text3("нет колонки '", name, "'")));
            },
        };
        if pos[target] != n {
            assert(column_named(s, t[pos@[target as int] as int]) == Some(target));
            assert(named_before(t, s, target, i as nat));
            return Err(err(text3("колонка '", name, "' указана дважды")));
        }
        assert(!named_before(t, s, target, i as nat)) by {
            if named_before(t, s, target, i as nat) {
                let j = choose|j: int|
                    0 <= j < i && column_named(s, #[trigger] t[j]) == Some(target);
                assert(pos@[target as int] == j);
            }
        }
        pos.set(target, i);
        i += 1;
    }
    proof {
        assert forall|a: int, b: int| 0 <= a < b < n implies column_named(s, #[trigger] t[a])
            != column_named(s, #[trigger] t[b]) by {
            if column_named(s, t[a]) == column_named(s, t[b]) {
                let c = column_named(s, t[a])->0;
                assert(pos@[c as int] == a);
                assert(pos@[c as int] == b);
            }
        }
        assert forall|c: int| 0 <= c < n implies #[trigger] pos@[c] == place_of(
            t,
            s,
            c as usize,
            0,
        ) && pos@[c] < n by {
            lemma_all_named(t, s, c as usize);
            let j = choose|j: int|
                0 <= j < t.len() && column_named(s, #[trigger] t[j]) == Some(c as usize);
            assert(pos@[c] == j);
            assert forall|k: int| 0 <= k < j implies column_named(s, #[trigger] t[k]) != Some(
                c as usize,
            ) by {
                if column_named(s, t[k]) == Some(c as usize) {
                    assert(pos@[c] == k);
                }
            }
            lemma_place(t, s, c as usize, 0, j as nat);
        }
    }
    let mut out: Vec<Vec<Value>> = Vec::new();
    let mut k: usize = 0;
    while k < rows.len()
        invariant
            k <= rows.len(),
            n == s.len(),
            n == t.len(),
            pos@.len() == n,
            forall|c: int|
                0 <= c < n ==> #[trigger] pos@[c] == place_of(t, s, c as usize, 0) && pos@[c] < n,
            out@.len() == k,
            forall|j: int|
                0 <= j < k ==> cells((#[trigger] out@[j])@) == reordered_row(
                    cells(rows@[j]@),
                    t,
                    s,
                ),
        decreases rows.len() - k,
    {
        let row = &rows[k];
        let x = if row.len() < n {
            crate::column::copy_row(row)
        } else {
            let mut x: Vec<Value> = Vec::new();
            let mut c: usize = 0;
            while c < n
                invariant
                    c <= n,
                    row@.len() >= n,
                    pos@.len() == n,
                    forall|c: int|
                        0 <= c < n ==> #[trigger] pos@[c] == place_of(t, s, c as usize, 0)
                            && pos@[c] < n,
                    x@.len() == c,
                    forall|j: int|
                        0 <= j < c ==> (#[trigger] x@[j])@ == row@[place_of(
                            t,
                            s,
                            j as usize,
                            0,
                        ) as int]@,
                decreases n - c,
            {
                x.push(row[pos[c]].clone());
                c += 1;
            }
            proof {
                let want = reordered_row(cells(row@), t, s);
                assert forall|c: int| 0 <= c < n implies cells(x@)[c] == #[trigger] want[c] by {
                    assert(pos@[c] < n);
                    assert(x@[c]@ == row@[pos@[c] as int]@);
                }
                assert(cells(x@) =~= want);
            }
            x
        };
        out.push(x);
        k += 1;
    }
    assert(cell_rows(out@) =~= Seq::new(
        rows@.len(),
        |i: int| reordered_row(cell_rows(rows@)[i], t, s),
    ));
    Ok(out)
}

fn two_texts(a: &str, b: &str) -> (r: Vec<String>)
    ensures
        strings(r@) == seq![a@, b@],
{
    let mut r: Vec<String> = Vec::new();
    r.push(a.to_owned());
    r.push(b.to_owned());
    assert(strings(r@) =~= seq![a@, b@]);
    r
}

fn two_values(a: Value, b: Value) -> (r: Vec<Value>)
    ensures
        cells(r@) == seq![a@, b@],
{
    let mut r: Vec<Value> = Vec::new();
    r.push(a);
    r.push(b);
    assert(cells(r@) =~= seq![a@, b@]);
    r
}

impl Database {
    /// Plans a text and runs it.
    pub fn execute<F: Floats>(&mut self, query: &str, fl: &F) -> (r: Result<QueryResult, Error>)
        requires
            old(self).wf(),
            fl.exact(),
        ensures
            final(self).wf(),
            match planned(query@, *old(self), *fl) {
                Err(m) => (r matches Err(e) && e@ == m) && final(self)@ == old(self)@,
                Ok(c) => final(self)@ == ran(old(self)@, c, *fl).1 && match r {
                    Ok(a) => ran(old(self)@, c, *fl).0 == Ok::<Answer, Seq<char>>(a@),
                    Err(e) => ran(old(self)@, c, *fl).0 == Err::<Answer, Seq<char>>(e@),
                },
            },
    {
        match plan(query, self, fl) {
            Ok(stmt) => self.run(stmt, fl),
            Err(e) => Err(e),
        }
    }

    fn show_tables(&self) -> (r: QueryResult)
        requires
            self.wf(),
        ensures
            r@ == shown_tables(in_order(self@.tables)),
    {
        let v = self.ordered();
        let ghost t = relations_of(v@);
        let columns = two_texts("name", "rows");
        let types: Vec<DataType> = vec![DataType::Str, DataType::I64];
        let mut rows: Vec<Vec<Value>> = Vec::new();
        let mut i: usize = 0;
        while i < v.len()
            invariant
                i <= v.len(),
                t == relations_of(v@),
                rows@.len() == i,
                forall|k: int|
                    0 <= k < i ==> cells((#[trigger] rows@[k])@) == seq![
                        Cell::Str(t[k].name),
                        Cell::I64((t[k].rows as usize) as i64),
                    ],
            decreases v.len() - i,
        {
            rows.push(two_values(Value::Str(v[i].name.clone()), Value::I64(v[i].nrows as i64)));
            i += 1;
        }
        let r = QueryResult { columns, types, rows };
        assert(r.types@ =~= seq![DataType::Str, DataType::I64]);
        assert(cell_rows(r.rows@) =~= shown_tables(t).rows);
        r
    }

    fn describe(&self, name: &str) -> (r: Result<QueryResult, Error>)
        ensures
            match schema_in(self@.tables, name@) {
                None => r matches Err(e) && e@ == not_found(name@),
                Some(s) => r matches Ok(a) && a@ == described(s),
            },
    {
        let t = match self.table(name) {
            Some(t) => t,
            None => {
                return Err(err(text3("таблица '", name, "' не найдена")));
            },
        };
        let ghost s = t.schema@;
        let columns = two_texts("column", "type");
        let types: Vec<DataType> = vec![DataType::Str, DataType::Str];
        let mut rows: Vec<Vec<Value>> = Vec::new();
        let mut i: usize = 0;
        while i < t.schema.fields.len()
            invariant
                i <= t.schema.fields.len(),
                s == t.schema@,
                rows@.len() == i,
                forall|k: int|
                    0 <= k < i ==> cells((#[trigger] rows@[k])@) == seq![
                        Cell::Str(s[k].name),
                        Cell::Str(crate::column::name_of_type(s[k].ty)),
                    ],
            decreases t.schema.fields.len() - i,
        {
            let f = &t.schema.fields[i];
            rows.push(two_values(Value::Str(f.name.clone()), Value::Str(f.ty.name())));
            i += 1;
        }
        let r = QueryResult { columns, types, rows };
        assert(r.types@ =~= seq![DataType::Str, DataType::Str]);
        assert(cell_rows(r.rows@) =~= described(s).rows);
        Ok(r)
    }

    fn answer<F: Floats>(&self, q: &Select, fl: &F) -> (r: Result<QueryResult, Error>)
        requires
            self.wf(),
            fl.exact(),
        ensures
            match r {
                Ok(a) => answered(q@, self@.tables, *fl) == Ok::<Answer, Seq<char>>(a@),
                Err(e) => answered(q@, self@.tables, *fl) == Err::<Answer, Seq<char>>(e@),
            },
    {
        match &q.table {
            None => run_constant(q, fl),
            Some(name) => match self.table(name.as_str()) {
                Some(t) => run_select(q, t, fl),
                None => Err(err(text3("таблица '", name.as_str(), "' не найдена"))),
            },
        }
    }

    /// Runs a statement.
    pub fn run<F: Floats>(&mut self, stmt: Statement, fl: &F) -> (r: Result<QueryResult, Error>)
        requires
            old(self).wf(),
            fl.exact(),
        ensures
            final(self).wf(),
            final(self)@ == ran(old(self)@, stmt@, *fl).1,
            match r {
                Ok(a) => ran(old(self)@, stmt@, *fl).0 == Ok::<Answer, Seq<char>>(a@),
                Err(e) => ran(old(self)@, stmt@, *fl).0 == Err::<Answer, Seq<char>>(e@),
            },
    {
        match stmt {
            Statement::CreateTable { name, schema, if_not_exists } => {
                if if_not_exists && self.table(name.as_str()).is_some() {
                    let text = text3("таблица '", name.as_str(), "' уже есть");
                    return Ok(QueryResult::message(text.as_str()));
                }
                match self.create_table(name.as_str(), schema) {
                    Err(e) => Err(e),
                    Ok(_) => {
                        let text = text3("таблица '", name.as_str(), "' создана");
                        Ok(QueryResult::message(text.as_str()))
                    },
                }
            },
            Statement::DropTable { name, if_exists } => match self.drop_table(name.as_str()) {
                Err(e) => Err(e),
                Ok(was) => {
                    if !was && !if_exists {
                        return Err(err(text3("таблица '", name.as_str(), "' не найдена")));
                    }
                    let text = text3("таблица '", name.as_str(), "' удалена");
                    Ok(QueryResult::message(text.as_str()))
                },
            },
            Statement::Insert { table, columns, rows } => {
                let rows = match &columns {
                    None => rows,
                    Some(names) => match reorder(table.as_str(), names, &rows, self) {
                        Ok(v) => v,
                        Err(e) => {
                            return Err(e);
                        },
                    },
                };
                match self.insert_rows(table.as_str(), &rows, fl) {
                    Err(e) => Err(e),
                    Ok(n) => {
                        let text = text2("вставлено строк: ", dec_usize(n).as_str());
                        Ok(QueryResult::message(text.as_str()))
                    },
                }
            },
            Statement::Select(q) => self.answer(&q, fl),
            Statement::ShowTables => Ok(self.show_tables()),
            Statement::Describe(name) => self.describe(name.as_str()),
        }
    }
}

/// A table with a name of its own, put among tables in the order of their names.
fn put_table<'a>(v: &mut Vec<&'a Table>, t: &'a Table)
    requires
        ascending(relations_of(old(v)@)),
        forall|i: int| 0 <= i < old(v)@.len() ==> (#[trigger] old(v)@[i]).name@ != t.name@,
    ensures
        ascending(relations_of(final(v)@)),
        final(v)@.contains(t),
        forall|x: &'a Table| #[trigger] final(v)@.contains(x) <==> old(v)@.contains(x) || x == t,
{
    let ghost v0 = v@;
    let ghost r0 = relations_of(v0);
    proof {
        assert forall|a: int, b: int| 0 <= a < b < v0.len() implies text_rank(
            #[trigger] keys(v0)[a],
            #[trigger] keys(v0)[b],
        ) != Rank::Greater by {
            assert(r0[a].name == v0[a].name@ && r0[b].name == v0[b].name@);
        }
    }
    let i: usize = put_in_order(v, t);
    proof {
        let w = v@;
        let r = relations_of(w);
        assert forall|a: int, b: int| 0 <= a < b < r.len() implies text_rank(
            (#[trigger] r[a]).name,
            (#[trigger] r[b]).name,
        ) == Rank::Less by {
            let (x, y) = (w[a].name@, w[b].name@);
            assert(keys(w)[a] == x && keys(w)[b] == y);
            lemma_text_rank_equal(x, y);
            if a != i && b != i {
                let k = if a < i {
                    a
                } else {
                    a - 1
                };
                let l = if b < i {
                    b
                } else {
                    b - 1
                };
                assert(w[a] == v0[k] && w[b] == v0[l]);
                assert(text_rank(r0[k].name, r0[l].name) == Rank::Less);
            } else if a != i {
                assert(w[a] == v0[a]);
            } else {
                assert(w[b] == v0[b - 1]);
            }
        }
        assert forall|x: &'a Table| #[trigger] w.contains(x) <==> v0.contains(x) || x == t by {
            if v0.contains(x) {
                let k = choose|k: int| 0 <= k < v0.len() && v0[k] == x;
                if k < i {
                    assert(w[k] == x);
                } else {
                    assert(w[k + 1] == x);
                }
            }
            if x == t {
                assert(w[i as int] == x);
            }
            if w.contains(x) {
                let k = choose|k: int| 0 <= k < w.len() && w[k] == x;
                if k < i {
                    assert(v0[k] == x);
                } else if k > i {
                    assert(v0[k - 1] == x);
                }
            }
        }
        assert(w[i as int] == t);
    }
}

} // verus!
