//! What holds of the database as a whole: what was answered for outlasts a restart, a
//! replica has what the primary node has, and a replica takes no changes from clients.
use crate::codec::{nameable, storable, storable_row, typed};
use crate::column::{cell_type, Cell};
use crate::db::{
    applied, base_of, created, dropped, in_order, known_in, last_number, lemma_in_order, lists,
    put_rows, ran, recovered, replayed, restored, schema_in, table_named, LogEnd, State,
};
use crate::float::Floats;
use crate::plan::Command;
use crate::sql::statement::schema_types;
use crate::storage::{
    change_bytes, framable, frame_bytes, frames, lemma_change_back, lemma_log_back, lemma_log_torn,
    lemma_snapshot_back, log_bytes, loggable, savable, snapshot_in, snapshot_of, wal_error,
    wal_header, wal_records, whole_frames, writable, Change, Durability,
};
use crate::table::{
    held_in_memory, inserted, inserted_many, lemma_insert_whole, lemma_inserted_many, row_error,
    stored_row, stored_rows, Attr, Relation,
};
use crate::text::lowercase;
use vstd::prelude::*;

verus! {

pub open spec fn storable_rows(rows: Seq<Seq<Cell>>) -> bool {
    rows.len() <= usize::MAX && forall|i: int|
        0 <= i < rows.len() ==> storable_row(#[trigger] rows[i])
}

// --- rows as they are stored -----------------------------------------------------------------

proof fn lemma_stored_fits<F: Floats>(t: Relation, row: Seq<Cell>, i: int, fl: F)
    requires
        t.aligned(),
        row.len() == t.columns.len(),
        0 <= i <= row.len(),
        row_error(t, row, i) is None,
    ensures
        row_error(t, stored_row(row, t.schema, fl), i) is None,
    decreases row.len() - i,
{
    if i < row.len() {
        lemma_stored_fits(t, row, i + 1, fl);
    }
}

proof fn lemma_stored_types<F: Floats>(t: Relation, row: Seq<Cell>, i: int, fl: F)
    requires
        t.aligned(),
        row.len() == t.columns.len(),
        0 <= i <= row.len(),
        row_error(t, row, i) is None,
    ensures
        forall|k: int|
            i <= k < row.len() ==> cell_type(#[trigger] stored_row(row, t.schema, fl)[k])
                == t.schema[k].ty,
    decreases row.len() - i,
{
    if i < row.len() {
        lemma_stored_types(t, row, i + 1, fl);
    }
}

/// A row that can be put into a table leaves the same table when it is put in as the table
/// stores it.
proof fn lemma_stored_row<F: Floats>(t: Relation, row: Seq<Cell>, fl: F)
    requires
        t.aligned(),
        inserted(t, row, fl) is Ok,
    ensures
        inserted(t, stored_row(row, t.schema, fl), fl) == inserted(t, row, fl),
        typed(stored_row(row, t.schema, fl), schema_types(t.schema)),
{
    let x = stored_row(row, t.schema, fl);
    lemma_stored_fits(t, row, 0, fl);
    lemma_stored_types(t, row, 0, fl);
    let a = inserted(t, row, fl)->Ok_0;
    let b = inserted(t, x, fl)->Ok_0;
    assert forall|k: int| 0 <= k < a.columns.len() implies a.columns[k] == #[trigger] b.columns[k] by {
        assert(t.columns[k].data_type() == t.schema[k].ty);
    }
    assert(a.columns =~= b.columns);
    assert forall|k: int| 0 <= k < x.len() implies cell_type(#[trigger] x[k]) == schema_types(
        t.schema,
    )[k] by {
        assert(cell_type(stored_row(row, t.schema, fl)[k]) == t.schema[k].ty);
    }
}

proof fn lemma_stored_many<F: Floats>(t: Relation, rows: Seq<Seq<Cell>>, k: nat, fl: F)
    requires
        t.aligned(),
        k <= rows.len(),
        storable_rows(rows),
        inserted_many(t, rows, k, fl).0 is None,
    ensures
        inserted_many(t, stored_rows(rows, t.schema, fl), k, fl) == inserted_many(t, rows, k, fl),
        inserted_many(t, rows, k, fl).1.aligned(),
        inserted_many(t, rows, k, fl).1.schema == t.schema,
        forall|i: int|
            0 <= i < k ==> typed(
                #[trigger] stored_rows(rows, t.schema, fl)[i],
                schema_types(t.schema),
            ),
    decreases k,
{
    if k > 0 {
        lemma_stored_many(t, rows, (k - 1) as nat, fl);
        lemma_inserted_many(t, rows, (k - 1) as nat, fl);
        let t1 = inserted_many(t, rows, (k - 1) as nat, fl).1;
        lemma_stored_row(t1, rows[k - 1], fl);
        assert(held_in_memory(rows[k - 1])) by {
            assert(storable_row(rows[k - 1]));
            assert forall|i: int| 0 <= i < rows[k - 1].len() implies ((
            #[trigger] rows[k - 1][i]) matches Cell::Vector(x) ==> x.len() <= usize::MAX) by {
                assert(storable(rows[k - 1][i]));
            }
        }
        lemma_insert_whole(t1, rows[k - 1], fl);
    }
}

// --- what is answered for ------------------------------------------------------------------------

/// Whether a change took a database from one state to another and stands in its log: the
/// tables are what the change makes of them, and the log has one more record, which holds
/// the change and can be read under the schemas of before.
pub open spec fn confirmed<F: Floats>(before: State, c: Change, after: State, fl: F) -> bool {
    &&& before.log is Some
    &&& loggable(c, known_in(before.tables))
    &&& change_bytes(c).len() <= u32::MAX
    &&& applied(before.tables, c, fl) == (None::<Seq<char>>, after.tables)
    &&& before.log->0.next < u64::MAX
    &&& after == State {
        tables: after.tables,
        log: Some(
            LogEnd {
                next: (before.log->0.next + 1) as u64,
                tail: before.log->0.tail + frame_bytes(before.log->0.next, change_bytes(c)),
                ..before.log->0
            },
        ),
        ..before
    }
}

/// A table that was created is in memory and in the log.
pub proof fn lemma_create_confirmed<F: Floats>(st: State, name: Seq<char>, schema: Seq<Attr>, fl: F)
    requires
        st.log is Some,
        writable(name),
        nameable(schema),
        created(st, name, schema).0 is Ok,
    ensures
        confirmed(
            st,
            Change::CreateTable { name, schema },
            created(st, name, schema).1,
            fl,
        ),
{
}

/// A table that was dropped is gone from memory, and the log says so.
pub proof fn lemma_drop_confirmed<F: Floats>(st: State, name: Seq<char>, fl: F)
    requires
        st.log is Some,
        writable(name),
        dropped(st, name).0 == Ok::<bool, Seq<char>>(true),
    ensures
        confirmed(st, Change::DropTable { name }, dropped(st, name).1, fl),
{
}

/// Rows that were inserted are in memory and, as the table stores them, in the log.
pub proof fn lemma_insert_confirmed<F: Floats>(
    st: State,
    name: Seq<char>,
    rows: Seq<Seq<Cell>>,
    fl: F,
)
    requires
        st.log is Some,
        writable(name),
        storable_rows(rows),
        table_named(st.tables, name) matches Some(t) ==> t.aligned(),
        put_rows(st, name, rows, fl).0 is Ok,
    ensures
        put_rows(st, name, rows, fl).0 == Ok::<nat, Seq<char>>(rows.len()),
        confirmed(
            st,
            Change::Insert {
                table: name,
                rows: stored_rows(rows, schema_in(st.tables, name)->0, fl),
            },
            put_rows(st, name, rows, fl).1,
            fl,
        ),
{
    let t = table_named(st.tables, name)->0;
    let s = t.schema;
    let kept = stored_rows(rows, s, fl);
    lemma_stored_many(t, rows, rows.len(), fl);
    assert forall|i: int| 0 <= i < kept.len() implies storable_row(#[trigger] kept[i]) && typed(
        kept[i],
        schema_types(s),
    ) by {
        assert(storable_row(rows[i]));
        assert forall|k: int| 0 <= k < kept[i].len() implies storable(#[trigger] kept[i][k]) by {
            assert(storable(rows[i][k]));
        }
    }
    let c = Change::Insert { table: name, rows: kept };
    let m1 = put_rows(st, name, rows, fl).1.tables;
    assert(applied(st.tables, c, fl) == (None::<Seq<char>>, m1));
    lemma_change_back(c, known_in(m1));
}

// --- a restart ---------------------------------------------------------------------------------------

/// What changes make of the tables, one after another.
pub open spec fn history<F: Floats>(
    m: Map<Seq<char>, Relation>,
    cs: Seq<Change>,
    n: nat,
    fl: F,
) -> Map<Seq<char>, Relation>
    decreases n,
{
    if n == 0 || n > cs.len() {
        m
    } else {
        applied(history(m, cs, (n - 1) as nat, fl), cs[n - 1], fl).1
    }
}

/// Whether changes can be made one after another and written to a log.
pub open spec fn in_turn<F: Floats>(m: Map<Seq<char>, Relation>, cs: Seq<Change>, fl: F) -> bool {
    forall|i: int|
        0 <= i < cs.len() ==> {
            let now = history(m, cs, i as nat, fl);
            &&& loggable(#[trigger] cs[i], known_in(now))
            &&& change_bytes(cs[i]).len() <= u32::MAX
            &&& applied(now, cs[i], fl).0 is None
        }
}

/// The records of some changes, numbered from `first`.
pub open spec fn records_of(cs: Seq<Change>, first: u64) -> Seq<(u64, Seq<u8>)> {
    Seq::new(cs.len(), |i: int| ((first + i) as u64, change_bytes(cs[i])))
}

/// A record more, and the change in it is made.
proof fn lemma_replay_one<F: Floats>(
    m: Map<Seq<char>, Relation>,
    recs: Seq<(u64, Seq<u8>)>,
    n: nat,
    after: u64,
    now: Map<Seq<char>, Relation>,
    count: nat,
    c: Change,
    fl: F,
)
    requires
        0 < n <= recs.len(),
        replayed(m, recs, (n - 1) as nat, after, fl) == Ok::<
            (Map<Seq<char>, Relation>, nat),
            Seq<char>,
        >((now, count)),
        recs[n - 1].0 > after,
        recs[n - 1].1 == change_bytes(c),
        loggable(c, known_in(now)),
        applied(now, c, fl).0 is None,
    ensures
        replayed(m, recs, n, after, fl) == Ok::<(Map<Seq<char>, Relation>, nat), Seq<char>>(
            (applied(now, c, fl).1, count + 1),
        ),
{
    lemma_change_back(c, known_in(now));
}

/// Records that the snapshot has already, and then those of changes: the changes are made.
proof fn lemma_replay<F: Floats>(
    m: Map<Seq<char>, Relation>,
    passed: Seq<(u64, Seq<u8>)>,
    cs: Seq<Change>,
    first: u64,
    n: nat,
    fl: F,
)
    requires
        in_turn(m, cs, fl),
        n <= cs.len(),
        first >= 1,
        first + cs.len() <= u64::MAX,
        forall|i: int| 0 <= i < passed.len() ==> (#[trigger] passed[i]).0 < first,
    ensures
        replayed(m, passed + records_of(cs, first), passed.len() + n, (first - 1) as u64, fl) == Ok::<
            (Map<Seq<char>, Relation>, nat),
            Seq<char>,
        >((history(m, cs, n, fl), n)),
    decreases n,
{
    let recs = passed + records_of(cs, first);
    if n > 0 {
        lemma_replay(m, passed, cs, first, (n - 1) as nat, fl);
        let now = history(m, cs, (n - 1) as nat, fl);
        let c = cs[n - 1];
        assert(loggable(c, known_in(now)));
        assert(recs[passed.len() + n - 1] == ((first + (n - 1)) as u64, change_bytes(c)));
        lemma_replay_one(
            m,
            recs,
            passed.len() + n,
            (first - 1) as u64,
            now,
            (n - 1) as nat,
            c,
            fl,
        );
    } else {
        assert forall|i: int| 0 <= i < passed.len() implies (#[trigger] recs[i]).0 <= first - 1 by {
            assert(recs[i] == passed[i]);
        }
        lemma_replay_passed(m, recs, passed.len(), (first - 1) as u64, fl);
    }
}

proof fn lemma_history_prefix<F: Floats>(
    m: Map<Seq<char>, Relation>,
    cs: Seq<Change>,
    k: nat,
    n: nat,
    fl: F,
)
    requires
        n <= k <= cs.len(),
    ensures
        history(m, cs.take(k as int), n, fl) == history(m, cs, n, fl),
    decreases n,
{
    if n > 0 {
        lemma_history_prefix(m, cs, k, (n - 1) as nat, fl);
    }
}

/// A change more can be made where it can be made of what the others left.
proof fn lemma_one_more<F: Floats>(
    m: Map<Seq<char>, Relation>,
    cs: Seq<Change>,
    c: Change,
    fl: F,
)
    requires
        in_turn(m, cs, fl),
        loggable(c, known_in(history(m, cs, cs.len(), fl))),
        change_bytes(c).len() <= u32::MAX,
        applied(history(m, cs, cs.len(), fl), c, fl).0 is None,
    ensures
        in_turn(m, cs.push(c), fl),
        history(m, cs.push(c), cs.len() + 1, fl) == applied(
            history(m, cs, cs.len(), fl),
            c,
            fl,
        ).1,
{
    let all = cs.push(c);
    assert(all.take(cs.len() as int) =~= cs);
    lemma_history_prefix(m, all, cs.len(), cs.len(), fl);
    assert forall|i: int| 0 <= i < all.len() implies {
        let now = history(m, all, i as nat, fl);
        &&& loggable(#[trigger] all[i], known_in(now))
        &&& change_bytes(all[i]).len() <= u32::MAX
        &&& applied(now, all[i], fl).0 is None
    } by {
        lemma_history_prefix(m, all, cs.len(), i as nat, fl);
        if i < cs.len() {
            assert(all[i] == cs[i]);
            assert(loggable(cs[i], known_in(history(m, cs, i as nat, fl))));
        }
    }
}

/// The log of one change more is one frame longer.
proof fn lemma_one_frame_more(
    passed: Seq<(u64, Seq<u8>)>,
    cs: Seq<Change>,
    c: Change,
    first: u64,
)
    requires
        first + cs.len() <= u64::MAX,
    ensures
        log_bytes(passed + records_of(cs.push(c), first)) == log_bytes(
            passed + records_of(cs, first),
        ) + frame_bytes((first + cs.len()) as u64, change_bytes(c)),
{
    let recs = passed + records_of(cs.push(c), first);
    assert(recs.drop_last() =~= passed + records_of(cs, first));
    assert(recs.last() == ((first + cs.len()) as u64, change_bytes(c)));
}

/// A snapshot that was made is what a restart begins with.
pub proof fn lemma_snapshot_base(tables: Seq<Relation>, lsn: u64, path: Seq<char>)
    requires
        tables.len() <= usize::MAX,
        forall|i: int| 0 <= i < tables.len() ==> savable(#[trigger] tables[i]),
    ensures
        base_of(Some((path, snapshot_of(tables, lsn)))) == Ok::<
            (Map<Seq<char>, Relation>, u64),
            Seq<char>,
        >((restored(tables, tables.len()), lsn)),
{
    lemma_snapshot_back(tables, lsn);
}

/// What a restart makes of a snapshot (or of none) and of a log that holds the changes
/// since: the tables as they were after the last change whose record is whole in the file,
/// wherever the file breaks off. The next number follows that of the last record.
pub proof fn lemma_restart<F: Floats>(
    snapshot: Option<(Seq<char>, Seq<u8>)>,
    m: Map<Seq<char>, Relation>,
    lsn: u64,
    cs: Seq<Change>,
    cut: nat,
    path: Seq<char>,
    d: Durability,
    fl: F,
)
    requires
        base_of(snapshot) == Ok::<(Map<Seq<char>, Relation>, u64), Seq<char>>((m, lsn)),
        in_turn(m, cs, fl),
        lsn + 1 + cs.len() <= u64::MAX,
        cut <= log_bytes(records_of(cs, (lsn + 1) as u64)).len(),
    ensures
        ({
            let recs = records_of(cs, (lsn + 1) as u64);
            let n = whole_frames(recs, cut);
            let raw = wal_header() + log_bytes(recs).take(cut as int);
            &&& n <= cs.len()
            &&& cut == log_bytes(recs).len() ==> n == cs.len()
            &&& recovered(snapshot, path, raw, d, fl) matches Ok((st, count)) && count == n
                && st.tables == history(m, cs, n, fl) && (st.log matches Some(l) && l.next == lsn
                + 1 + n && l.durability == d)
        }),
{
    let first = (lsn + 1) as u64;
    let recs = records_of(cs, first);
    assert(framable(recs)) by {
        assert forall|i: int| 0 <= i < recs.len() implies (#[trigger] recs[i]).1.len()
            <= u32::MAX by {
            assert(loggable(cs[i], known_in(history(m, cs, i as nat, fl))));
        }
    }
    lemma_log_torn(recs, cut);
    let n = whole_frames(recs, cut);
    let kept = recs.take(n as int);
    let part = log_bytes(recs).take(cut as int);
    let raw = wal_header() + part;
    lemma_opened(path, part);
    assert(wal_records(raw) == kept);
    let some = cs.take(n as int);
    assert(kept =~= records_of(some, first));
    assert(in_turn(m, some, fl)) by {
        assert forall|i: int| 0 <= i < some.len() implies {
            let now = history(m, some, i as nat, fl);
            &&& loggable(#[trigger] some[i], known_in(now))
            &&& change_bytes(some[i]).len() <= u32::MAX
            &&& applied(now, some[i], fl).0 is None
        } by {
            lemma_history_prefix(m, cs, n, i as nat, fl);
            assert(some[i] == cs[i]);
            assert(loggable(cs[i], known_in(history(m, cs, i as nat, fl))));
        }
    }
    let none = Seq::<(u64, Seq<u8>)>::empty();
    lemma_replay(m, none, some, first, n, fl);
    assert(none + kept =~= kept);
    lemma_history_prefix(m, cs, n, n, fl);
    if n > 0 {
        assert(kept.last() == recs[n - 1]);
    }
    if cut == log_bytes(recs).len() && recs.len() > 0 {
        assert(n == recs.len());
    }
}

/// Whether a database went through some states by changes that were answered for.
pub open spec fn went<F: Floats>(states: Seq<State>, cs: Seq<Change>, fl: F) -> bool {
    &&& states.len() == cs.len() + 1
    &&& forall|i: int|
        0 <= i < cs.len() ==> confirmed(states[i], #[trigger] cs[i], states[i + 1], fl)
}

/// All that was answered for stands in the log, in its order: the log has grown by just
/// the records of the changes, and the tables are what those changes make of the tables
/// there were.
pub proof fn lemma_log_complete<F: Floats>(states: Seq<State>, cs: Seq<Change>, fl: F)
    requires
        went(states, cs, fl),
        states[0].log is Some,
    ensures
        ({
            let first = states[0].log->0;
            let last = states.last().log->0;
            &&& in_turn(states[0].tables, cs, fl)
            &&& states.last().tables == history(states[0].tables, cs, cs.len(), fl)
            &&& last.next == first.next + cs.len()
            &&& last.tail == first.tail + log_bytes(records_of(cs, first.next))
        }),
    decreases cs.len(),
{
    let m = states[0].tables;
    let first = states[0].log->0;
    if cs.len() == 0 {
        assert(log_bytes(records_of(cs, first.next)) =~= Seq::<u8>::empty());
        assert(first.tail + log_bytes(records_of(cs, first.next)) =~= first.tail);
    } else {
        let n = (cs.len() - 1) as nat;
        let before = states.drop_last();
        let some = cs.drop_last();
        assert(went(before, some, fl)) by {
            assert forall|i: int| 0 <= i < some.len() implies confirmed(
                before[i],
                #[trigger] some[i],
                before[i + 1],
                fl,
            ) by {
                assert(confirmed(states[i], cs[i], states[i + 1], fl));
            }
        }
        lemma_log_complete(before, some, fl);
        let c = cs[n as int];
        assert(confirmed(states[n as int], c, states[n as int + 1], fl));
        assert(some.push(c) =~= cs);
        lemma_one_more(m, some, c, fl);
        let none = Seq::<(u64, Seq<u8>)>::empty();
        lemma_one_frame_more(none, some, c, first.next);
        assert(none + records_of(cs, first.next) =~= records_of(cs, first.next));
        assert(none + records_of(some, first.next) =~= records_of(some, first.next));
        assert(states.last().log->0.tail =~= first.tail + log_bytes(records_of(cs, first.next)));
    }
}

/// A file that begins as a log does is one.
proof fn lemma_opened(path: Seq<char>, part: Seq<u8>)
    ensures
        wal_error(path, wal_header() + part) is None,
        wal_records(wal_header() + part) == frames(part),
{
    vstd::bytes::lemma_auto_spec_u32_to_from_le_bytes();
    let raw = wal_header() + part;
    assert(raw.take(8) =~= crate::storage::wal_magic());
    assert(raw.subrange(8, 12) =~= crate::codec::u32_bytes(crate::storage::FORMAT_VERSION));
    assert(raw.skip(12) =~= part);
}

/// Records that are in the snapshot already change nothing when they are read again.
pub proof fn lemma_replay_passed<F: Floats>(
    m: Map<Seq<char>, Relation>,
    recs: Seq<(u64, Seq<u8>)>,
    n: nat,
    after: u64,
    fl: F,
)
    requires
        n <= recs.len(),
        forall|i: int| 0 <= i < n ==> (#[trigger] recs[i]).0 <= after,
    ensures
        replayed(m, recs, n, after, fl) == Ok::<(Map<Seq<char>, Relation>, nat), Seq<char>>((m, 0)),
    decreases n,
{
    if n > 0 {
        lemma_replay_passed(m, recs, (n - 1) as nat, after, fl);
    }
}

// --- a replica ------------------------------------------------------------------------------------------

proof fn lemma_restored_has(v: Seq<Relation>, n: nat, i: int)
    requires
        n <= v.len(),
        0 <= i < n,
        forall|a: int, b: int|
            0 <= a < b < v.len() ==> lowercase((#[trigger] v[a]).name) != lowercase(
                (#[trigger] v[b]).name,
            ),
    ensures
        restored(v, n).dom().contains(lowercase(v[i].name)),
        restored(v, n)[lowercase(v[i].name)] == v[i],
    decreases n,
{
    if i < n - 1 {
        lemma_restored_has(v, (n - 1) as nat, i);
        assert(lowercase(v[i].name) != lowercase(v[n - 1].name));
    }
}

proof fn lemma_restored_only(v: Seq<Relation>, n: nat, k: Seq<char>)
    requires
        n <= v.len(),
        restored(v, n).dom().contains(k),
    ensures
        exists|i: int| 0 <= i < n && lowercase((#[trigger] v[i]).name) == k,
    decreases n,
{
    if n > 0 {
        if k == lowercase(v[n - 1].name) {
            assert(lowercase(v[n - 1].name) == k);
        } else {
            lemma_restored_only(v, (n - 1) as nat, k);
            let i = choose|i: int| 0 <= i < n - 1 && lowercase((#[trigger] v[i]).name) == k;
            assert(lowercase(v[i].name) == k);
        }
    }
}

/// The tables of a database in order, put in one after another, are those tables.
pub proof fn lemma_restored(v: Seq<Relation>, m: Map<Seq<char>, Relation>)
    requires
        lists(v, m),
        forall|k: Seq<char>| #[trigger] m.dom().contains(k) ==> k == lowercase(m[k].name),
    ensures
        restored(v, v.len()) == m,
{
    let r = restored(v, v.len());
    assert forall|a: int, b: int| 0 <= a < b < v.len() implies lowercase((#[trigger] v[a]).name)
        != lowercase((#[trigger] v[b]).name) by {
        if lowercase(v[a].name) == lowercase(v[b].name) {
            assert(m[lowercase(v[a].name)] == v[a] && m[lowercase(v[b].name)] == v[b]);
            crate::text::lemma_text_rank_equal(v[a].name, v[b].name);
        }
    }
    assert forall|k: Seq<char>| r.dom().contains(k) <==> m.dom().contains(k) by {
        if r.dom().contains(k) {
            lemma_restored_only(v, v.len(), k);
            let i = choose|i: int| 0 <= i < v.len() && lowercase((#[trigger] v[i]).name) == k;
            assert(m.dom().contains(lowercase(v[i].name)));
        }
        if m.dom().contains(k) {
            assert(v.contains(m[k]));
            let i = choose|i: int| 0 <= i < v.len() && v[i] == m[k];
            lemma_restored_has(v, v.len(), i);
        }
    }
    assert forall|k: Seq<char>| #[trigger] r.dom().contains(k) implies r[k] == m[k] by {
        assert(m.dom().contains(k));
        assert(v.contains(m[k]));
        let i = choose|i: int| 0 <= i < v.len() && v[i] == m[k];
        lemma_restored_has(v, v.len(), i);
    }
    assert(r =~= m);
}

/// A replica that loads the snapshot of a primary node has the tables of that node, and
/// knows after which record.
pub proof fn lemma_bootstrap(v: Seq<Relation>, m: Map<Seq<char>, Relation>, lsn: u64)
    requires
        lists(v, m),
        forall|k: Seq<char>| #[trigger] m.dom().contains(k) ==> k == lowercase(m[k].name),
        v.len() <= usize::MAX,
        forall|i: int| 0 <= i < v.len() ==> savable(#[trigger] v[i]),
    ensures
        snapshot_in(snapshot_of(in_order(m), lsn)) matches Ok((w, n)) && n == lsn && restored(
            w,
            w.len(),
        ) == m,
{
    lemma_in_order(v, m);
    lemma_restored(v, m);
    lemma_snapshot_back(v, lsn);
}

/// A statement of a client changes nothing on a replica.
pub proof fn lemma_replica_unchanged<F: Floats>(st: State, c: Command, fl: F)
    requires
        st.read_only,
    ensures
        ran(st, c, fl).1 == st,
{
}

/// Where the tables take as much memory as they may, rows of a client are refused and
/// nothing changes.
pub proof fn lemma_memory_limit<F: Floats>(
    st: State,
    name: Seq<char>,
    rows: Seq<Seq<Cell>>,
    fl: F,
)
    requires
        0 < st.limit <= crate::db::used(st.tables),
    ensures
        put_rows(st, name, rows, fl).0 is Err,
        put_rows(st, name, rows, fl).1 == st,
{
}

/// A statement that only asks changes nothing.
pub proof fn lemma_question_unchanged<F: Floats>(st: State, c: Command, fl: F)
    requires
        c is Select || c is ShowTables || c is Describe,
    ensures
        ran(st, c, fl).1 == st,
{
}

// --- a node and its files ------------------------------------------------------------------------

/// A database and its files. What stands in the tail of the database's log is not in the
/// log file yet.
#[verifier::ext_equal]
pub struct Node {
    /// The snapshot, with what messages call its file.
    pub snapshot: Option<(Seq<char>, Seq<u8>)>,
    pub file: Seq<u8>,
    pub state: State,
}

impl Node {
    /// The log file once the tail is written to it.
    pub open spec fn log_file(self) -> Seq<u8> {
        self.file + self.state.log->0.tail
    }
}

/// What happens to a node.
pub enum Step {
    /// A change is made and answered for.
    Change(Change),
    /// The node is made a replica or a primary node, or may take more or less memory.
    Settings { read_only: bool, limit: u64 },
    /// The tail of the log goes to the file.
    Flush,
    /// A snapshot is written, and then the log is emptied, unless the node stops before.
    Save { path: Seq<char>, emptied: bool },
    /// The node is opened from its files, the tail written to the log.
    Reopen { path: Seq<char>, durability: Durability },
}

/// Whether the tables can be written to a snapshot: each stands under its name and is no
/// larger than memory can hold.
pub open spec fn savable_all(m: Map<Seq<char>, Relation>) -> bool {
    let v = in_order(m);
    &&& lists(v, m)
    &&& v.len() <= usize::MAX
    &&& forall|i: int| 0 <= i < v.len() ==> savable(#[trigger] v[i])
    &&& forall|k: Seq<char>| #[trigger] m.dom().contains(k) ==> k == lowercase(m[k].name)
}

/// Whether a step leads from one node to another.
pub open spec fn stepped<F: Floats>(a: Node, s: Step, b: Node, fl: F) -> bool {
    match s {
        Step::Change(c) => confirmed(a.state, c, b.state, fl) && b == (Node {
            state: b.state,
            ..a
        }),
        Step::Settings { read_only, limit } => b == (Node {
            state: State { read_only, limit, ..a.state },
            ..a
        }),
        Step::Flush => b == (Node {
            file: a.log_file(),
            state: State { log: Some(LogEnd { tail: Seq::empty(), ..a.state.log->0 }), ..a.state },
            ..a
        }),
        Step::Save { path, emptied } => {
            let image = snapshot_of(in_order(a.state.tables), last_number(a.state.log));
            let kept = Node { snapshot: Some((path, image)), ..a };
            savable_all(a.state.tables) && b == if emptied {
                Node {
                    file: wal_header(),
                    state: State {
                        log: Some(LogEnd { tail: Seq::empty(), kept: 12, ..a.state.log->0 }),
                        ..a.state
                    },
                    ..kept
                }
            } else {
                kept
            }
        },
        Step::Reopen { path, durability } => match recovered(
            a.snapshot,
            path,
            a.log_file(),
            durability,
            fl,
        ) {
            Ok((st, _)) => b == (Node {
                file: a.log_file().take(st.log->0.kept as int),
                state: st,
                ..a
            }),
            Err(_) => false,
        },
    }
}

/// Whether a node is one that was opened where there were no files.
pub open spec fn is_new<F: Floats>(n: Node, path: Seq<char>, d: Durability, fl: F) -> bool {
    &&& n.snapshot is None
    &&& n.file.len() == 0
    &&& recovered(None, path, Seq::empty(), d, fl) == Ok::<(State, nat), Seq<char>>((n.state, 0))
}

/// Whether steps lead from node to node.
pub open spec fn lived<F: Floats>(nodes: Seq<Node>, steps: Seq<Step>, fl: F) -> bool {
    &&& nodes.len() == steps.len() + 1
    &&& forall|i: int|
        0 <= i < steps.len() ==> stepped(nodes[i], #[trigger] steps[i], nodes[i + 1], fl)
}

/// Whether the files of a node hold its tables: the snapshot has those after record `lsn`,
/// and the log has records that are in the snapshot and then the changes since.
spec fn backs<F: Floats>(
    n: Node,
    m: Map<Seq<char>, Relation>,
    lsn: u64,
    passed: Seq<(u64, Seq<u8>)>,
    cs: Seq<Change>,
    fl: F,
) -> bool {
    &&& n.state.log is Some
    &&& base_of(n.snapshot) == Ok::<(Map<Seq<char>, Relation>, u64), Seq<char>>((m, lsn))
    &&& in_turn(m, cs, fl)
    &&& framable(passed)
    &&& forall|i: int| 0 <= i < passed.len() ==> (#[trigger] passed[i]).0 <= lsn
    &&& n.state.tables == history(m, cs, cs.len(), fl)
    &&& n.state.log->0.next == lsn + 1 + cs.len()
    &&& n.log_file() == wal_header() + log_bytes(passed + records_of(cs, (lsn + 1) as u64))
}

proof fn lemma_records_framable<F: Floats>(
    m: Map<Seq<char>, Relation>,
    passed: Seq<(u64, Seq<u8>)>,
    cs: Seq<Change>,
    first: u64,
    fl: F,
)
    requires
        in_turn(m, cs, fl),
        framable(passed),
    ensures
        framable(passed + records_of(cs, first)),
{
    let recs = passed + records_of(cs, first);
    assert forall|i: int| 0 <= i < recs.len() implies (#[trigger] recs[i]).1.len() <= u32::MAX by {
        if i < passed.len() {
            assert(recs[i] == passed[i]);
        } else {
            let k = i - passed.len();
            assert(loggable(cs[k], known_in(history(m, cs, k as nat, fl))));
        }
    }
}

/// From files that hold its tables a node comes up with those tables, and the numbers go on.
proof fn lemma_backed_opens<F: Floats>(
    n: Node,
    m: Map<Seq<char>, Relation>,
    lsn: u64,
    passed: Seq<(u64, Seq<u8>)>,
    cs: Seq<Change>,
    path: Seq<char>,
    d: Durability,
    fl: F,
)
    requires
        backs(n, m, lsn, passed, cs, fl),
    ensures
        recovered(n.snapshot, path, n.log_file(), d, fl) matches Ok((st, _)) && st.tables
            == n.state.tables && (st.log matches Some(l) && l.next == n.state.log->0.next
            && l.tail.len() == 0 && l.kept == n.log_file().len()),
{
    let first = (lsn + 1) as u64;
    let recs = passed + records_of(cs, first);
    let part = log_bytes(recs);
    let raw = n.log_file();
    lemma_records_framable(m, passed, cs, first, fl);
    lemma_opened(path, part);
    let none = Seq::<u8>::empty();
    lemma_log_back(recs, none);
    assert(part + none =~= part);
    assert(recs + frames(none) =~= recs);
    assert(raw.skip(12) =~= part) by {
        vstd::bytes::lemma_auto_spec_u32_to_from_le_bytes();
    }
    lemma_replay(m, passed, cs, first, cs.len(), fl);
    if cs.len() > 0 {
        assert(recs.last() == records_of(cs, first).last());
    } else if passed.len() > 0 {
        assert(recs.last() == passed.last());
    }
}

proof fn lemma_backed_changes<F: Floats>(
    a: Node,
    c: Change,
    b: Node,
    m: Map<Seq<char>, Relation>,
    lsn: u64,
    passed: Seq<(u64, Seq<u8>)>,
    cs: Seq<Change>,
    fl: F,
)
    requires
        backs(a, m, lsn, passed, cs, fl),
        stepped(a, Step::Change(c), b, fl),
    ensures
        backs(b, m, lsn, passed, cs.push(c), fl),
{
    let first = (lsn + 1) as u64;
    lemma_one_more(m, cs, c, fl);
    lemma_one_frame_more(passed, cs, c, first);
    let frame = frame_bytes(a.state.log->0.next, change_bytes(c));
    assert(b.log_file() =~= a.log_file() + frame);
    assert(b.log_file() =~= wal_header() + log_bytes(passed + records_of(cs.push(c), first)));
}

proof fn lemma_backed_saves<F: Floats>(
    a: Node,
    path: Seq<char>,
    emptied: bool,
    b: Node,
    m: Map<Seq<char>, Relation>,
    lsn: u64,
    passed: Seq<(u64, Seq<u8>)>,
    cs: Seq<Change>,
    fl: F,
)
    requires
        backs(a, m, lsn, passed, cs, fl),
        stepped(a, Step::Save { path, emptied }, b, fl),
    ensures
        ({
            let first = (lsn + 1) as u64;
            let old = if emptied {
                Seq::empty()
            } else {
                passed + records_of(cs, first)
            };
            backs(b, a.state.tables, (lsn + cs.len()) as u64, old, Seq::empty(), fl)
        }),
{
    let first = (lsn + 1) as u64;
    let none = Seq::<Change>::empty();
    let last = (lsn + cs.len()) as u64;
    let v = in_order(a.state.tables);
    lemma_snapshot_base(v, last, path);
    lemma_restored(v, a.state.tables);
    assert(records_of(none, (last + 1) as u64) =~= Seq::<(u64, Seq<u8>)>::empty());
    if emptied {
        let old = Seq::<(u64, Seq<u8>)>::empty();
        assert(old + records_of(none, (last + 1) as u64) =~= old);
        assert(b.log_file() =~= wal_header() + log_bytes(old));
    } else {
        let old = passed + records_of(cs, first);
        lemma_records_framable(m, passed, cs, first, fl);
        assert(old + records_of(none, (last + 1) as u64) =~= old);
        assert forall|i: int| 0 <= i < old.len() implies (#[trigger] old[i]).0 <= last by {
            if i < passed.len() {
                assert(old[i] == passed[i]);
            }
        }
    }
}

/// Whether the files of a node hold its tables.
spec fn backed<F: Floats>(n: Node, fl: F) -> bool {
    exists|
        m: Map<Seq<char>, Relation>,
        lsn: u64,
        passed: Seq<(u64, Seq<u8>)>,
        cs: Seq<Change>,
    |
        backs(n, m, lsn, passed, cs, fl)
}

proof fn lemma_backed_step<F: Floats>(a: Node, s: Step, b: Node, fl: F)
    requires
        backed(a, fl),
        stepped(a, s, b, fl),
    ensures
        backed(b, fl),
{
    let (m, lsn, passed, cs) = choose|
        m: Map<Seq<char>, Relation>,
        lsn: u64,
        passed: Seq<(u64, Seq<u8>)>,
        cs: Seq<Change>,
    |
        backs(a, m, lsn, passed, cs, fl);
    match s {
        Step::Change(c) => {
            lemma_backed_changes(a, c, b, m, lsn, passed, cs, fl);
        },
        Step::Settings { .. } | Step::Flush => {
            assert(b.log_file() =~= a.log_file());
            assert(backs(b, m, lsn, passed, cs, fl));
        },
        Step::Save { path, emptied } => {
            lemma_backed_saves(a, path, emptied, b, m, lsn, passed, cs, fl);
        },
        Step::Reopen { path, durability } => {
            lemma_backed_opens(a, m, lsn, passed, cs, path, durability, fl);
            assert(b.log_file() =~= a.log_file());
            assert(backs(b, m, lsn, passed, cs, fl));
        },
    }
}

proof fn lemma_backed<F: Floats>(
    nodes: Seq<Node>,
    steps: Seq<Step>,
    path: Seq<char>,
    d: Durability,
    fl: F,
)
    requires
        nodes.len() > 0,
        is_new(nodes[0], path, d, fl),
        lived(nodes, steps, fl),
    ensures
        backed(nodes.last(), fl),
    decreases steps.len(),
{
    if steps.len() == 0 {
        let n = nodes[0];
        let old = Seq::<(u64, Seq<u8>)>::empty();
        let none = Seq::<Change>::empty();
        assert(old + records_of(none, 1) =~= old);
        assert(n.log_file() =~= wal_header() + log_bytes(old));
        assert(backs(n, Map::empty(), 0, old, none, fl));
    } else {
        let some = steps.drop_last();
        let before = nodes.drop_last();
        assert forall|i: int| 0 <= i < some.len() implies stepped(
            before[i],
            #[trigger] some[i],
            before[i + 1],
            fl,
        ) by {
            assert(stepped(nodes[i], steps[i], nodes[i + 1], fl));
        }
        lemma_backed(before, some, path, d, fl);
        let i = steps.len() - 1;
        assert(stepped(nodes[i], steps[i], nodes[i + 1], fl));
        lemma_backed_step(before.last(), steps[i], nodes.last(), fl);
    }
}

/// Whatever changes, snapshots and restarts a node went through, the next restart gives the
/// tables that it has now, and the numbers go on where they are. The next number lies
/// above that of the record that the snapshot was made after.
pub proof fn lemma_node_outlasts<F: Floats>(
    nodes: Seq<Node>,
    steps: Seq<Step>,
    new_path: Seq<char>,
    new_durability: Durability,
    path: Seq<char>,
    d: Durability,
    fl: F,
)
    requires
        nodes.len() > 0,
        is_new(nodes[0], new_path, new_durability, fl),
        lived(nodes, steps, fl),
    ensures
        ({
            let n = nodes.last();
            &&& n.state.log is Some
            &&& recovered(n.snapshot, path, n.log_file(), d, fl) matches Ok((st, _)) && st.tables
                == n.state.tables && (st.log matches Some(l) && l.next == n.state.log->0.next)
            &&& base_of(n.snapshot) matches Ok((_, lsn)) && lsn < n.state.log->0.next
        }),
{
    lemma_backed(nodes, steps, new_path, new_durability, fl);
    let n = nodes.last();
    let (m, lsn, passed, cs) = choose|
        m: Map<Seq<char>, Relation>,
        lsn: u64,
        passed: Seq<(u64, Seq<u8>)>,
        cs: Seq<Change>,
    |
        backs(n, m, lsn, passed, cs, fl);
    lemma_backed_opens(n, m, lsn, passed, cs, path, d, fl);
}

} // verus!
