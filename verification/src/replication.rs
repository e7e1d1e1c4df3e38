//! A replica: it takes a snapshot of the primary node and then asks for the records of the
//! log that it does not have yet.
//!
//! Records are applied by the same code that a restart uses. A record whose number does not
//! follow the last one means that the primary node has cut its log: the replica then starts
//! anew from a snapshot.
use crate::db::laws::{history, in_turn};
use crate::db::{applied, known_in, Database, State};
use crate::float::Floats;
use crate::http::{decode_record, hex_text, lemma_hex_back, unhex, unhexed};
use crate::json::{
    field_of, items_of, items_under, json_count, json_field, json_in, json_of, json_tree, json_trees,
    str_under, text_under, Json, JsonNode,
};
use crate::storage::{change_bytes, decoded, lemma_change_back, loggable, schemas, Change};
use crate::table::Relation;
use crate::text::{
    contains, dec, dec_u128, dec_u64, err, holds, in_context, text2, text4, Error,
};
use serde_json::Value as JsonValue;
use vstd::prelude::*;
use vstd::string::*;

verus! {

broadcast use vstd::string::group_string_axioms;

/// How far a replica has come.
#[derive(Debug)]
pub struct Pulled {
    /// The number of the last record that was applied.
    pub lsn: u64,
    /// How many records were applied.
    pub count: usize,
    /// What stopped it before the end, if anything did.
    pub error: Option<Error>,
}

/// How far a replica has come, and its tables.
#[verifier::ext_equal]
pub struct Progress {
    pub tables: Map<Seq<char>, Relation>,
    pub lsn: u64,
    pub count: nat,
    pub error: Option<Seq<char>>,
}

pub open spec fn count_under(j: Json, key: Seq<char>) -> Option<u64> {
    match field_of(j, key) {
        Some(x) => match *x.node {
            JsonNode::Number { count, .. } => count,
            _ => None,
        },
        None => None,
    }
}

pub open spec fn gap(lsn: u64, got: u64) -> Seq<char> {
    "разрыв в WAL: ожидался lsn="@ + dec(lsn + 1) + ", пришёл "@ + dec(got as int)
}

/// What the change in a record makes of the tables.
pub open spec fn taken<F: Floats>(p: Progress, lsn: u64, payload: Seq<char>, fl: F) -> Progress {
    match unhexed(payload) {
        Err(e) => Progress { error: Some(e), ..p },
        Ok(b) => match decoded(b, known_in(p.tables)) {
            Err(e) => Progress {
                error: Some(in_context("разбор записи lsn="@ + dec(lsn as int), e)),
                ..p
            },
            Ok(c) => match applied(p.tables, c, fl) {
                (Some(e), m) => Progress {
                    tables: m,
                    error: Some(in_context("применение записи lsn="@ + dec(lsn as int), e)),
                    ..p
                },
                (None, m) => Progress { tables: m, lsn, count: p.count + 1, ..p },
            },
        },
    }
}

/// One record of an answer.
pub open spec fn stepped<F: Floats>(p: Progress, rec: Json, fl: F) -> Progress {
    match count_under(rec, "lsn"@) {
        None => Progress { error: Some("запись без lsn"@), ..p },
        Some(lsn) => if lsn != p.lsn + 1 {
            Progress { error: Some(gap(p.lsn, lsn)), ..p }
        } else {
            match text_under(rec, "payload"@) {
                None => Progress { error: Some("запись без payload"@), ..p },
                Some(s) => taken(p, lsn, s, fl),
            }
        },
    }
}

/// The first `n` records of an answer, up to the first that cannot be applied.
pub open spec fn pulled<F: Floats>(p: Progress, recs: Seq<Json>, n: nat, fl: F) -> Progress
    decreases n,
{
    if n == 0 || n > recs.len() {
        p
    } else {
        let q = pulled(p, recs, (n - 1) as nat, fl);
        if q.error is Some {
            q
        } else {
            stepped(q, recs[n - 1], fl)
        }
    }
}

/// A replica that nothing has stopped.
pub open spec fn at(m: Map<Seq<char>, Relation>, lsn: u64, count: nat) -> Progress {
    Progress { tables: m, lsn, count, error: None }
}

pub open spec fn started(m: Map<Seq<char>, Relation>, lsn: u64) -> Progress {
    at(m, lsn, 0)
}

/// What the next number of the primary node says of a replica that nothing has stopped: where
/// it lies past the record that comes next, the primary node has cut its log.
pub open spec fn caught_up(p: Progress, next: Option<u64>) -> Progress {
    match next {
        Some(n) if p.error is None && n > p.lsn + 1 => Progress { error: Some(gap(p.lsn, n)), ..p },
        _ => p,
    }
}

/// What an answer makes of a replica.
pub open spec fn pulled_all<F: Floats>(
    m: Map<Seq<char>, Relation>,
    lsn: u64,
    answer: Json,
    fl: F,
) -> Progress {
    match items_of(answer, "records"@) {
        None => Progress { error: Some("в ответе нет 'records'"@), ..started(m, lsn) },
        Some(recs) => caught_up(
            pulled(started(m, lsn), recs, recs.len(), fl),
            count_under(answer, "next_lsn"@),
        ),
    }
}

proof fn lemma_stopped<F: Floats>(p: Progress, recs: Seq<Json>, k: nat, n: nat, fl: F)
    requires
        k <= n <= recs.len(),
        pulled(p, recs, k, fl).error is Some,
    ensures
        pulled(p, recs, n, fl) == pulled(p, recs, k, fl),
    decreases n - k,
{
    if k < n {
        lemma_stopped(p, recs, k, (n - 1) as nat, fl);
    }
}

pub open spec fn progress_of(p: Pulled, m: Map<Seq<char>, Relation>) -> Progress {
    Progress {
        tables: m,
        lsn: p.lsn,
        count: p.count as nat,
        error: match p.error {
            Some(e) => Some(e@),
            None => None,
        },
    }
}

fn number_in(v: &JsonValue, key: &str) -> (r: Option<u64>)
    ensures
        r == count_under(json_tree(*v), key@),
{
    match json_field(v, key) {
        Some(x) => json_count(x),
        None => None,
    }
}

fn gap_error(lsn: u64, got: u64) -> (r: Error)
    ensures
        r@ == gap(lsn, got),
{
    err(
        text4(
            "разрыв в WAL: ожидался lsn=",
            dec_u128(lsn as u128 + 1).as_str(),
            ", пришёл ",
            dec_u64(got).as_str(),
        ),
    )
}

/// Applies one record; what stopped it, if anything did.
fn step<F: Floats>(db: &mut Database, lsn: u64, rec: &JsonValue, fl: &F) -> (r: Result<u64, Error>)
    requires
        old(db).wf(),
        fl.exact(),
    ensures
        final(db).wf(),
        final(db)@ == (State { tables: final(db)@.tables, ..old(db)@ }),
        forall|count: nat|
            #[trigger] stepped(at(old(db)@.tables, lsn, count), json_tree(*rec), *fl) == match r {
                Ok(n) => at(final(db)@.tables, n, count + 1),
                Err(e) => Progress { error: Some(e@), ..at(final(db)@.tables, lsn, count) },
            },
{
    let got: u64 = match number_in(rec, "lsn") {
        Some(n) => n,
        None => {
            return Err(err("запись без lsn".to_owned()));
        },
    };
    if got as u128 != lsn as u128 + 1 {
        return Err(gap_error(lsn, got));
    }
    let payload = match str_under(rec, "payload") {
        Some(s) => s,
        None => {
            return Err(err("запись без payload".to_owned()));
        },
    };
    let bytes = match unhex(payload) {
        Ok(b) => b,
        Err(e) => {
            return Err(e);
        },
    };
    assert(schemas(*db) =~= known_in(db@.tables));
    let record = match decode_record(bytes.as_slice(), db) {
        Ok(x) => x,
        Err(e) => {
            let place = text2("разбор записи lsn=", dec_u64(got).as_str());
            return Err(e.context(place.as_str()));
        },
    };
    match db.apply(&record, fl) {
        Ok(_) => Ok(got),
        Err(e) => {
            let place = text2("применение записи lsn=", dec_u64(got).as_str());
            Err(e.context(place.as_str()))
        },
    }
}

/// Applies the records of an answer of the primary node. Where one cannot be applied, those
/// before it stay applied, and the result says how far the replica has come. Where the answer
/// ends before the primary node does, its log has a gap.
pub fn pull_once<F: Floats>(db: &mut Database, answer: &JsonValue, applied: u64, fl: &F) -> (r:
    Pulled)
    requires
        old(db).wf(),
        fl.exact(),
    ensures
        final(db).wf(),
        final(db)@ == (State { tables: final(db)@.tables, ..old(db)@ }),
        progress_of(r, final(db)@.tables) == pulled_all(
            old(db)@.tables,
            applied,
            json_tree(*answer),
            *fl,
        ),
{
    let records = match items_under(answer, "records") {
        Some(v) => v,
        None => {
            return Pulled {
                lsn: applied,
                count: 0,
                error: Some(err("в ответе нет 'records'".to_owned())),
            };
        },
    };
    let ghost recs = json_trees(records@);
    let ghost p0 = started(db@.tables, applied);
    let ghost st0 = db@;
    let mut lsn: u64 = applied;
    let mut i: usize = 0;
    while i < records.len()
        invariant
            i <= records.len(),
            fl.exact(),
            db.wf(),
            db@ == (State { tables: db@.tables, ..st0 }),
            st0 == old(db)@,
            recs == json_trees(records@),
            items_of(json_tree(*answer), "records"@) == Some(recs),
            p0 == started(st0.tables, applied),
            pulled(p0, recs, i as nat, *fl) == at(db@.tables, lsn, i as nat),
        decreases records.len() - i,
    {
        assert(recs[i as int] == json_tree(records@[i as int]));
        let ghost q = pulled(p0, recs, i as nat, *fl);
        match step(db, lsn, &records[i], fl) {
            Ok(n) => {
                lsn = n;
            },
            Err(e) => {
                proof {
                    assert(pulled(p0, recs, (i + 1) as nat, *fl) == stepped(q, recs[i as int], *fl));
                    lemma_stopped(p0, recs, (i + 1) as nat, recs.len(), *fl);
                }
                return Pulled { lsn, count: i, error: Some(e) };
            },
        }
        i += 1;
    }
    if let Some(next) = number_in(answer, "next_lsn") {
        if next as u128 > lsn as u128 + 1 {
            return Pulled { lsn, count: i, error: Some(gap_error(lsn, next)) };
        }
    }
    Pulled { lsn, count: i, error: None }
}

/// What an answer in bytes makes of a replica.
pub open spec fn pulled_in<F: Floats>(
    m: Map<Seq<char>, Relation>,
    lsn: u64,
    body: Seq<u8>,
    fl: F,
) -> Progress {
    match json_in(body) {
        Ok(answer) => pulled_all(m, lsn, answer, fl),
        Err(e) => Progress {
            error: Some(in_context("ответ /replication/wal"@, e)),
            ..started(m, lsn)
        },
    }
}

/// Applies the records of an answer of the primary node, as it came over the wire. One that
/// is no JSON changes nothing.
pub fn pull_bytes<F: Floats>(db: &mut Database, body: &[u8], applied: u64, fl: &F) -> (r: Pulled)
    requires
        old(db).wf(),
        fl.exact(),
    ensures
        final(db).wf(),
        final(db)@ == (State { tables: final(db)@.tables, ..old(db)@ }),
        progress_of(r, final(db)@.tables) == pulled_in(old(db)@.tables, applied, body@, *fl),
        json_in(body@) is Err ==> final(db)@ == old(db)@ && r.lsn == applied && r.count == 0,
{
    match json_of(body) {
        Ok(answer) => pull_once(db, &answer, applied, fl),
        Err(e) => Pulled {
            lsn: applied,
            count: 0,
            error: Some(err(e).context("ответ /replication/wal")),
        },
    }
}

// --- what to do next ------------------------------------------------------------------------------

/// What a replica does next.
#[derive(Debug, Clone, Copy, PartialEq, Eq, Structural)]
pub enum Next {
    /// Take a snapshot of the primary node.
    Bootstrap,
    /// Ask for the records above a number.
    Pull(u64),
}

/// A replica that follows a primary node.
#[derive(Debug, Clone, Copy)]
pub struct Follower {
    /// The number of the last record that was applied; `None` before the first snapshot.
    pub applied: Option<u64>,
}

/// Whether an error says that the log has a gap.
pub open spec fn is_gap(e: Seq<char>) -> bool {
    holds(e, "разрыв в WAL"@)
}

impl Follower {
    pub fn new() -> (r: Follower)
        ensures
            r.applied is None,
    {
        Follower { applied: None }
    }

    pub fn next(&self) -> (r: Next)
        ensures
            r == match self.applied {
                Some(n) => Next::Pull(n),
                None => Next::Bootstrap,
            },
    {
        match self.applied {
            Some(n) => Next::Pull(n),
            None => Next::Bootstrap,
        }
    }

    /// A snapshot was loaded that was made after a record.
    pub fn loaded(&mut self, lsn: u64)
        ensures
            final(self).applied == Some(lsn),
    {
        self.applied = Some(lsn);
    }

    /// Records were applied: the replica goes on from there. A gap is mended only by a new
    /// snapshot.
    pub fn pulled(&mut self, p: &Pulled)
        ensures
            final(self).applied == (if p.error matches Some(e) && is_gap(e@) {
                None
            } else {
                Some(p.lsn)
            }),
    {
        self.applied = Some(p.lsn);
        if let Some(e) = &p.error {
            self.failed(e);
        }
    }

    /// Something failed: the replica tries again, after a gap with a new snapshot.
    pub fn failed(&mut self, e: &Error)
        ensures
            final(self).applied == (if is_gap(e@) {
                None
            } else {
                old(self).applied
            }),
    {
        if contains(e.message().as_str(), "разрыв в WAL") {
            self.applied = None;
        }
    }
}

// --- laws --------------------------------------------------------------------------------------------

/// Whether an answer holds the records of changes, numbered from `first`.
pub open spec fn answers(recs: Seq<Json>, cs: Seq<Change>, first: int) -> bool {
    &&& recs.len() == cs.len()
    &&& forall|i: int|
        0 <= i < recs.len() ==> {
            &&& count_under(#[trigger] recs[i], "lsn"@) matches Some(n) && n == first + i
            &&& text_under(recs[i], "payload"@) == Some(hex_text(change_bytes(cs[i])))
        }
}

/// A replica that has the tables of the primary node as of a record, and is then given the
/// records of the changes since, has the tables of the primary node after those changes.
pub proof fn lemma_replica_follows<F: Floats>(
    m: Map<Seq<char>, Relation>,
    lsn: u64,
    recs: Seq<Json>,
    cs: Seq<Change>,
    n: nat,
    fl: F,
)
    requires
        in_turn(m, cs, fl),
        answers(recs, cs, lsn + 1),
        n <= cs.len(),
    ensures
        pulled(started(m, lsn), recs, n, fl) == at(history(m, cs, n, fl), (lsn + n) as u64, n),
    decreases n,
{
    if n > 0 {
        lemma_replica_follows(m, lsn, recs, cs, (n - 1) as nat, fl);
        let now = history(m, cs, (n - 1) as nat, fl);
        let c = cs[n - 1];
        assert(count_under(recs[n - 1], "lsn"@) is Some);
        assert(loggable(c, known_in(now)));
        lemma_change_back(c, known_in(now));
        lemma_hex_back(change_bytes(c));
    } else {
        assert((lsn + n) as u64 == lsn);
    }
}

/// A replica that has the tables of the primary node as of a record, and gets an answer with
/// all the records since, ends up with the tables and the number of the primary node, and
/// nothing stops it.
pub proof fn lemma_replica_catches_up<F: Floats>(
    m: Map<Seq<char>, Relation>,
    lsn: u64,
    answer: Json,
    cs: Seq<Change>,
    fl: F,
)
    requires
        in_turn(m, cs, fl),
        items_of(answer, "records"@) matches Some(recs) && answers(recs, cs, lsn + 1),
        count_under(answer, "next_lsn"@) matches Some(next) && next == lsn + 1 + cs.len(),
    ensures
        pulled_all(m, lsn, answer, fl) == at(
            history(m, cs, cs.len(), fl),
            (lsn + cs.len()) as u64,
            cs.len(),
        ),
{
    let recs = items_of(answer, "records"@)->0;
    lemma_replica_follows(m, lsn, recs, cs, cs.len(), fl);
}

proof fn lemma_is_gap(lsn: u64, got: u64)
    ensures
        is_gap(gap(lsn, got)),
{
    reveal_strlit("разрыв в WAL");
    reveal_strlit("разрыв в WAL: ожидался lsn=");
    let e = gap(lsn, got);
    let w = "разрыв в WAL"@;
    assert(e.subrange(0, w.len() as int) =~= w);
    assert(crate::text::stands_at(e, w, 0));
}

/// A record whose number does not follow the last one is not applied, and the replica then
/// starts anew from a snapshot.
pub proof fn lemma_gap<F: Floats>(p: Progress, rec: Json, got: u64, fl: F)
    requires
        count_under(rec, "lsn"@) == Some(got),
        got != p.lsn + 1,
    ensures
        stepped(p, rec, fl) == (Progress { error: Some(gap(p.lsn, got)), ..p }),
        is_gap(gap(p.lsn, got)),
{
    lemma_is_gap(p.lsn, got);
}

/// A replica never stays behind in silence: an answer that stops nowhere leaves it at the
/// record before the next number of the primary node or past it, and one that ends before it
/// is a gap, after which the replica starts anew from a snapshot.
pub proof fn lemma_silence<F: Floats>(
    m: Map<Seq<char>, Relation>,
    lsn: u64,
    answer: Json,
    next: u64,
    fl: F,
)
    requires
        count_under(answer, "next_lsn"@) == Some(next),
    ensures
        pulled_all(m, lsn, answer, fl).error is None ==> next <= pulled_all(
            m,
            lsn,
            answer,
            fl,
        ).lsn + 1,
        items_of(answer, "records"@) matches Some(recs) && recs.len() == 0 && next > lsn + 1
            ==> pulled_all(m, lsn, answer, fl) == (Progress {
            error: Some(gap(lsn, next)),
            ..started(m, lsn)
        }),
        is_gap(gap(lsn, next)),
{
    lemma_is_gap(lsn, next);
}

} // verus!
