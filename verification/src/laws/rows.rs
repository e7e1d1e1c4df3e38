//! Which rows a query gives, in which order, and what stands in them.
use crate::column::{Cell, Cells, DataType};
use crate::exec::eval::{evaluated, evaluated_all};
use crate::exec::order::{
    all_places, arranged, key_flags, key_terms, lemma_ordered, order_rank, ordered, rank_at,
};
use crate::exec::select::{
    answer_of, filtered, kept, output_terms, projected, selected, where_place, Answer,
};
use crate::float::Floats;
use crate::laws::conditions::{at_row, both, holds_at, lemma_compare_ints, lemma_compare_texts};
use crate::laws::groups::same_at;
use crate::laws::order::{comes_before, earlier, lemma_places, lemma_texts};
use crate::plan::{is_grouping, BinOp, Key, Output, Query, Term};
use crate::text::Rank;
use vstd::prelude::*;
use vstd::seq_lib::to_multiset_contains;

verus! {

// --- conditions ------------------------------------------------------------------------------

/// Whether `out` is what `rows` has at the places of `p`, in the order of `rows`; `at` are
/// those places.
pub open spec fn picks(
    rows: Seq<usize>,
    at: Seq<int>,
    out: Seq<usize>,
    p: spec_fn(int) -> bool,
) -> bool {
    &&& out.len() == at.len()
    &&& forall|k: int|
        0 <= k < at.len() ==> 0 <= #[trigger] at[k] < rows.len() && p(at[k]) && out[k]
            == rows[at[k]]
    &&& forall|k: int, m: int| 0 <= k < m < at.len() ==> #[trigger] at[k] < #[trigger] at[m]
    &&& forall|i: int| 0 <= i < rows.len() && #[trigger] p(i) ==> at.contains(i)
}

proof fn lemma_kept(rows: Seq<usize>, mask: Seq<bool>, k: nat) -> (at: Seq<int>)
    requires
        k <= rows.len(),
        k <= mask.len(),
    ensures
        picks(rows.take(k as int), at, kept(rows, mask, k), |i: int| mask[i]),
    decreases k,
{
    if k == 0 {
        Seq::empty()
    } else {
        let m = (k - 1) as nat;
        let before = lemma_kept(rows, mask, m);
        let p = |i: int| mask[i];
        let now = if mask[k - 1] {
            before.push(k - 1)
        } else {
            before
        };
        let out = kept(rows, mask, k);
        let (short, long) = (rows.take(m as int), rows.take(k as int));
        assert forall|j: int| 0 <= j < now.len() implies 0 <= #[trigger] now[j] < long.len() && p(
            now[j],
        ) && out[j] == long[now[j]] by {
            if j < before.len() {
                assert(now[j] == before[j]);
                assert(short[before[j]] == long[before[j]]);
            }
        }
        assert forall|i: int| 0 <= i < long.len() && #[trigger] p(i) implies now.contains(i) by {
            if i < m {
                assert(before.contains(i));
                let j = choose|j: int| 0 <= j < before.len() && before[j] == i;
                assert(now[j] == i);
            } else {
                assert(now[before.len() as int] == i);
            }
        }
        now
    }
}

/// A condition keeps the rows it holds of, all of them and no others, in the order they had.
pub proof fn lemma_filter<F: Floats>(
    t: Term,
    place: Seq<char>,
    frame: Seq<Cells>,
    rows: Seq<usize>,
    fl: F,
    p: spec_fn(int) -> bool,
) -> (at: Seq<int>)
    requires
        holds_at(t, frame, rows, fl, p),
    ensures
        filtered(Some(t), place, frame, rows, fl) matches Ok(out) && picks(rows, at, out, p),
{
    let m = evaluated(t, frame, rows, fl)->Ok_0->Bool_0;
    let mask = crate::exec::arr::bools(Cells::Bool(m))->Ok_0;
    assert forall|i: int| 0 <= i < rows.len() implies p(i) == (at_row(m, i) != 0) by {}
    if m.len() == 1 {
        assert(mask[0] == (m[0] != 0));
        if mask[0] {
            let at = Seq::new(rows.len(), |i: int| i);
            assert forall|i: int| 0 <= i < rows.len() implies at.contains(i) by {
                assert(at[i] == i);
            }
            assert forall|k: int| 0 <= k < at.len() implies p(#[trigger] at[k]) by {
                assert(at_row(m, k) != 0);
            }
            at
        } else {
            assert forall|i: int| 0 <= i < rows.len() implies !#[trigger] p(i) by {
                assert(at_row(m, i) == 0);
            }
            Seq::empty()
        }
    } else {
        let at = lemma_kept(rows, mask, rows.len());
        assert(rows.take(rows.len() as int) =~= rows);
        let q = |i: int| mask[i];
        assert forall|i: int| 0 <= i < rows.len() implies q(i) == #[trigger] p(i) by {
            assert(at_row(m, i) == m[i]);
        }
        at
    }
}

/// What is no truth value is no condition, and without a condition every row stays.
pub proof fn lemma_no_filter<F: Floats>(
    t: Term,
    place: Seq<char>,
    frame: Seq<Cells>,
    rows: Seq<usize>,
    fl: F,
)
    ensures
        filtered(None, place, frame, rows, fl) == Ok::<Seq<usize>, Seq<char>>(rows),
        !(evaluated(t, frame, rows, fl) matches Ok(c) && c is Bool) ==> filtered(
            Some(t),
            place,
            frame,
            rows,
            fl,
        ) is Err,
{
}

// --- the order -------------------------------------------------------------------------------

/// Whether the value of one row comes before that of another: the lesser integer, the double
/// nearer to minus infinity, `false`, the text that comes first in a dictionary.
pub open spec fn value_before(c: Cells, i: int, j: int) -> bool {
    match c {
        Cells::I64(v) => at_row(v, i) < at_row(v, j),
        Cells::F64(v) => comes_before(at_row(v, i), at_row(v, j)),
        Cells::Bool(v) => at_row(v, i) < at_row(v, j),
        Cells::Str(v) => earlier(at_row(v, i), at_row(v, j)),
        Cells::Vector { .. } => false,
    }
}

/// Whether a column leaves open which of two rows comes first.
pub open spec fn leaves_open(c: Cells, i: int, j: int) -> bool {
    c is Vector || same_at(c, i, j)
}

/// Whether the key at place `k` is the first that tells two rows apart, and puts the one
/// before the other.
pub open spec fn decides(cols: Seq<Cells>, asc: Seq<bool>, k: int, i: int, j: int) -> bool {
    &&& 0 <= k < cols.len()
    &&& forall|m: int| 0 <= m < k ==> leaves_open(#[trigger] cols[m], i, j)
    &&& if asc[k] {
        value_before(cols[k], i, j)
    } else {
        value_before(cols[k], j, i)
    }
}

/// Whether row `i` comes before row `j`: the first key that tells them apart says so, or none
/// does and `i` was first.
pub open spec fn in_turn(cols: Seq<Cells>, asc: Seq<bool>, i: int, j: int) -> bool {
    ||| exists|k: int| #[trigger] decides(cols, asc, k, i, j)
    ||| i < j && forall|m: int| 0 <= m < cols.len() ==> leaves_open(#[trigger] cols[m], i, j)
}

/// One column puts rows in the order of their values.
pub proof fn lemma_value_order(c: Cells, i: int, j: int)
    ensures
        rank_at(c, i, j) == Rank::Less <==> value_before(c, i, j),
        rank_at(c, i, j) == Rank::Greater <==> value_before(c, j, i),
        rank_at(c, i, j) == Rank::Equal <==> leaves_open(c, i, j),
{
    match c {
        Cells::F64(v) => {
            lemma_places(at_row(v, i), at_row(v, j));
        },
        Cells::Str(v) => {
            lemma_texts(at_row(v, i), at_row(v, j));
        },
        _ => {},
    }
}

/// A comparison and `ORDER BY` agree: a text is less than that of another row if and only if
/// `ORDER BY` puts its row first; an integer likewise.
pub proof fn lemma_compare_as_order<F: Floats>(
    e: Term,
    f: Term,
    c: Cells,
    j: int,
    frame: Seq<Cells>,
    rows: Seq<usize>,
    fl: F,
)
    requires
        evaluated(e, frame, rows, fl) == Ok::<Cells, Seq<char>>(c),
        0 <= j < rows.len(),
        match c {
            Cells::Str(v) => evaluated(f, frame, rows, fl) == Ok::<Cells, Seq<char>>(
                Cells::Str(seq![at_row(v, j)]),
            ),
            Cells::I64(v) => evaluated(f, frame, rows, fl) == Ok::<Cells, Seq<char>>(
                Cells::I64(seq![at_row(v, j)]),
            ),
            _ => false,
        },
    ensures
        holds_at(
            both(BinOp::Lt, e, f),
            frame,
            rows,
            fl,
            |i: int| rank_at(c, i, j) == Rank::Less,
        ),
        holds_at(
            both(BinOp::Gt, e, f),
            frame,
            rows,
            fl,
            |i: int| rank_at(c, i, j) == Rank::Greater,
        ),
        holds_at(
            both(BinOp::Eq, e, f),
            frame,
            rows,
            fl,
            |i: int| rank_at(c, i, j) == Rank::Equal,
        ),
{
    assert forall|i: int| 0 <= i < rows.len() implies {
        &&& rank_at(c, i, j) == Rank::Less <==> value_before(c, i, j)
        &&& #[trigger] rank_at(c, i, j) == Rank::Greater <==> value_before(c, j, i)
        &&& rank_at(c, i, j) == Rank::Equal <==> leaves_open(c, i, j)
    } by {
        lemma_value_order(c, i, j);
    }
    match c {
        Cells::Str(v) => {
            lemma_compare_texts(e, f, v, seq![at_row(v, j)], frame, rows, fl);
        },
        Cells::I64(v) => {
            lemma_compare_ints(e, f, v, seq![at_row(v, j)], frame, rows, fl);
        },
        _ => {},
    }
    let lt = evaluated(both(BinOp::Lt, e, f), frame, rows, fl)->Ok_0->Bool_0;
    let gt = evaluated(both(BinOp::Gt, e, f), frame, rows, fl)->Ok_0->Bool_0;
    let eq = evaluated(both(BinOp::Eq, e, f), frame, rows, fl)->Ok_0->Bool_0;
    assert forall|i: int| 0 <= i < rows.len() implies {
        &&& (#[trigger] at_row(lt, i) != 0) == (rank_at(c, i, j) == Rank::Less)
        &&& (#[trigger] at_row(gt, i) != 0) == (rank_at(c, i, j) == Rank::Greater)
        &&& (#[trigger] at_row(eq, i) != 0) == (rank_at(c, i, j) == Rank::Equal)
    } by {
        assert(rank_at(c, i, j) == Rank::Less || rank_at(c, i, j) == Rank::Greater || rank_at(
            c,
            i,
            j,
        ) == Rank::Equal);
    }
}

proof fn lemma_turn(cols: Seq<Cells>, asc: Seq<bool>, k: int, i: int, j: int)
    requires
        0 <= k <= cols.len(),
        i != j,
        order_rank(cols, asc, k, i, j) != Rank::Greater,
        forall|m: int| 0 <= m < k ==> leaves_open(#[trigger] cols[m], i, j),
    ensures
        in_turn(cols, asc, i, j),
    decreases cols.len() - k,
{
    if k < cols.len() {
        lemma_value_order(cols[k], i, j);
        if rank_at(cols[k], i, j) == Rank::Equal {
            lemma_turn(cols, asc, k + 1, i, j);
        } else {
            assert(decides(cols, asc, k, i, j));
        }
    }
}

/// Whether expressions have the given values over some rows.
pub open spec fn have_values<F: Floats>(
    ts: Seq<Term>,
    cols: Seq<Cells>,
    frame: Seq<Cells>,
    rows: Seq<usize>,
    fl: F,
) -> bool {
    &&& cols.len() == ts.len()
    &&& forall|k: int|
        0 <= k < ts.len() ==> evaluated(#[trigger] ts[k], frame, rows, fl) == Ok::<
            Cells,
            Seq<char>,
        >(cols[k])
}

pub proof fn lemma_all_values<F: Floats>(
    ts: Seq<Term>,
    n: nat,
    cols: Seq<Cells>,
    frame: Seq<Cells>,
    rows: Seq<usize>,
    fl: F,
)
    requires
        have_values(ts, cols, frame, rows, fl),
        n <= ts.len(),
    ensures
        evaluated_all(ts, n, frame, rows, fl) == Ok::<Seq<Cells>, Seq<char>>(cols.take(n as int)),
    decreases n,
{
    if n == 0 {
        assert(cols.take(0) =~= Seq::empty());
    } else {
        lemma_all_values(ts, (n - 1) as nat, cols, frame, rows, fl);
        assert(evaluated(ts[n - 1], frame, rows, fl) is Ok);
        assert(cols.take(n - 1).push(cols[n - 1]) =~= cols.take(n as int));
    }
}

/// Whether `at` names every one of `n` places once, in the order that keys ask for.
pub open spec fn puts_in_order(at: Seq<int>, n: nat, cols: Seq<Cells>, asc: Seq<bool>) -> bool {
    &&& at.len() == n
    &&& forall|k: int| 0 <= k < n ==> 0 <= #[trigger] at[k] < n
    &&& forall|i: int| 0 <= i < n ==> #[trigger] at.contains(i)
    &&& forall|a: int, b: int|
        0 <= a < b < n ==> #[trigger] at[a] != #[trigger] at[b] && in_turn(cols, asc, at[a], at[b])
}

/// The part of a result that `LIMIT` and `OFFSET` leave: what is behind the first `offset`
/// rows, at most `limit` of them.
pub open spec fn is_part(
    out: Seq<usize>,
    all: Seq<usize>,
    limit: Option<usize>,
    offset: usize,
) -> bool {
    let left = if offset < all.len() {
        all.len() - offset
    } else {
        0
    };
    &&& out.len() == match limit {
        Some(l) if l < left => l as int,
        _ => left,
    }
    &&& forall|k: int| 0 <= k < out.len() ==> #[trigger] out[k] == all[offset + k]
}

proof fn lemma_all_once(cols: Seq<Cells>, asc: Seq<bool>, n: nat)
    requires
        n <= usize::MAX,
    ensures
        puts_in_order(Seq::new(n, |k: int| ordered(cols, asc, n)[k] as int), n, cols, asc),
{
    let r = ordered(cols, asc, n);
    let s = all_places(n);
    let at = Seq::new(n, |k: int| r[k] as int);
    lemma_ordered(cols, asc, n);
    assert(s.no_duplicates());
    s.lemma_multiset_has_no_duplicates();
    r.lemma_multiset_has_no_duplicates_conv();
    assert forall|i: int| 0 <= i < n implies #[trigger] at.contains(i) by {
        assert(s[i] == i as usize);
        to_multiset_contains(s, i as usize);
        to_multiset_contains(r, i as usize);
        let k = choose|k: int| 0 <= k < r.len() && r[k] == i as usize;
        assert(at[k] == i);
    }
    assert forall|a: int, b: int| 0 <= a < b < n implies #[trigger] at[a] != #[trigger] at[b]
        && in_turn(cols, asc, at[a], at[b]) by {
        assert(r[a] != r[b]);
        lemma_turn(cols, asc, 0, at[a], at[b]);
    }
}

/// `ORDER BY` gives every row once, in the order of the keys; `LIMIT` and `OFFSET` give a part
/// of that.
pub proof fn lemma_order_by<F: Floats>(
    frame: Seq<Cells>,
    rows: Seq<usize>,
    ks: Seq<Key>,
    cols: Seq<Cells>,
    limit: Option<usize>,
    offset: usize,
    fl: F,
) -> (at: Seq<int>)
    requires
        rows.len() <= usize::MAX,
        have_values(Seq::new(ks.len(), |k: int| ks[k].expr), cols, frame, rows, fl),
    ensures
        puts_in_order(at, rows.len(), cols, Seq::new(ks.len(), |k: int| ks[k].asc)),
        arranged(frame, rows, ks, limit, offset, fl) matches Ok(out) && is_part(
            out,
            Seq::new(rows.len(), |k: int| rows[at[k]]),
            limit,
            offset,
        ),
{
    let n = rows.len();
    let asc = Seq::new(ks.len(), |k: int| ks[k].asc);
    let ts = Seq::new(ks.len(), |k: int| ks[k].expr);
    assert(ts =~= key_terms(ks));
    assert(asc =~= key_flags(ks));
    lemma_all_values(ts, ts.len(), cols, frame, rows, fl);
    assert(cols.take(ts.len() as int) =~= cols);
    if ks.len() == 0 {
        let at = Seq::new(n, |k: int| k);
        assert forall|i: int| 0 <= i < n implies #[trigger] at.contains(i) by {
            assert(at[i] == i);
        }
        at
    } else {
        let r = ordered(cols, asc, n);
        lemma_ordered(cols, asc, n);
        lemma_all_once(cols, asc, n);
        Seq::new(n, |k: int| r[k] as int)
    }
}

/// `ORDER BY` one column of integers gives rows whose integers ascend, with `DESC` descend;
/// of texts it gives the order of a dictionary, of doubles that from the least to the greatest.
pub proof fn lemma_order_by_column<F: Floats>(
    frame: Seq<Cells>,
    rows: Seq<usize>,
    c: usize,
    asc: bool,
    limit: Option<usize>,
    offset: usize,
    fl: F,
    i: int,
    j: int,
)
    requires
        rows.len() <= usize::MAX,
        c < frame.len(),
        0 <= i < j,
    ensures
        ({
            let by = seq![Key { expr: Term::Col(c), asc }];
            arranged(frame, rows, by, limit, offset, fl) matches Ok(out) && (j < out.len() ==> {
                let (a, b) = if asc {
                    (out[i] as int, out[j] as int)
                } else {
                    (out[j] as int, out[i] as int)
                };
                match frame[c as int] {
                    Cells::I64(v) => v[a] <= v[b],
                    Cells::F64(v) => !comes_before(v[b], v[a]),
                    Cells::Bool(v) => v[a] <= v[b],
                    Cells::Str(v) => !earlier(v[b], v[a]),
                    Cells::Vector { .. } => true,
                }
            })
        }),
{
    let by = seq![Key { expr: Term::Col(c), asc }];
    let vals = evaluated(Term::Col(c), frame, rows, fl)->Ok_0;
    let cols = seq![vals];
    let at = lemma_order_by(frame, rows, by, cols, limit, offset, fl);
    let flags = Seq::new(by.len(), |k: int| by[k].asc);
    let out = arranged(frame, rows, by, limit, offset, fl)->Ok_0;
    if j < out.len() {
        let (x, y) = (at[offset + i], at[offset + j]);
        assert(in_turn(cols, flags, x, y));
        assert(out[i] == rows[x] && out[j] == rows[y]);
        assert(flags[0] == asc);
        assert(cols[0] == vals);
        assert(leaves_open(vals, x, y) || (if asc {
            value_before(vals, x, y)
        } else {
            value_before(vals, y, x)
        })) by {
            if exists|k: int| #[trigger] decides(cols, flags, k, x, y) {
                let k = choose|k: int| #[trigger] decides(cols, flags, k, x, y);
                assert(k == 0);
            } else {
                assert(leaves_open(cols[0], x, y));
            }
        }
        match frame[c as int] {
            Cells::F64(v) => {
                lemma_places(v[out[i] as int], v[out[j] as int]);
            },
            Cells::Str(v) => {
                lemma_texts(v[out[i] as int], v[out[j] as int]);
            },
            _ => {},
        }
    }
}

/// Two calls with parts of a result that follow each other give what one call gives.
pub proof fn lemma_parts_follow<F: Floats>(
    frame: Seq<Cells>,
    rows: Seq<usize>,
    ks: Seq<Key>,
    cols: Seq<Cells>,
    n: usize,
    offset: usize,
    fl: F,
)
    requires
        rows.len() <= usize::MAX,
        offset + n <= usize::MAX,
        have_values(Seq::new(ks.len(), |k: int| ks[k].expr), cols, frame, rows, fl),
    ensures
        ({
            let head = arranged(frame, rows, ks, Some(n), offset, fl);
            let tail = arranged(frame, rows, ks, None, (offset + n) as usize, fl);
            let all = arranged(frame, rows, ks, None, offset, fl);
            head is Ok && tail is Ok && all == Ok::<Seq<usize>, Seq<char>>(
                head->Ok_0 + tail->Ok_0,
            )
        }),
{
    let past = (offset + n) as usize;
    let ts = Seq::new(ks.len(), |k: int| ks[k].expr);
    assert(ts =~= key_terms(ks));
    lemma_all_values(ts, ts.len(), cols, frame, rows, fl);
    assert(cols.take(ts.len() as int) =~= cols);
    lemma_ordered(cols, key_flags(ks), rows.len());
    let head = arranged(frame, rows, ks, Some(n), offset, fl)->Ok_0;
    let tail = arranged(frame, rows, ks, None, past, fl)->Ok_0;
    let all = arranged(frame, rows, ks, None, offset, fl)->Ok_0;
    assert(all =~= head + tail);
}

// --- whole queries ---------------------------------------------------------------------------

/// The value of row `i` as it stands in an answer.
pub open spec fn shown(c: Cells, i: int) -> Cell {
    match c {
        Cells::I64(v) => Cell::I64(at_row(v, i)),
        Cells::F64(v) => Cell::F64(at_row(v, i)),
        Cells::Bool(v) => Cell::Bool(at_row(v, i) != 0),
        Cells::Str(v) => Cell::Str(at_row(v, i)),
        Cells::Vector { rows, .. } => Cell::Vector(at_row(rows, i)),
    }
}

/// Whether an answer has a row for each of some rows, with the values of the expressions that
/// were asked for, under their names.
pub open spec fn shows<F: Floats>(
    a: Answer,
    projection: Seq<Output>,
    frame: Seq<Cells>,
    rows: Seq<usize>,
    fl: F,
) -> bool {
    &&& a.columns.len() == projection.len()
    &&& a.types.len() == projection.len()
    &&& a.rows.len() == rows.len()
    &&& forall|i: int| 0 <= i < rows.len() ==> (#[trigger] a.rows[i]).len() == projection.len()
    &&& forall|k: int|
        0 <= k < projection.len() ==> (#[trigger] a.columns[k]) == projection[k].alias
    &&& forall|k: int|
        0 <= k < projection.len() ==> {
            let v = evaluated((#[trigger] projection[k]).expr, frame, rows, fl);
            &&& v is Ok
            &&& forall|i: int|
                0 <= i < rows.len() ==> (#[trigger] a.rows[i])[k] == shown(v->Ok_0, i)
            &&& a.types[k] == match v->Ok_0 {
                Cells::I64(_) => DataType::I64,
                Cells::F64(_) => DataType::F64,
                Cells::Bool(_) => DataType::Bool,
                Cells::Str(_) => DataType::Str,
                Cells::Vector { dim, .. } => DataType::Vector(dim),
            }
        }
}

/// Whether all of some expressions have values over some rows.
pub open spec fn all_have_values<F: Floats>(
    ts: Seq<Term>,
    frame: Seq<Cells>,
    rows: Seq<usize>,
    fl: F,
) -> bool {
    forall|k: int| 0 <= k < ts.len() ==> evaluated(#[trigger] ts[k], frame, rows, fl) is Ok
}

/// The values of expressions over some rows, where all of them have values.
pub open spec fn values_of<F: Floats>(
    ts: Seq<Term>,
    frame: Seq<Cells>,
    rows: Seq<usize>,
    fl: F,
) -> Seq<Cells> {
    Seq::new(ts.len(), |k: int| evaluated(ts[k], frame, rows, fl)->Ok_0)
}

proof fn lemma_all_or_none<F: Floats>(
    ts: Seq<Term>,
    n: nat,
    frame: Seq<Cells>,
    rows: Seq<usize>,
    fl: F,
)
    requires
        n <= ts.len(),
    ensures
        evaluated_all(ts, n, frame, rows, fl) is Ok <==> forall|k: int|
            0 <= k < n ==> evaluated(#[trigger] ts[k], frame, rows, fl) is Ok,
    decreases n,
{
    if n > 0 {
        lemma_all_or_none(ts, (n - 1) as nat, frame, rows, fl);
        assert(evaluated_all(ts, n, frame, rows, fl) is Ok <==> (evaluated_all(
            ts,
            (n - 1) as nat,
            frame,
            rows,
            fl,
        ) is Ok && evaluated(ts[n - 1], frame, rows, fl) is Ok));
    }
}

/// A query without groups gives the rows that its condition holds of, in the order of its
/// keys, as far as its limit goes, each with the values of what was asked for. It does so
/// whenever the keys and what was asked for have values over those rows.
pub proof fn lemma_select<F: Floats>(
    q: Query,
    frame: Seq<Cells>,
    n: nat,
    fl: F,
    p: spec_fn(int) -> bool,
) -> (r: (Seq<int>, Seq<usize>, Seq<int>, Seq<usize>))
    requires
        n <= usize::MAX,
        !is_grouping(q),
        match q.filter {
            Some(t) => holds_at(t, frame, Seq::new(n, |i: int| i as usize), fl, p),
            None => forall|i: int| 0 <= i < n ==> #[trigger] p(i),
        },
    ensures
        ({
            let (kept_at, rows, at, out) = r;
            let by = Seq::new(q.order_by.len(), |k: int| q.order_by[k].expr);
            let asc = Seq::new(q.order_by.len(), |k: int| q.order_by[k].asc);
            let asked = Seq::new(q.projection.len(), |k: int| q.projection[k].expr);
            &&& picks(Seq::new(n, |i: int| i as usize), kept_at, rows, p)
            &&& selected(q, frame, n, fl) is Ok <==> all_have_values(by, frame, rows, fl)
                && all_have_values(asked, frame, out, fl)
            &&& selected(q, frame, n, fl) matches Ok(a) ==> {
                &&& puts_in_order(at, rows.len(), values_of(by, frame, rows, fl), asc)
                &&& is_part(out, Seq::new(rows.len(), |k: int| rows[at[k]]), q.limit, q.offset)
                &&& shows(a, q.projection, frame, out, fl)
            }
        }),
{
    let all = all_places(n);
    assert(all =~= Seq::new(n, |i: int| i as usize));
    let kept_at = lemma_kept_by(q.filter, where_place(), frame, n, fl, p);
    let rows = filtered(q.filter, where_place(), frame, all, fl)->Ok_0;
    lemma_few(kept_at, n);
    let (at, out) = lemma_projected(
        q.projection,
        q.order_by,
        q.limit,
        q.offset,
        frame,
        rows,
        fl,
    );
    (kept_at, rows, at, out)
}

/// The same of rows that are given: they come in the order of the keys, as far as the limit
/// goes, with the values of what was asked for.
pub proof fn lemma_projected<F: Floats>(
    projection: Seq<Output>,
    order_by: Seq<Key>,
    limit: Option<usize>,
    offset: usize,
    frame: Seq<Cells>,
    rows: Seq<usize>,
    fl: F,
) -> (r: (Seq<int>, Seq<usize>))
    requires
        rows.len() <= usize::MAX,
    ensures
        ({
            let (at, out) = r;
            let by = Seq::new(order_by.len(), |k: int| order_by[k].expr);
            let asc = Seq::new(order_by.len(), |k: int| order_by[k].asc);
            let asked = Seq::new(projection.len(), |k: int| projection[k].expr);
            let result = projected(projection, order_by, limit, offset, frame, rows, fl);
            &&& result is Ok <==> all_have_values(by, frame, rows, fl) && all_have_values(
                asked,
                frame,
                out,
                fl,
            )
            &&& result matches Ok(a) ==> {
                &&& puts_in_order(at, rows.len(), values_of(by, frame, rows, fl), asc)
                &&& is_part(out, Seq::new(rows.len(), |k: int| rows[at[k]]), limit, offset)
                &&& shows(a, projection, frame, out, fl)
            }
        }),
{
    let by = Seq::new(order_by.len(), |k: int| order_by[k].expr);
    let asked = Seq::new(projection.len(), |k: int| projection[k].expr);
    assert(by =~= key_terms(order_by));
    assert(asked =~= output_terms(projection));
    lemma_all_or_none(by, by.len(), frame, rows, fl);
    if all_have_values(by, frame, rows, fl) {
        let cols = values_of(by, frame, rows, fl);
        let at = lemma_order_by(frame, rows, order_by, cols, limit, offset, fl);
        let out = arranged(frame, rows, order_by, limit, offset, fl)->Ok_0;
        lemma_all_or_none(asked, asked.len(), frame, out, fl);
        if all_have_values(asked, frame, out, fl) {
            lemma_shows(projection, values_of(asked, frame, out, fl), frame, out, fl);
        }
        (at, out)
    } else {
        assert(order_by.len() > 0);
        (Seq::empty(), Seq::empty())
    }
}

/// What a condition keeps of `n` rows; without one all are kept.
pub proof fn lemma_kept_by<F: Floats>(
    cond: Option<Term>,
    place: Seq<char>,
    frame: Seq<Cells>,
    n: nat,
    fl: F,
    p: spec_fn(int) -> bool,
) -> (at: Seq<int>)
    requires
        match cond {
            Some(t) => holds_at(t, frame, Seq::new(n, |i: int| i as usize), fl, p),
            None => forall|i: int| 0 <= i < n ==> #[trigger] p(i),
        },
    ensures
        filtered(cond, place, frame, all_places(n), fl) matches Ok(out) && picks(
            Seq::new(n, |i: int| i as usize),
            at,
            out,
            p,
        ),
{
    assert(all_places(n) =~= Seq::new(n, |i: int| i as usize));
    match cond {
        Some(t) => lemma_filter(t, place, frame, all_places(n), fl, p),
        None => {
            let at = Seq::new(n, |i: int| i);
            assert forall|i: int| 0 <= i < n implies at.contains(i) by {
                assert(at[i] == i);
            }
            at
        },
    }
}

pub proof fn lemma_few(at: Seq<int>, n: nat)
    requires
        forall|k: int| 0 <= k < at.len() ==> 0 <= #[trigger] at[k] < n,
        forall|k: int, m: int| 0 <= k < m < at.len() ==> #[trigger] at[k] < #[trigger] at[m],
    ensures
        at.len() <= n,
    decreases at.len(),
{
    if at.len() > 0 {
        let m = at.last();
        lemma_few(at.drop_last(), m as nat);
    }
}

proof fn lemma_shows<F: Floats>(
    projection: Seq<Output>,
    vals: Seq<Cells>,
    frame: Seq<Cells>,
    rows: Seq<usize>,
    fl: F,
)
    requires
        have_values(
            Seq::new(projection.len(), |k: int| projection[k].expr),
            vals,
            frame,
            rows,
            fl,
        ),
    ensures
        evaluated_all(output_terms(projection), projection.len(), frame, rows, fl) == Ok::<
            Seq<Cells>,
            Seq<char>,
        >(vals),
        shows(answer_of(projection, vals, rows.len()), projection, frame, rows, fl),
{
    let ts = Seq::new(projection.len(), |k: int| projection[k].expr);
    assert(ts =~= output_terms(projection));
    lemma_all_values(ts, ts.len(), vals, frame, rows, fl);
    assert(vals.take(ts.len() as int) =~= vals);
    let a = answer_of(projection, vals, rows.len());
    assert forall|k: int| 0 <= k < projection.len() implies {
        let v = evaluated((#[trigger] projection[k]).expr, frame, rows, fl);
        v == Ok::<Cells, Seq<char>>(vals[k])
    } by {
        assert(ts[k] == projection[k].expr);
    }
}

} // verus!
