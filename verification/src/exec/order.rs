//! ORDER BY, LIMIT and OFFSET.
use crate::column::Cells;
use crate::exec::arr::{covers, permuted, spread, Arr, Frame, Sel};
use crate::exec::eval::{
    distances_to, eval, evaluated, evaluated_all, lemma_all_err, lemma_evaluated_len,
};
use crate::exec::scalar::{aligned, arrays};
use crate::float::{rank_total, total_rank, Floats};
use crate::plan::{keys, Key, Metric, OrderKey, Term};
use crate::text::{
    lemma_text_rank_equal, lemma_text_rank_reversed, lemma_text_rank_transitive, rank_of,
    rank_text, reversed, text_rank, Error, Rank,
};
use vstd::prelude::*;
use vstd::relations::*;
use vstd::seq_lib::*;

verus! {

/// How the values at two places stand to each other. Vectors have no order.
pub open spec fn rank_at(c: Cells, i: int, j: int) -> Rank {
    let (i, j) = (spread(c.len(), i), spread(c.len(), j));
    match c {
        Cells::I64(v) => rank_of(v[i] as int, v[j] as int),
        Cells::F64(v) => total_rank(v[i], v[j]),
        Cells::Bool(v) => rank_of(v[i] as int, v[j] as int),
        Cells::Str(v) => text_rank(v[i], v[j]),
        Cells::Vector { .. } => Rank::Equal,
    }
}

/// How two places stand to each other by the keys from `k` on: the first key that
/// tells them apart decides, and where none does, the place itself.
pub open spec fn order_rank(cols: Seq<Cells>, asc: Seq<bool>, k: int, i: int, j: int) -> Rank
    decreases cols.len() - k,
{
    if k < 0 || k >= cols.len() {
        rank_of(i, j)
    } else {
        let o = rank_at(cols[k], i, j);
        if o == Rank::Equal {
            order_rank(cols, asc, k + 1, i, j)
        } else if asc[k] {
            o
        } else {
            reversed(o)
        }
    }
}

/// The order of places by some keys.
pub open spec fn in_order(cols: Seq<Cells>, asc: Seq<bool>) -> spec_fn(usize, usize) -> bool {
    |a: usize, b: usize| order_rank(cols, asc, 0, a as int, b as int) != Rank::Greater
}

pub open spec fn all_places(n: nat) -> Seq<usize> {
    Seq::new(n, |i: int| i as usize)
}

/// The places `0..n` in the order of some keys.
pub open spec fn ordered(cols: Seq<Cells>, asc: Seq<bool>, n: nat) -> Seq<usize> {
    all_places(n).sort_by(in_order(cols, asc))
}

proof fn lemma_rank_at(c: Cells, i: int, j: int, k: int)
    ensures
        rank_at(c, i, i) == Rank::Equal,
        rank_at(c, j, i) == reversed(rank_at(c, i, j)),
        rank_at(c, i, j) != Rank::Greater && rank_at(c, j, k) != Rank::Greater ==> rank_at(c, i, k)
            != Rank::Greater,
        rank_at(c, i, j) != Rank::Greater && rank_at(c, j, k) != Rank::Greater && (rank_at(c, i, j)
            == Rank::Less || rank_at(c, j, k) == Rank::Less) ==> rank_at(c, i, k) == Rank::Less,
{
    if let Cells::Str(v) = c {
        let (a, b, d) = (v[spread(c.len(), i)], v[spread(c.len(), j)], v[spread(c.len(), k)]);
        lemma_text_rank_equal(a, a);
        lemma_text_rank_reversed(a, b);
        if text_rank(a, b) != Rank::Greater && text_rank(b, d) != Rank::Greater {
            lemma_text_rank_transitive(a, b, d);
        }
    }
}

proof fn lemma_order_rank(cols: Seq<Cells>, asc: Seq<bool>, k: int, i: int, j: int)
    requires
        0 <= k,
    ensures
        order_rank(cols, asc, k, i, i) == Rank::Equal,
        order_rank(cols, asc, k, i, j) == Rank::Equal ==> i == j,
        order_rank(cols, asc, k, j, i) == reversed(order_rank(cols, asc, k, i, j)),
    decreases cols.len() - k,
{
    if k < cols.len() {
        lemma_rank_at(cols[k], i, j, i);
        lemma_order_rank(cols, asc, k + 1, i, j);
    }
}

proof fn lemma_order_transitive(cols: Seq<Cells>, asc: Seq<bool>, k: int, a: int, b: int, c: int)
    requires
        0 <= k,
        order_rank(cols, asc, k, a, b) != Rank::Greater,
        order_rank(cols, asc, k, b, c) != Rank::Greater,
    ensures
        order_rank(cols, asc, k, a, c) != Rank::Greater,
    decreases cols.len() - k,
{
    if k < cols.len() {
        lemma_rank_at(cols[k], a, b, c);
        lemma_rank_at(cols[k], b, c, a);
        lemma_rank_at(cols[k], c, b, a);
        lemma_rank_at(cols[k], b, a, c);
        lemma_rank_at(cols[k], a, c, b);
        if rank_at(cols[k], a, b) == Rank::Equal && rank_at(cols[k], b, c) == Rank::Equal {
            lemma_order_transitive(cols, asc, k + 1, a, b, c);
        }
    }
}

/// The order by keys is a total order on places.
pub proof fn lemma_total_order(cols: Seq<Cells>, asc: Seq<bool>)
    ensures
        total_ordering(in_order(cols, asc)),
{
    let leq = in_order(cols, asc);
    assert forall|x: usize| #[trigger] leq(x, x) by {
        lemma_order_rank(cols, asc, 0, x as int, x as int);
    }
    assert forall|x: usize, y: usize| #[trigger] leq(x, y) && #[trigger] leq(y, x) implies x
        == y by {
        lemma_order_rank(cols, asc, 0, x as int, y as int);
    }
    assert forall|x: usize, y: usize, z: usize| #[trigger] leq(x, y) && #[trigger] leq(
        y,
        z,
    ) implies leq(x, z) by {
        lemma_order_transitive(cols, asc, 0, x as int, y as int, z as int);
    }
    assert forall|x: usize, y: usize| #[trigger] leq(x, y) || #[trigger] leq(y, x) by {
        lemma_order_rank(cols, asc, 0, x as int, y as int);
    }
}

/// ORDER BY gives every row once, in the order of the keys, rows that no key tells
/// apart in the order they had.
pub proof fn lemma_ordered(cols: Seq<Cells>, asc: Seq<bool>, n: nat)
    requires
        n <= usize::MAX,
    ensures
        ordered(cols, asc, n).to_multiset() == all_places(n).to_multiset(),
        ordered(cols, asc, n).len() == n,
        forall|i: int| 0 <= i < n ==> (#[trigger] ordered(cols, asc, n)[i]) < n,
        forall|i: int, j: int|
            0 <= i < j < n ==> order_rank(
                cols,
                asc,
                0,
                (#[trigger] ordered(cols, asc, n)[i]) as int,
                (#[trigger] ordered(cols, asc, n)[j]) as int,
            ) != Rank::Greater,
{
    let leq = in_order(cols, asc);
    let s = all_places(n);
    let r = ordered(cols, asc, n);
    lemma_total_order(cols, asc);
    s.lemma_sort_by_ensures(leq);
    s.to_multiset_ensures();
    r.to_multiset_ensures();
    assert forall|i: int| 0 <= i < n implies (#[trigger] r[i]) < n by {
        assert(r.contains(r[i]));
        assert(s.contains(r[i]));
    }
    assert forall|i: int, j: int| 0 <= i < j < n implies order_rank(
        cols,
        asc,
        0,
        (#[trigger] r[i]) as int,
        (#[trigger] r[j]) as int,
    ) != Rank::Greater by {
        assert(leq(r[i], r[j]));
    }
}

fn rank_arr(a: &Arr, i: usize, j: usize) -> (r: Rank)
    requires
        a@.len() == 1 || (i < a@.len() && j < a@.len()),
    ensures
        r == rank_at(a@, i as int, j as int),
{
    let one: bool = a.len() == 1;
    let i: usize = if one {
        0
    } else {
        i
    };
    let j: usize = if one {
        0
    } else {
        j
    };
    match a {
        Arr::I64(v) => if v[i] < v[j] {
            Rank::Less
        } else if v[i] == v[j] {
            Rank::Equal
        } else {
            Rank::Greater
        },
        Arr::F64(v) => rank_total(v[i], v[j]),
        Arr::Bool(v) => if v[i] < v[j] {
            Rank::Less
        } else if v[i] == v[j] {
            Rank::Equal
        } else {
            Rank::Greater
        },
        Arr::Str(v) => rank_text(v[i].as_str(), v[j].as_str()),
        Arr::Vector { .. } => Rank::Equal,
    }
}

fn comes_first(cols: &Vec<Arr>, asc: &Vec<bool>, n: usize, i: usize, j: usize) -> (r: bool)
    requires
        aligned(arrays(cols@), n as nat),
        asc.len() == cols.len(),
        i < n,
        j < n,
    ensures
        r == in_order(arrays(cols@), asc@)(i, j),
{
    let ghost cs = arrays(cols@);
    let mut k: usize = 0;
    while k < cols.len()
        invariant
            k <= cols.len(),
            cs == arrays(cols@),
            aligned(cs, n as nat),
            asc.len() == cols.len(),
            i < n,
            j < n,
            order_rank(cs, asc@, k as int, i as int, j as int) == order_rank(
                cs,
                asc@,
                0,
                i as int,
                j as int,
            ),
        decreases cols.len() - k,
    {
        assert(cs[k as int] == cols@[k as int]@);
        let o = rank_arr(&cols[k], i, j);
        match o {
            Rank::Equal => {},
            Rank::Less => {
                return asc[k];
            },
            Rank::Greater => {
                return !asc[k];
            },
        }
        k += 1;
    }
    i <= j
}

fn merge(
    a: &Vec<usize>,
    b: &Vec<usize>,
    cols: &Vec<Arr>,
    asc: &Vec<bool>,
    n: usize,
) -> (r: Vec<usize>)
    requires
        aligned(arrays(cols@), n as nat),
        asc.len() == cols.len(),
        forall|i: int| 0 <= i < a.len() ==> (#[trigger] a[i]) < n,
        forall|i: int| 0 <= i < b.len() ==> (#[trigger] b[i]) < n,
        sorted_by(a@, in_order(arrays(cols@), asc@)),
        sorted_by(b@, in_order(arrays(cols@), asc@)),
        a.len() + b.len() <= usize::MAX,
    ensures
        sorted_by(r@, in_order(arrays(cols@), asc@)),
        r@.to_multiset() == (a@ + b@).to_multiset(),
        r.len() == a.len() + b.len(),
        forall|i: int| 0 <= i < r.len() ==> (#[trigger] r[i]) < n,
{
    let ghost leq = in_order(arrays(cols@), asc@);
    proof {
        lemma_total_order(arrays(cols@), asc@);
    }
    let mut out: Vec<usize> = Vec::new();
    let mut i: usize = 0;
    let mut j: usize = 0;
    assert(a@.take(0) + b@.take(0) =~= out@);
    while i < a.len() || j < b.len()
        invariant
            i <= a.len(),
            j <= b.len(),
            a.len() + b.len() <= usize::MAX,
            leq == in_order(arrays(cols@), asc@),
            total_ordering(leq),
            aligned(arrays(cols@), n as nat),
            asc.len() == cols.len(),
            forall|k: int| 0 <= k < a.len() ==> (#[trigger] a[k]) < n,
            forall|k: int| 0 <= k < b.len() ==> (#[trigger] b[k]) < n,
            sorted_by(a@, leq),
            sorted_by(b@, leq),
            out.len() == i + j,
            sorted_by(out@, leq),
            forall|k: int| 0 <= k < out.len() ==> (#[trigger] out[k]) < n,
            forall|k: int, m: int|
                0 <= k < out.len() && i <= m < a.len() ==> #[trigger] leq(out@[k], a@[m]),
            forall|k: int, m: int|
                0 <= k < out.len() && j <= m < b.len() ==> #[trigger] leq(out@[k], b@[m]),
            out@.to_multiset() == (a@.take(i as int) + b@.take(j as int)).to_multiset(),
        decreases a.len() - i + b.len() - j,
    {
        let left: bool = if i == a.len() {
            false
        } else if j == b.len() {
            true
        } else {
            comes_first(cols, asc, n, a[i], b[j])
        };
        let ghost before = out@;
        let ghost ta = a@.take(i as int);
        let ghost tb = b@.take(j as int);
        if left {
            let x: usize = a[i];
            out.push(x);
            proof {
                before.to_multiset_ensures();
                assert(a@.take(i + 1) =~= ta.push(x));
                lemma_multiset_commutative(ta, tb);
                lemma_multiset_commutative(ta.push(x), tb);
                ta.to_multiset_ensures();
                assert(out@.to_multiset() =~= (a@.take(i + 1) + tb).to_multiset());
                assert forall|k: int, m: int| 0 <= k < out.len() && j <= m < b.len() implies
                    #[trigger] leq(out@[k], b@[m]) by {
                    if k == before.len() {
                        assert(leq(x, b@[j as int]));
                        if m > j {
                            assert(leq(b@[j as int], b@[m]));
                        }
                    }
                }
            }
            i += 1;
        } else {
            let x: usize = b[j];
            out.push(x);
            proof {
                before.to_multiset_ensures();
                assert(b@.take(j + 1) =~= tb.push(x));
                lemma_multiset_commutative(ta, tb);
                lemma_multiset_commutative(ta, tb.push(x));
                tb.to_multiset_ensures();
                assert(out@.to_multiset() =~= (ta + b@.take(j + 1)).to_multiset());
                assert forall|k: int, m: int| 0 <= k < out.len() && i <= m < a.len() implies
                    #[trigger] leq(out@[k], a@[m]) by {
                    if k == before.len() {
                        assert(!leq(a@[i as int], x));
                        assert(leq(x, a@[i as int]));
                        if m > i {
                            assert(leq(a@[i as int], a@[m]));
                        }
                    }
                }
            }
            j += 1;
        }
    }
    assert(a@.take(i as int) =~= a@);
    assert(b@.take(j as int) =~= b@);
    out
}

/// The places `lo..hi` in order.
fn sort_range(
    lo: usize,
    hi: usize,
    cols: &Vec<Arr>,
    asc: &Vec<bool>,
    n: usize,
) -> (r: Vec<usize>)
    requires
        lo <= hi <= n,
        aligned(arrays(cols@), n as nat),
        asc.len() == cols.len(),
    ensures
        sorted_by(r@, in_order(arrays(cols@), asc@)),
        r@.to_multiset() == all_places(n as nat).subrange(lo as int, hi as int).to_multiset(),
        r.len() == hi - lo,
        forall|i: int| 0 <= i < r.len() ==> (#[trigger] r[i]) < n,
    decreases hi - lo,
{
    if hi - lo <= 1 {
        let mut out: Vec<usize> = Vec::new();
        if lo < hi {
            out.push(lo);
        }
        assert(out@ =~= all_places(n as nat).subrange(lo as int, hi as int));
        return out;
    }
    let mid: usize = lo + (hi - lo) / 2;
    let a = sort_range(lo, mid, cols, asc, n);
    let b = sort_range(mid, hi, cols, asc, n);
    let r = merge(&a, &b, cols, asc, n);
    proof {
        let s = all_places(n as nat);
        let sa = s.subrange(lo as int, mid as int);
        let sb = s.subrange(mid as int, hi as int);
        assert(s.subrange(lo as int, hi as int) =~= sa + sb);
        lemma_multiset_commutative(sa, sb);
        lemma_multiset_commutative(a@, b@);
    }
    r
}

/// The places `0..n` in the order of some keys.
pub fn order_places(cols: &Vec<Arr>, asc: &Vec<bool>, n: usize) -> (r: Vec<usize>)
    requires
        aligned(arrays(cols@), n as nat),
        asc.len() == cols.len(),
    ensures
        r@ == ordered(arrays(cols@), asc@, n as nat),
        r.len() == n,
        forall|i: int| 0 <= i < r.len() ==> (#[trigger] r[i]) < n,
{
    let r = sort_range(0, n, cols, asc, n);
    proof {
        let leq = in_order(arrays(cols@), asc@);
        let s = all_places(n as nat);
        assert(s.subrange(0, n as int) =~= s);
        lemma_total_order(arrays(cols@), asc@);
        s.lemma_sort_by_ensures(leq);
        lemma_sorted_unique(r@, s.sort_by(leq), leq);
    }
    r
}

// --- limit and offset -------------------------------------------------------------------

/// The first place that OFFSET leaves.
pub open spec fn first_place(n: nat, offset: usize) -> int {
    if offset < n {
        offset as int
    } else {
        n as int
    }
}

/// The place behind the last that LIMIT leaves.
pub open spec fn end_place(n: nat, limit: Option<usize>, offset: usize) -> int {
    let start = first_place(n, offset);
    match limit {
        Some(l) if start + l < n => start + l,
        _ => n as int,
    }
}

pub open spec fn key_terms(ks: Seq<Key>) -> Seq<Term> {
    Seq::new(ks.len(), |i: int| ks[i].expr)
}

pub open spec fn key_flags(ks: Seq<Key>) -> Seq<bool> {
    Seq::new(ks.len(), |i: int| ks[i].asc)
}

/// The rows in the order of the keys, cut to what LIMIT and OFFSET leave. Without
/// keys the rows stay in the order in which they were put in.
pub open spec fn arranged<F: Floats>(
    frame: Seq<Cells>,
    rows: Seq<usize>,
    ks: Seq<Key>,
    limit: Option<usize>,
    offset: usize,
    fl: F,
) -> Result<Seq<usize>, Seq<char>> {
    let start = first_place(rows.len(), offset);
    let end = end_place(rows.len(), limit, offset);
    if ks.len() == 0 {
        Ok(rows.subrange(start, end))
    } else {
        match evaluated_all(key_terms(ks), ks.len(), frame, rows, fl) {
            Err(e) => Err(e),
            Ok(cols) => Ok(
                permuted(rows, ordered(cols, key_flags(ks), rows.len()).subrange(start, end)),
            ),
        }
    }
}

fn slice_places(order: &Vec<usize>, start: usize, end: usize) -> (r: Vec<usize>)
    requires
        start <= end <= order.len(),
    ensures
        r@ == order@.subrange(start as int, end as int),
{
    let mut out: Vec<usize> = Vec::new();
    let mut i: usize = start;
    while i < end
        invariant
            start <= i <= end <= order.len(),
            out@ == order@.subrange(start as int, i as int),
        decreases end - i,
    {
        out.push(order[i]);
        i += 1;
    }
    out
}

pub fn order_and_limit<'a, F: Floats>(
    frame: &Frame<'a>,
    sel: &Sel,
    ks: &Vec<OrderKey>,
    limit: Option<usize>,
    offset: usize,
    fl: &F,
) -> (r: Result<Sel, Error>)
    requires
        fl.exact(),
        frame.wf(),
        covers(frame@, sel@),
    ensures
        match r {
            Ok(s) => arranged(frame@, sel@, keys(ks@), limit, offset, *fl) == Ok::<
                Seq<usize>,
                Seq<char>,
            >(s@) && covers(frame@, s@),
            Err(e) => arranged(frame@, sel@, keys(ks@), limit, offset, *fl) == Err::<
                Seq<usize>,
                Seq<char>,
            >(e@),
        },
{
    let n: usize = sel.len();
    let start: usize = if offset < n {
        offset
    } else {
        n
    };
    let end: usize = match limit {
        Some(l) => if l < n - start {
            start + l
        } else {
            n
        },
        None => n,
    };
    if ks.len() == 0 {
        let mut places: Vec<usize> = Vec::new();
        let mut i: usize = start;
        while i < end
            invariant
                start <= i <= end <= n,
                places.len() == i - start,
                forall|k: int| 0 <= k < places.len() ==> (#[trigger] places[k]) == start + k,
            decreases end - i,
        {
            places.push(i);
            i += 1;
        }
        let out = sel.permute(&places);
        assert(out@ =~= sel@.subrange(start as int, end as int));
        return Ok(out);
    }
    let ghost ts = key_terms(keys(ks@));
    let mut cols: Vec<Arr> = Vec::new();
    let mut asc: Vec<bool> = Vec::new();
    let mut i: usize = 0;
    assert(arrays(cols@) =~= Seq::<Cells>::empty());
    while i < ks.len()
        invariant
            i <= ks.len(),
            fl.exact(),
            frame.wf(),
            covers(frame@, sel@),
            n == sel@.len(),
            ts == key_terms(keys(ks@)),
            cols@.len() == i,
            asc@ == key_flags(keys(ks@)).take(i as int),
            evaluated_all(ts, i as nat, frame@, sel@, *fl) == Ok::<Seq<Cells>, Seq<char>>(
                arrays(cols@),
            ),
            aligned(arrays(cols@), n as nat),
            ks.len() > 0,
        decreases ks.len() - i,
    {
        assert(ts[i as int] == ks@[i as int].expr.view());
        match eval(&ks[i].expr, frame, sel, fl) {
            Ok(a) => {
                let ghost before = arrays(cols@);
                proof {
                    lemma_evaluated_len(ts[i as int], frame@, sel@, *fl);
                }
                cols.push(a);
                assert(arrays(cols@) =~= before.push(a@));
                assert forall|k: int| 0 <= k < arrays(cols@).len() implies (#[trigger] arrays(
                    cols@,
                )[k]).len() == 1 || arrays(cols@)[k].len() == n by {
                    if k < i {
                        assert(arrays(cols@)[k] == before[k]);
                    }
                }
            },
            Err(e) => {
                proof {
                    lemma_all_err(ts, (i + 1) as nat, ts.len(), frame@, sel@, *fl);
                }
                return Err(e);
            },
        }
        asc.push(ks[i].asc);
        assert(asc@ =~= key_flags(keys(ks@)).take(i + 1));
        i += 1;
    }
    assert(key_flags(keys(ks@)).take(i as int) =~= key_flags(keys(ks@)));
    let order = order_places(&cols, &asc, n);
    let part = slice_places(&order, start, end);
    let out = sel.permute(&part);
    assert forall|c: int, k: int| 0 <= c < frame@.len() && 0 <= k < out@.len() implies (
    #[trigger] out@[k]) < (#[trigger] frame@[c]).len() by {
        assert(sel@[part@[k] as int] < frame@[c].len());
    }
    Ok(out)
}

// --- the nearest vectors -----------------------------------------------------------------------

/// Whether `near` are the places of the least of some distances, in ascending order, of equal
/// ones the earlier first.
pub open spec fn nearest(d: Seq<u64>, near: Seq<usize>) -> bool {
    &&& forall|p: int| 0 <= p < near.len() ==> (#[trigger] near[p]) < d.len()
    &&& forall|a: int, b: int|
        0 <= a < b < near.len() ==> match total_rank(
            d[(#[trigger] near[a]) as int],
            d[(#[trigger] near[b]) as int],
        ) {
            Rank::Less => true,
            Rank::Equal => near[a] < near[b],
            Rank::Greater => false,
        }
    &&& forall|p: int, j: usize|
        0 <= p < near.len() && j < d.len() && !near.contains(j) ==> #[trigger] total_rank(
            d[near[p] as int],
            d[j as int],
        ) != Rank::Greater
}

/// The search for vectors is exact: `ORDER BY` a distance with a `LIMIT` gives as many rows as
/// asked for, or all, and no row that is left out is closer than one that is given.
pub proof fn lemma_nearest<F: Floats>(
    frame: Seq<Cells>,
    rows: Seq<usize>,
    metric: Metric,
    col: usize,
    q: Seq<u32>,
    limit: usize,
    fl: F,
) -> (near: Seq<usize>)
    requires
        col < frame.len(),
        rows.len() <= usize::MAX,
    ensures
        ({
            let by = seq![Key { expr: Term::Distance { metric, col, query: q }, asc: true }];
            match distances_to(frame[col as int], rows, metric, q, fl) {
                Err(e) => arranged(frame, rows, by, Some(limit), 0, fl) == Err::<
                    Seq<usize>,
                    Seq<char>,
                >(e),
                Ok(d) => {
                    &&& arranged(frame, rows, by, Some(limit), 0, fl) == Ok::<
                        Seq<usize>,
                        Seq<char>,
                    >(permuted(rows, near))
                    &&& near.len() == if limit < rows.len() {
                        limit as nat
                    } else {
                        rows.len()
                    }
                    &&& nearest(d, near)
                },
            }
        }),
{
    let t = Term::Distance { metric, col, query: q };
    let by = seq![Key { expr: t, asc: true }];
    let n = rows.len();
    let ts = key_terms(by);
    assert(ts =~= seq![t]);
    assert(key_flags(by) =~= seq![true]);
    reveal_with_fuel(evaluated_all, 2);
    match distances_to(frame[col as int], rows, metric, q, fl) {
        Err(_) => Seq::empty(),
        Ok(d) => {
            let c = Cells::F64(d);
            let cols = seq![c];
            assert(evaluated(t, frame, rows, fl) == Ok::<Cells, Seq<char>>(c));
            assert(evaluated_all(ts, 1, frame, rows, fl) == Ok::<Seq<Cells>, Seq<char>>(
                Seq::empty().push(c),
            ));
            assert(Seq::empty().push(c) =~= cols);
            let all = ordered(cols, seq![true], n);
            lemma_ordered(cols, seq![true], n);
            let end = end_place(n, Some(limit), 0);
            let near = all.subrange(0, end);
            assert forall|a: int, b: int| 0 <= a < b < n implies match total_rank(
                d[(#[trigger] all[a]) as int],
                d[(#[trigger] all[b]) as int],
            ) {
                Rank::Less => true,
                Rank::Equal => all[a] < all[b],
                Rank::Greater => false,
            } by {
                let (x, y) = (all[a] as int, all[b] as int);
                reveal_with_fuel(order_rank, 2);
                lemma_rank_at(c, x, y, x);
                lemma_ordered_once(cols, seq![true], n, a, b);
            }
            assert forall|p: int, j: usize|
                0 <= p < near.len() && j < d.len() && !near.contains(j) implies #[trigger] total_rank(
                d[near[p] as int],
                d[j as int],
            ) != Rank::Greater by {
                lemma_ordered_every(cols, seq![true], n, j);
                let k = choose|k: int| 0 <= k < n && all[k] == j;
                assert(near[p] == all[p]);
                if k < end {
                    assert(near[k] == j);
                }
                assert(p < k);
            }
            near
        },
    }
}

proof fn lemma_ordered_every(cols: Seq<Cells>, asc: Seq<bool>, n: nat, j: usize)
    requires
        j < n <= usize::MAX,
    ensures
        exists|k: int| 0 <= k < n && #[trigger] ordered(cols, asc, n)[k] == j,
{
    let r = ordered(cols, asc, n);
    let s = all_places(n);
    lemma_ordered(cols, asc, n);
    assert(s[j as int] == j);
    to_multiset_contains(s, j);
    to_multiset_contains(r, j);
}

proof fn lemma_ordered_once(cols: Seq<Cells>, asc: Seq<bool>, n: nat, a: int, b: int)
    requires
        0 <= a < b < n <= usize::MAX,
    ensures
        ordered(cols, asc, n)[a] != ordered(cols, asc, n)[b],
{
    let r = ordered(cols, asc, n);
    let s = all_places(n);
    lemma_ordered(cols, asc, n);
    assert(s.no_duplicates());
    s.lemma_multiset_has_no_duplicates();
    r.lemma_multiset_has_no_duplicates_conv();
}

} // verus!
