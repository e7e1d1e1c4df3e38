//! What queries over groups give: the values of the keys and of the aggregates.
use crate::column::Cells;
use crate::exec::agg::aggregated;
use crate::exec::eval::{evaluated, gathered};
use crate::exec::group::{grouped, Grouping};
use crate::exec::order::all_places;
use crate::exec::select::{
    agg_columns, any_loose, filtered, group_error, group_pairs, having_place, is_known, is_loose,
    key_aggregates, key_columns, loose_error, output_aggregates, picked, query_aggregates,
    selected, summarised, where_place, with_aggregates,
};
use crate::float::Floats;
use crate::laws::conditions::holds_at;
use crate::laws::rows::{
    all_have_values, have_values, is_part, lemma_all_values, lemma_few, lemma_kept_by,
    lemma_projected, picks, puts_in_order, shown, shows, values_of,
};
use crate::plan::{
    has_aggregate, is_grouping, replacement, same_term, same_terms, substituted,
    substituted_all, visited, visited_all, Key, Output, Query, Term,
};
use vstd::prelude::*;

verus! {

/// Whether an expression holds no double and no vector.
pub open spec fn whole(t: Term) -> bool
    decreases t, 1nat,
{
    match t {
        Term::Col(_) => true,
        Term::Lit(c) => !(c is F64) && !(c is Vector),
        Term::Binary { l, r, .. } => whole(*l) && whole(*r),
        Term::Unary { e, .. } => whole(*e),
        Term::Like { e, .. } => whole(*e),
        Term::InList { e, list, .. } => whole(*e) && forall|i: int|
            0 <= i < list.len() ==> !((#[trigger] list[i]) is F64) && !(list[i] is Vector),
        Term::Between { e, low, high, .. } => whole(*e) && whole(*low) && whole(*high),
        Term::Func { args, .. } => all_whole(args, args.len()),
        Term::Distance { .. } => false,
        Term::Agg { arg, .. } => match arg {
            Some(a) => whole(*a),
            None => true,
        },
        Term::Cast { e, .. } => whole(*e),
    }
}

pub open spec fn all_whole(v: Seq<Term>, n: nat) -> bool
    decreases v, n,
{
    n == 0 || n > v.len() || (all_whole(v, (n - 1) as nat) && whole(v[n - 1]))
}

/// Without doubles and vectors, expressions are the same if and only if they are equal.
pub proof fn lemma_same_term(a: Term, b: Term)
    requires
        whole(a) || whole(b),
    ensures
        same_term(a, b) <==> a == b,
    decreases a, 1nat,
{
    match (a, b) {
        (Term::Binary { l, r, .. }, Term::Binary { l: x, r: y, .. }) => {
            lemma_same_term(*l, *x);
            lemma_same_term(*r, *y);
        },
        (Term::Unary { e, .. }, Term::Unary { e: x, .. }) => {
            lemma_same_term(*e, *x);
        },
        (Term::Like { e, .. }, Term::Like { e: x, .. }) => {
            lemma_same_term(*e, *x);
        },
        (Term::InList { e, list, .. }, Term::InList { e: x, list: other, .. }) => {
            lemma_same_term(*e, *x);
            if crate::column::same_cells(list, other) {
                assert(list =~= other);
            }
        },
        (Term::Between { e, low, high, .. }, Term::Between { e: x, low: y, high: z, .. }) => {
            lemma_same_term(*e, *x);
            lemma_same_term(*low, *y);
            lemma_same_term(*high, *z);
        },
        (Term::Func { args, .. }, Term::Func { args: other, .. }) => {
            if args.len() == other.len() {
                lemma_same_terms(args, other, args.len());
            }
            if same_terms(args, other, args.len()) {
                assert(args =~= other);
            }
        },
        (Term::Agg { arg: Some(e), .. }, Term::Agg { arg: Some(x), .. }) => {
            lemma_same_term(*e, *x);
        },
        (Term::Cast { e, .. }, Term::Cast { e: x, .. }) => {
            lemma_same_term(*e, *x);
        },
        _ => {},
    }
}

proof fn lemma_same_terms(a: Seq<Term>, b: Seq<Term>, n: nat)
    requires
        all_whole(a, n) || all_whole(b, n),
        n <= a.len(),
    ensures
        same_terms(a, b, n) <==> a.len() == b.len() && forall|i: int|
            0 <= i < n ==> a[i] == #[trigger] b[i],
    decreases a, n,
{
    if n > 0 && a.len() == b.len() {
        lemma_same_terms(a, b, (n - 1) as nat);
        lemma_same_term(a[n - 1], b[n - 1]);
        if same_terms(a, b, n) {
            assert forall|i: int| 0 <= i < n implies a[i] == #[trigger] b[i] by {
                if i < n - 1 {
                    assert(a[i] == b[i]);
                }
            }
        } else if forall|i: int| 0 <= i < n ==> a[i] == #[trigger] b[i] {
            assert(a[n - 1] == b[n - 1]);
            assert(same_terms(a, b, (n - 1) as nat));
        }
    }
}

// --- aggregates inside expressions -----------------------------------------------------------

/// Whether an expression is an aggregate or has one inside.
pub open spec fn sums_up(t: Term) -> bool
    decreases t, 1nat,
{
    match t {
        Term::Agg { .. } => true,
        Term::Binary { l, r, .. } => sums_up(*l) || sums_up(*r),
        Term::Unary { e, .. } => sums_up(*e),
        Term::Cast { e, .. } => sums_up(*e),
        Term::Like { e, .. } => sums_up(*e),
        Term::InList { e, .. } => sums_up(*e),
        Term::Between { e, low, high, .. } => sums_up(*e) || sums_up(*low) || sums_up(*high),
        Term::Func { args, .. } => any_sums_up(args, args.len()),
        _ => false,
    }
}

pub open spec fn any_sums_up(v: Seq<Term>, n: nat) -> bool
    decreases v, n,
{
    n > 0 && n <= v.len() && (any_sums_up(v, (n - 1) as nat) || sums_up(v[n - 1]))
}

spec fn any_agg(v: Seq<Term>) -> bool {
    exists|i: int| 0 <= i < v.len() && (#[trigger] v[i]) is Agg
}

proof fn lemma_any_agg(v: Seq<Term>, w: Seq<Term>)
    ensures
        any_agg(v + w) <==> any_agg(v) || any_agg(w),
{
    let all = v + w;
    if any_agg(v) {
        let i = choose|i: int| 0 <= i < v.len() && (#[trigger] v[i]) is Agg;
        assert(all[i] is Agg);
    }
    if any_agg(w) {
        let i = choose|i: int| 0 <= i < w.len() && (#[trigger] w[i]) is Agg;
        assert(all[v.len() + i] is Agg);
    }
    if any_agg(all) {
        let i = choose|i: int| 0 <= i < all.len() && (#[trigger] all[i]) is Agg;
        if i < v.len() {
            assert(v[i] is Agg);
        } else {
            assert(w[i - v.len()] is Agg);
        }
    }
}

proof fn lemma_visited_aggs(t: Term)
    ensures
        any_agg(visited(t, false)) <==> sums_up(t),
    decreases t, 1nat,
{
    let one = seq![t];
    assert(any_agg(one) <==> t is Agg) by {
        assert(one[0] == t);
    }
    assert(!any_agg(Seq::empty()));
    match t {
        Term::Binary { l, r, .. } => {
            lemma_visited_aggs(*l);
            lemma_visited_aggs(*r);
            lemma_any_agg(visited(*l, false), visited(*r, false));
            lemma_any_agg(one, visited(*l, false) + visited(*r, false));
        },
        Term::Unary { e, .. } | Term::Cast { e, .. } | Term::Like { e, .. } | Term::InList {
            e,
            ..
        } => {
            lemma_visited_aggs(*e);
            lemma_any_agg(one, visited(*e, false));
        },
        Term::Between { e, low, high, .. } => {
            lemma_visited_aggs(*e);
            lemma_visited_aggs(*low);
            lemma_visited_aggs(*high);
            let two = visited(*e, false) + visited(*low, false);
            lemma_any_agg(visited(*e, false), visited(*low, false));
            lemma_any_agg(two, visited(*high, false));
            lemma_any_agg(one, two + visited(*high, false));
        },
        Term::Func { args, .. } => {
            lemma_all_visited_aggs(args, args.len());
            lemma_any_agg(one, visited_all(args, false, args.len()));
        },
        Term::Agg { .. } => {
            assert(visited(t, false)[0] == t);
        },
        _ => {
            lemma_any_agg(one, Seq::empty());
        },
    }
}

proof fn lemma_all_visited_aggs(v: Seq<Term>, n: nat)
    ensures
        any_agg(visited_all(v, false, n)) <==> any_sums_up(v, n),
    decreases v, n,
{
    if n > 0 && n <= v.len() {
        lemma_all_visited_aggs(v, (n - 1) as nat);
        lemma_visited_aggs(v[n - 1]);
        lemma_any_agg(visited_all(v, false, (n - 1) as nat), visited(v[n - 1], false));
    } else {
        assert(!any_agg(Seq::empty()));
    }
}

/// A query groups if it has `GROUP BY`, or an aggregate anywhere in what it returns or orders
/// by, and only then.
pub proof fn lemma_groups_when(q: Query)
    ensures
        is_grouping(q) <==> {
            ||| q.group_by.len() > 0
            ||| exists|i: int|
                0 <= i < q.projection.len() && sums_up((#[trigger] q.projection[i]).expr)
            ||| exists|i: int|
                0 <= i < q.order_by.len() && sums_up((#[trigger] q.order_by[i]).expr)
        },
{
    assert forall|t: Term| #[trigger] has_aggregate(t) == sums_up(t) by {
        lemma_visited_aggs(t);
    }
}

// --- the values over groups ------------------------------------------------------------------

/// Whether an expression over some rows has the values that `c` has at some places.
pub open spec fn has_shown<F: Floats>(
    u: Term,
    frame: Seq<Cells>,
    rows: Seq<usize>,
    fl: F,
    c: Cells,
    at: Seq<int>,
) -> bool {
    evaluated(u, frame, rows, fl) matches Ok(d) && d.len() == rows.len() && forall|x: int|
        0 <= x < rows.len() ==> #[trigger] shown(d, x) == shown(c, at[x])
}

/// Whether `u` over the groups has the values that `t` is to have there: those of a key at the
/// first row of each group, those of an aggregate over the rows of the group, and of what is
/// made of such parts what is made of theirs.
pub open spec fn gives<F: Floats>(
    t: Term,
    u: Term,
    keys: Seq<Term>,
    cols: Seq<Cells>,
    g: Grouping,
    frame: Seq<Cells>,
    rows: Seq<usize>,
    columns: Seq<Cells>,
    groups: Seq<usize>,
    fl: F,
) -> bool
    decreases t, 1nat,
{
    if exists|j: int| 0 <= j < keys.len() && #[trigger] keys[j] == t {
        forall|j: int|
            0 <= j < keys.len() && #[trigger] keys[j] == t && !(t is Agg) ==> has_shown(
                u,
                columns,
                groups,
                fl,
                cols[j],
                Seq::new(groups.len(), |x: int| g.first[groups[x] as int] as int),
            )
    } else {
        match t {
            Term::Agg { .. } => aggregated(t, frame, rows, g.of, g.count, fl) is Ok && has_shown(
                u,
                columns,
                groups,
                fl,
                aggregated(t, frame, rows, g.of, g.count, fl)->Ok_0,
                Seq::new(groups.len(), |x: int| groups[x] as int),
            ),
            Term::Lit(_) => u == t,
            Term::Binary { op, l, r } => u matches Term::Binary { op: o, l: x, r: y } && o == op
                && gives(*l, *x, keys, cols, g, frame, rows, columns, groups, fl) && gives(
                *r,
                *y,
                keys,
                cols,
                g,
                frame,
                rows,
                columns,
                groups,
                fl,
            ),
            Term::Unary { op, e } => u matches Term::Unary { op: o, e: x } && o == op && gives(
                *e,
                *x,
                keys,
                cols,
                g,
                frame,
                rows,
                columns,
                groups,
                fl,
            ),
            Term::Cast { e, ty } => u matches Term::Cast { e: x, ty: to } && to == ty && gives(
                *e,
                *x,
                keys,
                cols,
                g,
                frame,
                rows,
                columns,
                groups,
                fl,
            ),
            Term::Like { e, pattern, negated, case_insensitive } => {
                &&& u matches Term::Like { e: x, pattern: p, negated: n, case_insensitive: c }
                &&& p == pattern && n == negated && c == case_insensitive
                &&& gives(*e, *x, keys, cols, g, frame, rows, columns, groups, fl)
            },
            Term::InList { e, list, negated } => {
                &&& u matches Term::InList { e: x, list: l, negated: n }
                &&& l == list && n == negated
                &&& gives(*e, *x, keys, cols, g, frame, rows, columns, groups, fl)
            },
            Term::Between { e, low, high, negated } => {
                &&& u matches Term::Between { e: x, low: a, high: b, negated: n }
                &&& n == negated
                &&& gives(*e, *x, keys, cols, g, frame, rows, columns, groups, fl)
                &&& gives(*low, *a, keys, cols, g, frame, rows, columns, groups, fl)
                &&& gives(*high, *b, keys, cols, g, frame, rows, columns, groups, fl)
            },
            Term::Func { func, args } => {
                &&& u matches Term::Func { func: f, args: xs }
                &&& f == func
                &&& xs.len() == args.len()
                &&& all_give(args, xs, args.len(), keys, cols, g, frame, rows, columns, groups, fl)
            },
            _ => true,
        }
    }
}

/// The same of the first `n` of some expressions.
pub open spec fn all_give<F: Floats>(
    ts: Seq<Term>,
    us: Seq<Term>,
    n: nat,
    keys: Seq<Term>,
    cols: Seq<Cells>,
    g: Grouping,
    frame: Seq<Cells>,
    rows: Seq<usize>,
    columns: Seq<Cells>,
    groups: Seq<usize>,
    fl: F,
) -> bool
    decreases ts, n,
{
    n == 0 || n > ts.len() || (all_give(
        ts,
        us,
        (n - 1) as nat,
        keys,
        cols,
        g,
        frame,
        rows,
        columns,
        groups,
        fl,
    ) && gives(ts[n - 1], us[n - 1], keys, cols, g, frame, rows, columns, groups, fl))
}

proof fn lemma_known_stays(list: Seq<Term>, nodes: Seq<Term>, n: nat, t: Term)
    requires
        is_known(list, t),
    ensures
        is_known(with_aggregates(list, nodes, n), t),
    decreases n,
{
    if n > 0 && n <= nodes.len() {
        lemma_known_stays(list, nodes, (n - 1) as nat, t);
        let before = with_aggregates(list, nodes, (n - 1) as nat);
        let i = choose|i: int| 0 <= i < before.len() && same_term(#[trigger] before[i], t);
        assert(with_aggregates(list, nodes, n)[i] == before[i]);
    }
}

proof fn lemma_node_known(list: Seq<Term>, nodes: Seq<Term>, n: nat, k: int)
    requires
        0 <= k < n <= nodes.len(),
        nodes[k] is Agg,
        whole(nodes[k]),
    ensures
        is_known(with_aggregates(list, nodes, n), nodes[k]),
    decreases n,
{
    let before = with_aggregates(list, nodes, (n - 1) as nat);
    let now = with_aggregates(list, nodes, n);
    if k < n - 1 {
        lemma_node_known(list, nodes, (n - 1) as nat, k);
        let i = choose|i: int|
            0 <= i < before.len() && same_term(#[trigger] before[i], nodes[k]);
        assert(now[i] == before[i]);
    } else if !is_known(before, nodes[k]) {
        lemma_same_term(nodes[k], nodes[k]);
        assert(now[before.len() as int] == nodes[k]);
    }
}

/// Whether every aggregate met in an expression is among some.
spec fn covered(aggs: Seq<Term>, t: Term) -> bool {
    forall|k: int|
        0 <= k < visited(t, true).len() && (#[trigger] visited(t, true)[k]) is Agg && whole(
            visited(t, true)[k],
        ) ==> aggs.contains(visited(t, true)[k])
}

proof fn lemma_covered_outputs(v: Seq<Output>, n: nat, j: int)
    requires
        0 <= j < n <= v.len(),
    ensures
        forall|k: int|
            0 <= k < visited(v[j].expr, true).len() && (#[trigger] visited(v[j].expr, true)[k])
                is Agg && whole(visited(v[j].expr, true)[k]) ==> is_known(
                output_aggregates(v, n),
                visited(v[j].expr, true)[k],
            ),
    decreases n,
{
    let nodes = visited(v[j].expr, true);
    let list = output_aggregates(v, (n - 1) as nat);
    if j < n - 1 {
        lemma_covered_outputs(v, (n - 1) as nat, j);
    }
    assert forall|k: int|
        0 <= k < nodes.len() && (#[trigger] nodes[k]) is Agg && whole(nodes[k]) implies is_known(
        output_aggregates(v, n),
        nodes[k],
    ) by {
        let last = visited(v[n - 1].expr, true);
        if j < n - 1 {
            lemma_known_stays(list, last, last.len(), nodes[k]);
        } else {
            lemma_node_known(list, last, last.len(), k);
        }
    }
}

proof fn lemma_keys_keep(list: Seq<Term>, v: Seq<Key>, n: nat, t: Term)
    requires
        is_known(list, t),
    ensures
        is_known(key_aggregates(list, v, n), t),
    decreases n,
{
    if n > 0 && n <= v.len() {
        lemma_keys_keep(list, v, (n - 1) as nat, t);
        let last = visited(v[n - 1].expr, true);
        lemma_known_stays(key_aggregates(list, v, (n - 1) as nat), last, last.len(), t);
    }
}

proof fn lemma_covered_keys(list: Seq<Term>, v: Seq<Key>, n: nat, j: int)
    requires
        0 <= j < n <= v.len(),
    ensures
        forall|k: int|
            0 <= k < visited(v[j].expr, true).len() && (#[trigger] visited(v[j].expr, true)[k])
                is Agg && whole(visited(v[j].expr, true)[k]) ==> is_known(
                key_aggregates(list, v, n),
                visited(v[j].expr, true)[k],
            ),
    decreases n,
{
    let nodes = visited(v[j].expr, true);
    let before = key_aggregates(list, v, (n - 1) as nat);
    if j < n - 1 {
        lemma_covered_keys(list, v, (n - 1) as nat, j);
    }
    assert forall|k: int|
        0 <= k < nodes.len() && (#[trigger] nodes[k]) is Agg && whole(nodes[k]) implies is_known(
        key_aggregates(list, v, n),
        nodes[k],
    ) by {
        let last = visited(v[n - 1].expr, true);
        if j < n - 1 {
            lemma_known_stays(before, last, last.len(), nodes[k]);
        } else {
            lemma_node_known(before, last, last.len(), k);
        }
    }
}

proof fn lemma_contained(list: Seq<Term>, t: Term)
    requires
        is_known(list, t),
        whole(t),
    ensures
        list.contains(t),
{
    let i = choose|i: int| 0 <= i < list.len() && same_term(#[trigger] list[i], t);
    lemma_same_term(list[i], t);
}

/// The aggregates that a query computes are all those met in it.
proof fn lemma_query_covers(q: Query)
    ensures
        forall|j: int|
            0 <= j < q.projection.len() ==> covered(
                query_aggregates(q),
                (#[trigger] q.projection[j]).expr,
            ),
        forall|j: int|
            0 <= j < q.order_by.len() ==> covered(
                query_aggregates(q),
                (#[trigger] q.order_by[j]).expr,
            ),
        q.having matches Some(h) ==> covered(query_aggregates(q), h),
{
    let first = output_aggregates(q.projection, q.projection.len());
    let second = key_aggregates(first, q.order_by, q.order_by.len());
    let all = query_aggregates(q);
    assert forall|t: Term| #[trigger] is_known(second, t) implies is_known(all, t) by {
        if let Some(h) = q.having {
            lemma_known_stays(second, visited(h, true), visited(h, true).len(), t);
        }
    }
    assert forall|j: int| 0 <= j < q.projection.len() implies covered(
        all,
        (#[trigger] q.projection[j]).expr,
    ) by {
        let nodes = visited(q.projection[j].expr, true);
        lemma_covered_outputs(q.projection, q.projection.len(), j);
        assert forall|k: int|
            0 <= k < nodes.len() && (#[trigger] nodes[k]) is Agg && whole(
                nodes[k],
            ) implies all.contains(nodes[k]) by {
            lemma_keys_keep(first, q.order_by, q.order_by.len(), nodes[k]);
            lemma_contained(all, nodes[k]);
        }
    }
    assert forall|j: int| 0 <= j < q.order_by.len() implies covered(
        all,
        (#[trigger] q.order_by[j]).expr,
    ) by {
        let nodes = visited(q.order_by[j].expr, true);
        lemma_covered_keys(first, q.order_by, q.order_by.len(), j);
        assert forall|k: int|
            0 <= k < nodes.len() && (#[trigger] nodes[k]) is Agg && whole(
                nodes[k],
            ) implies all.contains(nodes[k]) by {
            assert(is_known(second, nodes[k]));
            lemma_contained(all, nodes[k]);
        }
    }
    if let Some(h) = q.having {
        let nodes = visited(h, true);
        assert forall|k: int|
            0 <= k < nodes.len() && (#[trigger] nodes[k]) is Agg && whole(
                nodes[k],
            ) implies all.contains(nodes[k]) by {
            lemma_node_known(second, nodes, nodes.len(), k);
            lemma_contained(all, nodes[k]);
        }
    }
}

proof fn lemma_replaced(t: Term, pats: Seq<(Term, Term)>) -> (i: int)
    requires
        whole(t),
    ensures
        replacement(t, pats) is None <==> forall|k: int|
            0 <= k < pats.len() ==> (#[trigger] pats[k]).0 != t,
        replacement(t, pats) is Some ==> 0 <= i < pats.len() && pats[i].0 == t && replacement(
            t,
            pats,
        ) == Some(pats[i].1),
    decreases pats.len(),
{
    if pats.len() == 0 {
        0
    } else {
        lemma_same_term(t, pats[0].0);
        if same_term(t, pats[0].0) {
            assert(pats[0].0 == t);
            0
        } else {
            let rest = pats.skip(1);
            let i = lemma_replaced(t, rest);
            assert forall|k: int| 0 <= k < pats.len() && replacement(t, rest) is None implies (
            #[trigger] pats[k]).0 != t by {
                if k > 0 {
                    assert(rest[k - 1] == pats[k]);
                }
            }
            if replacement(t, rest) is Some {
                assert(rest[i] == pats[i + 1]);
            }
            i + 1
        }
    }
}

proof fn lemma_key_columns(cols: Seq<Cells>, first: Seq<usize>, k: nat)
    requires
        k <= cols.len(),
        key_columns(cols, first, k) is Ok,
    ensures
        key_columns(cols, first, k)->Ok_0.len() == k,
        forall|j: int|
            0 <= j < k ==> #[trigger] key_columns(cols, first, k)->Ok_0[j] == picked(
                cols[j],
                first,
            ),
    decreases k,
{
    if k > 0 {
        lemma_key_columns(cols, first, (k - 1) as nat);
    }
}

proof fn lemma_agg_columns<F: Floats>(
    before: Seq<Cells>,
    aggs: Seq<Term>,
    k: nat,
    frame: Seq<Cells>,
    rows: Seq<usize>,
    g: Grouping,
    fl: F,
)
    requires
        k <= aggs.len(),
        agg_columns(before, aggs, k, frame, rows, g, fl) is Ok,
    ensures
        ({
            let v = agg_columns(before, aggs, k, frame, rows, g, fl)->Ok_0;
            &&& v.len() == before.len() + k
            &&& forall|j: int| 0 <= j < before.len() ==> #[trigger] v[j] == before[j]
            &&& forall|j: int|
                before.len() <= j < v.len() ==> aggregated(
                    aggs[j - before.len()],
                    frame,
                    rows,
                    g.of,
                    g.count,
                    fl,
                ) == Ok::<Cells, Seq<char>>(#[trigger] v[j])
        }),
    decreases k,
{
    if k > 0 {
        lemma_agg_columns(before, aggs, (k - 1) as nat, frame, rows, g, fl);
    }
}

proof fn lemma_aggregated_count<F: Floats>(
    t: Term,
    frame: Seq<Cells>,
    rows: Seq<usize>,
    of: Seq<usize>,
    groups: nat,
    fl: F,
)
    ensures
        aggregated(t, frame, rows, of, groups, fl) matches Ok(c) ==> c.len() == groups && !(
        c is Vector),
{
}

/// Whether `columns` are those of the groups of a query with the given keys and aggregates.
spec fn are_columns<F: Floats>(
    aggs: Seq<Term>,
    keys: Seq<Term>,
    cols: Seq<Cells>,
    g: Grouping,
    frame: Seq<Cells>,
    rows: Seq<usize>,
    columns: Seq<Cells>,
    groups: Seq<usize>,
    fl: F,
) -> bool {
    let ks = key_columns(cols, g.first, cols.len());
    &&& have_values(keys, cols, frame, rows, fl)
    &&& aggs.len() + keys.len() <= usize::MAX
    &&& ks is Ok
    &&& agg_columns(ks->Ok_0, aggs, aggs.len(), frame, rows, g, fl) == Ok::<Seq<Cells>, Seq<char>>(
        columns,
    )
    &&& forall|j: int| 0 <= j < keys.len() ==> !((#[trigger] keys[j]) is Agg)
    &&& g.first.len() == g.count || keys.len() == 0
    &&& forall|x: int| 0 <= x < groups.len() ==> (#[trigger] groups[x]) < g.count
    &&& forall|x: int| 0 <= x < g.first.len() ==> (#[trigger] g.first[x]) < rows.len()
    &&& rows.len() <= usize::MAX
}

/// What stands first among the columns of groups are the keys, behind them the aggregates.
proof fn lemma_column_at<F: Floats>(
    aggs: Seq<Term>,
    keys: Seq<Term>,
    cols: Seq<Cells>,
    g: Grouping,
    frame: Seq<Cells>,
    rows: Seq<usize>,
    columns: Seq<Cells>,
    groups: Seq<usize>,
    fl: F,
    i: int,
)
    requires
        are_columns(aggs, keys, cols, g, frame, rows, columns, groups, fl),
    ensures
        columns.len() == keys.len() + aggs.len(),
        0 <= i < keys.len() ==> columns[i] == picked(cols[i], g.first),
        0 <= i < aggs.len() ==> aggregated(aggs[i], frame, rows, g.of, g.count, fl) == Ok::<
            Cells,
            Seq<char>,
        >(columns[keys.len() + i]) && aggs[i] is Agg,
{
    let ks = key_columns(cols, g.first, cols.len())->Ok_0;
    lemma_key_columns(cols, g.first, cols.len());
    lemma_agg_columns(ks, aggs, aggs.len(), frame, rows, g, fl);
    if 0 <= i < keys.len() {
        assert(columns[i] == ks[i]);
    }
    if 0 <= i < aggs.len() {
        assert(aggregated(aggs[i], frame, rows, g.of, g.count, fl) == Ok::<Cells, Seq<char>>(
            columns[keys.len() + i],
        ));
    }
}

proof fn lemma_picked_shown<F: Floats>(
    t: Term,
    c: Cells,
    g: Grouping,
    frame: Seq<Cells>,
    rows: Seq<usize>,
    columns: Seq<Cells>,
    groups: Seq<usize>,
    p: usize,
    fl: F,
)
    requires
        p < columns.len(),
        columns[p as int] == picked(c, g.first),
        evaluated(t, frame, rows, fl) == Ok::<Cells, Seq<char>>(c),
        g.first.len() == g.count,
        forall|x: int| 0 <= x < groups.len() ==> (#[trigger] groups[x]) < g.count,
        forall|x: int| 0 <= x < g.first.len() ==> (#[trigger] g.first[x]) < rows.len(),
        rows.len() <= usize::MAX,
    ensures
        has_shown(
            Term::Col(p),
            columns,
            groups,
            fl,
            c,
            Seq::new(groups.len(), |x: int| g.first[groups[x] as int] as int),
        ),
{
    let d = evaluated(Term::Col(p), columns, groups, fl)->Ok_0;
    assert(d == gathered(picked(c, g.first), groups));
    crate::exec::eval::lemma_evaluated_len(t, frame, rows, fl);
    assert forall|x: int| 0 <= x < groups.len() implies #[trigger] shown(d, x) == shown(
        c,
        g.first[groups[x] as int] as int,
    ) by {
        assert(groups[x] < g.count);
        assert(g.first[groups[x] as int] < rows.len());
    }
}

proof fn lemma_gathered_shown<F: Floats>(
    columns: Seq<Cells>,
    groups: Seq<usize>,
    p: usize,
    count: nat,
    fl: F,
)
    requires
        p < columns.len(),
        columns[p as int].len() == count,
        forall|x: int| 0 <= x < groups.len() ==> (#[trigger] groups[x]) < count,
    ensures
        has_shown(
            Term::Col(p),
            columns,
            groups,
            fl,
            columns[p as int],
            Seq::new(groups.len(), |x: int| groups[x] as int),
        ),
{
    let c = columns[p as int];
    let d = evaluated(Term::Col(p), columns, groups, fl)->Ok_0;
    assert(d == gathered(c, groups));
    assert forall|x: int| 0 <= x < groups.len() implies #[trigger] shown(d, x) == shown(
        c,
        groups[x] as int,
    ) by {
        assert(groups[x] < count);
    }
}

proof fn lemma_gives_key<F: Floats>(
    t: Term,
    j: int,
    aggs: Seq<Term>,
    keys: Seq<Term>,
    cols: Seq<Cells>,
    g: Grouping,
    frame: Seq<Cells>,
    rows: Seq<usize>,
    columns: Seq<Cells>,
    groups: Seq<usize>,
    fl: F,
)
    requires
        whole(t),
        are_columns(aggs, keys, cols, g, frame, rows, columns, groups, fl),
        0 <= j < keys.len(),
        keys[j] == t,
    ensures
        has_shown(
            substituted(t, group_pairs(aggs, keys)),
            columns,
            groups,
            fl,
            cols[j],
            Seq::new(groups.len(), |x: int| g.first[groups[x] as int] as int),
        ),
{
    let pats = group_pairs(aggs, keys);
    let i = lemma_replaced(t, pats);
    assert(pats[aggs.len() + j].0 == t);
    lemma_column_at(aggs, keys, cols, g, frame, rows, columns, groups, fl, i);
    assert(!(keys[j] is Agg));
    let p = i - aggs.len();
    assert(keys[p] == t);
    lemma_column_at(aggs, keys, cols, g, frame, rows, columns, groups, fl, p);
    assert(evaluated(keys[p], frame, rows, fl) == Ok::<Cells, Seq<char>>(cols[p]));
    assert(evaluated(keys[j], frame, rows, fl) == Ok::<Cells, Seq<char>>(cols[j]));
    lemma_picked_shown(t, cols[j], g, frame, rows, columns, groups, p as usize, fl);
}

proof fn lemma_gives_agg<F: Floats>(
    t: Term,
    aggs: Seq<Term>,
    keys: Seq<Term>,
    cols: Seq<Cells>,
    g: Grouping,
    frame: Seq<Cells>,
    rows: Seq<usize>,
    columns: Seq<Cells>,
    groups: Seq<usize>,
    fl: F,
)
    requires
        whole(t),
        t is Agg,
        covered(aggs, t),
        are_columns(aggs, keys, cols, g, frame, rows, columns, groups, fl),
    ensures
        aggregated(t, frame, rows, g.of, g.count, fl) is Ok,
        has_shown(
            substituted(t, group_pairs(aggs, keys)),
            columns,
            groups,
            fl,
            aggregated(t, frame, rows, g.of, g.count, fl)->Ok_0,
            Seq::new(groups.len(), |x: int| groups[x] as int),
        ),
{
    let pats = group_pairs(aggs, keys);
    let i = lemma_replaced(t, pats);
    assert(visited(t, true)[0] == t);
    assert(aggs.contains(t));
    let m = choose|m: int| 0 <= m < aggs.len() && aggs[m] == t;
    assert(pats[m].0 == t);
    if i >= aggs.len() {
        assert(keys[i - aggs.len()] == t);
    }
    assert(aggs[i] == t);
    lemma_column_at(aggs, keys, cols, g, frame, rows, columns, groups, fl, i);
    lemma_aggregated_count(t, frame, rows, g.of, g.count, fl);
    lemma_gathered_shown(columns, groups, (keys.len() + i) as usize, g.count, fl);
}

proof fn lemma_gives<F: Floats>(
    t: Term,
    aggs: Seq<Term>,
    keys: Seq<Term>,
    cols: Seq<Cells>,
    g: Grouping,
    frame: Seq<Cells>,
    rows: Seq<usize>,
    columns: Seq<Cells>,
    groups: Seq<usize>,
    fl: F,
)
    requires
        whole(t),
        covered(aggs, t),
        are_columns(aggs, keys, cols, g, frame, rows, columns, groups, fl),
    ensures
        gives(
            t,
            substituted(t, group_pairs(aggs, keys)),
            keys,
            cols,
            g,
            frame,
            rows,
            columns,
            groups,
            fl,
        ),
    decreases t, 1nat,
{
    let pats = group_pairs(aggs, keys);
    if exists|j: int| 0 <= j < keys.len() && #[trigger] keys[j] == t {
        assert forall|j: int| 0 <= j < keys.len() && #[trigger] keys[j] == t implies has_shown(
            substituted(t, pats),
            columns,
            groups,
            fl,
            cols[j],
            Seq::new(groups.len(), |x: int| g.first[groups[x] as int] as int),
        ) by {
            lemma_gives_key(t, j, aggs, keys, cols, g, frame, rows, columns, groups, fl);
        }
    } else if t is Agg {
        lemma_gives_agg(t, aggs, keys, cols, g, frame, rows, columns, groups, fl);
    } else {
        let i = lemma_replaced(t, pats);
        lemma_column_at(aggs, keys, cols, g, frame, rows, columns, groups, fl, i);
        assert(replacement(t, pats) is None) by {
            if replacement(t, pats) is Some && i >= aggs.len() {
                assert(keys[i - aggs.len()] == t);
            }
        }
        match t {
            Term::Binary { l, r, .. } => {
                lemma_covered_part(aggs, t, *l, 1);
                lemma_covered_part(aggs, t, *r, 1 + visited(*l, true).len() as int);
                lemma_gives(*l, aggs, keys, cols, g, frame, rows, columns, groups, fl);
                lemma_gives(*r, aggs, keys, cols, g, frame, rows, columns, groups, fl);
            },
            Term::Unary { e, .. } | Term::Cast { e, .. } | Term::Like { e, .. } | Term::InList {
                e,
                ..
            } => {
                lemma_covered_part(aggs, t, *e, 1);
                lemma_gives(*e, aggs, keys, cols, g, frame, rows, columns, groups, fl);
            },
            Term::Between { e, low, high, .. } => {
                let (m, n) = (visited(*e, true).len() as int, visited(*low, true).len() as int);
                lemma_covered_part(aggs, t, *e, 1);
                lemma_covered_part(aggs, t, *low, 1 + m);
                lemma_covered_part(aggs, t, *high, 1 + m + n);
                lemma_gives(*e, aggs, keys, cols, g, frame, rows, columns, groups, fl);
                lemma_gives(*low, aggs, keys, cols, g, frame, rows, columns, groups, fl);
                lemma_gives(*high, aggs, keys, cols, g, frame, rows, columns, groups, fl);
            },
            Term::Func { args, .. } => {
                assert(covered_list(aggs, visited_all(args, true, args.len()))) by {
                    let part = visited_all(args, true, args.len());
                    assert forall|k: int|
                        0 <= k < part.len() && (#[trigger] part[k]) is Agg && whole(
                            part[k],
                        ) implies aggs.contains(part[k]) by {
                        assert(visited(t, true)[k + 1] == part[k]);
                    }
                }
                lemma_all_give(
                    args,
                    args.len(),
                    aggs,
                    keys,
                    cols,
                    g,
                    frame,
                    rows,
                    columns,
                    groups,
                    fl,
                );
            },
            _ => {},
        }
    }
}

spec fn covered_list(aggs: Seq<Term>, v: Seq<Term>) -> bool {
    forall|k: int|
        0 <= k < v.len() && (#[trigger] v[k]) is Agg && whole(v[k]) ==> aggs.contains(v[k])
}

proof fn lemma_all_give<F: Floats>(
    ts: Seq<Term>,
    n: nat,
    aggs: Seq<Term>,
    keys: Seq<Term>,
    cols: Seq<Cells>,
    g: Grouping,
    frame: Seq<Cells>,
    rows: Seq<usize>,
    columns: Seq<Cells>,
    groups: Seq<usize>,
    fl: F,
)
    requires
        n <= ts.len(),
        all_whole(ts, n),
        covered_list(aggs, visited_all(ts, true, n)),
        are_columns(aggs, keys, cols, g, frame, rows, columns, groups, fl),
    ensures
        all_give(
            ts,
            substituted_all(ts, group_pairs(aggs, keys)),
            n,
            keys,
            cols,
            g,
            frame,
            rows,
            columns,
            groups,
            fl,
        ),
    decreases ts, n,
{
    if n > 0 {
        let m = (n - 1) as nat;
        let (before, last) = (visited_all(ts, true, m), visited(ts[n - 1], true));
        let all = visited_all(ts, true, n);
        assert(covered_list(aggs, before)) by {
            assert forall|k: int|
                0 <= k < before.len() && (#[trigger] before[k]) is Agg && whole(
                    before[k],
                ) implies aggs.contains(before[k]) by {
                assert(all[k] == before[k]);
            }
        }
        assert(covered(aggs, ts[n - 1])) by {
            assert forall|k: int|
                0 <= k < last.len() && (#[trigger] last[k]) is Agg && whole(
                    last[k],
                ) implies aggs.contains(last[k]) by {
                assert(all[before.len() + k] == last[k]);
            }
        }
        lemma_all_give(ts, m, aggs, keys, cols, g, frame, rows, columns, groups, fl);
        lemma_gives(ts[n - 1], aggs, keys, cols, g, frame, rows, columns, groups, fl);
    }
}

proof fn lemma_covered_part(aggs: Seq<Term>, t: Term, e: Term, from: int)
    requires
        covered(aggs, t),
        0 <= from,
        from + visited(e, true).len() <= visited(t, true).len(),
        visited(t, true).subrange(from, from + visited(e, true).len()) =~= visited(e, true),
    ensures
        covered(aggs, e),
{
    let (all, part) = (visited(t, true), visited(e, true));
    assert forall|k: int|
        0 <= k < part.len() && (#[trigger] part[k]) is Agg && whole(
            part[k],
        ) implies aggs.contains(part[k]) by {
        assert(all.subrange(from, from + part.len())[k] == all[from + k]);
        assert(all[from + k] == part[k]);
    }
}

/// What a query over groups returns, orders by and keeps groups by has over the groups the
/// values it is to have: each key's, each aggregate's, and those made of them. Names and
/// directions stay. Keys hold no aggregates.
pub proof fn lemma_group_values<F: Floats>(
    q: Query,
    frame: Seq<Cells>,
    rows: Seq<usize>,
    groups: Seq<usize>,
    cols: Seq<Cells>,
    fl: F,
)
    requires
        rows.len() <= usize::MAX,
        have_values(q.group_by, cols, frame, rows, fl),
        summarised(q, frame, rows, fl) is Ok,
        query_aggregates(q).len() + q.group_by.len() <= usize::MAX,
        forall|j: int| 0 <= j < q.group_by.len() ==> !((#[trigger] q.group_by[j]) is Agg),
        forall|x: int|
            0 <= x < groups.len() ==> (#[trigger] groups[x]) < grouped(cols, rows.len())->Ok_0.count,
    ensures
        grouped(cols, rows.len()) is Ok,
        ({
            let s = summarised(q, frame, rows, fl)->Ok_0;
            let g = grouped(cols, rows.len())->Ok_0;
            &&& s.count == g.count
            &&& s.projection.len() == q.projection.len()
            &&& s.order_by.len() == q.order_by.len()
            &&& s.having is Some <==> q.having is Some
            &&& forall|k: int|
                0 <= k < q.projection.len() ==> (#[trigger] s.projection[k]).alias
                    == q.projection[k].alias && (whole(q.projection[k].expr) ==> gives(
                    q.projection[k].expr,
                    s.projection[k].expr,
                    q.group_by,
                    cols,
                    g,
                    frame,
                    rows,
                    s.columns,
                    groups,
                    fl,
                ))
            &&& forall|k: int|
                0 <= k < q.order_by.len() ==> (#[trigger] s.order_by[k]).asc == q.order_by[k].asc
                    && (whole(q.order_by[k].expr) ==> gives(
                    q.order_by[k].expr,
                    s.order_by[k].expr,
                    q.group_by,
                    cols,
                    g,
                    frame,
                    rows,
                    s.columns,
                    groups,
                    fl,
                ))
            &&& q.having matches Some(h) ==> (whole(h) ==> gives(
                h,
                s.having->0,
                q.group_by,
                cols,
                g,
                frame,
                rows,
                s.columns,
                groups,
                fl,
            ))
        }),
{
    let aggs = query_aggregates(q);
    let keys = q.group_by;
    lemma_all_values(keys, keys.len(), cols, frame, rows, fl);
    assert(cols.take(keys.len() as int) =~= cols);
    let g = grouped(cols, rows.len())->Ok_0;
    let s = summarised(q, frame, rows, fl)->Ok_0;
    lemma_query_covers(q);
    crate::exec::group::lemma_first_rows(cols, rows.len());
    assert forall|k: int| 0 <= k < q.projection.len() && whole(
        q.projection[k].expr,
    ) implies gives(
        q.projection[k].expr,
        (#[trigger] s.projection[k]).expr,
        keys,
        cols,
        g,
        frame,
        rows,
        s.columns,
        groups,
        fl,
    ) by {
        let t = q.projection[k].expr;
        lemma_gives(t, aggs, keys, cols, g, frame, rows, s.columns, groups, fl);
    }
    assert forall|k: int| 0 <= k < q.order_by.len() && whole(q.order_by[k].expr) implies gives(
        q.order_by[k].expr,
        (#[trigger] s.order_by[k]).expr,
        keys,
        cols,
        g,
        frame,
        rows,
        s.columns,
        groups,
        fl,
    ) by {
        let t = q.order_by[k].expr;
        lemma_gives(t, aggs, keys, cols, g, frame, rows, s.columns, groups, fl);
    }
    if let Some(h) = q.having {
        if whole(h) {
            lemma_gives(h, aggs, keys, cols, g, frame, rows, s.columns, groups, fl);
        }
    }
}

/// Whether an expression has one value for each group: it is a key, an aggregate or a literal,
/// or made of nothing else.
pub open spec fn one_per_group(t: Term, keys: Seq<Term>) -> bool
    decreases t, 1nat,
{
    keys.contains(t) || match t {
        Term::Agg { .. } => true,
        Term::Lit(_) => true,
        Term::Col(_) => false,
        Term::Distance { .. } => false,
        Term::Binary { l, r, .. } => one_per_group(*l, keys) && one_per_group(*r, keys),
        Term::Unary { e, .. } => one_per_group(*e, keys),
        Term::Cast { e, .. } => one_per_group(*e, keys),
        Term::Like { e, .. } => one_per_group(*e, keys),
        Term::InList { e, .. } => one_per_group(*e, keys),
        Term::Between { e, low, high, .. } => one_per_group(*e, keys) && one_per_group(*low, keys)
            && one_per_group(*high, keys),
        Term::Func { args, .. } => all_per_group(args, keys, args.len()),
    }
}

pub open spec fn all_per_group(v: Seq<Term>, keys: Seq<Term>, n: nat) -> bool
    decreases v, n,
{
    n == 0 || n > v.len() || (all_per_group(v, keys, (n - 1) as nat) && one_per_group(
        v[n - 1],
        keys,
    ))
}

spec fn only_aggregates(v: Seq<Term>) -> bool {
    forall|i: int| 0 <= i < v.len() ==> (#[trigger] v[i]) is Agg
}

proof fn lemma_known_pair(t: Term, aggs: Seq<Term>, keys: Seq<Term>)
    requires
        whole(t),
        only_aggregates(aggs),
        !(t is Agg),
    ensures
        replacement(t, group_pairs(aggs, keys)) is Some <==> keys.contains(t),
{
    let pats = group_pairs(aggs, keys);
    let i = lemma_replaced(t, pats);
    if replacement(t, pats) is Some {
        if i < aggs.len() {
            assert(aggs[i] is Agg);
        } else {
            assert(keys[i - aggs.len()] == t);
        }
    }
    if keys.contains(t) {
        let j = choose|j: int| 0 <= j < keys.len() && keys[j] == t;
        assert(pats[aggs.len() + j].0 == t);
    }
}

proof fn lemma_loose(t: Term, aggs: Seq<Term>, keys: Seq<Term>)
    requires
        whole(t),
        only_aggregates(aggs),
    ensures
        is_loose(t, group_pairs(aggs, keys)) <==> !one_per_group(t, keys),
    decreases t, 1nat,
{
    if !(t is Agg) {
        lemma_known_pair(t, aggs, keys);
    }
    match t {
        Term::Binary { l, r, .. } => {
            lemma_loose(*l, aggs, keys);
            lemma_loose(*r, aggs, keys);
        },
        Term::Unary { e, .. } | Term::Cast { e, .. } | Term::Like { e, .. } | Term::InList {
            e,
            ..
        } => {
            lemma_loose(*e, aggs, keys);
        },
        Term::Between { e, low, high, .. } => {
            lemma_loose(*e, aggs, keys);
            lemma_loose(*low, aggs, keys);
            lemma_loose(*high, aggs, keys);
        },
        Term::Func { args, .. } => {
            lemma_any_loose(args, aggs, keys, args.len());
        },
        _ => {},
    }
}

proof fn lemma_any_loose(v: Seq<Term>, aggs: Seq<Term>, keys: Seq<Term>, n: nat)
    requires
        n <= v.len(),
        all_whole(v, n),
        only_aggregates(aggs),
    ensures
        any_loose(v, group_pairs(aggs, keys), n) <==> !all_per_group(v, keys, n),
    decreases v, n,
{
    if n > 0 {
        lemma_any_loose(v, aggs, keys, (n - 1) as nat);
        lemma_loose(v[n - 1], aggs, keys);
    }
}

proof fn lemma_with_aggregates(list: Seq<Term>, nodes: Seq<Term>, n: nat)
    requires
        only_aggregates(list),
    ensures
        only_aggregates(with_aggregates(list, nodes, n)),
    decreases n,
{
    if n > 0 && n <= nodes.len() {
        lemma_with_aggregates(list, nodes, (n - 1) as nat);
    }
}

proof fn lemma_only_outputs(v: Seq<Output>, n: nat)
    ensures
        only_aggregates(output_aggregates(v, n)),
    decreases n,
{
    if n > 0 && n <= v.len() {
        lemma_only_outputs(v, (n - 1) as nat);
        let nodes = visited(v[n - 1].expr, true);
        lemma_with_aggregates(output_aggregates(v, (n - 1) as nat), nodes, nodes.len());
    }
}

proof fn lemma_only_keys(list: Seq<Term>, v: Seq<Key>, n: nat)
    requires
        only_aggregates(list),
    ensures
        only_aggregates(key_aggregates(list, v, n)),
    decreases n,
{
    if n > 0 && n <= v.len() {
        lemma_only_keys(list, v, (n - 1) as nat);
        let nodes = visited(v[n - 1].expr, true);
        lemma_with_aggregates(key_aggregates(list, v, (n - 1) as nat), nodes, nodes.len());
    }
}

proof fn lemma_loose_error(v: Seq<Output>, pats: Seq<(Term, Term)>, i: int)
    requires
        0 <= i,
    ensures
        loose_error(v, pats, i) is None <==> forall|k: int|
            i <= k < v.len() ==> !is_loose((#[trigger] v[k]).expr, pats),
    decreases v.len() - i,
{
    if i < v.len() {
        lemma_loose_error(v, pats, i + 1);
    }
}

/// A query over groups is refused if and only if something it returns, orders by or keeps
/// groups by has no one value for each group.
pub proof fn lemma_refused(q: Query)
    requires
        forall|k: int| 0 <= k < q.projection.len() ==> whole((#[trigger] q.projection[k]).expr),
        forall|k: int| 0 <= k < q.order_by.len() ==> whole((#[trigger] q.order_by[k]).expr),
        q.having matches Some(h) ==> whole(h),
    ensures
        group_error(q, group_pairs(query_aggregates(q), q.group_by)) is None <==> {
            &&& forall|k: int|
                0 <= k < q.projection.len() ==> one_per_group(
                    (#[trigger] q.projection[k]).expr,
                    q.group_by,
                )
            &&& forall|k: int|
                0 <= k < q.order_by.len() ==> one_per_group(
                    (#[trigger] q.order_by[k]).expr,
                    q.group_by,
                )
            &&& q.having matches Some(h) ==> one_per_group(h, q.group_by)
        },
{
    let aggs = query_aggregates(q);
    let keys = q.group_by;
    let pats = group_pairs(aggs, keys);
    lemma_only_outputs(q.projection, q.projection.len());
    let first = output_aggregates(q.projection, q.projection.len());
    lemma_only_keys(first, q.order_by, q.order_by.len());
    let second = key_aggregates(first, q.order_by, q.order_by.len());
    if let Some(h) = q.having {
        lemma_with_aggregates(second, visited(h, true), visited(h, true).len());
        lemma_loose(h, aggs, keys);
    }
    lemma_loose_error(q.projection, pats, 0);
    assert forall|k: int| 0 <= k < q.projection.len() implies (is_loose(
        (#[trigger] q.projection[k]).expr,
        pats,
    ) <==> !one_per_group(q.projection[k].expr, keys)) by {
        lemma_loose(q.projection[k].expr, aggs, keys);
    }
    assert forall|k: int| 0 <= k < q.order_by.len() implies (is_loose(
        (#[trigger] q.order_by[k]).expr,
        pats,
    ) <==> !one_per_group(q.order_by[k].expr, keys)) by {
        lemma_loose(q.order_by[k].expr, aggs, keys);
    }
}

/// A query over groups makes its groups of the rows that `WHERE` holds of, gives the groups
/// that `HAVING` holds of in the order of the keys, as far as the limit goes, each with the
/// values of what was asked for.
pub proof fn lemma_select_groups<F: Floats>(
    q: Query,
    frame: Seq<Cells>,
    n: nat,
    fl: F,
    p: spec_fn(int) -> bool,
    h: spec_fn(int) -> bool,
    kept_rows: Seq<int>,
    rows: Seq<usize>,
) -> (r: (Seq<int>, Seq<usize>, Seq<int>, Seq<usize>))
    requires
        n <= usize::MAX,
        is_grouping(q),
        match q.filter {
            Some(t) => holds_at(t, frame, Seq::new(n, |i: int| i as usize), fl, p),
            None => forall|i: int| 0 <= i < n ==> #[trigger] p(i),
        },
        picks(Seq::new(n, |i: int| i as usize), kept_rows, rows, p),
        summarised(q, frame, rows, fl) matches Ok(s) && s.count <= usize::MAX && match s.having {
            Some(t) => holds_at(t, s.columns, Seq::new(s.count, |i: int| i as usize), fl, h),
            None => forall|i: int| 0 <= i < s.count ==> #[trigger] h(i),
        },
    ensures
        ({
            let (kept_at, groups, at, out) = r;
            let s = summarised(q, frame, rows, fl)->Ok_0;
            let by = Seq::new(s.order_by.len(), |k: int| s.order_by[k].expr);
            let asc = Seq::new(s.order_by.len(), |k: int| s.order_by[k].asc);
            let asked = Seq::new(s.projection.len(), |k: int| s.projection[k].expr);
            &&& picks(Seq::new(s.count, |i: int| i as usize), kept_at, groups, h)
            &&& selected(q, frame, n, fl) is Ok <==> all_have_values(by, s.columns, groups, fl)
                && all_have_values(asked, s.columns, out, fl)
            &&& selected(q, frame, n, fl) matches Ok(a) ==> {
                &&& puts_in_order(at, groups.len(), values_of(by, s.columns, groups, fl), asc)
                &&& is_part(out, Seq::new(groups.len(), |k: int| groups[at[k]]), q.limit, q.offset)
                &&& shows(a, s.projection, s.columns, out, fl)
            }
        }),
{
    let all = all_places(n);
    assert(all =~= Seq::new(n, |i: int| i as usize));
    let first_at = lemma_kept_by(q.filter, where_place(), frame, n, fl, p);
    let found = filtered(q.filter, where_place(), frame, all, fl)->Ok_0;
    lemma_picks_one(all, kept_rows, rows, first_at, found, p);
    let s = summarised(q, frame, rows, fl)->Ok_0;
    assert(all_places(s.count) =~= Seq::new(s.count, |i: int| i as usize));
    let kept_at = lemma_kept_by(s.having, having_place(), s.columns, s.count, fl, h);
    let groups = filtered(s.having, having_place(), s.columns, all_places(s.count), fl)->Ok_0;
    lemma_few(kept_at, s.count);
    let (at, out) = lemma_projected(
        s.projection,
        s.order_by,
        q.limit,
        q.offset,
        s.columns,
        groups,
        fl,
    );
    (kept_at, groups, at, out)
}

/// What is picked by one condition is one thing.
proof fn lemma_picks_one(
    rows: Seq<usize>,
    a: Seq<int>,
    x: Seq<usize>,
    b: Seq<int>,
    y: Seq<usize>,
    p: spec_fn(int) -> bool,
)
    requires
        picks(rows, a, x, p),
        picks(rows, b, y, p),
    ensures
        x == y,
{
    lemma_same_places(a, b);
    assert forall|k: int| 0 <= k < x.len() implies x[k] == y[k] by {
        assert(x[k] == rows[a[k]]);
        assert(y[k] == rows[b[k]]);
    }
    assert(x =~= y);
}

proof fn lemma_same_places(a: Seq<int>, b: Seq<int>)
    requires
        forall|k: int| 0 <= k < a.len() ==> b.contains(#[trigger] a[k]),
        forall|k: int| 0 <= k < b.len() ==> a.contains(#[trigger] b[k]),
        forall|k: int, m: int| 0 <= k < m < a.len() ==> #[trigger] a[k] < #[trigger] a[m],
        forall|k: int, m: int| 0 <= k < m < b.len() ==> #[trigger] b[k] < #[trigger] b[m],
    ensures
        a == b,
    decreases a.len(),
{
    if a.len() == 0 {
        if b.len() > 0 {
            assert(a.contains(b[0]));
        }
        assert(a =~= b);
    } else {
        assert(b.contains(a[0]));
        assert(b.contains(a.last()));
        assert(a.contains(b.last()));
        let (c, d) = (a.drop_last(), b.drop_last());
        assert(a.last() == b.last());
        assert forall|k: int| 0 <= k < c.len() implies d.contains(#[trigger] c[k]) by {
            assert(b.contains(a[k]));
            let m = choose|m: int| 0 <= m < b.len() && b[m] == a[k];
            assert(a[k] < a[a.len() - 1]);
            assert(d[m] == a[k]);
        }
        assert forall|k: int| 0 <= k < d.len() implies c.contains(#[trigger] d[k]) by {
            assert(a.contains(b[k]));
            let m = choose|m: int| 0 <= m < a.len() && a[m] == b[k];
            assert(b[k] < b[b.len() - 1]);
            assert(c[m] == b[k]);
        }
        lemma_same_places(c, d);
        assert(a =~= c.push(a.last()));
        assert(b =~= d.push(b.last()));
    }
}

} // verus!
