//! SELECT: filter, group, order, cut and project.
use crate::column::{cell_rows, cells, copy_words, truths, Cell, Cells, Column, DataType, Value};
use crate::exec::agg::{aggregated, numbered_below, run_agg};
use crate::exec::arr::{as_column, bools, contents, covers, spread, word_rows, Arr, Frame, Sel};
use crate::exec::eval::{
    eval, eval_all, evaluated, evaluated_all, gathered, lemma_all_err, lemma_evaluated_len,
};
use crate::exec::group::{
    assign_groups, first_rows, grouped, lemma_first_rows, lemma_groups, Grouping,
};
use crate::exec::order::{all_places, arranged, order_and_limit};
use crate::exec::scalar::{aligned, arrays};
use crate::float::Floats;
use crate::plan::{
    is_grouping, keys, maybe, outputs, pairs, replacement, same_term, seen, substituted, terms,
    visited, Expr, Key, OrderKey, Output, Projection, Query, Select, Term,
};
use crate::table::Table;
use crate::text::{err, in_context, strings, text2, text3, Error};
use vstd::prelude::*;
use vstd::string::*;

verus! {

broadcast use vstd::string::group_string_axioms;

/// The answer to a query.
#[derive(Debug)]
pub struct QueryResult {
    pub columns: Vec<String>,
    pub types: Vec<DataType>,
    pub rows: Vec<Vec<Value>>,
}

/// What a [`QueryResult`] is.
#[verifier::ext_equal]
pub struct Answer {
    pub columns: Seq<Seq<char>>,
    pub types: Seq<DataType>,
    pub rows: Seq<Seq<Cell>>,
}

impl View for QueryResult {
    type V = Answer;

    open spec fn view(&self) -> Answer {
        Answer {
            columns: strings(self.columns@),
            types: self.types@,
            rows: cell_rows(self.rows@),
        }
    }
}

/// An answer that is one text.
pub open spec fn message_answer(text: Seq<char>) -> Answer {
    Answer {
        columns: seq!["result"@],
        types: seq![DataType::Str],
        rows: seq![seq![Cell::Str(text)]],
    }
}

impl QueryResult {
    pub fn message(text: &str) -> (r: QueryResult)
        ensures
            r@ == message_answer(text@),
    {
        let mut columns: Vec<String> = Vec::new();
        columns.push("result".to_owned());
        let mut types: Vec<DataType> = Vec::new();
        types.push(DataType::Str);
        let mut row: Vec<Value> = Vec::new();
        row.push(Value::Str(text.to_owned()));
        let mut rows: Vec<Vec<Value>> = Vec::new();
        rows.push(row);
        let r = QueryResult { columns, types, rows };
        proof {
            assert(strings(r.columns@) =~= seq!["result"@]);
            assert(r.types@ =~= seq![DataType::Str]);
            assert(cells(r.rows@[0]@) =~= seq![Cell::Str(text@)]);
            assert(cell_rows(r.rows@) =~= seq![seq![Cell::Str(text@)]]);
        }
        r
    }
}

// --- filters --------------------------------------------------------------------------------

/// The rows among the first `k` that a mask keeps.
pub open spec fn kept(rows: Seq<usize>, mask: Seq<bool>, k: nat) -> Seq<usize>
    decreases k,
{
    if k == 0 {
        Seq::empty()
    } else {
        let before = kept(rows, mask, (k - 1) as nat);
        if mask[k - 1] {
            before.push(rows[k - 1])
        } else {
            before
        }
    }
}

/// The rows that a condition keeps. A condition that is a constant keeps all or
/// none of them.
pub open spec fn filtered<F: Floats>(
    cond: Option<Term>,
    place: Seq<char>,
    frame: Seq<Cells>,
    rows: Seq<usize>,
    fl: F,
) -> Result<Seq<usize>, Seq<char>> {
    match cond {
        None => Ok(rows),
        Some(t) => match evaluated(t, frame, rows, fl) {
            Err(e) => Err(e),
            Ok(c) => match bools(c) {
                Err(e) => Err(in_context(place, e)),
                Ok(m) => if m.len() == 1 {
                    if m[0] {
                        Ok(rows)
                    } else {
                        Ok(Seq::empty())
                    }
                } else {
                    Ok(kept(rows, m, rows.len()))
                },
            },
        },
    }
}

proof fn lemma_kept_covered(frame: Seq<Cells>, rows: Seq<usize>, mask: Seq<bool>, k: nat)
    requires
        covers(frame, rows),
        k <= rows.len(),
    ensures
        covers(frame, kept(rows, mask, k)),
    decreases k,
{
    if k > 0 {
        lemma_kept_covered(frame, rows, mask, (k - 1) as nat);
        let before = kept(rows, mask, (k - 1) as nat);
        let now = kept(rows, mask, k);
        assert forall|c: int, i: int| 0 <= c < frame.len() && 0 <= i < now.len() implies (
        #[trigger] now[i]) < (#[trigger] frame[c]).len() by {
            if i < before.len() {
                assert(before[i] < frame[c].len());
            } else {
                assert(rows[k - 1] < frame[c].len());
            }
        }
    }
}

fn filter_rows<'a, F: Floats>(
    cond: &Option<Expr>,
    place: &str,
    frame: &Frame<'a>,
    sel: Sel,
    fl: &F,
) -> (r: Result<Sel, Error>)
    requires
        fl.exact(),
        frame.wf(),
        covers(frame@, sel@),
    ensures
        match r {
            Ok(s) => filtered(maybe(*cond), place@, frame@, sel@, *fl) == Ok::<
                Seq<usize>,
                Seq<char>,
            >(s@) && covers(frame@, s@),
            Err(e) => filtered(maybe(*cond), place@, frame@, sel@, *fl) == Err::<
                Seq<usize>,
                Seq<char>,
            >(e@),
        },
{
    let cond = match cond {
        None => {
            return Ok(sel);
        },
        Some(e) => e,
    };
    let a = match eval(cond, frame, &sel, fl) {
        Ok(a) => a,
        Err(e) => {
            return Err(e);
        },
    };
    proof {
        lemma_evaluated_len(cond.view(), frame@, sel@, *fl);
    }
    let mask = match a.as_bool() {
        Ok(m) => m,
        Err(e) => {
            return Err(e.context(place));
        },
    };
    if mask.len() == 1 {
        if mask[0] != 0 {
            return Ok(sel);
        }
        let none: Vec<usize> = Vec::new();
        assert(none@ =~= Seq::<usize>::empty());
        return Ok(Sel::Ids(none));
    }
    let n: usize = sel.len();
    let mut ids: Vec<usize> = Vec::new();
    let mut i: usize = 0;
    while i < n
        invariant
            i <= n,
            n == sel@.len(),
            mask@.len() == n,
            ids@ == kept(sel@, truths(mask@), i as nat),
        decreases n - i,
    {
        if mask[i] != 0 {
            ids.push(sel.row(i));
        }
        i += 1;
    }
    proof {
        lemma_kept_covered(frame@, sel@, truths(mask@), n as nat);
    }
    Ok(Sel::Ids(ids))
}

// --- grouping -------------------------------------------------------------------------------

pub open spec fn is_known(list: Seq<Term>, t: Term) -> bool {
    exists|i: int| 0 <= i < list.len() && same_term(#[trigger] list[i], t)
}

/// A list with the aggregates among the first `n` of some expressions added to it,
/// each once.
pub open spec fn with_aggregates(list: Seq<Term>, nodes: Seq<Term>, n: nat) -> Seq<Term>
    decreases n,
{
    if n == 0 || n > nodes.len() {
        list
    } else {
        let before = with_aggregates(list, nodes, (n - 1) as nat);
        let t = nodes[n - 1];
        if t is Agg && !is_known(before, t) {
            before.push(t)
        } else {
            before
        }
    }
}

pub open spec fn aggregates_in(list: Seq<Term>, t: Term) -> Seq<Term> {
    with_aggregates(list, visited(t, true), visited(t, true).len())
}

pub open spec fn output_aggregates(v: Seq<Output>, n: nat) -> Seq<Term>
    decreases n,
{
    if n == 0 || n > v.len() {
        Seq::empty()
    } else {
        aggregates_in(output_aggregates(v, (n - 1) as nat), v[n - 1].expr)
    }
}

pub open spec fn key_aggregates(list: Seq<Term>, v: Seq<Key>, n: nat) -> Seq<Term>
    decreases n,
{
    if n == 0 || n > v.len() {
        list
    } else {
        aggregates_in(key_aggregates(list, v, (n - 1) as nat), v[n - 1].expr)
    }
}

/// The aggregates of a query, each once: of what it returns, of what it orders by,
/// of HAVING.
pub open spec fn query_aggregates(q: Query) -> Seq<Term> {
    let list = key_aggregates(
        output_aggregates(q.projection, q.projection.len()),
        q.order_by,
        q.order_by.len(),
    );
    match q.having {
        Some(h) => aggregates_in(list, h),
        None => list,
    }
}

/// The values of a key in the first rows of the groups.
pub open spec fn picked(c: Cells, first: Seq<usize>) -> Cells {
    gathered(c, Seq::new(first.len(), |g: int| spread(c.len(), first[g] as int) as usize))
}

/// The columns of the first `k` keys, one value for each group.
pub open spec fn key_columns(cols: Seq<Cells>, first: Seq<usize>, k: nat) -> Result<
    Seq<Cells>,
    Seq<char>,
>
    decreases k,
{
    if k == 0 || k > cols.len() {
        Ok(Seq::empty())
    } else {
        match key_columns(cols, first, (k - 1) as nat) {
            Err(e) => Err(e),
            Ok(v) => match as_column(picked(cols[k - 1], first)) {
                Err(e) => Err(e),
                Ok(c) => Ok(v.push(c)),
            },
        }
    }
}

/// The columns of the first `k` aggregates behind those of the keys.
pub open spec fn agg_columns<F: Floats>(
    before: Seq<Cells>,
    aggs: Seq<Term>,
    k: nat,
    frame: Seq<Cells>,
    rows: Seq<usize>,
    g: Grouping,
    fl: F,
) -> Result<Seq<Cells>, Seq<char>>
    decreases k,
{
    if k == 0 || k > aggs.len() {
        Ok(before)
    } else {
        match agg_columns(before, aggs, (k - 1) as nat, frame, rows, g, fl) {
            Err(e) => Err(e),
            Ok(v) => match aggregated(aggs[k - 1], frame, rows, g.of, g.count, fl) {
                Err(e) => Err(e),
                Ok(c) => Ok(v.push(c)),
            },
        }
    }
}

/// What stands for the aggregates and the keys over the groups. The aggregates come
/// first: `sum(x)` under `GROUP BY x` is the aggregate, not the sum of a key.
pub open spec fn group_pairs(aggs: Seq<Term>, group_by: Seq<Term>) -> Seq<(Term, Term)> {
    Seq::new(
        aggs.len() + group_by.len(),
        |i: int|
            if i < aggs.len() {
                (aggs[i], Term::Col((group_by.len() + i) as usize))
            } else {
                (group_by[i - aggs.len()], Term::Col((i - aggs.len()) as usize))
            },
    )
}

/// Whether an expression reads a column that is neither in a key nor in an
/// aggregate.
pub open spec fn is_loose(t: Term, pats: Seq<(Term, Term)>) -> bool
    decreases t, 1nat,
{
    replacement(t, pats) is None && match t {
        Term::Col(_) => true,
        Term::Distance { .. } => true,
        Term::Binary { l, r, .. } => is_loose(*l, pats) || is_loose(*r, pats),
        Term::Unary { e, .. } => is_loose(*e, pats),
        Term::Cast { e, .. } => is_loose(*e, pats),
        Term::Like { e, .. } => is_loose(*e, pats),
        Term::InList { e, .. } => is_loose(*e, pats),
        Term::Between { e, low, high, .. } => is_loose(*e, pats) || is_loose(*low, pats)
            || is_loose(*high, pats),
        Term::Func { args, .. } => any_loose(args, pats, args.len()),
        _ => false,
    }
}

pub open spec fn any_loose(v: Seq<Term>, pats: Seq<(Term, Term)>, n: nat) -> bool
    decreases v, n,
{
    n > 0 && n <= v.len() && (any_loose(v, pats, (n - 1) as nat) || is_loose(v[n - 1], pats))
}

/// The first thing returned that is neither a key nor an aggregate, if any is.
pub open spec fn loose_error(v: Seq<Output>, pats: Seq<(Term, Term)>, i: int) -> Option<Seq<char>>
    decreases v.len() - i,
{
    if i < 0 || i >= v.len() {
        None
    } else if is_loose(v[i].expr, pats) {
        Some("'"@ + v[i].alias + "' не агрегат и не входит в GROUP BY"@)
    } else {
        loose_error(v, pats, i + 1)
    }
}

/// Whether a row order asks for something that is neither a key nor an aggregate.
pub open spec fn orders_loosely(v: Seq<Key>, pats: Seq<(Term, Term)>) -> bool {
    exists|i: int| 0 <= i < v.len() && is_loose((#[trigger] v[i]).expr, pats)
}

pub open spec fn loose_in(place: Seq<char>) -> Seq<char> {
    place + ": выражение не агрегат и не входит в GROUP BY"@
}

/// Why a query cannot be answered from its groups, where it cannot.
pub open spec fn group_error(q: Query, pats: Seq<(Term, Term)>) -> Option<Seq<char>> {
    match loose_error(q.projection, pats, 0) {
        Some(e) => Some(e),
        None => if orders_loosely(q.order_by, pats) {
            Some(loose_in("ORDER BY"@))
        } else {
            match q.having {
                Some(h) if is_loose(h, pats) => Some(loose_in("HAVING"@)),
                _ => None,
            }
        },
    }
}

/// A query over groups: the columns of the groups and what is asked of them.
pub struct Summary {
    pub columns: Seq<Cells>,
    pub count: nat,
    pub projection: Seq<Output>,
    pub order_by: Seq<Key>,
    pub having: Option<Term>,
}

pub open spec fn rewritten_outputs(v: Seq<Output>, pats: Seq<(Term, Term)>) -> Seq<Output> {
    Seq::new(
        v.len(),
        |i: int| Output { expr: substituted(v[i].expr, pats), alias: v[i].alias },
    )
}

pub open spec fn rewritten_keys(v: Seq<Key>, pats: Seq<(Term, Term)>) -> Seq<Key> {
    Seq::new(v.len(), |i: int| Key { expr: substituted(v[i].expr, pats), asc: v[i].asc })
}

pub open spec fn summarised<F: Floats>(
    q: Query,
    frame: Seq<Cells>,
    rows: Seq<usize>,
    fl: F,
) -> Result<Summary, Seq<char>> {
    match evaluated_all(q.group_by, q.group_by.len(), frame, rows, fl) {
        Err(e) => Err(e),
        Ok(cols) => match grouped(cols, rows.len()) {
            Err(e) => Err(e),
            Ok(g) => {
                let aggs = query_aggregates(q);
                let pats = group_pairs(aggs, q.group_by);
                match key_columns(cols, g.first, cols.len()) {
                    Err(e) => Err(e),
                    Ok(ks) => match agg_columns(ks, aggs, aggs.len(), frame, rows, g, fl) {
                        Err(e) => Err(e),
                        Ok(columns) => match group_error(q, pats) {
                            Some(e) => Err(e),
                            None => Ok(
                                Summary {
                                    columns,
                                    count: g.count,
                                    projection: rewritten_outputs(q.projection, pats),
                                    order_by: rewritten_keys(q.order_by, pats),
                                    having: match q.having {
                                        Some(h) => Some(substituted(h, pats)),
                                        None => None,
                                    },
                                },
                            ),
                        },
                    },
                }
            },
        },
    }
}

// --- the whole query ------------------------------------------------------------------------

pub open spec fn output_terms(v: Seq<Output>) -> Seq<Term> {
    Seq::new(v.len(), |i: int| v[i].expr)
}

/// The values of what is returned, row by row.
pub open spec fn answer_of(v: Seq<Output>, cols: Seq<Cells>, n: nat) -> Answer {
    Answer {
        columns: Seq::new(v.len(), |i: int| v[i].alias),
        types: Seq::new(cols.len(), |i: int| cols[i].data_type()),
        rows: Seq::new(
            n,
            |i: int| Seq::new(cols.len(), |k: int| cols[k].at(spread(cols[k].len(), i))),
        ),
    }
}

/// Order, cut and project the rows of a frame.
pub open spec fn projected<F: Floats>(
    projection: Seq<Output>,
    order_by: Seq<Key>,
    limit: Option<usize>,
    offset: usize,
    frame: Seq<Cells>,
    rows: Seq<usize>,
    fl: F,
) -> Result<Answer, Seq<char>> {
    match arranged(frame, rows, order_by, limit, offset, fl) {
        Err(e) => Err(e),
        Ok(rows) => match evaluated_all(
            output_terms(projection),
            projection.len(),
            frame,
            rows,
            fl,
        ) {
            Err(e) => Err(e),
            Ok(cols) => Ok(answer_of(projection, cols, rows.len())),
        },
    }
}

pub open spec fn where_place() -> Seq<char> {
    "WHERE должен давать логическое значение"@
}

pub open spec fn having_place() -> Seq<char> {
    "HAVING должен давать логическое значение"@
}

/// The answer to a query over the first `n` rows of some columns.
pub open spec fn selected<F: Floats>(q: Query, frame: Seq<Cells>, n: nat, fl: F) -> Result<
    Answer,
    Seq<char>,
> {
    match filtered(q.filter, where_place(), frame, all_places(n), fl) {
        Err(e) => Err(e),
        Ok(rows) => if is_grouping(q) {
            match summarised(q, frame, rows, fl) {
                Err(e) => Err(e),
                Ok(s) => match filtered(
                    s.having,
                    having_place(),
                    s.columns,
                    all_places(s.count),
                    fl,
                ) {
                    Err(e) => Err(e),
                    Ok(groups) => projected(
                        s.projection,
                        s.order_by,
                        q.limit,
                        q.offset,
                        s.columns,
                        groups,
                        fl,
                    ),
                },
            }
        } else {
            projected(q.projection, q.order_by, q.limit, q.offset, frame, rows, fl)
        },
    }
}


// --- running --------------------------------------------------------------------------------

proof fn lemma_terms_push(v: Seq<Expr>, e: Expr)
    ensures
        terms(v.push(e)) == terms(v).push(e.view()),
{
    assert(terms(v.push(e)) =~= terms(v).push(e.view()));
}

fn knows(list: &Vec<Expr>, e: &Expr) -> (r: bool)
    ensures
        r == is_known(terms(list@), e.view()),
{
    let mut i: usize = 0;
    while i < list.len()
        invariant
            i <= list.len(),
            forall|k: int| 0 <= k < i ==> !same_term(#[trigger] terms(list@)[k], e.view()),
        decreases list.len() - i,
    {
        if list[i].same(e) {
            assert(same_term(terms(list@)[i as int], e.view()));
            return true;
        }
        i += 1;
    }
    false
}

fn collect_aggregates(e: &Expr, list: &mut Vec<Expr>)
    ensures
        terms(final(list)@) == aggregates_in(terms(old(list)@), e.view()),
{
    let nodes = e.walk(true);
    let ghost ns = visited(e.view(), true);
    let ghost start = terms(list@);
    let mut i: usize = 0;
    while i < nodes.len()
        invariant
            i <= nodes.len(),
            ns == seen(nodes@),
            terms(list@) == with_aggregates(start, ns, i as nat),
        decreases nodes.len() - i,
    {
        assert(ns[i as int] == nodes@[i as int].view());
        if let Expr::Agg { .. } = nodes[i] {
            if !knows(list, nodes[i]) {
                let copy = nodes[i].clone();
                proof {
                    lemma_terms_push(list@, copy);
                }
                list.push(copy);
            }
        }
        i += 1;
    }
}

fn all_aggregates(plan: &Select) -> (r: Vec<Expr>)
    ensures
        terms(r@) == query_aggregates(plan@),
{
    let ghost q = plan@;
    let mut list: Vec<Expr> = Vec::new();
    let mut i: usize = 0;
    assert(terms(list@) =~= Seq::<Term>::empty());
    while i < plan.projection.len()
        invariant
            i <= plan.projection.len(),
            q == plan@,
            terms(list@) == output_aggregates(q.projection, i as nat),
        decreases plan.projection.len() - i,
    {
        assert(q.projection[i as int].expr == plan.projection@[i as int].expr.view());
        collect_aggregates(&plan.projection[i].expr, &mut list);
        i += 1;
    }
    let ghost outs = terms(list@);
    let mut j: usize = 0;
    while j < plan.order_by.len()
        invariant
            j <= plan.order_by.len(),
            q == plan@,
            terms(list@) == key_aggregates(outs, q.order_by, j as nat),
        decreases plan.order_by.len() - j,
    {
        assert(q.order_by[j as int].expr == plan.order_by@[j as int].expr.view());
        collect_aggregates(&plan.order_by[j].expr, &mut list);
        j += 1;
    }
    if let Some(h) = &plan.having {
        collect_aggregates(h, &mut list);
    }
    list
}

/// The values at some places.
fn pick_rows(a: &Arr, src: &Vec<usize>) -> (r: Arr)
    requires
        forall|i: int| 0 <= i < src@.len() ==> (#[trigger] src@[i]) < a@.len(),
    ensures
        r@ == gathered(a@, src@),
{
    let mut i: usize = 0;
    match a {
        Arr::I64(v) => {
            let mut out: Vec<i64> = Vec::new();
            while i < src.len()
                invariant
                    i <= src.len(),
                    forall|k: int| 0 <= k < src@.len() ==> (#[trigger] src@[k]) < v@.len(),
                    out.len() == i,
                    forall|k: int| 0 <= k < i ==> (#[trigger] out[k]) == v@[src@[k] as int],
                decreases src.len() - i,
            {
                out.push(v[src[i]]);
                i += 1;
            }
            assert(out@ =~= Seq::new(src@.len(), |i: int| v@[src@[i] as int]));
            Arr::I64(out)
        },
        Arr::F64(v) => {
            let mut out: Vec<u64> = Vec::new();
            while i < src.len()
                invariant
                    i <= src.len(),
                    forall|k: int| 0 <= k < src@.len() ==> (#[trigger] src@[k]) < v@.len(),
                    out.len() == i,
                    forall|k: int| 0 <= k < i ==> (#[trigger] out[k]) == v@[src@[k] as int],
                decreases src.len() - i,
            {
                out.push(v[src[i]]);
                i += 1;
            }
            assert(out@ =~= Seq::new(src@.len(), |i: int| v@[src@[i] as int]));
            Arr::F64(out)
        },
        Arr::Bool(v) => {
            let mut out: Vec<u8> = Vec::new();
            while i < src.len()
                invariant
                    i <= src.len(),
                    forall|k: int| 0 <= k < src@.len() ==> (#[trigger] src@[k]) < v@.len(),
                    out.len() == i,
                    forall|k: int| 0 <= k < i ==> (#[trigger] out[k]) == v@[src@[k] as int],
                decreases src.len() - i,
            {
                out.push(v[src[i]]);
                i += 1;
            }
            assert(out@ =~= Seq::new(src@.len(), |i: int| v@[src@[i] as int]));
            Arr::Bool(out)
        },
        Arr::Str(v) => {
            let mut out: Vec<String> = Vec::new();
            while i < src.len()
                invariant
                    i <= src.len(),
                    forall|k: int| 0 <= k < src@.len() ==> (#[trigger] src@[k]) < v@.len(),
                    out.len() == i,
                    forall|k: int| 0 <= k < i ==> (#[trigger] out[k])@ == v@[src@[k] as int]@,
                decreases src.len() - i,
            {
                out.push(v[src[i]].clone());
                i += 1;
            }
            assert(strings(out@) =~= Seq::new(src@.len(), |i: int| strings(v@)[src@[i] as int]));
            Arr::Str(out)
        },
        Arr::Vector { dim, rows } => {
            let mut out: Vec<Vec<u32>> = Vec::new();
            while i < src.len()
                invariant
                    i <= src.len(),
                    forall|k: int| 0 <= k < src@.len() ==> (#[trigger] src@[k]) < rows@.len(),
                    out.len() == i,
                    forall|k: int| 0 <= k < i ==> (#[trigger] out[k])@ == rows@[src@[k] as int]@,
                decreases src.len() - i,
            {
                out.push(copy_words(&rows[src[i]]));
                i += 1;
            }
            assert(word_rows(out@) =~= Seq::new(
                src@.len(),
                |i: int| word_rows(rows@)[src@[i] as int],
            ));
            Arr::Vector { dim: *dim, rows: out }
        },
    }
}

fn pick_first_per_group(a: &Arr, first: &Vec<usize>) -> (r: Arr)
    requires
        forall|g: int|
            0 <= g < first@.len() ==> a@.len() == 1 || (#[trigger] first@[g]) < a@.len(),
    ensures
        r@ == picked(a@, first@),
{
    let one: bool = a.len() == 1;
    let mut src: Vec<usize> = Vec::new();
    let mut i: usize = 0;
    while i < first.len()
        invariant
            i <= first.len(),
            one == (a@.len() == 1),
            src.len() == i,
            forall|k: int|
                0 <= k < i ==> (#[trigger] src[k]) == spread(a@.len(), first@[k] as int),
        decreases first.len() - i,
    {
        src.push(
            if one {
                0
            } else {
                first[i]
            },
        );
        i += 1;
    }
    assert(src@ =~= Seq::new(
        first@.len(),
        |g: int| spread(a@.len(), first@[g] as int) as usize,
    ));
    assert forall|k: int| 0 <= k < src@.len() implies (#[trigger] src@[k]) < a@.len() by {
        assert(a@.len() == 1 || first@[k] < a@.len());
    }
    pick_rows(a, &src)
}

fn reads_loosely(e: &Expr, pats: &Vec<(Expr, Expr)>) -> (r: bool)
    ensures
        r == is_loose(e.view(), pairs(pats@)),
    decreases *e, 1nat,
{
    if e.replaced_by(pats).is_some() {
        return false;
    }
    match e {
        Expr::Col(_) => true,
        Expr::Distance { .. } => true,
        Expr::Binary { l, r, .. } => reads_loosely(l, pats) || reads_loosely(r, pats),
        Expr::Unary { e: x, .. } => reads_loosely(x, pats),
        Expr::Cast { e: x, .. } => reads_loosely(x, pats),
        Expr::Like { e: x, .. } => reads_loosely(x, pats),
        Expr::InList { e: x, .. } => reads_loosely(x, pats),
        Expr::Between { e: x, low, high, .. } => reads_loosely(x, pats) || reads_loosely(low, pats)
            || reads_loosely(high, pats),
        Expr::Func { args, .. } => any_reads_loosely(args, pats),
        _ => false,
    }
}

fn any_reads_loosely(v: &Vec<Expr>, pats: &Vec<(Expr, Expr)>) -> (r: bool)
    ensures
        r == any_loose(terms(v@), pairs(pats@), terms(v@).len()),
    decreases v@, 0nat,
{
    let mut any: bool = false;
    let mut i: usize = 0;
    while i < v.len()
        invariant
            i <= v.len(),
            any == any_loose(terms(v@), pairs(pats@), i as nat),
        decreases v.len() - i,
    {
        assert(decreases_to!(v@ => v@[i as int]));
        assert(terms(v@)[i as int] == v@[i as int].view());
        any = any || reads_loosely(&v[i], pats);
        i += 1;
    }
    any
}

/// The groups of a query and what is asked of them.
pub struct Grouped {
    pub columns: Vec<Column>,
    pub ngroups: usize,
    pub projection: Vec<Projection>,
    pub order_by: Vec<OrderKey>,
    pub having: Option<Expr>,
}

impl View for Grouped {
    type V = Summary;

    open spec fn view(&self) -> Summary {
        Summary {
            columns: contents(self.columns@),
            count: self.ngroups as nat,
            projection: outputs(self.projection@),
            order_by: keys(self.order_by@),
            having: maybe(self.having),
        }
    }
}

impl Grouped {
    /// Every column has one value for each group.
    pub open spec fn wf(&self) -> bool {
        forall|i: int|
            0 <= i < self.columns@.len() ==> (#[trigger] self.columns@[i]).wf()
                && self.columns@[i]@.len() == self.ngroups
    }
}

proof fn lemma_aggregated_len<F: Floats>(
    t: Term,
    frame: Seq<Cells>,
    rows: Seq<usize>,
    of: Seq<usize>,
    groups: nat,
    fl: F,
)
    ensures
        aggregated(t, frame, rows, of, groups, fl) matches Ok(c) ==> c.len() == groups,
{
}

proof fn lemma_key_columns_err(cols: Seq<Cells>, first: Seq<usize>, k: nat, n: nat)
    requires
        k <= n <= cols.len(),
        key_columns(cols, first, k) is Err,
    ensures
        key_columns(cols, first, n) == key_columns(cols, first, k),
    decreases n - k,
{
    if k < n {
        lemma_key_columns_err(cols, first, k, (n - 1) as nat);
    }
}

proof fn lemma_agg_columns_err<F: Floats>(
    before: Seq<Cells>,
    aggs: Seq<Term>,
    k: nat,
    n: nat,
    frame: Seq<Cells>,
    rows: Seq<usize>,
    g: Grouping,
    fl: F,
)
    requires
        k <= n <= aggs.len(),
        agg_columns(before, aggs, k, frame, rows, g, fl) is Err,
    ensures
        agg_columns(before, aggs, n, frame, rows, g, fl) == agg_columns(
            before,
            aggs,
            k,
            frame,
            rows,
            g,
            fl,
        ),
    decreases n - k,
{
    if k < n {
        lemma_agg_columns_err(before, aggs, k, (n - 1) as nat, frame, rows, g, fl);
    }
}

/// What grouping gives is sound: groups are numbered below their count, and the
/// first row of each is a row.
proof fn lemma_grouping(cols: Seq<Cells>, n: nat)
    requires
        n <= usize::MAX,
    ensures
        grouped(cols, n) matches Ok(g) ==> {
            &&& g.of.len() == n
            &&& numbered_below(g.of, g.count)
            &&& cols.len() > 0 ==> g.first.len() == g.count
            &&& forall|i: int| 0 <= i < g.first.len() ==> (#[trigger] g.first[i]) < n
        },
{
    lemma_first_rows(cols, n);
    let f = first_rows(cols, n);
    if grouped(cols, n) is Ok && cols.len() > 0 {
        let g = grouped(cols, n)->Ok_0;
        assert forall|i: int| 0 <= i < n implies (#[trigger] g.of[i]) < g.count by {
            lemma_groups(cols, n, i, i);
        }
    }
}

fn group_columns(cols: &Vec<Arr>, first: &Vec<usize>, n: usize, count: usize) -> (r: Result<
    Vec<Column>,
    Error,
>)
    requires
        aligned(arrays(cols@), n as nat),
        n > 0 ==> forall|k: int| 0 <= k < cols@.len() ==> !((#[trigger] arrays(cols@)[k]) is Vector),
        cols@.len() > 0 ==> first@.len() == count,
        forall|g: int| 0 <= g < first@.len() ==> (#[trigger] first@[g]) < n,
    ensures
        match r {
            Ok(v) => {
                &&& key_columns(arrays(cols@), first@, cols@.len()) == Ok::<Seq<Cells>, Seq<char>>(
                    contents(v@),
                )
                &&& v@.len() == cols@.len()
                &&& forall|i: int|
                    0 <= i < v@.len() ==> (#[trigger] v@[i]).wf() && v@[i]@.len() == count
            },
            Err(e) => key_columns(arrays(cols@), first@, cols@.len()) == Err::<
                Seq<Cells>,
                Seq<char>,
            >(e@),
        },
{
    let ghost cs = arrays(cols@);
    let mut out: Vec<Column> = Vec::new();
    let mut k: usize = 0;
    assert(contents(out@) =~= Seq::<Cells>::empty());
    while k < cols.len()
        invariant
            k <= cols.len(),
            cs == arrays(cols@),
            aligned(cs, n as nat),
            n > 0 ==> forall|k: int| 0 <= k < cols@.len() ==> !((#[trigger] cs[k]) is Vector),
            cols@.len() > 0 ==> first@.len() == count,
            forall|g: int| 0 <= g < first@.len() ==> (#[trigger] first@[g]) < n,
            key_columns(cs, first@, k as nat) == Ok::<Seq<Cells>, Seq<char>>(contents(out@)),
            out@.len() == k,
            forall|i: int|
                0 <= i < out@.len() ==> (#[trigger] out@[i]).wf() && out@[i]@.len() == count,
        decreases cols.len() - k,
    {
        assert(cs[k as int] == cols@[k as int]@);
        assert forall|g: int| 0 <= g < first@.len() implies cols@[k as int]@.len() == 1 || (
        #[trigger] first@[g]) < cols@[k as int]@.len() by {
            assert(first@[g] < n);
        }
        let p = pick_first_per_group(&cols[k], first);
        proof {
            if n == 0 {
                assert(first@.len() == 0) by {
                    if first@.len() > 0 {
                        assert(first@[0] < n);
                    }
                }
            }
        }
        match p.into_column() {
            Ok(c) => {
                let ghost before = contents(out@);
                out.push(c);
                assert(contents(out@) =~= before.push(c@));
            },
            Err(e) => {
                proof {
                    lemma_key_columns_err(cs, first@, (k + 1) as nat, cs.len());
                }
                return Err(e);
            },
        }
        k += 1;
    }
    Ok(out)
}

fn add_agg_columns<'a, F: Floats>(
    columns: &mut Vec<Column>,
    aggs: &Vec<Expr>,
    base: &Frame<'a>,
    sel: &Sel,
    of: &Vec<usize>,
    count: usize,
    g: Ghost<Grouping>,
    fl: &F,
) -> (r: Result<(), Error>)
    requires
        fl.exact(),
        base.wf(),
        covers(base@, sel@),
        of@.len() == sel@.len(),
        numbered_below(of@, count as nat),
        g@.of == of@,
        g@.count == count,
        forall|i: int|
            0 <= i < old(columns)@.len() ==> (#[trigger] old(columns)@[i]).wf() && old(
                columns,
            )@[i]@.len() == count,
    ensures
        match r {
            Ok(_) => {
                &&& agg_columns(
                    contents(old(columns)@),
                    terms(aggs@),
                    aggs@.len(),
                    base@,
                    sel@,
                    g@,
                    *fl,
                ) == Ok::<Seq<Cells>, Seq<char>>(contents(final(columns)@))
                &&& final(columns)@.len() == old(columns)@.len() + aggs@.len()
                &&& forall|i: int|
                    0 <= i < final(columns)@.len() ==> (#[trigger] final(columns)@[i]).wf()
                        && final(columns)@[i]@.len() == count
            },
            Err(e) => agg_columns(
                contents(old(columns)@),
                terms(aggs@),
                aggs@.len(),
                base@,
                sel@,
                g@,
                *fl,
            ) == Err::<Seq<Cells>, Seq<char>>(e@),
        },
{
    let ghost start = contents(columns@);
    let ghost n0 = columns@.len();
    let ghost ts = terms(aggs@);
    let mut k: usize = 0;
    while k < aggs.len()
        invariant
            k <= aggs.len(),
            fl.exact(),
            base.wf(),
            covers(base@, sel@),
            of@.len() == sel@.len(),
            numbered_below(of@, count as nat),
            g@.of == of@,
            g@.count == count,
            ts == terms(aggs@),
            start == contents(old(columns)@),
            n0 == old(columns)@.len(),
            agg_columns(start, ts, k as nat, base@, sel@, g@, *fl) == Ok::<Seq<Cells>, Seq<char>>(
                contents(columns@),
            ),
            columns@.len() == n0 + k,
            forall|i: int|
                0 <= i < columns@.len() ==> (#[trigger] columns@[i]).wf() && columns@[i]@.len()
                    == count,
        decreases aggs.len() - k,
    {
        assert(ts[k as int] == aggs@[k as int].view());
        match run_agg(&aggs[k], base, sel, of, count, fl) {
            Ok(c) => {
                let ghost before = contents(columns@);
                proof {
                    lemma_aggregated_len(ts[k as int], base@, sel@, of@, count as nat, *fl);
                }
                columns.push(c);
                assert(contents(columns@) =~= before.push(c@));
            },
            Err(e) => {
                proof {
                    lemma_agg_columns_err(
                        start,
                        ts,
                        (k + 1) as nat,
                        ts.len(),
                        base@,
                        sel@,
                        g@,
                        *fl,
                    );
                }
                return Err(e);
            },
        }
        k += 1;
    }
    Ok(())
}

fn make_pairs(aggs: &Vec<Expr>, group_by: &Vec<Expr>) -> (r: Vec<(Expr, Expr)>)
    requires
        aggs@.len() + group_by@.len() <= usize::MAX,
    ensures
        pairs(r@) == group_pairs(terms(aggs@), terms(group_by@)),
{
    let ghost want = group_pairs(terms(aggs@), terms(group_by@));
    let mut out: Vec<(Expr, Expr)> = Vec::new();
    let mut i: usize = 0;
    let nkeys: usize = group_by.len();
    while i < aggs.len()
        invariant
            i <= aggs.len(),
            nkeys == group_by@.len(),
            aggs@.len() + group_by@.len() <= usize::MAX,
            want == group_pairs(terms(aggs@), terms(group_by@)),
            out.len() == i,
            forall|k: int|
                0 <= k < i ==> (#[trigger] out[k]).0.view() == want[k].0 && out[k].1.view()
                    == want[k].1,
        decreases aggs.len() - i,
    {
        out.push((aggs[i].clone(), Expr::Col(nkeys + i)));
        i += 1;
    }
    let mut j: usize = 0;
    while j < group_by.len()
        invariant
            j <= group_by.len(),
            aggs@.len() + group_by@.len() <= usize::MAX,
            want == group_pairs(terms(aggs@), terms(group_by@)),
            out.len() == aggs@.len() + j,
            forall|k: int|
                0 <= k < out.len() ==> (#[trigger] out[k]).0.view() == want[k].0
                    && out[k].1.view() == want[k].1,
        decreases group_by.len() - j,
    {
        out.push((group_by[j].clone(), Expr::Col(j)));
        j += 1;
    }
    assert(pairs(out@) =~= want);
    out
}

fn loosely(place: &str) -> (r: Error)
    ensures
        r@ == loose_in(place@),
{
    err(text2(place, ": выражение не агрегат и не входит в GROUP BY"))
}

/// Groups the rows of a frame, and says what is then asked of the groups.
pub fn aggregate<'a, F: Floats>(plan: &Select, base: &Frame<'a>, sel: &Sel, fl: &F) -> (r: Result<
    Grouped,
    Error,
>)
    requires
        fl.exact(),
        base.wf(),
        covers(base@, sel@),
    ensures
        match r {
            Ok(g) => g.wf() && summarised(plan@, base@, sel@, *fl) == Ok::<Summary, Seq<char>>(g@),
            Err(e) => summarised(plan@, base@, sel@, *fl) == Err::<Summary, Seq<char>>(e@),
        },
{
    let ghost q = plan@;
    let key_arrays = match eval_all(&plan.group_by, base, sel, fl) {
        Ok(v) => v,
        Err(e) => {
            return Err(e);
        },
    };
    let n: usize = sel.len();
    let groups = match assign_groups(&key_arrays, n) {
        Ok(g) => g,
        Err(e) => {
            return Err(e);
        },
    };
    proof {
        lemma_grouping(arrays(key_arrays@), n as nat);
    }
    let aggs = all_aggregates(plan);
    let mut columns = match group_columns(&key_arrays, &groups.first, n, groups.count) {
        Ok(v) => v,
        Err(e) => {
            return Err(e);
        },
    };
    match add_agg_columns(
        &mut columns,
        &aggs,
        base,
        sel,
        &groups.of,
        groups.count,
        Ghost(groups@),
        fl,
    ) {
        Ok(_) => {},
        Err(e) => {
            return Err(e);
        },
    }
    let width: usize = columns.len();
    assert(width == aggs@.len() + plan.group_by@.len());
    let pats = make_pairs(&aggs, &plan.group_by);
    let ghost ps = pairs(pats@);
    let mut projection: Vec<Projection> = Vec::new();
    let mut i: usize = 0;
    while i < plan.projection.len()
        invariant
            i <= plan.projection.len(),
            q == plan@,
            ps == pairs(pats@),
            loose_error(q.projection, ps, i as int) == loose_error(q.projection, ps, 0),
            projection.len() == i,
            forall|k: int|
                0 <= k < i ==> (#[trigger] projection[k]).expr.view() == substituted(
                    q.projection[k].expr,
                    ps,
                ) && projection[k].alias@ == q.projection[k].alias,
            summarised(q, base@, sel@, *fl) == (match group_error(q, ps) {
                Some(e) => Err::<Summary, Seq<char>>(e),
                None => Ok(
                    Summary {
                        columns: contents(columns@),
                        count: groups.count as nat,
                        projection: rewritten_outputs(q.projection, ps),
                        order_by: rewritten_keys(q.order_by, ps),
                        having: match q.having {
                            Some(h) => Some(substituted(h, ps)),
                            None => None,
                        },
                    },
                ),
            }),
        decreases plan.projection.len() - i,
    {
        let p = &plan.projection[i];
        assert(q.projection[i as int] == Output { expr: p.expr.view(), alias: p.alias@ });
        if reads_loosely(&p.expr, &pats) {
            return Err(
                err(text3("'", p.alias.as_str(), "' не агрегат и не входит в GROUP BY")),
            );
        }
        projection.push(
            Projection { expr: p.expr.substitute(&pats), alias: p.alias.clone() },
        );
        i += 1;
    }
    let ghost refused = summarised(q, base@, sel@, *fl);
    let mut order_by: Vec<OrderKey> = Vec::new();
    let mut j: usize = 0;
    while j < plan.order_by.len()
        invariant
            j <= plan.order_by.len(),
            q == plan@,
            ps == pairs(pats@),
            group_error(q, ps) == (if orders_loosely(q.order_by, ps) {
                Some(loose_in("ORDER BY"@))
            } else {
                match q.having {
                    Some(h) if is_loose(h, ps) => Some(loose_in("HAVING"@)),
                    _ => None,
                }
            }),
            summarised(q, base@, sel@, *fl) == refused,
            group_error(q, ps) is Some ==> refused == Err::<Summary, Seq<char>>(
                group_error(q, ps)->0,
            ),
            forall|k: int| 0 <= k < j ==> !is_loose((#[trigger] q.order_by[k]).expr, ps),
            order_by.len() == j,
            forall|k: int|
                0 <= k < j ==> (#[trigger] order_by[k]).expr.view() == substituted(
                    q.order_by[k].expr,
                    ps,
                ) && order_by[k].asc == q.order_by[k].asc,
        decreases plan.order_by.len() - j,
    {
        let o = &plan.order_by[j];
        assert(q.order_by[j as int] == Key { expr: o.expr.view(), asc: o.asc });
        if reads_loosely(&o.expr, &pats) {
            return Err(loosely("ORDER BY"));
        }
        order_by.push(OrderKey { expr: o.expr.substitute(&pats), asc: o.asc });
        j += 1;
    }
    let having = match &plan.having {
        Some(h) => {
            if reads_loosely(h, &pats) {
                return Err(loosely("HAVING"));
            }
            Some(h.substitute(&pats))
        },
        None => None,
    };
    assert(outputs(projection@) =~= rewritten_outputs(q.projection, ps));
    assert(keys(order_by@) =~= rewritten_keys(q.order_by, ps));
    Ok(Grouped { columns, ngroups: groups.count, projection, order_by, having })
}

/// Orders, cuts and projects the rows of a frame.
fn project<'a, F: Floats>(
    projection: &Vec<Projection>,
    order_by: &Vec<OrderKey>,
    limit: Option<usize>,
    offset: usize,
    frame: &Frame<'a>,
    sel: &Sel,
    fl: &F,
) -> (r: Result<QueryResult, Error>)
    requires
        fl.exact(),
        frame.wf(),
        covers(frame@, sel@),
    ensures
        match r {
            Ok(a) => projected(
                outputs(projection@),
                keys(order_by@),
                limit,
                offset,
                frame@,
                sel@,
                *fl,
            ) == Ok::<Answer, Seq<char>>(a@),
            Err(e) => projected(
                outputs(projection@),
                keys(order_by@),
                limit,
                offset,
                frame@,
                sel@,
                *fl,
            ) == Err::<Answer, Seq<char>>(e@),
        },
{
    let cut = match order_and_limit(frame, sel, order_by, limit, offset, fl) {
        Ok(s) => s,
        Err(e) => {
            return Err(e);
        },
    };
    let ghost outs = outputs(projection@);
    let ghost ts = output_terms(outs);
    let n: usize = cut.len();
    let mut columns: Vec<String> = Vec::new();
    let mut types: Vec<DataType> = Vec::new();
    let mut cols: Vec<Arr> = Vec::new();
    let mut i: usize = 0;
    assert(arrays(cols@) =~= Seq::<Cells>::empty());
    while i < projection.len()
        invariant
            i <= projection.len(),
            fl.exact(),
            frame.wf(),
            covers(frame@, cut@),
            n == cut@.len(),
            arranged(frame@, sel@, keys(order_by@), limit, offset, *fl) == Ok::<
                Seq<usize>,
                Seq<char>,
            >(cut@),
            outs == outputs(projection@),
            ts == output_terms(outs),
            cols@.len() == i,
            columns@.len() == i,
            types@.len() == i,
            forall|k: int| 0 <= k < i ==> (#[trigger] columns[k])@ == outs[k].alias,
            forall|k: int| 0 <= k < i ==> (#[trigger] types[k]) == cols[k]@.data_type(),
            evaluated_all(ts, i as nat, frame@, cut@, *fl) == Ok::<Seq<Cells>, Seq<char>>(
                arrays(cols@),
            ),
            aligned(arrays(cols@), n as nat),
        decreases projection.len() - i,
    {
        assert(ts[i as int] == projection@[i as int].expr.view());
        match eval(&projection[i].expr, frame, &cut, fl) {
            Ok(a) => {
                let ghost before = arrays(cols@);
                proof {
                    lemma_evaluated_len(ts[i as int], frame@, cut@, *fl);
                }
                columns.push(projection[i].alias.clone());
                types.push(a.data_type());
                cols.push(a);
                assert(arrays(cols@) =~= before.push(a@));
                assert forall|k: int| 0 <= k < arrays(cols@).len() implies (#[trigger] arrays(
                    cols@,
                )[k]).len() == 1 || arrays(cols@)[k].len() == n by {
                    if k < i {
                        assert(arrays(cols@)[k] == before[k]);
                    }
                }
            },
            Err(e) => {
                proof {
                    lemma_all_err(ts, (i + 1) as nat, ts.len(), frame@, cut@, *fl);
                }
                return Err(e);
            },
        }
        i += 1;
    }
    let ghost cs = arrays(cols@);
    let ghost want = answer_of(outs, cs, n as nat);
    let mut rows: Vec<Vec<Value>> = Vec::new();
    let mut r: usize = 0;
    while r < n
        invariant
            r <= n,
            cs == arrays(cols@),
            aligned(cs, n as nat),
            want == answer_of(outs, cs, n as nat),
            rows@.len() == r,
            forall|k: int| 0 <= k < r ==> cells((#[trigger] rows@[k])@) == want.rows[k],
        decreases n - r,
    {
        let mut row: Vec<Value> = Vec::new();
        let mut k: usize = 0;
        while k < cols.len()
            invariant
                k <= cols.len(),
                r < n,
                cs == arrays(cols@),
                aligned(cs, n as nat),
                row@.len() == k,
                forall|j: int|
                    0 <= j < k ==> (#[trigger] row@[j])@ == cs[j].at(
                        spread(cs[j].len(), r as int),
                    ),
            decreases cols.len() - k,
        {
            assert(cs[k as int] == cols@[k as int]@);
            row.push(cols[k].value(r));
            k += 1;
        }
        assert(cells(row@) =~= want.rows[r as int]);
        rows.push(row);
        r += 1;
    }
    let out = QueryResult { columns, types, rows };
    proof {
        assert(out@.columns =~= want.columns);
        assert(out@.types =~= want.types);
        assert(out@.rows =~= want.rows);
    }
    Ok(out)
}

/// Runs a query over the first `n` rows of a frame.
pub fn run_over<'a, F: Floats>(plan: &Select, base: &Frame<'a>, n: usize, fl: &F) -> (r: Result<
    QueryResult,
    Error,
>)
    requires
        fl.exact(),
        base.wf(),
        covers(base@, all_places(n as nat)),
    ensures
        match r {
            Ok(a) => selected(plan@, base@, n as nat, *fl) == Ok::<Answer, Seq<char>>(a@),
            Err(e) => selected(plan@, base@, n as nat, *fl) == Err::<Answer, Seq<char>>(e@),
        },
{
    let all = Sel::All(n);
    assert(all@ =~= all_places(n as nat));
    let sel = match filter_rows(
        &plan.filter,
        "WHERE должен давать логическое значение",
        base,
        all,
        fl,
    ) {
        Ok(s) => s,
        Err(e) => {
            return Err(e);
        },
    };
    if !plan.is_aggregate() {
        return project(
            &plan.projection,
            &plan.order_by,
            plan.limit,
            plan.offset,
            base,
            &sel,
            fl,
        );
    }
    let g = match aggregate(plan, base, &sel, fl) {
        Ok(g) => g,
        Err(e) => {
            return Err(e);
        },
    };
    let frame = Frame::of_columns(&g.columns);
    let groups = Sel::All(g.ngroups);
    assert(groups@ =~= all_places(g.ngroups as nat));
    assert forall|c: int, i: int| 0 <= c < frame@.len() && 0 <= i < groups@.len() implies (
    #[trigger] groups@[i]) < (#[trigger] frame@[c]).len() by {
        assert(frame@[c] == g.columns@[c]@);
        assert(g.columns@[c].wf());
    }
    let kept = match filter_rows(
        &g.having,
        "HAVING должен давать логическое значение",
        &frame,
        groups,
        fl,
    ) {
        Ok(s) => s,
        Err(e) => {
            return Err(e);
        },
    };
    project(&g.projection, &g.order_by, plan.limit, plan.offset, &frame, &kept, fl)
}

/// Runs a query over a table.
pub fn run_select<F: Floats>(plan: &Select, table: &Table, fl: &F) -> (r: Result<
    QueryResult,
    Error,
>)
    requires
        fl.exact(),
        table.wf(),
    ensures
        match r {
            Ok(a) => selected(plan@, table@.columns, table@.rows, *fl) == Ok::<Answer, Seq<char>>(
                a@,
            ),
            Err(e) => selected(plan@, table@.columns, table@.rows, *fl) == Err::<
                Answer,
                Seq<char>,
            >(e@),
        },
{
    let base = Frame::of_table(table);
    run_over(plan, &base, table.nrows(), fl)
}

/// Runs a query that reads no table: over one row without columns.
pub fn run_constant<F: Floats>(plan: &Select, fl: &F) -> (r: Result<QueryResult, Error>)
    requires
        fl.exact(),
    ensures
        match r {
            Ok(a) => selected(plan@, Seq::empty(), 1, *fl) == Ok::<Answer, Seq<char>>(a@),
            Err(e) => selected(plan@, Seq::empty(), 1, *fl) == Err::<Answer, Seq<char>>(e@),
        },
{
    let none: Vec<Column> = Vec::new();
    let base = Frame::of_columns(&none);
    assert(base@ =~= Seq::<Cells>::empty());
    run_over(plan, &base, 1, fl)
}

} // verus!
