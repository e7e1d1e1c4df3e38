//! Statements: CREATE TABLE, DROP, INSERT, SELECT and the rest.
use crate::ast::{
    column_trees, item_trees, names, sort_trees, source_trees, tree_opt, tree_rows, trees, Ask,
    AskTree, Ast, Body, BodyTree, ColumnSpec, ColumnTree, Item, ItemTree, Limit, LimitTree, Literal,
    LiteralTree, Name, NameTree, Node, OrderBy, OrderTree, Parsed, ParsedTree, Rows, RowsTree,
    SortKey, SortTree, Source, SourceTree, Tree, TreeNode,
};
use crate::column::{cell_rows, cells, Cell, DataType, Value};
use crate::float::Floats;
use crate::plan::{
    has_aggregate, keys, maybe, outputs, terms, Command, Expr, Key, OrderKey, Output, Projection,
    Query, Select, Statement, Term,
};
use crate::sql::bind::{agrees, bind, bound, lemma_bound_within, quote, quoted, within};
use crate::sql::literal::{column_type, ident_of, last_name, literal, literal_cell, map_type};
use crate::table::{column_named, Attr, Field, Schema};
use crate::text::{
    dec, dec_usize, eq_ignore_ascii_case, eq_text, err, in_context, int_error, natural, same_name,
    strings, text2, text3, text4, usize_in, Error,
};
use vstd::prelude::*;
use vstd::string::*;

verus! {

broadcast use vstd::string::group_string_axioms;

/// Where the planner finds the schemas of the tables.
pub trait Catalog {
    spec fn schema(&self, table: Seq<char>) -> Option<Seq<Attr>>;

    fn schema_of(&self, table: &str) -> (r: Option<Schema>)
        ensures
            match r {
                Some(s) => self.schema(table@) == Some(s@),
                None => self.schema(table@) is None,
            },
    ;
}

// --- LIMIT and OFFSET -------------------------------------------------------------------------

pub open spec fn count_of<F: Floats>(e: Tree, fl: F) -> Result<usize, Seq<char>> {
    match literal_cell(e, None, fl) {
        Err(m) => Err(m),
        Ok(c) => match c {
            Cell::I64(i) if i >= 0 => Ok(i as usize),
            _ => Err(
                "LIMIT/OFFSET должен быть неотрицательным целым, получено "@ + quoted(c, fl),
            ),
        },
    }
}

fn count_in<F: Floats>(e: &Ast, fl: &F) -> (r: Result<usize, Error>)
    requires
        fl.exact(),
    ensures
        match r {
            Ok(n) => count_of(e.view(), *fl) == Ok::<usize, Seq<char>>(n),
            Err(m) => count_of(e.view(), *fl) == Err::<usize, Seq<char>>(m@),
        },
{
    let v = match literal(e, None, fl) {
        Ok(v) => v,
        Err(m) => {
            return Err(m);
        },
    };
    match &v {
        Value::I64(i) => {
            if *i >= 0 {
                return Ok(*i as usize);
            }
        },
        _ => {},
    }
    Err(
        err(
            text2(
                "LIMIT/OFFSET должен быть неотрицательным целым, получено ",
                quote(&v, fl).as_str(),
            ),
        ),
    )
}

/// How many rows a query returns at most, and how many it skips.
pub open spec fn limits<F: Floats>(l: LimitTree, fl: F) -> Result<
    (Option<usize>, usize),
    Seq<char>,
> {
    match l {
        LimitTree::Missing => Ok((None, 0)),
        LimitTree::Parts { limit, offset, by } => if by {
            Err("LIMIT BY не поддерживается"@)
        } else {
            let first = match limit {
                None => Ok(None),
                Some(e) => match count_of(e, fl) {
                    Ok(n) => Ok(Some(n)),
                    Err(m) => Err(m),
                },
            };
            match first {
                Err(m) => Err(m),
                Ok(n) => match offset {
                    None => Ok((n, 0)),
                    Some(e) => match count_of(e, fl) {
                        Ok(k) => Ok((n, k)),
                        Err(m) => Err(m),
                    },
                },
            }
        },
        LimitTree::Comma { offset, limit } => match count_of(limit, fl) {
            Err(m) => Err(m),
            Ok(n) => match count_of(offset, fl) {
                Err(m) => Err(m),
                Ok(k) => Ok((Some(n), k)),
            },
        },
    }
}

pub fn limit_offset<F: Floats>(l: &Limit, fl: &F) -> (r: Result<(Option<usize>, usize), Error>)
    requires
        fl.exact(),
    ensures
        match r {
            Ok(p) => limits(l@, *fl) == Ok::<(Option<usize>, usize), Seq<char>>(p),
            Err(m) => limits(l@, *fl) == Err::<(Option<usize>, usize), Seq<char>>(m@),
        },
{
    match l {
        Limit::Missing => Ok((None, 0)),
        Limit::Parts { limit, offset, by } => {
            if *by {
                return Err(err("LIMIT BY не поддерживается".to_owned()));
            }
            let n = match limit {
                None => None,
                Some(e) => match count_in(e, fl) {
                    Ok(n) => Some(n),
                    Err(m) => {
                        return Err(m);
                    },
                },
            };
            match offset {
                None => Ok((n, 0)),
                Some(e) => match count_in(e, fl) {
                    Ok(k) => Ok((n, k)),
                    Err(m) => Err(m),
                },
            }
        },
        Limit::Comma { offset, limit } => {
            let n = match count_in(limit, fl) {
                Ok(n) => n,
                Err(m) => {
                    return Err(m);
                },
            };
            match count_in(offset, fl) {
                Ok(k) => Ok((Some(n), k)),
                Err(m) => Err(m),
            }
        },
    }
}

// --- what SELECT returns -----------------------------------------------------------------------

/// All columns of a schema, in order.
pub open spec fn all_columns(s: Seq<Attr>) -> Seq<Output> {
    Seq::new(s.len(), |i: int| Output { expr: Term::Col(i as usize), alias: s[i].name })
}

/// What the first `n` items return.
pub open spec fn projected<F: Floats>(v: Seq<ItemTree>, n: nat, s: Seq<Attr>, fl: F) -> Result<
    Seq<Output>,
    Seq<char>,
>
    decreases n,
{
    if n == 0 || n > v.len() {
        Ok(Seq::empty())
    } else {
        match projected(v, (n - 1) as nat, s, fl) {
            Err(m) => Err(m),
            Ok(out) => match v[n - 1] {
                ItemTree::Wildcard => Ok(out + all_columns(s)),
                ItemTree::Plain(e) => match bound(e, s, fl) {
                    Err(m) => Err(m),
                    Ok(x) => Ok(out.push(Output { expr: x, alias: e.text })),
                },
                ItemTree::Aliased(e, alias) => match bound(e, s, fl) {
                    Err(m) => Err(m),
                    Ok(x) => Ok(out.push(Output { expr: x, alias })),
                },
                ItemTree::Other(text) => Err("элемент SELECT не поддерживается: "@ + text),
            },
        }
    }
}

/// For each output of the first `n` items the text of its expression, where the query
/// writes it out.
pub open spec fn item_texts(v: Seq<ItemTree>, n: nat, width: nat) -> Seq<Option<Seq<char>>>
    decreases n,
{
    if n == 0 || n > v.len() {
        Seq::empty()
    } else {
        let out = item_texts(v, (n - 1) as nat, width);
        match v[n - 1] {
            ItemTree::Wildcard => out + Seq::new(width, |i: int| None::<Seq<char>>),
            ItemTree::Plain(e) => out.push(Some(e.text)),
            ItemTree::Aliased(e, _) => out.push(Some(e.text)),
            ItemTree::Other(_) => out,
        }
    }
}

proof fn lemma_projected_err<F: Floats>(v: Seq<ItemTree>, k: nat, n: nat, s: Seq<Attr>, fl: F)
    requires
        k <= n <= v.len(),
        projected(v, k, s, fl) is Err,
    ensures
        projected(v, n, s, fl) == projected(v, k, s, fl),
    decreases n - k,
{
    if k < n {
        lemma_projected_err(v, k, (n - 1) as nat, s, fl);
    }
}

pub open spec fn texts(v: Seq<Option<String>>) -> Seq<Option<Seq<char>>> {
    Seq::new(v.len(), |i: int| crate::ast::text_of(v[i]))
}

fn push_columns(schema: &Schema, out: &mut Vec<Projection>, notes: &mut Vec<Option<String>>)
    ensures
        outputs(final(out)@) == outputs(old(out)@) + all_columns(schema@),
        texts(final(notes)@) == texts(old(notes)@) + Seq::new(
            schema@.len(),
            |i: int| None::<Seq<char>>,
        ),
{
    let mut i: usize = 0;
    let ghost o = outputs(out@);
    let ghost n = texts(notes@);
    assert(o + all_columns(schema@).take(0) =~= o);
    assert(n + Seq::new(0, |i: int| None::<Seq<char>>) =~= n);
    while i < schema.fields.len()
        invariant
            i <= schema.fields.len(),
            outputs(out@) == o + all_columns(schema@).take(i as int),
            texts(notes@) == n + Seq::new(i as nat, |i: int| None::<Seq<char>>),
        decreases schema.fields.len() - i,
    {
        let ghost (before, blanks) = (outputs(out@), texts(notes@));
        out.push(Projection { expr: Expr::Col(i), alias: schema.fields[i].name.clone() });
        notes.push(None);
        assert(outputs(out@) =~= before.push(all_columns(schema@)[i as int]));
        assert(texts(notes@) =~= blanks.push(None));
        i += 1;
        assert(outputs(out@) =~= o + all_columns(schema@).take(i as int));
        assert(texts(notes@) =~= n + Seq::new(i as nat, |i: int| None::<Seq<char>>));
    }
    assert(all_columns(schema@).take(i as int) =~= all_columns(schema@));
}

/// The outputs of a SELECT, and for each the text of its expression.
fn project<F: Floats>(items: &Vec<Item>, schema: &Schema, fl: &F) -> (r: Result<
    (Vec<Projection>, Vec<Option<String>>),
    Error,
>)
    requires
        fl.exact(),
    ensures
        match r {
            Ok(p) => projected(item_trees(items@), items@.len(), schema@, *fl) == Ok::<
                Seq<Output>,
                Seq<char>,
            >(outputs(p.0@)) && texts(p.1@) == item_texts(
                item_trees(items@),
                items@.len(),
                schema@.len(),
            ) && p.0@.len() == p.1@.len(),
            Err(m) => projected(item_trees(items@), items@.len(), schema@, *fl) == Err::<
                Seq<Output>,
                Seq<char>,
            >(m@),
        },
{
    let ghost t = item_trees(items@);
    let mut out: Vec<Projection> = Vec::new();
    let mut notes: Vec<Option<String>> = Vec::new();
    let mut i: usize = 0;
    assert(outputs(out@) =~= Seq::<Output>::empty());
    assert(texts(notes@) =~= Seq::<Option<Seq<char>>>::empty());
    while i < items.len()
        invariant
            i <= items.len(),
            fl.exact(),
            t == item_trees(items@),
            out@.len() == notes@.len(),
            projected(t, i as nat, schema@, *fl) == Ok::<Seq<Output>, Seq<char>>(outputs(out@)),
            texts(notes@) == item_texts(t, i as nat, schema@.len()),
        decreases items.len() - i,
    {
        assert(t[i as int] == items@[i as int]@);
        let ghost o = outputs(out@);
        let ghost n = texts(notes@);
        proof {
            if projected(t, (i + 1) as nat, schema@, *fl) is Err {
                lemma_projected_err(t, (i + 1) as nat, t.len(), schema@, *fl);
            }
        }
        match &items[i] {
            Item::Wildcard => {
                push_columns(schema, &mut out, &mut notes);
                assert(outputs(out@).len() == out@.len());
                assert(texts(notes@).len() == notes@.len());
                assert(o.len() == n.len());
            },
            Item::Plain(e) => match bind(e, schema, fl) {
                Ok(b) => {
                    out.push(Projection { expr: b, alias: e.text.clone() });
                    notes.push(Some(e.text.clone()));
                    assert(outputs(out@) =~= o.push(Output { expr: b.view(), alias: e.text@ }));
                    assert(texts(notes@) =~= n.push(Some(e.text@)));
                },
                Err(m) => {
                    return Err(m);
                },
            },
            Item::Aliased(e, alias) => match bind(e, schema, fl) {
                Ok(b) => {
                    out.push(Projection { expr: b, alias: alias.clone() });
                    notes.push(Some(e.text.clone()));
                    assert(outputs(out@) =~= o.push(Output { expr: b.view(), alias: alias@ }));
                    assert(texts(notes@) =~= n.push(Some(e.text@)));
                },
                Err(m) => {
                    return Err(m);
                },
            },
            Item::Other(text) => {
                return Err(err(text2("элемент SELECT не поддерживается: ", text.as_str())));
            },
        }
        i += 1;
    }
    Ok((out, notes))
}

// --- references to the outputs --------------------------------------------------------------------

/// The first output from `i` on that goes by a name.
pub open spec fn alias_from(v: Seq<Output>, name: Seq<char>, i: nat) -> Option<nat>
    decreases v.len() - i,
{
    if i >= v.len() {
        None
    } else if same_name(v[i as int].alias, name) {
        Some(i)
    } else {
        alias_from(v, name, i + 1)
    }
}

/// The first text from `i` on that is a given one.
pub open spec fn text_from(v: Seq<Option<Seq<char>>>, text: Seq<char>, i: nat) -> Option<nat>
    decreases v.len() - i,
{
    if i >= v.len() {
        None
    } else if v[i as int] matches Some(t) && same_name(t, text) {
        Some(i)
    } else {
        text_from(v, text, i + 1)
    }
}

/// The output that an expression refers to by its number.
pub open spec fn numbered_output(n: Seq<char>, outs: Seq<Output>) -> Result<Term, Seq<char>> {
    match natural(n) {
        Some(k) if k <= usize::MAX => if k == 0 || k > outs.len() {
            Err(
                "ссылка на колонку "@ + dec(k as int) + ": в SELECT их "@ + dec(
                    outs.len() as int,
                ),
            )
        } else {
            Ok(outs[k - 1].expr)
        },
        _ => Err(in_context("порядковый номер колонки"@, int_error(n))),
    }
}

/// ORDER BY and GROUP BY refer to an output by its number, by its alias (unless a column
/// has that name) or by the text of its expression; else they hold an expression of
/// their own.
pub open spec fn output_ref<F: Floats>(
    e: Tree,
    s: Seq<Attr>,
    outs: Seq<Output>,
    notes: Seq<Option<Seq<char>>>,
    fl: F,
) -> Result<Term, Seq<char>> {
    match e.node {
        TreeNode::Value(LiteralTree::Number(n)) => numbered_output(n, outs),
        _ => {
            let by_alias = match e.node {
                TreeNode::Ident(id) => if column_named(s, id) is None {
                    alias_from(outs, id, 0)
                } else {
                    None
                },
                _ => None,
            };
            match by_alias {
                Some(i) => Ok(outs[i as int].expr),
                None => match text_from(notes, e.text, 0) {
                    Some(i) => Ok(outs[i as int].expr),
                    None => bound(e, s, fl),
                },
            }
        },
    }
}

fn find_alias(v: &Vec<Projection>, name: &str) -> (r: Option<usize>)
    ensures
        match r {
            Some(i) => i < v@.len() && alias_from(outputs(v@), name@, 0) == Some(i as nat),
            None => alias_from(outputs(v@), name@, 0) is None,
        },
{
    let mut i: usize = 0;
    while i < v.len()
        invariant
            i <= v.len(),
            alias_from(outputs(v@), name@, i as nat) == alias_from(outputs(v@), name@, 0),
        decreases v.len() - i,
    {
        assert(outputs(v@)[i as int].alias == v@[i as int].alias@);
        if eq_ignore_ascii_case(v[i].alias.as_str(), name) {
            return Some(i);
        }
        i += 1;
    }
    None
}

fn find_text(v: &Vec<Option<String>>, text: &str) -> (r: Option<usize>)
    ensures
        match r {
            Some(i) => i < v@.len() && text_from(texts(v@), text@, 0) == Some(i as nat),
            None => text_from(texts(v@), text@, 0) is None,
        },
{
    let mut i: usize = 0;
    while i < v.len()
        invariant
            i <= v.len(),
            text_from(texts(v@), text@, i as nat) == text_from(texts(v@), text@, 0),
        decreases v.len() - i,
    {
        assert(texts(v@)[i as int] == crate::ast::text_of(v@[i as int]));
        if let Some(t) = &v[i] {
            if eq_ignore_ascii_case(t.as_str(), text) {
                return Some(i);
            }
        }
        i += 1;
    }
    None
}

fn number_ref(n: &str, outs: &Vec<Projection>) -> (r: Result<Expr, Error>)
    ensures
        agrees(r, numbered_output(n@, outputs(outs@))),
{
    let k = match usize_in(n) {
        Ok(k) => k,
        Err(m) => {
            return Err(m.context("порядковый номер колонки"));
        },
    };
    if k == 0 || k > outs.len() {
        return Err(
            err(
                text4(
                    "ссылка на колонку ",
                    dec_usize(k).as_str(),
                    ": в SELECT их ",
                    dec_usize(outs.len()).as_str(),
                ),
            ),
        );
    }
    assert(outputs(outs@)[k - 1].expr == outs@[k - 1].expr.view());
    Ok(outs[k - 1].expr.clone())
}

/// The expression that a key of ORDER BY or GROUP BY stands for.
pub fn bind_output_ref<F: Floats>(
    e: &Ast,
    schema: &Schema,
    outs: &Vec<Projection>,
    notes: &Vec<Option<String>>,
    fl: &F,
) -> (r: Result<Expr, Error>)
    requires
        fl.exact(),
        outs@.len() == notes@.len(),
    ensures
        agrees(r, output_ref(e.view(), schema@, outputs(outs@), texts(notes@), *fl)),
{
    assert(e.view().node == e.node.view());
    match &e.node {
        Node::Value(Literal::Number(n)) => {
            return number_ref(n.as_str(), outs);
        },
        Node::Ident(id) => {
            if schema.index_of(id.as_str()).is_none() {
                if let Some(i) = find_alias(outs, id.as_str()) {
                    assert(outputs(outs@)[i as int].expr == outs@[i as int].expr.view());
                    return Ok(outs[i].expr.clone());
                }
            }
        },
        _ => {},
    }
    if let Some(i) = find_text(notes, e.text.as_str()) {
        assert(outputs(outs@)[i as int].expr == outs@[i as int].expr.view());
        return Ok(outs[i].expr.clone());
    }
    bind(e, schema, fl)
}

pub open spec fn output_refs<F: Floats>(
    v: Seq<Tree>,
    n: nat,
    s: Seq<Attr>,
    outs: Seq<Output>,
    notes: Seq<Option<Seq<char>>>,
    fl: F,
) -> Result<Seq<Term>, Seq<char>>
    decreases n,
{
    if n == 0 || n > v.len() {
        Ok(Seq::empty())
    } else {
        match output_refs(v, (n - 1) as nat, s, outs, notes, fl) {
            Err(m) => Err(m),
            Ok(out) => match output_ref(v[n - 1], s, outs, notes, fl) {
                Err(m) => Err(m),
                Ok(x) => Ok(out.push(x)),
            },
        }
    }
}

proof fn lemma_refs_err<F: Floats>(
    v: Seq<Tree>,
    k: nat,
    n: nat,
    s: Seq<Attr>,
    outs: Seq<Output>,
    notes: Seq<Option<Seq<char>>>,
    fl: F,
)
    requires
        k <= n <= v.len(),
        output_refs(v, k, s, outs, notes, fl) is Err,
    ensures
        output_refs(v, n, s, outs, notes, fl) == output_refs(v, k, s, outs, notes, fl),
    decreases n - k,
{
    if k < n {
        lemma_refs_err(v, k, (n - 1) as nat, s, outs, notes, fl);
    }
}

fn bind_refs<F: Floats>(
    v: &Vec<Ast>,
    schema: &Schema,
    outs: &Vec<Projection>,
    notes: &Vec<Option<String>>,
    fl: &F,
) -> (r: Result<Vec<Expr>, Error>)
    requires
        fl.exact(),
        outs@.len() == notes@.len(),
    ensures
        match r {
            Ok(x) => output_refs(
                trees(v@),
                v@.len(),
                schema@,
                outputs(outs@),
                texts(notes@),
                *fl,
            ) == Ok::<Seq<Term>, Seq<char>>(terms(x@)),
            Err(m) => output_refs(
                trees(v@),
                v@.len(),
                schema@,
                outputs(outs@),
                texts(notes@),
                *fl,
            ) == Err::<Seq<Term>, Seq<char>>(m@),
        },
{
    let ghost t = trees(v@);
    let ghost o = outputs(outs@);
    let ghost n = texts(notes@);
    let mut out: Vec<Expr> = Vec::new();
    let mut i: usize = 0;
    assert(terms(out@) =~= Seq::<Term>::empty());
    while i < v.len()
        invariant
            i <= v.len(),
            fl.exact(),
            outs@.len() == notes@.len(),
            t == trees(v@),
            o == outputs(outs@),
            n == texts(notes@),
            output_refs(t, i as nat, schema@, o, n, *fl) == Ok::<Seq<Term>, Seq<char>>(
                terms(out@),
            ),
        decreases v.len() - i,
    {
        assert(t[i as int] == v@[i as int].view());
        match bind_output_ref(&v[i], schema, outs, notes, fl) {
            Ok(b) => {
                let ghost before = terms(out@);
                out.push(b);
                assert(terms(out@) =~= before.push(b.view()));
            },
            Err(m) => {
                proof {
                    lemma_refs_err(t, (i + 1) as nat, t.len(), schema@, o, n, *fl);
                }
                return Err(m);
            },
        }
        i += 1;
    }
    Ok(out)
}

pub open spec fn output_keys<F: Floats>(
    v: Seq<SortTree>,
    n: nat,
    s: Seq<Attr>,
    outs: Seq<Output>,
    notes: Seq<Option<Seq<char>>>,
    fl: F,
) -> Result<Seq<Key>, Seq<char>>
    decreases n,
{
    if n == 0 || n > v.len() {
        Ok(Seq::empty())
    } else {
        match output_keys(v, (n - 1) as nat, s, outs, notes, fl) {
            Err(m) => Err(m),
            Ok(out) => match output_ref(v[n - 1].expr, s, outs, notes, fl) {
                Err(m) => Err(m),
                Ok(x) => Ok(
                    out.push(
                        Key {
                            expr: x,
                            asc: match v[n - 1].asc {
                                Some(b) => b,
                                None => true,
                            },
                        },
                    ),
                ),
            },
        }
    }
}

proof fn lemma_keys_err<F: Floats>(
    v: Seq<SortTree>,
    k: nat,
    n: nat,
    s: Seq<Attr>,
    outs: Seq<Output>,
    notes: Seq<Option<Seq<char>>>,
    fl: F,
)
    requires
        k <= n <= v.len(),
        output_keys(v, k, s, outs, notes, fl) is Err,
    ensures
        output_keys(v, n, s, outs, notes, fl) == output_keys(v, k, s, outs, notes, fl),
    decreases n - k,
{
    if k < n {
        lemma_keys_err(v, k, (n - 1) as nat, s, outs, notes, fl);
    }
}

fn bind_keys<F: Floats>(
    v: &Vec<SortKey>,
    schema: &Schema,
    outs: &Vec<Projection>,
    notes: &Vec<Option<String>>,
    fl: &F,
) -> (r: Result<Vec<OrderKey>, Error>)
    requires
        fl.exact(),
        outs@.len() == notes@.len(),
    ensures
        match r {
            Ok(x) => output_keys(
                sort_trees(v@),
                v@.len(),
                schema@,
                outputs(outs@),
                texts(notes@),
                *fl,
            ) == Ok::<Seq<Key>, Seq<char>>(keys(x@)),
            Err(m) => output_keys(
                sort_trees(v@),
                v@.len(),
                schema@,
                outputs(outs@),
                texts(notes@),
                *fl,
            ) == Err::<Seq<Key>, Seq<char>>(m@),
        },
{
    let ghost t = sort_trees(v@);
    let ghost o = outputs(outs@);
    let ghost n = texts(notes@);
    let mut out: Vec<OrderKey> = Vec::new();
    let mut i: usize = 0;
    assert(keys(out@) =~= Seq::<Key>::empty());
    while i < v.len()
        invariant
            i <= v.len(),
            fl.exact(),
            outs@.len() == notes@.len(),
            t == sort_trees(v@),
            o == outputs(outs@),
            n == texts(notes@),
            output_keys(t, i as nat, schema@, o, n, *fl) == Ok::<Seq<Key>, Seq<char>>(keys(out@)),
        decreases v.len() - i,
    {
        assert(t[i as int].expr == v@[i as int].expr.view());
        match bind_output_ref(&v[i].expr, schema, outs, notes, fl) {
            Ok(b) => {
                let ghost before = keys(out@);
                let asc = match v[i].asc {
                    Some(a) => a,
                    None => true,
                };
                out.push(OrderKey { expr: b, asc });
                assert(keys(out@) =~= before.push(Key { expr: b.view(), asc }));
            },
            Err(m) => {
                proof {
                    lemma_keys_err(t, (i + 1) as nat, t.len(), schema@, o, n, *fl);
                }
                return Err(m);
            },
        }
        i += 1;
    }
    Ok(out)
}

// --- SELECT -----------------------------------------------------------------------------------------

/// The table that a query reads, if any, and its schema.
pub open spec fn source_of<C: Catalog>(from: Seq<SourceTree>, cat: C) -> Result<
    (Option<Seq<char>>, Seq<Attr>),
    Seq<char>,
> {
    if from.len() > 1 || (from.len() == 1 && from[0].joined) {
        Err("поддерживается не больше одной таблицы в FROM, без JOIN"@)
    } else if from.len() == 0 {
        Ok((None, Seq::empty()))
    } else {
        match from[0].name {
            None => Err("источник '"@ + from[0].text + "' не поддерживается"@),
            Some(n) => match last_name(n) {
                Err(m) => Err(m),
                Ok(name) => match cat.schema(name) {
                    None => Err("таблица '"@ + name + "' не найдена"@),
                    Some(s) => Ok((Some(name), s)),
                },
            },
        }
    }
}

fn find_source<C: Catalog>(from: &Vec<Source>, cat: &C) -> (r: Result<
    (Option<String>, Schema),
    Error,
>)
    ensures
        match r {
            Ok((name, s)) => source_of(source_trees(from@), *cat) == Ok::<
                (Option<Seq<char>>, Seq<Attr>),
                Seq<char>,
            >((crate::ast::text_of(name), s@)),
            Err(m) => source_of(source_trees(from@), *cat) == Err::<
                (Option<Seq<char>>, Seq<Attr>),
                Seq<char>,
            >(m@),
        },
{
    if from.len() > 1 || (from.len() == 1 && from[0].joined) {
        return Err(
            err("поддерживается не больше одной таблицы в FROM, без JOIN".to_owned()),
        );
    }
    if from.len() == 0 {
        let schema = Schema { fields: Vec::new() };
        assert(schema@ =~= Seq::<Attr>::empty());
        return Ok((None, schema));
    }
    let name = match &from[0].name {
        None => {
            return Err(
                err(text3("источник '", from[0].text.as_str(), "' не поддерживается")),
            );
        },
        Some(n) => match ident_of(n) {
            Ok(name) => name,
            Err(m) => {
                return Err(m);
            },
        },
    };
    match cat.schema_of(name.as_str()) {
        None => Err(err(text3("таблица '", name.as_str(), "' не найдена"))),
        Some(s) => Ok((Some(name), s)),
    }
}

/// A condition, where there is one; `place` is what its error says of it.
pub open spec fn condition<F: Floats>(
    e: Option<Tree>,
    place: Seq<char>,
    s: Seq<Attr>,
    fl: F,
) -> Result<Option<Term>, Seq<char>> {
    match e {
        None => Ok(None),
        Some(t) => match bound(t, s, fl) {
            Ok(x) => Ok(Some(x)),
            Err(m) => Err(in_context(place, m)),
        },
    }
}

fn bind_condition<F: Floats>(e: &Option<Ast>, place: &str, schema: &Schema, fl: &F) -> (r: Result<
    Option<Expr>,
    Error,
>)
    requires
        fl.exact(),
    ensures
        match r {
            Ok(x) => condition(tree_opt(*e), place@, schema@, *fl) == Ok::<
                Option<Term>,
                Seq<char>,
            >(maybe(x)),
            Err(m) => condition(tree_opt(*e), place@, schema@, *fl) == Err::<
                Option<Term>,
                Seq<char>,
            >(m@),
        },
{
    match e {
        None => Ok(None),
        Some(t) => match bind(t, schema, fl) {
            Ok(x) => Ok(Some(x)),
            Err(m) => Err(m.context(place)),
        },
    }
}

pub open spec fn any_aggregate(v: Seq<Term>) -> bool {
    exists|i: int| 0 <= i < v.len() && has_aggregate(#[trigger] v[i])
}

pub open spec fn any_output_aggregate(v: Seq<Output>) -> bool {
    exists|i: int| 0 <= i < v.len() && has_aggregate((#[trigger] v[i]).expr)
}

fn aggregate_among(v: &Vec<Expr>) -> (r: bool)
    ensures
        r == any_aggregate(terms(v@)),
{
    let mut i: usize = 0;
    while i < v.len()
        invariant
            i <= v.len(),
            forall|k: int| 0 <= k < i ==> !has_aggregate(#[trigger] terms(v@)[k]),
        decreases v.len() - i,
    {
        assert(terms(v@)[i as int] == v@[i as int].view());
        if v[i].contains_agg() {
            return true;
        }
        i += 1;
    }
    false
}

fn aggregate_put_out(v: &Vec<Projection>) -> (r: bool)
    ensures
        r == any_output_aggregate(outputs(v@)),
{
    let mut i: usize = 0;
    while i < v.len()
        invariant
            i <= v.len(),
            forall|k: int| 0 <= k < i ==> !has_aggregate((#[trigger] outputs(v@)[k]).expr),
        decreases v.len() - i,
    {
        assert(outputs(v@)[i as int].expr == v@[i as int].expr.view());
        if v[i].expr.contains_agg() {
            return true;
        }
        i += 1;
    }
    false
}

pub open spec fn groups_of<F: Floats>(
    g: Option<Seq<Tree>>,
    s: Seq<Attr>,
    outs: Seq<Output>,
    notes: Seq<Option<Seq<char>>>,
    fl: F,
) -> Result<Seq<Term>, Seq<char>> {
    match g {
        None => Err("GROUP BY ALL не поддерживается"@),
        Some(v) => match output_refs(v, v.len(), s, outs, notes, fl) {
            Err(m) => Err(in_context("GROUP BY"@, m)),
            Ok(x) => if any_aggregate(x) {
                Err("агрегат в GROUP BY"@)
            } else {
                Ok(x)
            },
        },
    }
}

pub open spec fn order_of<F: Floats>(
    o: OrderTree,
    s: Seq<Attr>,
    outs: Seq<Output>,
    notes: Seq<Option<Seq<char>>>,
    fl: F,
) -> Result<Seq<Key>, Seq<char>> {
    match o {
        OrderTree::Missing => Ok(Seq::empty()),
        OrderTree::All => Err("ORDER BY ALL не поддерживается"@),
        OrderTree::Keys(v) => match output_keys(v, v.len(), s, outs, notes, fl) {
            Err(m) => Err(in_context("ORDER BY"@, m)),
            Ok(x) => Ok(x),
        },
    }
}

/// The plan of a query: the first of its parts that cannot be planned gives the error.
pub open spec fn planned_query<C: Catalog, F: Floats>(q: AskTree, cat: C, fl: F) -> Result<
    Query,
    Seq<char>,
> {
    if q.with {
        Err("CTE (WITH) не поддерживаются"@)
    } else {
        match q.body {
            None => Err("поддерживается только простой SELECT (без UNION и подзапросов)"@),
            Some(b) => if b.distinct {
                Err("SELECT DISTINCT не поддерживается; используйте GROUP BY"@)
            } else {
                match source_of(b.from, cat) {
                    Err(m) => Err(m),
                    Ok((table, s)) => planned_body(q, b, table, s, fl),
                }
            },
        }
    }
}

pub open spec fn planned_body<F: Floats>(
    q: AskTree,
    b: BodyTree,
    table: Option<Seq<char>>,
    s: Seq<Attr>,
    fl: F,
) -> Result<Query, Seq<char>> {
    match condition(b.filter, "WHERE"@, s, fl) {
        Err(m) => Err(m),
        Ok(filter) => match projected(b.items, b.items.len(), s, fl) {
            Err(m) => Err(m),
            Ok(outs) => if outs.len() == 0 {
                Err("пустой список SELECT"@)
            } else {
                let notes = item_texts(b.items, b.items.len(), s.len());
                match groups_of(b.group_by, s, outs, notes, fl) {
                    Err(m) => Err(m),
                    Ok(group_by) => match condition(b.having, "HAVING"@, s, fl) {
                        Err(m) => Err(m),
                        Ok(having) => if having is Some && group_by.len() == 0
                            && !any_output_aggregate(outs) {
                            Err("HAVING без агрегатов и GROUP BY: используйте WHERE"@)
                        } else {
                            match order_of(q.order_by, s, outs, notes, fl) {
                                Err(m) => Err(m),
                                Ok(order_by) => match limits(q.limit, fl) {
                                    Err(m) => Err(m),
                                    Ok((limit, offset)) => Ok(
                                        Query {
                                            table,
                                            filter,
                                            group_by,
                                            having,
                                            projection: outs,
                                            order_by,
                                            limit,
                                            offset,
                                        },
                                    ),
                                },
                            }
                        },
                    },
                }
            },
        },
    }
}

/// The plan of a query.
pub fn plan_query<C: Catalog, F: Floats>(q: &Ask, cat: &C, fl: &F) -> (r: Result<Select, Error>)
    requires
        fl.exact(),
    ensures
        match r {
            Ok(p) => planned_query(q@, *cat, *fl) == Ok::<Query, Seq<char>>(p@),
            Err(m) => planned_query(q@, *cat, *fl) == Err::<Query, Seq<char>>(m@),
        },
{
    if q.with {
        return Err(err("CTE (WITH) не поддерживаются".to_owned()));
    }
    let b = match &q.body {
        None => {
            return Err(
                err(
                    "поддерживается только простой SELECT (без UNION и подзапросов)".to_owned(),
                ),
            );
        },
        Some(b) => b,
    };
    if b.distinct {
        return Err(err("SELECT DISTINCT не поддерживается; используйте GROUP BY".to_owned()));
    }
    match find_source(&b.from, cat) {
        Err(m) => Err(m),
        Ok((table, schema)) => plan_body(q, b, table, &schema, fl),
    }
}

fn plan_body<F: Floats>(
    q: &Ask,
    b: &Body,
    table: Option<String>,
    schema: &Schema,
    fl: &F,
) -> (r: Result<Select, Error>)
    requires
        fl.exact(),
    ensures
        match r {
            Ok(p) => planned_body(q@, b@, crate::ast::text_of(table), schema@, *fl) == Ok::<
                Query,
                Seq<char>,
            >(p@),
            Err(m) => planned_body(q@, b@, crate::ast::text_of(table), schema@, *fl) == Err::<
                Query,
                Seq<char>,
            >(m@),
        },
{
    let filter = match bind_condition(&b.filter, "WHERE", schema, fl) {
        Ok(x) => x,
        Err(m) => {
            return Err(m);
        },
    };
    let (projection, notes) = match project(&b.items, schema, fl) {
        Ok(p) => p,
        Err(m) => {
            return Err(m);
        },
    };
    if projection.len() == 0 {
        return Err(err("пустой список SELECT".to_owned()));
    }
    let group_by = match &b.group_by {
        None => {
            return Err(err("GROUP BY ALL не поддерживается".to_owned()));
        },
        Some(v) => match bind_refs(v, schema, &projection, &notes, fl) {
            Ok(x) => x,
            Err(m) => {
                return Err(m.context("GROUP BY"));
            },
        },
    };
    if aggregate_among(&group_by) {
        return Err(err("агрегат в GROUP BY".to_owned()));
    }
    let having = match bind_condition(&b.having, "HAVING", schema, fl) {
        Ok(x) => x,
        Err(m) => {
            return Err(m);
        },
    };
    if having.is_some() && group_by.len() == 0 && !aggregate_put_out(&projection) {
        return Err(err("HAVING без агрегатов и GROUP BY: используйте WHERE".to_owned()));
    }
    let order_by = match &q.order_by {
        OrderBy::Missing => Vec::new(),
        OrderBy::All => {
            return Err(err("ORDER BY ALL не поддерживается".to_owned()));
        },
        OrderBy::Keys(v) => match bind_keys(v, schema, &projection, &notes, fl) {
            Ok(x) => x,
            Err(m) => {
                return Err(m.context("ORDER BY"));
            },
        },
    };
    assert(q@.order_by is Missing ==> keys(order_by@) =~= Seq::<Key>::empty());
    let (limit, offset) = match limit_offset(&q.limit, fl) {
        Ok(p) => p,
        Err(m) => {
            return Err(m);
        },
    };
    Ok(Select { table, filter, group_by, having, projection, order_by, limit, offset })
}

// --- INSERT ------------------------------------------------------------------------------------------

/// The first `n` names.
pub open spec fn last_names(v: Seq<NameTree>, n: nat) -> Result<Seq<Seq<char>>, Seq<char>>
    decreases n,
{
    if n == 0 || n > v.len() {
        Ok(Seq::empty())
    } else {
        match last_names(v, (n - 1) as nat) {
            Err(m) => Err(m),
            Ok(out) => match last_name(v[n - 1]) {
                Err(m) => Err(m),
                Ok(x) => Ok(out.push(x)),
            },
        }
    }
}

proof fn lemma_names_err(v: Seq<NameTree>, k: nat, n: nat)
    requires
        k <= n <= v.len(),
        last_names(v, k) is Err,
    ensures
        last_names(v, n) == last_names(v, k),
    decreases n - k,
{
    if k < n {
        lemma_names_err(v, k, (n - 1) as nat);
    }
}

fn read_names(v: &Vec<Name>) -> (r: Result<Vec<String>, Error>)
    ensures
        match r {
            Ok(x) => last_names(names(v@), v@.len()) == Ok::<Seq<Seq<char>>, Seq<char>>(
                strings(x@),
            ),
            Err(m) => last_names(names(v@), v@.len()) == Err::<Seq<Seq<char>>, Seq<char>>(m@),
        },
{
    let ghost t = names(v@);
    let mut out: Vec<String> = Vec::new();
    let mut i: usize = 0;
    assert(strings(out@) =~= Seq::<Seq<char>>::empty());
    while i < v.len()
        invariant
            i <= v.len(),
            t == names(v@),
            last_names(t, i as nat) == Ok::<Seq<Seq<char>>, Seq<char>>(strings(out@)),
        decreases v.len() - i,
    {
        assert(t[i as int] == v@[i as int]@);
        match ident_of(&v[i]) {
            Ok(s) => {
                let ghost before = strings(out@);
                out.push(s);
                assert(strings(out@) =~= before.push(s@));
            },
            Err(m) => {
                proof {
                    lemma_names_err(t, (i + 1) as nat, t.len());
                }
                return Err(m);
            },
        }
        i += 1;
    }
    Ok(out)
}

/// The types of the first `n` of some columns of a table.
pub open spec fn named_types(
    table: Seq<char>,
    cols: Seq<Seq<char>>,
    n: nat,
    s: Seq<Attr>,
) -> Result<Seq<DataType>, Seq<char>>
    decreases n,
{
    if n == 0 || n > cols.len() {
        Ok(Seq::empty())
    } else {
        match named_types(table, cols, (n - 1) as nat, s) {
            Err(m) => Err(m),
            Ok(out) => match column_named(s, cols[n - 1]) {
                None => Err("в таблице '"@ + table + "' нет колонки '"@ + cols[n - 1] + "'"@),
                Some(i) => Ok(out.push(s[i as int].ty)),
            },
        }
    }
}

proof fn lemma_types_err(table: Seq<char>, cols: Seq<Seq<char>>, k: nat, n: nat, s: Seq<Attr>)
    requires
        k <= n <= cols.len(),
        named_types(table, cols, k, s) is Err,
    ensures
        named_types(table, cols, n, s) == named_types(table, cols, k, s),
    decreases n - k,
{
    if k < n {
        lemma_types_err(table, cols, k, (n - 1) as nat, s);
    }
}

pub open spec fn schema_types(s: Seq<Attr>) -> Seq<DataType> {
    Seq::new(s.len(), |i: int| s[i].ty)
}

fn types_of(schema: &Schema) -> (r: Vec<DataType>)
    ensures
        r@ == schema_types(schema@),
{
    let mut out: Vec<DataType> = Vec::new();
    let mut i: usize = 0;
    while i < schema.fields.len()
        invariant
            i <= schema.fields.len(),
            out@ == schema_types(schema@).take(i as int),
        decreases schema.fields.len() - i,
    {
        out.push(schema.fields[i].ty);
        i += 1;
        assert(out@ =~= schema_types(schema@).take(i as int));
    }
    assert(out@ =~= schema_types(schema@));
    out
}

fn find_types(table: &str, cols: &Vec<String>, schema: &Schema) -> (r: Result<
    Vec<DataType>,
    Error,
>)
    ensures
        match r {
            Ok(x) => named_types(table@, strings(cols@), cols@.len(), schema@) == Ok::<
                Seq<DataType>,
                Seq<char>,
            >(x@),
            Err(m) => named_types(table@, strings(cols@), cols@.len(), schema@) == Err::<
                Seq<DataType>,
                Seq<char>,
            >(m@),
        },
{
    let ghost t = strings(cols@);
    let mut out: Vec<DataType> = Vec::new();
    let mut i: usize = 0;
    while i < cols.len()
        invariant
            i <= cols.len(),
            t == strings(cols@),
            named_types(table@, t, i as nat, schema@) == Ok::<Seq<DataType>, Seq<char>>(out@),
        decreases cols.len() - i,
    {
        let n = cols[i].as_str();
        assert(t[i as int] == n@);
        match schema.field(n) {
            Some(f) => out.push(f.ty),
            None => {
                proof {
                    lemma_types_err(table@, t, (i + 1) as nat, t.len(), schema@);
                }
                return Err(
                    err(
                        crate::text::text5("в таблице '", table, "' нет колонки '", n, "'"),
                    ),
                );
            },
        }
        i += 1;
    }
    Ok(out)
}

/// The first `n` values of a row, each for a column of its type.
pub open spec fn typed_row<F: Floats>(row: Seq<Tree>, types: Seq<DataType>, n: nat, fl: F) -> Result<
    Seq<Cell>,
    Seq<char>,
>
    decreases n,
{
    if n == 0 || n > row.len() {
        Ok(Seq::empty())
    } else {
        match typed_row(row, types, (n - 1) as nat, fl) {
            Err(m) => Err(m),
            Ok(out) => match literal_cell(row[n - 1], Some(types[n - 1]), fl) {
                Err(m) => Err(m),
                Ok(c) => Ok(out.push(c)),
            },
        }
    }
}

/// The first `n` rows.
pub open spec fn typed_rows<F: Floats>(
    rows: Seq<Seq<Tree>>,
    types: Seq<DataType>,
    n: nat,
    fl: F,
) -> Result<Seq<Seq<Cell>>, Seq<char>>
    decreases n,
{
    if n == 0 || n > rows.len() {
        Ok(Seq::empty())
    } else {
        match typed_rows(rows, types, (n - 1) as nat, fl) {
            Err(m) => Err(m),
            Ok(out) => {
                let row = rows[n - 1];
                if row.len() != types.len() {
                    Err(
                        "в строке "@ + dec(row.len() as int) + " значений, ожидалось "@ + dec(
                            types.len() as int,
                        ),
                    )
                } else {
                    match typed_row(row, types, row.len(), fl) {
                        Err(m) => Err(m),
                        Ok(x) => Ok(out.push(x)),
                    }
                }
            },
        }
    }
}

proof fn lemma_row_err<F: Floats>(row: Seq<Tree>, types: Seq<DataType>, k: nat, n: nat, fl: F)
    requires
        k <= n <= row.len(),
        typed_row(row, types, k, fl) is Err,
    ensures
        typed_row(row, types, n, fl) == typed_row(row, types, k, fl),
    decreases n - k,
{
    if k < n {
        lemma_row_err(row, types, k, (n - 1) as nat, fl);
    }
}

proof fn lemma_rows_err<F: Floats>(
    rows: Seq<Seq<Tree>>,
    types: Seq<DataType>,
    k: nat,
    n: nat,
    fl: F,
)
    requires
        k <= n <= rows.len(),
        typed_rows(rows, types, k, fl) is Err,
    ensures
        typed_rows(rows, types, n, fl) == typed_rows(rows, types, k, fl),
    decreases n - k,
{
    if k < n {
        lemma_rows_err(rows, types, k, (n - 1) as nat, fl);
    }
}

fn read_row<F: Floats>(row: &Vec<Ast>, types: &Vec<DataType>, fl: &F) -> (r: Result<
    Vec<Value>,
    Error,
>)
    requires
        fl.exact(),
        row@.len() == types@.len(),
    ensures
        match r {
            Ok(x) => typed_row(trees(row@), types@, row@.len(), *fl) == Ok::<Seq<Cell>, Seq<char>>(
                cells(x@),
            ),
            Err(m) => typed_row(trees(row@), types@, row@.len(), *fl) == Err::<
                Seq<Cell>,
                Seq<char>,
            >(m@),
        },
{
    let ghost t = trees(row@);
    let mut out: Vec<Value> = Vec::new();
    let mut i: usize = 0;
    assert(cells(out@) =~= Seq::<Cell>::empty());
    while i < row.len()
        invariant
            i <= row.len(),
            fl.exact(),
            row@.len() == types@.len(),
            t == trees(row@),
            typed_row(t, types@, i as nat, *fl) == Ok::<Seq<Cell>, Seq<char>>(cells(out@)),
        decreases row.len() - i,
    {
        assert(t[i as int] == row@[i as int].view());
        match literal(&row[i], Some(types[i]), fl) {
            Ok(v) => {
                let ghost before = cells(out@);
                out.push(v);
                assert(cells(out@) =~= before.push(v@));
            },
            Err(m) => {
                proof {
                    lemma_row_err(t, types@, (i + 1) as nat, t.len(), *fl);
                }
                return Err(m);
            },
        }
        i += 1;
    }
    Ok(out)
}

fn read_rows<F: Floats>(rows: &Vec<Vec<Ast>>, types: &Vec<DataType>, fl: &F) -> (r: Result<
    Vec<Vec<Value>>,
    Error,
>)
    requires
        fl.exact(),
    ensures
        match r {
            Ok(x) => typed_rows(tree_rows(rows@), types@, rows@.len(), *fl) == Ok::<
                Seq<Seq<Cell>>,
                Seq<char>,
            >(cell_rows(x@)),
            Err(m) => typed_rows(tree_rows(rows@), types@, rows@.len(), *fl) == Err::<
                Seq<Seq<Cell>>,
                Seq<char>,
            >(m@),
        },
{
    let ghost t = tree_rows(rows@);
    let mut out: Vec<Vec<Value>> = Vec::new();
    let mut i: usize = 0;
    assert(cell_rows(out@) =~= Seq::<Seq<Cell>>::empty());
    while i < rows.len()
        invariant
            i <= rows.len(),
            fl.exact(),
            t == tree_rows(rows@),
            typed_rows(t, types@, i as nat, *fl) == Ok::<Seq<Seq<Cell>>, Seq<char>>(
                cell_rows(out@),
            ),
        decreases rows.len() - i,
    {
        let row = &rows[i];
        assert(t[i as int] == trees(row@));
        proof {
            if typed_rows(t, types@, (i + 1) as nat, *fl) is Err {
                lemma_rows_err(t, types@, (i + 1) as nat, t.len(), *fl);
            }
        }
        if row.len() != types.len() {
            return Err(
                err(
                    text4(
                        "в строке ",
                        dec_usize(row.len()).as_str(),
                        " значений, ожидалось ",
                        dec_usize(types.len()).as_str(),
                    ),
                ),
            );
        }
        match read_row(row, types, fl) {
            Ok(v) => {
                let ghost before = cell_rows(out@);
                out.push(v);
                assert(cell_rows(out@) =~= before.push(cells(v@)));
            },
            Err(m) => {
                return Err(m);
            },
        }
        i += 1;
    }
    Ok(out)
}

/// An INSERT: the types of the columns that it names decide how its values are read.
pub open spec fn planned_insert<C: Catalog, F: Floats>(
    table: Option<NameTree>,
    text: Seq<char>,
    columns: Seq<NameTree>,
    rows: RowsTree,
    cat: C,
    fl: F,
) -> Result<Command, Seq<char>> {
    match table {
        None => Err("INSERT в "@ + text + " не поддерживается"@),
        Some(n) => match last_name(n) {
            Err(m) => Err(m),
            Ok(name) => match cat.schema(name) {
                None => Err("таблица '"@ + name + "' не найдена"@),
                Some(s) => match last_names(columns, columns.len()) {
                    Err(m) => Err(m),
                    Ok(cols) => {
                        let types = if cols.len() == 0 {
                            Ok(schema_types(s))
                        } else {
                            named_types(name, cols, cols.len(), s)
                        };
                        match types {
                            Err(m) => Err(m),
                            Ok(types) => match rows {
                                RowsTree::Missing => Err("INSERT без VALUES не поддерживается"@),
                                RowsTree::Other => Err("INSERT ... SELECT не поддерживается"@),
                                RowsTree::Values(v) => match typed_rows(v, types, v.len(), fl) {
                                    Err(m) => Err(m),
                                    Ok(r) => Ok(
                                        Command::Insert {
                                            table: name,
                                            columns: if cols.len() == 0 {
                                                None
                                            } else {
                                                Some(cols)
                                            },
                                            rows: r,
                                        },
                                    ),
                                },
                            },
                        }
                    },
                },
            },
        },
    }
}

pub fn plan_insert<C: Catalog, F: Floats>(
    table: &Option<Name>,
    text: &str,
    columns: &Vec<Name>,
    rows: &Rows,
    cat: &C,
    fl: &F,
) -> (r: Result<Statement, Error>)
    requires
        fl.exact(),
    ensures
        match r {
            Ok(x) => planned_insert(
                crate::ast::name_opt(*table),
                text@,
                names(columns@),
                rows@,
                *cat,
                *fl,
            ) == Ok::<Command, Seq<char>>(x@),
            Err(m) => planned_insert(
                crate::ast::name_opt(*table),
                text@,
                names(columns@),
                rows@,
                *cat,
                *fl,
            ) == Err::<Command, Seq<char>>(m@),
        },
{
    let name = match table {
        None => {
            return Err(err(text3("INSERT в ", text, " не поддерживается")));
        },
        Some(n) => match ident_of(n) {
            Ok(s) => s,
            Err(m) => {
                return Err(m);
            },
        },
    };
    let schema = match cat.schema_of(name.as_str()) {
        Some(s) => s,
        None => {
            return Err(err(text3("таблица '", name.as_str(), "' не найдена")));
        },
    };
    let cols = match read_names(columns) {
        Ok(v) => v,
        Err(m) => {
            return Err(m);
        },
    };
    let types = if cols.len() == 0 {
        types_of(&schema)
    } else {
        match find_types(name.as_str(), &cols, &schema) {
            Ok(t) => t,
            Err(m) => {
                return Err(m);
            },
        }
    };
    let values = match rows {
        Rows::Missing => {
            return Err(err("INSERT без VALUES не поддерживается".to_owned()));
        },
        Rows::Other => {
            return Err(err("INSERT ... SELECT не поддерживается".to_owned()));
        },
        Rows::Values(v) => match read_rows(v, &types, fl) {
            Ok(x) => x,
            Err(m) => {
                return Err(m);
            },
        },
    };
    let columns = if cols.len() == 0 {
        None
    } else {
        Some(cols)
    };
    Ok(Statement::Insert { table: name, columns, rows: values })
}

// --- statements ------------------------------------------------------------------------------------

/// The first `n` columns of CREATE TABLE.
pub open spec fn declared(v: Seq<ColumnTree>, n: nat) -> Result<Seq<Attr>, Seq<char>>
    decreases n,
{
    if n == 0 || n > v.len() {
        Ok(Seq::empty())
    } else {
        match declared(v, (n - 1) as nat) {
            Err(m) => Err(m),
            Ok(out) => match column_type(v[n - 1].ty) {
                Err(m) => Err(m),
                Ok(ty) => Ok(out.push(Attr { name: v[n - 1].name, ty })),
            },
        }
    }
}

proof fn lemma_declared_err(v: Seq<ColumnTree>, k: nat, n: nat)
    requires
        k <= n <= v.len(),
        declared(v, k) is Err,
    ensures
        declared(v, n) == declared(v, k),
    decreases n - k,
{
    if k < n {
        lemma_declared_err(v, k, (n - 1) as nat);
    }
}

fn read_columns(v: &Vec<ColumnSpec>) -> (r: Result<Schema, Error>)
    ensures
        match r {
            Ok(x) => declared(column_trees(v@), v@.len()) == Ok::<Seq<Attr>, Seq<char>>(x@),
            Err(m) => declared(column_trees(v@), v@.len()) == Err::<Seq<Attr>, Seq<char>>(m@),
        },
{
    let ghost t = column_trees(v@);
    let mut out = Schema { fields: Vec::new() };
    let mut i: usize = 0;
    assert(out@ =~= Seq::<Attr>::empty());
    while i < v.len()
        invariant
            i <= v.len(),
            t == column_trees(v@),
            declared(t, i as nat) == Ok::<Seq<Attr>, Seq<char>>(out@),
        decreases v.len() - i,
    {
        assert(t[i as int] == (ColumnTree { name: v@[i as int].name@, ty: v@[i as int].ty@ }));
        match map_type(&v[i].ty) {
            Ok(ty) => {
                let ghost before = out@;
                out.fields.push(Field { name: v[i].name.clone(), ty });
                assert(out@ =~= before.push(Attr { name: t[i as int].name, ty }));
            },
            Err(m) => {
                proof {
                    lemma_declared_err(t, (i + 1) as nat, t.len());
                }
                return Err(m);
            },
        }
        i += 1;
    }
    Ok(out)
}

/// What a parsed statement asks for.
pub open spec fn planned_statement<C: Catalog, F: Floats>(p: ParsedTree, cat: C, fl: F) -> Result<
    Command,
    Seq<char>,
> {
    match p {
        ParsedTree::CreateTable { name, columns, if_not_exists, from_query } => if from_query {
            Err("CREATE TABLE AS SELECT не поддерживается"@)
        } else {
            match declared(columns, columns.len()) {
                Err(m) => Err(m),
                Ok(schema) => match last_name(name) {
                    Err(m) => Err(m),
                    Ok(n) => Ok(Command::CreateTable { name: n, schema, if_not_exists }),
                },
            }
        },
        ParsedTree::Drop { kind, if_exists, names: v } => if kind != "TABLE"@ {
            Err("DROP поддерживается только для TABLE"@)
        } else if v.len() == 0 {
            Err("DROP без имени"@)
        } else {
            match last_name(v[0]) {
                Err(m) => Err(m),
                Ok(n) => Ok(Command::DropTable { name: n, if_exists }),
            }
        },
        ParsedTree::Insert { table, text, columns, rows } => planned_insert(
            table,
            text,
            columns,
            rows,
            cat,
            fl,
        ),
        ParsedTree::Query(q) => match planned_query(q, cat, fl) {
            Err(m) => Err(m),
            Ok(s) => Ok(Command::Select(s)),
        },
        ParsedTree::ShowTables => Ok(Command::ShowTables),
        ParsedTree::Describe(name) => match last_name(name) {
            Err(m) => Err(m),
            Ok(n) => Ok(Command::Describe(n)),
        },
        ParsedTree::Other(text) => Err("оператор не поддерживается: "@ + text),
    }
}

/// What a parsed statement asks for.
pub fn plan_statement<C: Catalog, F: Floats>(p: &Parsed, cat: &C, fl: &F) -> (r: Result<
    Statement,
    Error,
>)
    requires
        fl.exact(),
    ensures
        match r {
            Ok(x) => planned_statement(p@, *cat, *fl) == Ok::<Command, Seq<char>>(x@),
            Err(m) => planned_statement(p@, *cat, *fl) == Err::<Command, Seq<char>>(m@),
        },
{
    match p {
        Parsed::CreateTable { name, columns, if_not_exists, from_query } => {
            if *from_query {
                return Err(err("CREATE TABLE AS SELECT не поддерживается".to_owned()));
            }
            let schema = match read_columns(columns) {
                Ok(s) => s,
                Err(m) => {
                    return Err(m);
                },
            };
            match ident_of(name) {
                Ok(name) => Ok(
                    Statement::CreateTable { name, schema, if_not_exists: *if_not_exists },
                ),
                Err(m) => Err(m),
            }
        },
        Parsed::Drop { kind, if_exists, names: v } => {
            if !eq_text(kind.as_str(), "TABLE") {
                return Err(err("DROP поддерживается только для TABLE".to_owned()));
            }
            if v.len() == 0 {
                return Err(err("DROP без имени".to_owned()));
            }
            assert(names(v@)[0] == v@[0]@);
            match ident_of(&v[0]) {
                Ok(name) => Ok(Statement::DropTable { name, if_exists: *if_exists }),
                Err(m) => Err(m),
            }
        },
        Parsed::Insert { table, text, columns, rows } => plan_insert(
            table,
            text.as_str(),
            columns,
            rows,
            cat,
            fl,
        ),
        Parsed::Query(q) => match plan_query(q, cat, fl) {
            Ok(s) => Ok(Statement::Select(Box::new(s))),
            Err(m) => Err(m),
        },
        Parsed::ShowTables => Ok(Statement::ShowTables),
        Parsed::Describe(name) => match ident_of(name) {
            Ok(n) => Ok(Statement::Describe(n)),
            Err(m) => Err(m),
        },
        Parsed::Other(text) => Err(err(text2("оператор не поддерживается: ", text.as_str()))),
    }
}

// --- laws -------------------------------------------------------------------------------------------

pub open spec fn outputs_within(v: Seq<Output>, n: nat) -> bool {
    forall|i: int| 0 <= i < v.len() ==> within((#[trigger] v[i]).expr, n)
}

/// Whether every expression of a query names only the first `n` columns.
pub open spec fn query_within(q: Query, n: nat) -> bool {
    &&& q.filter matches Some(x) ==> within(x, n)
    &&& q.having matches Some(x) ==> within(x, n)
    &&& outputs_within(q.projection, n)
    &&& forall|i: int| 0 <= i < q.group_by.len() ==> within(#[trigger] q.group_by[i], n)
    &&& forall|i: int| 0 <= i < q.order_by.len() ==> within((#[trigger] q.order_by[i]).expr, n)
}

proof fn lemma_projected_within<F: Floats>(v: Seq<ItemTree>, n: nat, s: Seq<Attr>, fl: F)
    requires
        n <= v.len(),
        s.len() <= usize::MAX,
    ensures
        projected(v, n, s, fl) matches Ok(x) ==> outputs_within(x, s.len()) && x.len()
            == item_texts(v, n, s.len()).len(),
    decreases n,
{
    if n > 0 {
        lemma_projected_within(v, (n - 1) as nat, s, fl);
        match v[n - 1] {
            ItemTree::Plain(e) => lemma_bound_within(e, s, fl),
            ItemTree::Aliased(e, _) => lemma_bound_within(e, s, fl),
            _ => {},
        }
        if let Ok(x) = projected(v, n, s, fl) {
            assert forall|i: int| 0 <= i < x.len() implies within(
                (#[trigger] x[i]).expr,
                s.len(),
            ) by {
                let before = projected(v, (n - 1) as nat, s, fl)->Ok_0;
                if i < before.len() {
                    assert(x[i] == before[i]);
                }
            }
        }
    }
}

proof fn lemma_alias_from(v: Seq<Output>, name: Seq<char>, i: nat)
    ensures
        alias_from(v, name, i) matches Some(k) ==> k < v.len(),
    decreases v.len() - i,
{
    if i < v.len() {
        lemma_alias_from(v, name, i + 1);
    }
}

proof fn lemma_text_from(v: Seq<Option<Seq<char>>>, text: Seq<char>, i: nat)
    ensures
        text_from(v, text, i) matches Some(k) ==> k < v.len(),
    decreases v.len() - i,
{
    if i < v.len() {
        lemma_text_from(v, text, i + 1);
    }
}

proof fn lemma_ref_within<F: Floats>(
    e: Tree,
    s: Seq<Attr>,
    outs: Seq<Output>,
    notes: Seq<Option<Seq<char>>>,
    fl: F,
)
    requires
        s.len() <= usize::MAX,
        outs.len() == notes.len(),
        outputs_within(outs, s.len()),
    ensures
        output_ref(e, s, outs, notes, fl) matches Ok(x) ==> within(x, s.len()),
{
    lemma_bound_within(e, s, fl);
    lemma_text_from(notes, e.text, 0);
    if let TreeNode::Ident(id) = e.node {
        lemma_alias_from(outs, id, 0);
    }
}

proof fn lemma_refs_within<F: Floats>(
    v: Seq<Tree>,
    n: nat,
    s: Seq<Attr>,
    outs: Seq<Output>,
    notes: Seq<Option<Seq<char>>>,
    fl: F,
)
    requires
        s.len() <= usize::MAX,
        outs.len() == notes.len(),
        outputs_within(outs, s.len()),
    ensures
        output_refs(v, n, s, outs, notes, fl) matches Ok(x) ==> forall|i: int|
            0 <= i < x.len() ==> within(#[trigger] x[i], s.len()),
    decreases n,
{
    if 0 < n <= v.len() {
        lemma_refs_within(v, (n - 1) as nat, s, outs, notes, fl);
        lemma_ref_within(v[n - 1], s, outs, notes, fl);
    }
}

proof fn lemma_keys_within<F: Floats>(
    v: Seq<SortTree>,
    n: nat,
    s: Seq<Attr>,
    outs: Seq<Output>,
    notes: Seq<Option<Seq<char>>>,
    fl: F,
)
    requires
        s.len() <= usize::MAX,
        outs.len() == notes.len(),
        outputs_within(outs, s.len()),
    ensures
        output_keys(v, n, s, outs, notes, fl) matches Ok(x) ==> forall|i: int|
            0 <= i < x.len() ==> within((#[trigger] x[i]).expr, s.len()),
    decreases n,
{
    if 0 < n <= v.len() {
        lemma_keys_within(v, (n - 1) as nat, s, outs, notes, fl);
        lemma_ref_within(v[n - 1].expr, s, outs, notes, fl);
    }
}

/// The plan of a query names only columns of the table that the query reads, and returns
/// at least one column.
pub proof fn lemma_query_within<C: Catalog, F: Floats>(q: AskTree, cat: C, fl: F)
    requires
        q.body matches Some(b) ==> (source_of(b.from, cat) matches Ok((_, s)) ==> s.len()
            <= usize::MAX),
    ensures
        planned_query(q, cat, fl) matches Ok(p) ==> p.projection.len() > 0 && (source_of(
            q.body->0.from,
            cat,
        ) matches Ok((table, s)) && p.table == table && query_within(p, s.len())),
{
    if let Ok(p) = planned_query(q, cat, fl) {
        let b = q.body->0;
        let s = source_of(b.from, cat)->Ok_0.1;
        lemma_projected_within(b.items, b.items.len(), s, fl);
        let outs = projected(b.items, b.items.len(), s, fl)->Ok_0;
        let notes = item_texts(b.items, b.items.len(), s.len());
        if let Some(t) = b.filter {
            lemma_bound_within(t, s, fl);
        }
        if let Some(t) = b.having {
            lemma_bound_within(t, s, fl);
        }
        let g = b.group_by->0;
        lemma_refs_within(g, g.len(), s, outs, notes, fl);
        if let OrderTree::Keys(v) = q.order_by {
            lemma_keys_within(v, v.len(), s, outs, notes, fl);
        }
    }
}

} // verus!
