//! What the clauses of a statement ask for.
use crate::ast::{
    AskTree, BodyTree, ColumnTree, ItemTree, LimitTree, LiteralTree, NameTree, OrderTree,
    ParsedTree, RowsTree, SortTree, Tree, TreeNode,
};
use crate::column::{Cell, DataType};
use crate::float::Floats;
use crate::laws::changes::{alike, becomes};
use crate::laws::syntax::{means, tree};
use crate::laws::texts::{in_digits, lemma_integer, lemma_same_name, written};
use crate::plan::{Command, Key, Output, Term};
use crate::sql::bind::bound;
use crate::sql::literal::{column_type, literal_cell};
use crate::sql::statement::{
    alias_from, declared, item_texts, limits, named_types, output_keys, output_ref, output_refs,
    planned_query, planned_statement, projected, schema_types, text_from, typed_row,
    typed_rows, Catalog,
};
use crate::table::{column_named, Attr};
use vstd::prelude::*;

verus! {

// --- LIMIT and OFFSET ------------------------------------------------------------------------

pub open spec fn number_tree(n: Seq<char>, text: Seq<char>) -> Tree {
    tree(TreeNode::Value(LiteralTree::Number(n)), text)
}

/// `LIMIT n OFFSET k` and `LIMIT k, n` ask for `n` rows behind the first `k`.
pub proof fn lemma_limits<F: Floats>(n: Seq<char>, k: Seq<char>, text: Seq<char>, fl: F)
    requires
        in_digits(n),
        in_digits(k),
        0 <= written(n) <= i64::MAX,
        0 <= written(k) <= i64::MAX,
        written(n) <= usize::MAX,
        written(k) <= usize::MAX,
    ensures
        ({
            let (limit, offset) = (number_tree(n, text), number_tree(k, text));
            let (most, first) = (Some(written(n) as usize), written(k) as usize);
            let gives = |l: LimitTree, m: Option<usize>, f: usize|
                limits(l, fl) == Ok::<(Option<usize>, usize), Seq<char>>((m, f));
            &&& gives(LimitTree::Missing, None, 0)
            &&& gives(
                LimitTree::Parts { limit: Some(limit), offset: Some(offset), by: false },
                most,
                first,
            )
            &&& gives(LimitTree::Parts { limit: Some(limit), offset: None, by: false }, most, 0)
            &&& gives(
                LimitTree::Parts { limit: None, offset: Some(offset), by: false },
                None,
                first,
            )
            &&& gives(LimitTree::Comma { offset, limit }, most, first)
        }),
{
    lemma_integer(n);
    lemma_integer(k);
}

/// What is no number of rows is refused: a negative integer, a text, a truth value, a double.
pub proof fn lemma_bad_limits<F: Floats>(e: Tree, c: Cell, fl: F)
    requires
        literal_cell(e, None, fl) == Ok::<Cell, Seq<char>>(c),
        !(c matches Cell::I64(i) && i >= 0),
    ensures
        limits(LimitTree::Parts { limit: Some(e), offset: None, by: false }, fl) is Err,
        limits(LimitTree::Parts { limit: None, offset: Some(e), by: false }, fl) is Err,
        limits(LimitTree::Comma { offset: e, limit: e }, fl) is Err,
{
}

// --- what is selected ------------------------------------------------------------------------

/// An item gives one column, under its alias or else its text; an asterisk gives every column
/// of the table under its name. One item more gives its columns behind the others.
pub proof fn lemma_items<F: Floats>(
    v: Seq<ItemTree>,
    item: ItemTree,
    s: Seq<Attr>,
    outs: Seq<Output>,
    x: Term,
    fl: F,
)
    requires
        projected(v, v.len(), s, fl) == Ok::<Seq<Output>, Seq<char>>(outs),
        match item {
            ItemTree::Plain(e) => means(e, s, fl, x),
            ItemTree::Aliased(e, _) => means(e, s, fl, x),
            ItemTree::Wildcard => true,
            ItemTree::Other(_) => false,
        },
    ensures
        projected(v.push(item), v.len() + 1, s, fl) matches Ok(now) && {
            let added = match item {
                ItemTree::Plain(e) => seq![Output { expr: x, alias: e.text }],
                ItemTree::Aliased(_, alias) => seq![Output { expr: x, alias }],
                _ => Seq::new(
                    s.len(),
                    |i: int| Output { expr: Term::Col(i as usize), alias: s[i].name },
                ),
            };
            now == outs + added
        },
        projected(Seq::empty(), 0, s, fl) == Ok::<Seq<Output>, Seq<char>>(Seq::empty()),
{
    lemma_items_prefix(v, item, v.len(), s, fl);
    let now = projected(v.push(item), v.len() + 1, s, fl)->Ok_0;
    match item {
        ItemTree::Plain(e) => {
            assert(now =~= outs + seq![Output { expr: x, alias: e.text }]);
        },
        ItemTree::Aliased(_, alias) => {
            assert(now =~= outs + seq![Output { expr: x, alias }]);
        },
        _ => {},
    }
}

proof fn lemma_items_prefix<F: Floats>(
    v: Seq<ItemTree>,
    item: ItemTree,
    n: nat,
    s: Seq<Attr>,
    fl: F,
)
    requires
        n <= v.len(),
    ensures
        projected(v.push(item), n, s, fl) == projected(v, n, s, fl),
    decreases n,
{
    if n > 0 {
        lemma_items_prefix(v, item, (n - 1) as nat, s, fl);
        assert(v.push(item)[n - 1] == v[n - 1]);
    }
}

// --- keys ------------------------------------------------------------------------------------

proof fn lemma_alias_first(v: Seq<Output>, name: Seq<char>, i: nat)
    ensures
        match alias_from(v, name, i) {
            Some(k) => i <= k < v.len() && alike(v[k as int].alias, name) && forall|j: int|
                i <= j < k ==> !alike((#[trigger] v[j]).alias, name),
            None => forall|j: int| i <= j < v.len() ==> !alike((#[trigger] v[j]).alias, name),
        },
    decreases v.len() - i,
{
    if i < v.len() {
        lemma_same_name(v[i as int].alias, name);
        lemma_alias_first(v, name, i + 1);
    }
}

/// A key of `GROUP BY` or `ORDER BY` that is a number means the column of the answer at that
/// place, counted from one. A name that no column of the table has means the first column of
/// the answer under that name.
pub proof fn lemma_refs<F: Floats>(
    n: Seq<char>,
    name: Seq<char>,
    text: Seq<char>,
    s: Seq<Attr>,
    outs: Seq<Output>,
    notes: Seq<Option<Seq<char>>>,
    k: int,
    fl: F,
)
    requires
        in_digits(n),
        outs.len() <= usize::MAX,
        written(n) >= 0,
        column_named(s, name) is None,
        0 <= k < outs.len(),
        alike(outs[k].alias, name),
        forall|j: int| 0 <= j < k ==> !alike((#[trigger] outs[j]).alias, name),
    ensures
        ({
            let r = output_ref(number_tree(n, text), s, outs, notes, fl);
            if 1 <= written(n) <= outs.len() {
                r == Ok::<Term, Seq<char>>(outs[written(n) - 1].expr)
            } else {
                r is Err
            }
        }),
        output_ref(tree(TreeNode::Ident(name), text), s, outs, notes, fl) == Ok::<Term, Seq<char>>(
            outs[k].expr,
        ),
{
    lemma_integer(n);
    lemma_alias_first(outs, name, 0);
}

/// A key that stands in the list of what is selected, whatever the case of its text, means
/// the same there; any other means what it says of the table.
pub proof fn lemma_refs_by_text<F: Floats>(
    e: Tree,
    s: Seq<Attr>,
    outs: Seq<Output>,
    notes: Seq<Option<Seq<char>>>,
    fl: F,
)
    requires
        !(e.node is Value),
        e.node matches TreeNode::Ident(name) ==> column_named(s, name) is Some || forall|j: int|
            0 <= j < outs.len() ==> !alike((#[trigger] outs[j]).alias, name),
    ensures
        (forall|j: int| 0 <= j < notes.len() ==> !is_text(#[trigger] notes[j], e.text))
            ==> output_ref(e, s, outs, notes, fl) == bound(e, s, fl),
        forall|k: int|
            0 <= k < notes.len() && #[trigger] is_text(notes[k], e.text) && (forall|j: int|
                0 <= j < k ==> !is_text(#[trigger] notes[j], e.text)) ==> output_ref(
                e,
                s,
                outs,
                notes,
                fl,
            ) == Ok::<Term, Seq<char>>(outs[k].expr),
{
    if let TreeNode::Ident(name) = e.node {
        lemma_alias_first(outs, name, 0);
    }
    lemma_text_first(notes, e.text, 0);
}

pub open spec fn is_text(note: Option<Seq<char>>, text: Seq<char>) -> bool {
    note matches Some(t) && alike(t, text)
}

proof fn lemma_text_first(v: Seq<Option<Seq<char>>>, text: Seq<char>, i: nat)
    ensures
        match text_from(v, text, i) {
            Some(k) => i <= k < v.len() && is_text(v[k as int], text) && forall|j: int|
                i <= j < k ==> !is_text(#[trigger] v[j], text),
            None => forall|j: int| i <= j < v.len() ==> !is_text(#[trigger] v[j], text),
        },
    decreases v.len() - i,
{
    if i < v.len() {
        if let Some(t) = v[i as int] {
            lemma_same_name(t, text);
        }
        lemma_text_first(v, text, i + 1);
    }
}

/// Each key of `ORDER BY` keeps its place, and goes down only where it says so.
pub proof fn lemma_keys<F: Floats>(
    v: Seq<SortTree>,
    n: nat,
    s: Seq<Attr>,
    outs: Seq<Output>,
    notes: Seq<Option<Seq<char>>>,
    fl: F,
)
    requires
        n <= v.len(),
    ensures
        output_keys(v, n, s, outs, notes, fl) matches Ok(ks) ==> ks.len() == n && forall|i: int|
            0 <= i < n ==> output_ref(v[i].expr, s, outs, notes, fl) == Ok::<Term, Seq<char>>(
                (#[trigger] ks[i]).expr,
            ) && ks[i].asc == (v[i].asc != Some(false)),
        output_keys(v, n, s, outs, notes, fl) is Ok <==> forall|i: int|
            0 <= i < n ==> output_ref((#[trigger] v[i]).expr, s, outs, notes, fl) is Ok,
    decreases n,
{
    if n > 0 {
        lemma_keys(v, (n - 1) as nat, s, outs, notes, fl);
        if output_keys(v, n, s, outs, notes, fl) is Err {
            if output_keys(v, (n - 1) as nat, s, outs, notes, fl) is Ok {
                assert(output_ref(v[n - 1].expr, s, outs, notes, fl) is Err);
            }
        }
    }
}

/// Each key of `GROUP BY` keeps its place.
pub proof fn lemma_group_keys<F: Floats>(
    v: Seq<Tree>,
    n: nat,
    s: Seq<Attr>,
    outs: Seq<Output>,
    notes: Seq<Option<Seq<char>>>,
    fl: F,
)
    requires
        n <= v.len(),
    ensures
        output_refs(v, n, s, outs, notes, fl) matches Ok(ks) ==> ks.len() == n && forall|i: int|
            0 <= i < n ==> output_ref(v[i], s, outs, notes, fl) == Ok::<Term, Seq<char>>(
                #[trigger] ks[i],
            ),
    decreases n,
{
    if n > 0 {
        lemma_group_keys(v, (n - 1) as nat, s, outs, notes, fl);
    }
}

// --- whole questions -------------------------------------------------------------------------

/// A question asks the table it names for the rows of its condition, with the groups,
/// columns, order and limits that it names.
pub proof fn lemma_planned<C: Catalog, F: Floats>(
    q: AskTree,
    b: BodyTree,
    name: Seq<char>,
    s: Seq<Attr>,
    cat: C,
    fl: F,
)
    requires
        q.body == Some(b),
        b.from.len() == 1,
        b.from[0].name matches Some(n) && n.parts.len() > 0 && n.parts.last() == Some(name),
        cat.schema(name) == Some(s),
        planned_query(q, cat, fl) is Ok,
    ensures
        ({
            let r = planned_query(q, cat, fl)->Ok_0;
            let notes = item_texts(b.items, b.items.len(), s.len());
            &&& !q.with && !b.distinct && !b.from[0].joined
            &&& r.table == Some(name)
            &&& match b.filter {
                Some(t) => r.filter matches Some(x) && means(t, s, fl, x),
                None => r.filter is None,
            }
            &&& match b.having {
                Some(t) => r.having matches Some(x) && means(t, s, fl, x),
                None => r.having is None,
            }
            &&& projected(b.items, b.items.len(), s, fl) == Ok::<Seq<Output>, Seq<char>>(
                r.projection,
            )
            &&& b.group_by matches Some(v) && output_refs(v, v.len(), s, r.projection, notes, fl)
                == Ok::<Seq<Term>, Seq<char>>(r.group_by)
            &&& match q.order_by {
                OrderTree::Keys(v) => output_keys(v, v.len(), s, r.projection, notes, fl) == Ok::<
                    Seq<Key>,
                    Seq<char>,
                >(r.order_by),
                OrderTree::Missing => r.order_by.len() == 0,
                OrderTree::All => false,
            }
            &&& limits(q.limit, fl) == Ok::<(Option<usize>, usize), Seq<char>>((r.limit, r.offset))
        }),
{
}

// --- other statements ------------------------------------------------------------------------

/// A literal of `INSERT` for a column of a type: an integer for a double becomes one, a text
/// or a list for a vector has to have its length, any other is what it says.
pub proof fn lemma_typed_literal<F: Floats>(e: Tree, c: Cell, ty: DataType, fl: F)
    requires
        literal_cell(e, None, fl) == Ok::<Cell, Seq<char>>(c),
        !(ty is Vector),
    ensures
        literal_cell(e, Some(ty), fl) == Ok::<Cell, Seq<char>>(becomes(c, ty, fl)),
{
}

proof fn lemma_typed_row<F: Floats>(row: Seq<Tree>, types: Seq<DataType>, n: nat, fl: F)
    requires
        n <= row.len(),
    ensures
        typed_row(row, types, n, fl) matches Ok(v) ==> v.len() == n && forall|i: int|
            0 <= i < n ==> literal_cell(row[i], Some(types[i]), fl) == Ok::<Cell, Seq<char>>(
                #[trigger] v[i],
            ),
    decreases n,
{
    if n > 0 {
        lemma_typed_row(row, types, (n - 1) as nat, fl);
    }
}

/// Whether values are those that literals say, each for the type in its place.
pub open spec fn says<F: Floats>(
    row: Seq<Tree>,
    types: Seq<DataType>,
    values: Seq<Cell>,
    fl: F,
) -> bool {
    &&& row.len() == types.len()
    &&& values.len() == types.len()
    &&& forall|k: int|
        0 <= k < types.len() ==> literal_cell(row[k], Some(types[k]), fl) == Ok::<Cell, Seq<char>>(
            #[trigger] values[k],
        )
}

/// The rows of an `INSERT` keep their order and have a value for each column they are for,
/// each value in its place.
pub proof fn lemma_typed_rows<F: Floats>(
    rows: Seq<Seq<Tree>>,
    types: Seq<DataType>,
    n: nat,
    fl: F,
)
    requires
        n <= rows.len(),
    ensures
        typed_rows(rows, types, n, fl) matches Ok(v) ==> v.len() == n && forall|i: int|
            0 <= i < n ==> says(rows[i], types, #[trigger] v[i], fl),
    decreases n,
{
    if n > 0 {
        lemma_typed_rows(rows, types, (n - 1) as nat, fl);
        lemma_typed_row(rows[n - 1], types, rows[n - 1].len(), fl);
    }
}

/// The types of the columns that an `INSERT` names, in the order it names them.
pub proof fn lemma_named_types(table: Seq<char>, cols: Seq<Seq<char>>, n: nat, s: Seq<Attr>)
    requires
        n <= cols.len(),
    ensures
        named_types(table, cols, n, s) matches Ok(v) ==> v.len() == n && forall|i: int|
            0 <= i < n ==> (column_named(s, cols[i]) matches Some(c) && s[c as int].ty
                == #[trigger] v[i]),
    decreases n,
{
    if n > 0 {
        lemma_named_types(table, cols, (n - 1) as nat, s);
    }
}

/// A table is declared with its columns in their order, each with its name and type.
pub proof fn lemma_declared(v: Seq<ColumnTree>, n: nat)
    requires
        n <= v.len(),
    ensures
        declared(v, n) matches Ok(s) ==> s.len() == n && forall|i: int|
            0 <= i < n ==> (#[trigger] s[i]).name == v[i].name && column_type(v[i].ty) == Ok::<
                DataType,
                Seq<char>,
            >(s[i].ty),
    decreases n,
{
    if n > 0 {
        lemma_declared(v, (n - 1) as nat);
    }
}

/// What is to be done goes to the table that is named, with the conditions that are stated.
pub proof fn lemma_statements<C: Catalog, F: Floats>(
    name: NameTree,
    n: Seq<char>,
    columns: Seq<ColumnTree>,
    schema: Seq<Attr>,
    flag: bool,
    cat: C,
    fl: F,
)
    requires
        name.parts.len() > 0,
        name.parts.last() == Some(n),
        declared(columns, columns.len()) == Ok::<Seq<Attr>, Seq<char>>(schema),
    ensures
        ({
            let does = |p: ParsedTree, c: Command|
                planned_statement(p, cat, fl) == Ok::<Command, Seq<char>>(c);
            &&& does(
                ParsedTree::CreateTable {
                    name,
                    columns,
                    if_not_exists: flag,
                    from_query: false,
                },
                Command::CreateTable { name: n, schema, if_not_exists: flag },
            )
            &&& does(
                ParsedTree::Drop { kind: "TABLE"@, if_exists: flag, names: seq![name] },
                Command::DropTable { name: n, if_exists: flag },
            )
            &&& does(ParsedTree::ShowTables, Command::ShowTables)
            &&& does(ParsedTree::Describe(name), Command::Describe(n))
        }),
{
}

/// An `INSERT` puts its rows, as they stand, into the table that it names; without names of
/// columns the values are for all columns in their order.
pub proof fn lemma_insert_rows<C: Catalog, F: Floats>(
    name: NameTree,
    n: Seq<char>,
    text: Seq<char>,
    v: Seq<Seq<Tree>>,
    s: Seq<Attr>,
    rows: Seq<Seq<Cell>>,
    cat: C,
    fl: F,
)
    requires
        name.parts.len() > 0,
        name.parts.last() == Some(n),
        cat.schema(n) == Some(s),
        typed_rows(v, Seq::new(s.len(), |i: int| s[i].ty), v.len(), fl) == Ok::<
            Seq<Seq<Cell>>,
            Seq<char>,
        >(rows),
    ensures
        planned_statement(
            ParsedTree::Insert {
                table: Some(name),
                text,
                columns: Seq::empty(),
                rows: RowsTree::Values(v),
            },
            cat,
            fl,
        ) == Ok::<Command, Seq<char>>(Command::Insert { table: n, columns: None, rows }),
{
    assert(schema_types(s) =~= Seq::new(s.len(), |i: int| s[i].ty));
}

} // verus!
