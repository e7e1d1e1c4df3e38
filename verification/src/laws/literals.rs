//! What vectors are written as, and which calls take them.
use crate::ast::{ArgTree, ArgsTree, CallTree, NameTree, Tree, TreeNode, TypeTree};
use crate::column::{Cell, DataType};
use crate::exec::scalar::{rendered, single_texts};
use crate::float::Floats;
use crate::laws::changes::alike;
use crate::laws::syntax::{call_tree, means, tree};
use crate::laws::texts::{
    in_digits, lemma_integer, lemma_join_splits, lemma_same_name, lemma_strip, lemma_trim_gives,
    written,
};
use crate::plan::{metric_named, AggFunc, Metric, Term};
use crate::sql::bind::{
    aggregate_named, bare_bound, bound, call_bound, has_wildcard, listed_bound, plain_count,
    plain_place,
};
use crate::sql::literal::{
    column_type, literal_cell, singles_in, vector_cell, vector_in, vector_items,
};
use crate::table::Attr;
use crate::text::{ascii_lowered, is_space, join};
use vstd::prelude::*;

verus! {

/// Whether a text can stand for an element of a vector: it has neither a comma nor a bracket
/// nor white space, and is not empty.
pub open spec fn is_element(s: Seq<char>) -> bool {
    s.len() > 0 && forall|i: int|
        0 <= i < s.len() ==> (#[trigger] s[i]) != ',' && s[i] != '[' && s[i] != ']' && !is_space(
            s[i],
        )
}

/// The text of a vector with the given elements.
pub open spec fn vector_text(parts: Seq<Seq<char>>) -> Seq<char> {
    seq!['['] + join(parts, seq![',']) + seq![']']
}

proof fn lemma_joined(parts: Seq<Seq<char>>, i: int)
    requires
        parts.len() > 0,
        forall|k: int| 0 <= k < parts.len() ==> is_element(#[trigger] parts[k]),
    ensures
        join(parts, seq![',']).len() > 0,
        0 <= i < join(parts, seq![',']).len() ==> {
            let c = join(parts, seq![','])[i];
            c != '[' && c != ']' && !is_space(c)
        },
    decreases parts.len(),
{
    let all = join(parts, seq![',']);
    let last = parts[parts.len() - 1];
    assert(is_element(last));
    if parts.len() == 1 {
        assert(all == last);
    } else {
        let before = parts.drop_last();
        assert forall|k: int| 0 <= k < before.len() implies is_element(#[trigger] before[k]) by {
            assert(before[k] == parts[k]);
        }
        lemma_joined(before, i);
        let n = join(before, seq![',']).len();
        assert(all == join(before, seq![',']) + seq![','] + last);
        if i > n && i < all.len() {
            assert(all[i] == last[i - n - 1]);
        }
    }
}

proof fn lemma_singles<F: Floats>(parts: Seq<Seq<char>>, n: nat, v: Seq<u32>, fl: F)
    requires
        n <= parts.len(),
        v.len() == parts.len(),
        forall|k: int|
            0 <= k < parts.len() ==> is_element(#[trigger] parts[k]) && fl.single_in(parts[k])
                == Some(v[k]),
    ensures
        singles_in(parts, n, fl) == Ok::<Seq<u32>, Seq<char>>(v.take(n as int)),
    decreases n,
{
    if n == 0 {
        assert(v.take(0) =~= Seq::empty());
    } else {
        lemma_singles(parts, (n - 1) as nat, v, fl);
        let p = parts[n - 1];
        assert(is_element(p));
        let none = Seq::<char>::empty();
        lemma_trim_gives(none, p, none);
        assert(none + p + none =~= p);
        assert(v.take(n - 1).push(v[n - 1]) =~= v.take(n as int));
    }
}

/// A text in square brackets is the vector of the numbers between its commas.
pub proof fn lemma_vector_text<F: Floats>(
    parts: Seq<Seq<char>>,
    v: Seq<u32>,
    before: Seq<char>,
    after: Seq<char>,
    fl: F,
)
    requires
        parts.len() > 0,
        v.len() == parts.len(),
        forall|k: int|
            0 <= k < parts.len() ==> is_element(#[trigger] parts[k]) && fl.single_in(parts[k])
                == Some(v[k]),
        forall|i: int| 0 <= i < before.len() ==> is_space(#[trigger] before[i]),
        forall|i: int| 0 <= i < after.len() ==> is_space(#[trigger] after[i]),
    ensures
        vector_in(before + vector_text(parts) + after, fl) == Ok::<Seq<u32>, Seq<char>>(v),
{
    let m = join(parts, seq![',']);
    let s = vector_text(parts);
    assert forall|k: int| 0 <= k < parts.len() implies is_element(#[trigger] parts[k]) by {}
    lemma_joined(parts, 0);
    lemma_joined(parts, m.len() - 1);
    assert(s[0] == '[' && s.last() == ']');
    lemma_trim_gives(before, s, after);
    assert(Seq::new(1, |i: int| '[') =~= seq!['[']);
    assert(Seq::new(1, |i: int| ']') =~= seq![']']);
    lemma_strip(1, '[', m, 1, ']');
    let none = Seq::<char>::empty();
    lemma_trim_gives(none, m, none);
    assert(none + m + none =~= m);
    assert forall|k: int| 0 <= k < parts.len() implies !(#[trigger] parts[k]).contains(',') by {
        assert(is_element(parts[k]));
        if parts[k].contains(',') {
            let i = choose|i: int| 0 <= i < parts[k].len() && parts[k][i] == ',';
            assert(parts[k][i] != ',');
        }
    }
    lemma_join_splits(parts, ',');
    lemma_singles(parts, parts.len(), v, fl);
    assert(v.take(parts.len() as int) =~= v);
}

/// A vector that is shown is read back as it was, where its elements are.
pub proof fn lemma_vector_back<F: Floats>(v: Seq<u32>, fl: F)
    requires
        v.len() > 0,
        forall|k: int|
            0 <= k < v.len() ==> is_element(fl.single_text(#[trigger] v[k])) && fl.single_in(
                fl.single_text(v[k]),
            ) == Some(v[k]),
    ensures
        rendered(Cell::Vector(v), fl) == vector_text(single_texts(v, fl)),
        vector_in(rendered(Cell::Vector(v), fl), fl) == Ok::<Seq<u32>, Seq<char>>(v),
{
    let parts = single_texts(v, fl);
    reveal_strlit("[");
    reveal_strlit(",");
    reveal_strlit("]");
    assert("["@ =~= seq!['[']);
    assert(","@ =~= seq![',']);
    assert("]"@ =~= seq![']']);
    assert forall|k: int| 0 <= k < parts.len() implies is_element(#[trigger] parts[k])
        && fl.single_in(parts[k]) == Some(v[k]) by {
        assert(parts[k] == fl.single_text(v[k]));
    }
    let none = Seq::<char>::empty();
    lemma_vector_text(parts, v, none, none, fl);
    assert(none + vector_text(parts) + none =~= vector_text(parts));
}

/// A list of literals is the vector of their numbers, in their order.
pub proof fn lemma_vector_items<F: Floats>(
    items: Seq<Tree>,
    n: nat,
    v: Seq<u64>,
    text: Seq<char>,
    fl: F,
)
    requires
        n <= items.len(),
        v.len() == items.len(),
        forall|k: int|
            0 <= k < items.len() ==> (literal_cell(#[trigger] items[k], None, fl) == Ok::<
                Cell,
                Seq<char>,
            >(Cell::F64(v[k]))),
    ensures
        vector_items(items, n, fl) == Ok::<Seq<u32>, Seq<char>>(
            Seq::new(n, |k: int| fl.narrowed(v[k])),
        ),
        n == items.len() ==> vector_cell(tree(TreeNode::Array(items), text), fl) == Ok::<
            Seq<u32>,
            Seq<char>,
        >(Seq::new(n, |k: int| fl.narrowed(v[k]))),
    decreases n,
{
    let out = Seq::new(n, |k: int| fl.narrowed(v[k]));
    if n == 0 {
        assert(out =~= Seq::empty());
    } else {
        lemma_vector_items(items, (n - 1) as nat, v, text, fl);
        assert(literal_cell(items[n - 1], None, fl) == Ok::<Cell, Seq<char>>(Cell::F64(v[n - 1])));
        assert(Seq::new((n - 1) as nat, |k: int| fl.narrowed(v[k])).push(fl.narrowed(v[n - 1]))
            =~= out);
    }
}

/// A literal for a vector column is the vector it writes, if that has the length of the
/// column's.
pub proof fn lemma_vector_literal<F: Floats>(e: Tree, v: Seq<u32>, dim: usize, fl: F)
    requires
        vector_cell(e, fl) == Ok::<Seq<u32>, Seq<char>>(v),
    ensures
        v.len() == dim ==> literal_cell(e, Some(DataType::Vector(dim)), fl) == Ok::<
            Cell,
            Seq<char>,
        >(Cell::Vector(v)),
        v.len() != dim ==> literal_cell(e, Some(DataType::Vector(dim)), fl) is Err,
{
}

/// `VECTOR(n)` is the type of vectors with `n` elements.
pub proof fn lemma_vector_type(name: Seq<char>, n: Seq<char>, text: Seq<char>)
    requires
        alike(name, "vector"@),
        in_digits(n),
        0 <= written(n) <= usize::MAX,
    ensures
        column_type(
            TypeTree {
                text,
                custom: Some((NameTree { parts: seq![Some(name)], text: name }, seq![n])),
            },
        ) == Ok::<DataType, Seq<char>>(DataType::Vector(written(n) as usize)),
{
    lemma_same_name(name, "vector"@);
    lemma_integer(n);
    let none = Seq::<char>::empty();
    assert('0' as int <= n[0] as int <= '9' as int);
    assert('0' as int <= n[n.len() - 1] as int <= '9' as int);
    lemma_trim_gives(none, n, none);
    assert(none + n + none =~= n);
    assert(seq![Some(name)].last() == Some(name));
    assert(seq![n][0] == n);
}

/// A distance is that of a vector column from a vector of the same length; the column comes
/// first.
pub proof fn lemma_distance_call<F: Floats>(
    name: Seq<char>,
    metric: Metric,
    a: Tree,
    b: Tree,
    col: usize,
    q: Seq<u32>,
    text: Seq<char>,
    s: Seq<Attr>,
    fl: F,
)
    requires
        aggregate_named(ascii_lowered(name)) is None,
        metric_named(ascii_lowered(name)) == Some(metric),
        means(a, s, fl, Term::Col(col)),
        col < s.len(),
        vector_cell(b, fl) == Ok::<Seq<u32>, Seq<char>>(q),
    ensures
        ({
            let t = call_tree(name, false, seq![a, b], text);
            if s[col as int].ty matches DataType::Vector(dim) && dim == q.len() {
                means(t, s, fl, Term::Distance { metric, col, query: q })
            } else {
                bound(t, s, fl) is Err
            }
        }),
{
    let args = seq![a, b];
    let v = Seq::new(args.len(), |k: int| ArgTree::Plain(args[k]));
    assert(v[0] == ArgTree::Plain(a));
    assert(v[1] == ArgTree::Plain(b));
    assert(plain_count(v, 2) == 0);
    assert(plain_count(v, 1) == 1);
    assert(plain_count(v, 0) == 2);
    assert(plain_place(v, 0, 0) == 0);
    assert(plain_place(v, 0, 1) == 1);
    assert(plain_place(v, 1, 0) == 1);
    let t = call_tree(name, false, args, text);
    let c = t.node->Call_0;
    assert(c.name.parts.last() == Some(name));
    assert(call_bound(c, s, fl) == listed_bound(name, false, v, s, fl));
}

pub open spec fn call_with(name: Seq<char>, args: ArgsTree, text: Seq<char>) -> Tree {
    tree(
        TreeNode::Call(
            CallTree {
                name: NameTree { parts: seq![Some(name)], text: name },
                windowed: false,
                args,
            },
        ),
        text,
    )
}

/// `count(*)` and `count()` count rows; no other aggregate can do without an argument.
pub proof fn lemma_count_rows<F: Floats>(
    name: Seq<char>,
    func: AggFunc,
    distinct: bool,
    text: Seq<char>,
    s: Seq<Attr>,
    fl: F,
)
    requires
        aggregate_named(ascii_lowered(name)) == Some(func),
    ensures
        ({
            let star = ArgsTree::List { distinct, args: seq![ArgTree::Wildcard] };
            let none = ArgsTree::List { distinct, args: Seq::empty() };
            let rows = Term::Agg { func: AggFunc::Count, arg: None, distinct: false };
            if func == AggFunc::Count {
                means(call_with(name, star, text), s, fl, rows) && means(
                    call_with(name, none, text),
                    s,
                    fl,
                    rows,
                ) && means(call_with(name, ArgsTree::Missing, text), s, fl, rows)
            } else {
                bound(call_with(name, star, text), s, fl) is Err && bound(
                    call_with(name, none, text),
                    s,
                    fl,
                ) is Err && bound(call_with(name, ArgsTree::Missing, text), s, fl) is Err
            }
        }),
{
    let star = seq![ArgTree::Wildcard];
    let none = Seq::<ArgTree>::empty();
    assert(star[0] is Wildcard);
    assert(has_wildcard(star));
    assert(plain_count(none, 0) == 0);
    assert(seq![Some(name)].last() == Some(name));
    let c = call_with(name, ArgsTree::List { distinct, args: star }, text).node->Call_0;
    assert(call_bound(c, s, fl) == listed_bound(name, distinct, star, s, fl));
    let d = call_with(name, ArgsTree::List { distinct, args: none }, text).node->Call_0;
    assert(call_bound(d, s, fl) == listed_bound(name, distinct, none, s, fl));
    let e = call_with(name, ArgsTree::Missing, text).node->Call_0;
    assert(call_bound(e, s, fl) == bare_bound(name));
}

} // verus!
