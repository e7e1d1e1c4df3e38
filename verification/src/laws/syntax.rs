//! What the expressions of a statement mean.
use crate::ast::{
    ArgTree, ArgsTree, CallTree, LiteralTree, NameTree, Tree, TreeNode, WhenTree,
};
use crate::column::Cell;
use crate::float::Floats;
use crate::laws::changes::{alike, is_schema, lemma_column_named};
use crate::laws::conditions::both;
use crate::laws::texts::{in_digits, lemma_integer, lemma_same_name, written};
use crate::laws::values::{call, minus, nearest, opposite};
use crate::plan::{
    function_named, metric_named, AggFunc, BinOp, ScalarFunc, Term, UnOp,
};
use crate::sql::bind::{
    aggregate_named, bound, bound_args, branch, call_bound, case_from, has_wildcard,
    listed_bound, operator_named, pair, plain_count, plain_place,
};
use crate::sql::literal::{literal_cell, literal_cells};
use crate::table::Attr;
use crate::text::ascii_lowered;
use vstd::prelude::*;

verus! {

/// Whether a tree means an expression over the columns of a table.
pub open spec fn means<F: Floats>(t: Tree, s: Seq<Attr>, fl: F, x: Term) -> bool {
    bound(t, s, fl) == Ok::<Term, Seq<char>>(x)
}

pub open spec fn tree(node: TreeNode, text: Seq<char>) -> Tree {
    Tree { text, node }
}

pub open spec fn joined_by(op: Seq<char>, l: Tree, r: Tree, text: Seq<char>) -> Tree {
    tree(TreeNode::Binary { op, l: Box::new(l), r: Box::new(r) }, text)
}

/// A name means the column of that name, whatever the case; behind a table's name too.
pub proof fn lemma_named<F: Floats>(
    name: Seq<char>,
    before: Seq<Seq<char>>,
    text: Seq<char>,
    s: Seq<Attr>,
    c: usize,
    fl: F,
)
    requires
        is_schema(s),
        s.len() <= usize::MAX,
        c < s.len(),
    ensures
        means(tree(TreeNode::Ident(name), text), s, fl, Term::Col(c)) <==> alike(
            s[c as int].name,
            name,
        ),
        means(tree(TreeNode::Compound(before.push(name)), text), s, fl, Term::Col(c)) <==> alike(
            s[c as int].name,
            name,
        ),
{
    lemma_column_named(s, name, c);
    assert(before.push(name).last() == name);
}

/// An operator joins what its operands mean, the left one on the left.
pub proof fn lemma_operators<F: Floats>(
    l: Tree,
    r: Tree,
    text: Seq<char>,
    s: Seq<Attr>,
    x: Term,
    y: Term,
    fl: F,
)
    requires
        means(l, s, fl, x),
        means(r, s, fl, y),
    ensures
        means(joined_by("+"@, l, r, text), s, fl, both(BinOp::Add, x, y)),
        means(joined_by("-"@, l, r, text), s, fl, both(BinOp::Sub, x, y)),
        means(joined_by("*"@, l, r, text), s, fl, both(BinOp::Mul, x, y)),
        means(joined_by("/"@, l, r, text), s, fl, both(BinOp::Div, x, y)),
        means(joined_by("%"@, l, r, text), s, fl, both(BinOp::Mod, x, y)),
        means(joined_by("="@, l, r, text), s, fl, both(BinOp::Eq, x, y)),
        means(joined_by("<>"@, l, r, text), s, fl, both(BinOp::NotEq, x, y)),
        means(joined_by("<"@, l, r, text), s, fl, both(BinOp::Lt, x, y)),
        means(joined_by("<="@, l, r, text), s, fl, both(BinOp::LtEq, x, y)),
        means(joined_by(">"@, l, r, text), s, fl, both(BinOp::Gt, x, y)),
        means(joined_by(">="@, l, r, text), s, fl, both(BinOp::GtEq, x, y)),
        means(joined_by("AND"@, l, r, text), s, fl, both(BinOp::And, x, y)),
        means(joined_by("OR"@, l, r, text), s, fl, both(BinOp::Or, x, y)),
{
    lemma_operator_words();
}

proof fn lemma_operator_words()
    ensures
        operator_named("+"@) == Some(BinOp::Add),
        operator_named("-"@) == Some(BinOp::Sub),
        operator_named("*"@) == Some(BinOp::Mul),
        operator_named("/"@) == Some(BinOp::Div),
        operator_named("%"@) == Some(BinOp::Mod),
        operator_named("="@) == Some(BinOp::Eq),
        operator_named("<>"@) == Some(BinOp::NotEq),
        operator_named("<"@) == Some(BinOp::Lt),
        operator_named("<="@) == Some(BinOp::LtEq),
        operator_named(">"@) == Some(BinOp::Gt),
        operator_named(">="@) == Some(BinOp::GtEq),
        operator_named("AND"@) == Some(BinOp::And),
        operator_named("OR"@) == Some(BinOp::Or),
{
    reveal_strlit("+");
    reveal_strlit("-");
    reveal_strlit("*");
    reveal_strlit("/");
    reveal_strlit("%");
    reveal_strlit("=");
    reveal_strlit("<>");
    reveal_strlit("<");
    reveal_strlit("<=");
    reveal_strlit(">");
    reveal_strlit(">=");
    reveal_strlit("AND");
    reveal_strlit("OR");
    assert("+"@[0] == '+' && "-"@[0] == '-' && "*"@[0] == '*' && "/"@[0] == '/' && "%"@[0] == '%'
        && "="@[0] == '=' && "<"@[0] == '<' && ">"@[0] == '>');
    assert("<>"@[0] == '<' && "<>"@[1] == '>' && "<="@[0] == '<' && "<="@[1] == '=');
    assert(">="@[0] == '>' && ">="@[1] == '=' && "OR"@[0] == 'O');
    assert("AND"@.len() == 3 && "OR"@.len() == 2 && "<>"@.len() == 2 && "<="@.len() == 2);
    assert("<"@.len() == 1 && ">"@.len() == 1 && "="@.len() == 1 && ">="@.len() == 2);
    assert("+"@.len() == 1 && "-"@.len() == 1 && "*"@.len() == 1 && "/"@.len() == 1);
    assert("%"@.len() == 1);
}

/// `NOT` denies, a minus takes the opposite, a plus and brackets change nothing.
pub proof fn lemma_signs<F: Floats>(e: Tree, text: Seq<char>, s: Seq<Attr>, x: Term, fl: F)
    requires
        means(e, s, fl, x),
    ensures
        means(
            tree(TreeNode::Unary { op: "NOT"@, e: Box::new(e) }, text),
            s,
            fl,
            Term::Unary { op: UnOp::Not, e: Box::new(x) },
        ),
        means(tree(TreeNode::Unary { op: "+"@, e: Box::new(e) }, text), s, fl, x),
        means(tree(TreeNode::Nested(Box::new(e)), text), s, fl, x),
        !(x matches Term::Lit(Cell::I64(_))) && !(x matches Term::Lit(Cell::F64(_))) ==> means(
            tree(TreeNode::Unary { op: "-"@, e: Box::new(e) }, text),
            s,
            fl,
            minus(x),
        ),
        x matches Term::Lit(Cell::I64(n)) ==> (bound(
            tree(TreeNode::Unary { op: "-"@, e: Box::new(e) }, text),
            s,
            fl,
        ) matches Ok(y) && y matches Term::Lit(Cell::I64(m)) && nearest(-n, m)),
        x matches Term::Lit(Cell::F64(n)) ==> (bound(
            tree(TreeNode::Unary { op: "-"@, e: Box::new(e) }, text),
            s,
            fl,
        ) matches Ok(y) && y matches Term::Lit(Cell::F64(m)) && opposite(n, m)),
{
    reveal_strlit("NOT");
    reveal_strlit("+");
    reveal_strlit("-");
    assert("+"@[0] == '+' && "-"@[0] == '-' && "NOT"@.len() == 3);
}

/// Digits are the integer they write, or a double where it is too large for one; quoted texts
/// and truth values are themselves.
pub proof fn lemma_literals<F: Floats>(
    n: Seq<char>,
    w: Seq<char>,
    b: bool,
    text: Seq<char>,
    s: Seq<Attr>,
    fl: F,
)
    requires
        in_digits(n),
    ensures
        written(n) <= i64::MAX ==> means(
            tree(TreeNode::Value(LiteralTree::Number(n)), text),
            s,
            fl,
            Term::Lit(Cell::I64(written(n) as i64)),
        ),
        written(n) > i64::MAX ==> (fl.double_in(n) matches Some(x) ==> means(
            tree(TreeNode::Value(LiteralTree::Number(n)), text),
            s,
            fl,
            Term::Lit(Cell::F64(x)),
        )),
        means(
            tree(TreeNode::Value(LiteralTree::Text(w)), text),
            s,
            fl,
            Term::Lit(Cell::Str(w)),
        ),
        means(
            tree(TreeNode::Value(LiteralTree::Bool(b)), text),
            s,
            fl,
            Term::Lit(Cell::Bool(b)),
        ),
{
    lemma_integer(n);
    assert(written(n) >= 0) by {
        lemma_written_natural(n);
    }
}

proof fn lemma_written_natural(s: Seq<char>)
    requires
        forall|i: int| 0 <= i < s.len() ==> '0' as int <= #[trigger] s[i] as int,
    ensures
        written(s) >= 0,
    decreases s.len(),
{
    if s.len() > 0 {
        let t = s.drop_last();
        assert forall|i: int| 0 <= i < t.len() implies '0' as int <= #[trigger] t[i] as int by {
            assert(t[i] == s[i]);
        }
        lemma_written_natural(t);
        assert('0' as int <= s[s.len() - 1] as int);
    }
}

/// A number with a fraction is the double that is read of it.
pub proof fn lemma_fractions<F: Floats>(n: Seq<char>, text: Seq<char>, s: Seq<Attr>, fl: F)
    requires
        n.len() > 0,
        '0' as int <= n[0] as int <= '9' as int,
        !in_digits(n),
    ensures
        fl.double_in(n) matches Some(x) ==> means(
            tree(TreeNode::Value(LiteralTree::Number(n)), text),
            s,
            fl,
            Term::Lit(Cell::F64(x)),
        ),
        fl.double_in(n) is None ==> bound(
            tree(TreeNode::Value(LiteralTree::Number(n)), text),
            s,
            fl,
        ) is Err,
{
    lemma_integer(n);
}

/// `BETWEEN` has the lower bound first; `IN` has the values of its list in their order; `LIKE`
/// has its pattern; each says whether it is denied.
pub proof fn lemma_ranges<F: Floats>(
    e: Tree,
    low: Tree,
    high: Tree,
    list: Seq<Tree>,
    values: Seq<Cell>,
    pattern: Seq<char>,
    ptext: Seq<char>,
    negated: bool,
    insensitive: bool,
    text: Seq<char>,
    s: Seq<Attr>,
    x: Term,
    a: Term,
    b: Term,
    fl: F,
)
    requires
        means(e, s, fl, x),
        means(low, s, fl, a),
        means(high, s, fl, b),
        values.len() == list.len(),
        forall|i: int|
            0 <= i < list.len() ==> literal_cell(#[trigger] list[i], None, fl) == Ok::<
                Cell,
                Seq<char>,
            >(values[i]),
    ensures
        means(
            tree(
                TreeNode::Between {
                    e: Box::new(e),
                    low: Box::new(low),
                    high: Box::new(high),
                    negated,
                },
                text,
            ),
            s,
            fl,
            Term::Between { e: Box::new(x), low: Box::new(a), high: Box::new(b), negated },
        ),
        means(
            tree(TreeNode::InList { e: Box::new(e), list, negated }, text),
            s,
            fl,
            Term::InList { e: Box::new(x), list: values, negated },
        ),
        means(
            tree(
                TreeNode::Like {
                    e: Box::new(e),
                    pattern: Box::new(tree(TreeNode::Value(LiteralTree::Text(pattern)), ptext)),
                    negated,
                    insensitive,
                },
                text,
            ),
            s,
            fl,
            Term::Like { e: Box::new(x), pattern, negated, case_insensitive: insensitive },
        ),
{
    lemma_all_literals(list, list.len(), values, fl);
    assert(values.take(list.len() as int) =~= values);
}

proof fn lemma_all_literals<F: Floats>(list: Seq<Tree>, n: nat, values: Seq<Cell>, fl: F)
    requires
        n <= list.len(),
        values.len() == list.len(),
        forall|i: int|
            0 <= i < list.len() ==> literal_cell(#[trigger] list[i], None, fl) == Ok::<
                Cell,
                Seq<char>,
            >(values[i]),
    ensures
        literal_cells(list, n, fl) == Ok::<Seq<Cell>, Seq<char>>(values.take(n as int)),
    decreases n,
{
    if n == 0 {
        assert(values.take(0) =~= Seq::empty());
    } else {
        lemma_all_literals(list, (n - 1) as nat, values, fl);
        assert(literal_cell(list[n - 1], None, fl) is Ok);
        assert(values.take(n - 1).push(values[n - 1]) =~= values.take(n as int));
    }
}

/// `CAST` to a type, `EXTRACT` of a part of a moment, `CEIL` and `FLOOR`, and `SUBSTRING` from
/// a place on, or from the start.
pub proof fn lemma_special_forms<F: Floats>(
    e: Tree,
    from: Tree,
    count: Tree,
    text: Seq<char>,
    s: Seq<Attr>,
    x: Term,
    y: Term,
    z: Term,
    fl: F,
)
    requires
        means(e, s, fl, x),
        means(from, s, fl, y),
        means(count, s, fl, z),
    ensures
        ({
            let part = |p: Seq<char>| tree(TreeNode::Extract { part: p, e: Box::new(e) }, text);
            let piece = |f: Option<Box<Tree>>, c: Option<Box<Tree>>|
                tree(TreeNode::Substring { e: Box::new(e), from: f, count: c }, text);
            let whole = |up: bool|
                tree(TreeNode::Rounded { up, plain: true, e: Box::new(e) }, text);
            &&& means(part("HOUR"@), s, fl, call(ScalarFunc::ExtractHour, seq![x]))
            &&& means(part("MINUTE"@), s, fl, call(ScalarFunc::ExtractMinute, seq![x]))
            &&& means(part("DAY"@), s, fl, call(ScalarFunc::ExtractDay, seq![x]))
            &&& means(part("MONTH"@), s, fl, call(ScalarFunc::ExtractMonth, seq![x]))
            &&& means(part("YEAR"@), s, fl, call(ScalarFunc::ExtractYear, seq![x]))
            &&& means(whole(true), s, fl, call(ScalarFunc::Ceil, seq![x]))
            &&& means(whole(false), s, fl, call(ScalarFunc::Floor, seq![x]))
            &&& means(
                piece(Some(Box::new(from)), Some(Box::new(count))),
                s,
                fl,
                call(ScalarFunc::Substring, seq![x, y, z]),
            )
            &&& means(
                piece(Some(Box::new(from)), None),
                s,
                fl,
                call(ScalarFunc::Substring, seq![x, y]),
            )
            &&& means(
                piece(None, Some(Box::new(count))),
                s,
                fl,
                call(ScalarFunc::Substring, seq![x, Term::Lit(Cell::I64(1)), z]),
            )
        }),
{
    reveal_strlit("HOUR");
    reveal_strlit("MINUTE");
    reveal_strlit("DAY");
    reveal_strlit("MONTH");
    reveal_strlit("YEAR");
    assert("HOUR"@[0] == 'H' && "YEAR"@[0] == 'Y' && "DAY"@.len() == 3 && "MONTH"@.len() == 5
        && "MINUTE"@.len() == 6);
}

// --- CASE ------------------------------------------------------------------------------------

pub open spec fn case_tree(
    operand: Option<Box<Tree>>,
    whens: Seq<WhenTree>,
    otherwise: Option<Box<Tree>>,
    text: Seq<char>,
) -> Tree {
    tree(TreeNode::Case { operand, whens, otherwise }, text)
}

proof fn lemma_case_rest<F: Floats>(
    operand: Option<Box<Tree>>,
    w: WhenTree,
    whens: Seq<WhenTree>,
    otherwise: Option<Box<Tree>>,
    text: Seq<char>,
    i: nat,
    s: Seq<Attr>,
    fl: F,
)
    requires
        i <= whens.len(),
    ensures
        case_from(case_tree(operand, seq![w] + whens, otherwise, text), i + 1, s, fl) == case_from(
            case_tree(operand, whens, otherwise, text),
            i,
            s,
            fl,
        ),
    decreases whens.len() - i,
{
    if i < whens.len() {
        lemma_case_rest(operand, w, whens, otherwise, text, i + 1, s, fl);
        assert((seq![w] + whens)[i as int + 1] == whens[i as int]);
    }
}

/// `CASE` gives the result of the first branch whose condition holds, otherwise what the rest
/// of it gives: its first branch is chosen by its condition, or where `CASE` has an operand by
/// that being equal to what the branch names, before the branches behind it.
pub proof fn lemma_case<F: Floats>(
    operand: Option<Box<Tree>>,
    w: WhenTree,
    whens: Seq<WhenTree>,
    otherwise: Option<Box<Tree>>,
    text: Seq<char>,
    s: Seq<Attr>,
    c: Term,
    v: Term,
    rest: Term,
    fl: F,
)
    requires
        means(w.result, s, fl, v),
        match operand {
            None => means(w.condition, s, fl, c),
            Some(o) => exists|x: Term, y: Term|
                means(*o, s, fl, x) && means(w.condition, s, fl, y) && c == #[trigger] both(
                    BinOp::Eq,
                    x,
                    y,
                ),
        },
        whens.len() > 0 || otherwise is Some,
        if whens.len() == 0 {
            means(*otherwise->0, s, fl, rest)
        } else {
            means(case_tree(operand, whens, otherwise, text), s, fl, rest)
        },
    ensures
        means(
            case_tree(operand, seq![w] + whens, otherwise, text),
            s,
            fl,
            call(ScalarFunc::If, seq![c, v, rest]),
        ),
{
    let all = seq![w] + whens;
    let t = case_tree(operand, all, otherwise, text);
    let behind = case_tree(operand, whens, otherwise, text);
    lemma_case_rest(operand, w, whens, otherwise, text, 0, s, fl);
    assert(all[0] == w);
    assert(case_from(behind, 0, s, fl) == Ok::<Option<Term>, Seq<char>>(Some(rest))) by {
        if whens.len() > 0 {
            lemma_case_some(operand, whens, otherwise, text, s, fl);
        }
    }
    assert(case_from(t, 1, s, fl) == case_from(behind, 0, s, fl));
    if let Some(o) = operand {
        let (x, y) = choose|x: Term, y: Term|
            means(*o, s, fl, x) && means(w.condition, s, fl, y) && c == #[trigger] both(
                BinOp::Eq,
                x,
                y,
            );
        assert(pair(bound(*o, s, fl), bound(w.condition, s, fl)) == Ok::<
            (Term, Term),
            Seq<char>,
        >((x, y)));
    }
    assert(case_from(t, 0, s, fl) == Ok::<Option<Term>, Seq<char>>(
        Some(branch(c, v, Some(rest))),
    ));
    assert(bound(t, s, fl) == Ok::<Term, Seq<char>>(branch(c, v, Some(rest))));
}

proof fn lemma_case_some<F: Floats>(
    operand: Option<Box<Tree>>,
    whens: Seq<WhenTree>,
    otherwise: Option<Box<Tree>>,
    text: Seq<char>,
    s: Seq<Attr>,
    fl: F,
)
    requires
        whens.len() > 0,
    ensures
        case_from(case_tree(operand, whens, otherwise, text), 0, s, fl) matches Ok(x) ==> x is Some,
{
}

/// A `CASE` with one branch and no `ELSE` leaves the rest to the function.
pub proof fn lemma_case_without_else<F: Floats>(
    w: WhenTree,
    text: Seq<char>,
    s: Seq<Attr>,
    c: Term,
    v: Term,
    fl: F,
)
    requires
        means(w.result, s, fl, v),
        means(w.condition, s, fl, c),
    ensures
        means(
            case_tree(None, seq![w], None, text),
            s,
            fl,
            call(ScalarFunc::If, seq![c, v]),
        ),
{
    let t = case_tree(None, seq![w], None, text);
    assert(seq![w][0] == w);
    assert(case_from(t, 1, s, fl) == Ok::<Option<Term>, Seq<char>>(None));
    assert(case_from(t, 0, s, fl) == Ok::<Option<Term>, Seq<char>>(Some(branch(c, v, None))));
    assert(bound(t, s, fl) == Ok::<Term, Seq<char>>(branch(c, v, None)));
}

// --- calls -----------------------------------------------------------------------------------

pub open spec fn call_tree(
    name: Seq<char>,
    distinct: bool,
    args: Seq<Tree>,
    text: Seq<char>,
) -> Tree {
    tree(
        TreeNode::Call(
            CallTree {
                name: NameTree { parts: seq![Some(name)], text: name },
                windowed: false,
                args: ArgsTree::List {
                    distinct,
                    args: Seq::new(args.len(), |i: int| ArgTree::Plain(args[i])),
                },
            },
        ),
        text,
    )
}

proof fn lemma_plain(args: Seq<Tree>, i: nat)
    requires
        i <= args.len(),
    ensures
        plain_count(Seq::new(args.len(), |k: int| ArgTree::Plain(args[k])), i) == args.len() - i,
    decreases args.len() - i,
{
    if i < args.len() {
        lemma_plain(args, i + 1);
    }
}

proof fn lemma_bound_args<F: Floats>(
    args: Seq<Tree>,
    n: nat,
    xs: Seq<Term>,
    s: Seq<Attr>,
    fl: F,
)
    requires
        n <= args.len(),
        xs.len() == args.len(),
        forall|i: int| 0 <= i < args.len() ==> means(#[trigger] args[i], s, fl, xs[i]),
    ensures
        bound_args(Seq::new(args.len(), |k: int| ArgTree::Plain(args[k])), n, s, fl) == Ok::<
            Seq<Term>,
            Seq<char>,
        >(xs.take(n as int)),
    decreases n,
{
    let v = Seq::new(args.len(), |k: int| ArgTree::Plain(args[k]));
    if n == 0 {
        assert(xs.take(0) =~= Seq::empty());
    } else {
        lemma_bound_args(args, (n - 1) as nat, xs, s, fl);
        assert(means(args[n - 1], s, fl, xs[n - 1]));
        assert(v[n - 1] == ArgTree::Plain(args[n - 1]));
        assert(xs.take(n - 1).push(xs[n - 1]) =~= xs.take(n as int));
    }
}

/// A function is called with what its arguments mean, in their order, if it takes so many.
pub proof fn lemma_call<F: Floats>(
    name: Seq<char>,
    func: ScalarFunc,
    args: Seq<Tree>,
    xs: Seq<Term>,
    text: Seq<char>,
    s: Seq<Attr>,
    fl: F,
)
    requires
        function_named(ascii_lowered(name)) == Some(func),
        aggregate_named(ascii_lowered(name)) is None,
        metric_named(ascii_lowered(name)) is None,
        xs.len() == args.len(),
        forall|i: int| 0 <= i < args.len() ==> means(#[trigger] args[i], s, fl, xs[i]),
    ensures
        ({
            let n = args.len();
            let right = match func {
                ScalarFunc::Substring => n == 2 || n == 3,
                ScalarFunc::If => n == 3,
                ScalarFunc::Coalesce => n >= 1,
                ScalarFunc::Round => n == 1 || n == 2,
                ScalarFunc::DateTrunc => n == 2,
                _ => n == 1,
            };
            if right {
                means(call_tree(name, false, args, text), s, fl, call(func, xs))
            } else {
                bound(call_tree(name, false, args, text), s, fl) is Err
            }
        }),
{
    let v = Seq::new(args.len(), |k: int| ArgTree::Plain(args[k]));
    lemma_bound_args(args, args.len(), xs, s, fl);
    assert(xs.take(args.len() as int) =~= xs);
    let t = call_tree(name, false, args, text);
    let c = t.node->Call_0;
    assert(c.name.parts.last() == Some(name));
    assert(call_bound(c, s, fl) == listed_bound(name, false, v, s, fl));
}

/// An aggregate of one argument is over what that means; `uniq` and `count_distinct` count
/// different values without saying `DISTINCT`.
pub proof fn lemma_aggregate<F: Floats>(
    name: Seq<char>,
    func: AggFunc,
    distinct: bool,
    e: Tree,
    x: Term,
    text: Seq<char>,
    s: Seq<Attr>,
    fl: F,
)
    requires
        aggregate_named(ascii_lowered(name)) == Some(func),
        means(e, s, fl, x),
    ensures
        means(
            call_tree(name, distinct, seq![e], text),
            s,
            fl,
            Term::Agg {
                func,
                arg: Some(Box::new(x)),
                distinct: distinct || alike(name, "uniq"@) || alike(name, "count_distinct"@),
            },
        ),
{
    let args = seq![e];
    let v = Seq::new(args.len(), |k: int| ArgTree::Plain(args[k]));
    lemma_plain(args, 0);
    assert(v[0] == ArgTree::Plain(e));
    assert(plain_place(v, 0, 0) == 0);
    assert(!has_wildcard(v));
    lemma_same_name(name, "uniq"@);
    lemma_same_name(name, "count_distinct"@);
    lemma_lower_words();
    let t = call_tree(name, distinct, args, text);
    let c = t.node->Call_0;
    assert(c.name.parts.last() == Some(name));
    assert(call_bound(c, s, fl) == listed_bound(name, distinct, v, s, fl));
}

proof fn lemma_lower_words()
    ensures
        ascii_lowered("uniq"@) == "uniq"@,
        ascii_lowered("count_distinct"@) == "count_distinct"@,
{
    reveal_strlit("uniq");
    reveal_strlit("count_distinct");
    assert(ascii_lowered("uniq"@) =~= "uniq"@);
    assert(ascii_lowered("count_distinct"@) =~= "count_distinct"@);
}

} // verus!
