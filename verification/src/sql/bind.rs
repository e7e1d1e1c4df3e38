//! Expressions: names bound to the columns of a schema.
use crate::ast::{Arg, ArgTree, Args, ArgsTree, Ast, Call, CallTree, Node, Tree, TreeNode};
use crate::column::{name_of_type, Cell, DataType, Value};
use crate::exec::ops::{held, hold};
use crate::exec::scalar::{render, rendered};
use crate::float::{negate, negated, Floats};
use crate::plan::{
    arity_ok, function_named, maybe, metric_named, takes, terms, AggFunc, BinOp, Expr, Metric,
    ScalarFunc, Term, UnOp,
};
use crate::sql::literal::{
    column_type, ident_of, last_name, literal, literal_cell, literal_cells, literals, map_type,
    vector_cell, vector_literal,
};
use crate::table::{column_named, Attr, Schema};
use crate::text::{
    ascii_lowered, dec, dec_usize, eq_text, err, escape, escaped, join, join_texts, strings, text2,
    text3, text4, text5, to_ascii_lower, Error,
};
use vstd::prelude::*;
use vstd::string::*;

verus! {

broadcast use vstd::string::group_string_axioms;

pub open spec fn single_quotes<F: Floats>(v: Seq<u32>, fl: F) -> Seq<Seq<char>> {
    Seq::new(v.len(), |i: int| fl.single_quote(v[i]))
}

/// A value as messages quote it: its type, and the value in brackets.
pub open spec fn quoted<F: Floats>(c: Cell, fl: F) -> Seq<char> {
    match c {
        Cell::I64(_) => "I64("@ + rendered(c, fl) + ")"@,
        Cell::F64(x) => "F64("@ + fl.double_quote(x) + ")"@,
        Cell::Bool(_) => "Bool("@ + rendered(c, fl) + ")"@,
        Cell::Str(s) => "Str("@ + escaped(s) + ")"@,
        Cell::Vector(v) => "Vector(["@ + join(single_quotes(v, fl), ", "@) + "])"@,
    }
}

pub fn quote<F: Floats>(v: &Value, fl: &F) -> (r: String)
    requires
        fl.exact(),
    ensures
        r@ == quoted(v@, *fl),
{
    match v {
        Value::I64(_) => text3("I64(", render(v, fl).as_str(), ")"),
        Value::F64(x) => text3("F64(", fl.quote(*x).as_str(), ")"),
        Value::Bool(_) => text3("Bool(", render(v, fl).as_str(), ")"),
        Value::Str(s) => text3("Str(", escape(s.as_str()).as_str(), ")"),
        Value::Vector(x) => {
            let mut out: Vec<String> = Vec::new();
            let mut i: usize = 0;
            while i < x.len()
                invariant
                    i <= x.len(),
                    fl.exact(),
                    out@.len() == i,
                    forall|k: int|
                        0 <= k < i ==> (#[trigger] out@[k])@ == fl.single_quote(x@[k]),
                decreases x.len() - i,
            {
                out.push(fl.quote_single(x[i]));
                i += 1;
            }
            assert(strings(out@) =~= single_quotes(x@, *fl));
            text3("Vector([", join_texts(&out, ", ").as_str(), "])")
        },
    }
}

// --- operators and functions ------------------------------------------------------------------

pub open spec fn operator_named(s: Seq<char>) -> Option<BinOp> {
    if s == "+"@ {
        Some(BinOp::Add)
    } else if s == "-"@ {
        Some(BinOp::Sub)
    } else if s == "*"@ {
        Some(BinOp::Mul)
    } else if s == "/"@ {
        Some(BinOp::Div)
    } else if s == "%"@ {
        Some(BinOp::Mod)
    } else if s == "="@ {
        Some(BinOp::Eq)
    } else if s == "<>"@ {
        Some(BinOp::NotEq)
    } else if s == "<"@ {
        Some(BinOp::Lt)
    } else if s == "<="@ {
        Some(BinOp::LtEq)
    } else if s == ">"@ {
        Some(BinOp::Gt)
    } else if s == ">="@ {
        Some(BinOp::GtEq)
    } else if s == "AND"@ {
        Some(BinOp::And)
    } else if s == "OR"@ {
        Some(BinOp::Or)
    } else {
        None
    }
}

pub fn map_binop(s: &str) -> (r: Result<BinOp, Error>)
    ensures
        match r {
            Ok(op) => operator_named(s@) == Some(op),
            Err(e) => operator_named(s@) is None && e@ == "оператор не поддерживается: "@ + s@,
        },
{
    let op = if eq_text(s, "+") {
        BinOp::Add
    } else if eq_text(s, "-") {
        BinOp::Sub
    } else if eq_text(s, "*") {
        BinOp::Mul
    } else if eq_text(s, "/") {
        BinOp::Div
    } else if eq_text(s, "%") {
        BinOp::Mod
    } else if eq_text(s, "=") {
        BinOp::Eq
    } else if eq_text(s, "<>") {
        BinOp::NotEq
    } else if eq_text(s, "<") {
        BinOp::Lt
    } else if eq_text(s, "<=") {
        BinOp::LtEq
    } else if eq_text(s, ">") {
        BinOp::Gt
    } else if eq_text(s, ">=") {
        BinOp::GtEq
    } else if eq_text(s, "AND") {
        BinOp::And
    } else if eq_text(s, "OR") {
        BinOp::Or
    } else {
        return Err(err(text2("оператор не поддерживается: ", s)));
    };
    Ok(op)
}

/// What EXTRACT computes for a field.
pub open spec fn part_named(s: Seq<char>) -> Option<ScalarFunc> {
    if s == "HOUR"@ {
        Some(ScalarFunc::ExtractHour)
    } else if s == "MINUTE"@ {
        Some(ScalarFunc::ExtractMinute)
    } else if s == "DAY"@ {
        Some(ScalarFunc::ExtractDay)
    } else if s == "MONTH"@ {
        Some(ScalarFunc::ExtractMonth)
    } else if s == "YEAR"@ {
        Some(ScalarFunc::ExtractYear)
    } else {
        None
    }
}

fn part_of(s: &str) -> (r: Option<ScalarFunc>)
    ensures
        r == part_named(s@),
{
    if eq_text(s, "HOUR") {
        Some(ScalarFunc::ExtractHour)
    } else if eq_text(s, "MINUTE") {
        Some(ScalarFunc::ExtractMinute)
    } else if eq_text(s, "DAY") {
        Some(ScalarFunc::ExtractDay)
    } else if eq_text(s, "MONTH") {
        Some(ScalarFunc::ExtractMonth)
    } else if eq_text(s, "YEAR") {
        Some(ScalarFunc::ExtractYear)
    } else {
        None
    }
}

/// Whether an aggregate of a name counts distinct values on its own account.
pub open spec fn counts_distinct(s: Seq<char>) -> bool {
    s == "uniq"@ || s == "count_distinct"@
}

#[verifier::opaque]
pub open spec fn aggregate_named(s: Seq<char>) -> Option<AggFunc> {
    if s == "count"@ {
        Some(AggFunc::Count)
    } else if s == "sum"@ {
        Some(AggFunc::Sum)
    } else if s == "avg"@ || s == "mean"@ {
        Some(AggFunc::Avg)
    } else if s == "min"@ {
        Some(AggFunc::Min)
    } else if s == "max"@ {
        Some(AggFunc::Max)
    } else if counts_distinct(s) {
        Some(AggFunc::Count)
    } else {
        None
    }
}

fn aggregate_of(s: &str) -> (r: Option<AggFunc>)
    ensures
        r == aggregate_named(s@),
{
    reveal(aggregate_named);
    if eq_text(s, "count") {
        Some(AggFunc::Count)
    } else if eq_text(s, "sum") {
        Some(AggFunc::Sum)
    } else if eq_text(s, "avg") || eq_text(s, "mean") {
        Some(AggFunc::Avg)
    } else if eq_text(s, "min") {
        Some(AggFunc::Min)
    } else if eq_text(s, "max") {
        Some(AggFunc::Max)
    } else if eq_text(s, "uniq") || eq_text(s, "count_distinct") {
        Some(AggFunc::Count)
    } else {
        None
    }
}

// --- arguments -----------------------------------------------------------------------------------

/// Where the `k`-th argument that is an expression stands, from place `i` on; the number
/// of arguments where there is none.
pub open spec fn plain_place(v: Seq<ArgTree>, k: nat, i: nat) -> nat
    decreases v.len() - i,
{
    if i >= v.len() {
        v.len()
    } else if v[i as int] is Plain {
        if k == 0 {
            i
        } else {
            plain_place(v, (k - 1) as nat, i + 1)
        }
    } else {
        plain_place(v, k, i + 1)
    }
}

/// How many arguments from place `i` on are expressions.
pub open spec fn plain_count(v: Seq<ArgTree>, i: nat) -> nat
    decreases v.len() - i,
{
    if i >= v.len() {
        0
    } else {
        plain_count(v, i + 1) + if v[i as int] is Plain {
            1nat
        } else {
            0nat
        }
    }
}

/// Whether one of the arguments is `*`.
pub open spec fn has_wildcard(v: Seq<ArgTree>) -> bool {
    exists|i: int| 0 <= i < v.len() && (#[trigger] v[i]) is Wildcard
}

proof fn lemma_counted_place(v: Seq<ArgTree>, j: nat, i: nat)
    requires
        j <= i < v.len(),
        v[i as int] is Plain,
    ensures
        plain_count(v, j) >= plain_count(v, i),
        plain_place(v, (plain_count(v, j) - plain_count(v, i)) as nat, j) == i,
    decreases i - j,
{
    if j < i {
        lemma_counted_place(v, j + 1, i);
    }
}

/// The places of the arguments that are expressions, and whether one is `*`.
fn plain_places(v: &Vec<Arg>) -> (r: (Vec<usize>, bool))
    ensures
        r.0@.len() == plain_count(crate::ast::arg_trees(v@), 0),
        r.1 == has_wildcard(crate::ast::arg_trees(v@)),
        forall|k: int|
            0 <= k < r.0@.len() ==> #[trigger] r.0@[k] == plain_place(
                crate::ast::arg_trees(v@),
                k as nat,
                0,
            ) && r.0@[k] < v@.len() && v@[r.0@[k] as int] is Plain,
{
    let ghost t = crate::ast::arg_trees(v@);
    let mut out: Vec<usize> = Vec::new();
    let mut wild = false;
    let mut i: usize = 0;
    while i < v.len()
        invariant
            i <= v.len(),
            t == crate::ast::arg_trees(v@),
            wild == exists|k: int| 0 <= k < i && (#[trigger] t[k]) is Wildcard,
            out@.len() + plain_count(t, i as nat) == plain_count(t, 0),
            forall|k: int|
                0 <= k < out@.len() ==> #[trigger] out@[k] == plain_place(t, k as nat, 0) && out@[k]
                    < v@.len() && v@[out@[k] as int] is Plain,
        decreases v.len() - i,
    {
        assert(t[i as int] == v@[i as int].view());
        match &v[i] {
            Arg::Plain(_) => {
                proof {
                    lemma_counted_place(t, 0, i as nat);
                }
                out.push(i);
            },
            Arg::Wildcard => {
                wild = true;
            },
            Arg::Other => {},
        }
        i += 1;
    }
    (out, wild)
}

// --- what an expression is bound to ----------------------------------------------------------------

pub open spec fn column_term(name: Seq<char>, s: Seq<Attr>) -> Result<Term, Seq<char>> {
    match column_named(s, name) {
        Some(i) => Ok(Term::Col(i)),
        None => Err("нет колонки '"@ + name + "'"@),
    }
}

/// The negative of a bound expression.
pub open spec fn negative(t: Term) -> Term {
    match t {
        Term::Lit(Cell::I64(i)) => Term::Lit(Cell::I64(held(-i))),
        Term::Lit(Cell::F64(f)) => Term::Lit(Cell::F64(negated(f))),
        _ => Term::Unary { op: UnOp::Neg, e: Box::new(t) },
    }
}

pub open spec fn pair(l: Result<Term, Seq<char>>, r: Result<Term, Seq<char>>) -> Result<
    (Term, Term),
    Seq<char>,
> {
    match l {
        Err(e) => Err(e),
        Ok(x) => match r {
            Err(e) => Err(e),
            Ok(y) => Ok((x, y)),
        },
    }
}

/// An expression over the columns of a schema.
pub open spec fn bound<F: Floats>(t: Tree, s: Seq<Attr>, fl: F) -> Result<Term, Seq<char>>
    decreases t, 1nat, 0nat,
{
    match t.node {
        TreeNode::Ident(name) => column_term(name, s),
        TreeNode::Compound(parts) => if parts.len() == 0 {
            Err("пустое имя"@)
        } else {
            column_term(parts.last(), s)
        },
        TreeNode::Value(_) => match literal_cell(t, None, fl) {
            Ok(c) => Ok(Term::Lit(c)),
            Err(e) => Err(e),
        },
        TreeNode::Nested(e) => bound(*e, s, fl),
        TreeNode::Unary { op, e } => if op == "NOT"@ {
            match bound(*e, s, fl) {
                Ok(x) => Ok(Term::Unary { op: UnOp::Not, e: Box::new(x) }),
                Err(m) => Err(m),
            }
        } else if op == "-"@ {
            match bound(*e, s, fl) {
                Ok(x) => Ok(negative(x)),
                Err(m) => Err(m),
            }
        } else if op == "+"@ {
            bound(*e, s, fl)
        } else {
            Err("унарный оператор не поддерживается: "@ + op)
        },
        TreeNode::Binary { op, l, r } => match operator_named(op) {
            None => Err("оператор не поддерживается: "@ + op),
            Some(o) => match pair(bound(*l, s, fl), bound(*r, s, fl)) {
                Ok((x, y)) => Ok(Term::Binary { op: o, l: Box::new(x), r: Box::new(y) }),
                Err(m) => Err(m),
            },
        },
        TreeNode::IsNull => Err("IS [NOT] NULL не поддерживается: NULL-значений в veldb нет"@),
        TreeNode::Like { e, pattern, negated, insensitive } => match literal_cell(
            *pattern,
            None,
            fl,
        ) {
            Err(m) => Err(m),
            Ok(Cell::Str(p)) => match bound(*e, s, fl) {
                Err(m) => Err(m),
                Ok(x) => Ok(
                    Term::Like {
                        e: Box::new(x),
                        pattern: p,
                        negated,
                        case_insensitive: insensitive,
                    },
                ),
            },
            Ok(c) => Err("шаблон LIKE должен быть строкой, получено "@ + quoted(c, fl)),
        },
        TreeNode::InList { e, list, negated } => match bound(*e, s, fl) {
            Err(m) => Err(m),
            Ok(x) => match literal_cells(list, list.len(), fl) {
                Err(m) => Err(m),
                Ok(v) => Ok(Term::InList { e: Box::new(x), list: v, negated }),
            },
        },
        TreeNode::Between { e, low, high, negated } => match bound(*e, s, fl) {
            Err(m) => Err(m),
            Ok(x) => match pair(bound(*low, s, fl), bound(*high, s, fl)) {
                Err(m) => Err(m),
                Ok((a, b)) => Ok(
                    Term::Between {
                        e: Box::new(x),
                        low: Box::new(a),
                        high: Box::new(b),
                        negated,
                    },
                ),
            },
        },
        TreeNode::Cast { e, ty } => match bound(*e, s, fl) {
            Err(m) => Err(m),
            Ok(x) => match column_type(ty) {
                Err(m) => Err(m),
                Ok(d) => Ok(Term::Cast { e: Box::new(x), ty: d }),
            },
        },
        TreeNode::Extract { part, e } => match part_named(part) {
            None => Err("EXTRACT("@ + part + ") не поддерживается"@),
            Some(func) => match bound(*e, s, fl) {
                Err(m) => Err(m),
                Ok(x) => Ok(Term::Func { func, args: seq![x] }),
            },
        },
        TreeNode::Substring { e, from, count } => match pair(
            bound(*e, s, fl),
            match from {
                Some(f) => bound(*f, s, fl),
                None => Ok(Term::Lit(Cell::I64(1))),
            },
        ) {
            Err(m) => Err(m),
            Ok((x, y)) => match count {
                None => Ok(Term::Func { func: ScalarFunc::Substring, args: seq![x, y] }),
                Some(c) => match bound(*c, s, fl) {
                    Err(m) => Err(m),
                    Ok(z) => Ok(Term::Func { func: ScalarFunc::Substring, args: seq![x, y, z] }),
                },
            },
        },
        TreeNode::Case { .. } => match case_from(t, 0, s, fl) {
            Err(m) => Err(m),
            Ok(Some(x)) => Ok(x),
            Ok(None) => Ok(Term::Lit(Cell::Str(Seq::empty()))),
        },
        TreeNode::Call(c) => call_bound(c, s, fl),
        TreeNode::Rounded { up, plain, e } => if plain {
            match bound(*e, s, fl) {
                Err(m) => Err(m),
                Ok(x) => Ok(
                    Term::Func {
                        func: if up {
                            ScalarFunc::Ceil
                        } else {
                            ScalarFunc::Floor
                        },
                        args: seq![x],
                    },
                ),
            }
        } else {
            Err("выражение не поддерживается: "@ + t.text)
        },
        TreeNode::Array(_) => Err("выражение не поддерживается: "@ + t.text),
        TreeNode::Other => Err("выражение не поддерживается: "@ + t.text),
    }
}

/// A branch of `CASE` and what follows it. Without `ELSE` the last branch has two arguments:
/// what holds where it is not taken goes by the type of its value.
pub open spec fn branch(cond: Term, value: Term, rest: Option<Term>) -> Term {
    Term::Func {
        func: ScalarFunc::If,
        args: match rest {
            Some(r) => seq![cond, value, r],
            None => seq![cond, value],
        },
    }
}

/// The branches of `CASE` from the `i`-th on, as nested `if`; `None` where there are neither
/// branches nor `ELSE`.
pub open spec fn case_from<F: Floats>(t: Tree, i: nat, s: Seq<Attr>, fl: F) -> Result<
    Option<Term>,
    Seq<char>,
>
    decreases t, 0nat, (if t.node is Case { t.node->whens.len() - i } else { 0 }),
{
    match t.node {
        TreeNode::Case { operand, whens, otherwise } => if i >= whens.len() {
            match otherwise {
                Some(e) => match bound(*e, s, fl) {
                    Err(m) => Err(m),
                    Ok(x) => Ok(Some(x)),
                },
                None => Ok(None),
            }
        } else {
            let w = whens[i as int];
            match case_from(t, i + 1, s, fl) {
                Err(m) => Err(m),
                Ok(rest) => match match operand {
                    None => bound(w.condition, s, fl),
                    Some(o) => match pair(bound(*o, s, fl), bound(w.condition, s, fl)) {
                        Err(m) => Err(m),
                        Ok((x, y)) => Ok(
                            Term::Binary { op: BinOp::Eq, l: Box::new(x), r: Box::new(y) },
                        ),
                    },
                } {
                    Err(m) => Err(m),
                    Ok(cond) => match bound(w.result, s, fl) {
                        Err(m) => Err(m),
                        Ok(x) => Ok(Some(branch(cond, x, rest))),
                    },
                },
            }
        },
        _ => Err(Seq::empty()),
    }
}

/// The arguments that are expressions, among the first `n`.
pub open spec fn bound_args<F: Floats>(v: Seq<ArgTree>, n: nat, s: Seq<Attr>, fl: F) -> Result<
    Seq<Term>,
    Seq<char>,
>
    decreases v, 0nat, n,
{
    if n == 0 || n > v.len() {
        Ok(Seq::empty())
    } else {
        match bound_args(v, (n - 1) as nat, s, fl) {
            Err(m) => Err(m),
            Ok(out) => match v[n - 1] {
                ArgTree::Plain(e) => match bound(e, s, fl) {
                    Err(m) => Err(m),
                    Ok(x) => Ok(out.push(x)),
                },
                _ => Ok(out),
            },
        }
    }
}

/// The argument at a place.
pub open spec fn bound_arg<F: Floats>(v: Seq<ArgTree>, i: nat, s: Seq<Attr>, fl: F) -> Result<
    Term,
    Seq<char>,
>
    decreases v, 0nat, 0nat,
{
    if i < v.len() {
        match v[i as int] {
            ArgTree::Plain(e) => bound(e, s, fl),
            _ => Err(Seq::empty()),
        }
    } else {
        Err(Seq::empty())
    }
}

pub open spec fn vector_arg<F: Floats>(v: Seq<ArgTree>, i: nat, fl: F) -> Result<
    Seq<u32>,
    Seq<char>,
> {
    match v[i as int] {
        ArgTree::Plain(e) => vector_cell(e, fl),
        _ => Err(Seq::empty()),
    }
}

/// A distance between a column of vectors, bound already, and a vector.
pub open spec fn distance_term(
    name: Seq<char>,
    metric: Metric,
    first: Result<Term, Seq<char>>,
    second: Result<Seq<u32>, Seq<char>>,
    s: Seq<Attr>,
) -> Result<Term, Seq<char>> {
    match first {
        Err(m) => Err(m),
        Ok(Term::Col(col)) => match s[col as int].ty {
            DataType::Vector(dim) => match second {
                Err(m) => Err(m),
                Ok(query) => if query.len() != dim {
                    Err(
                        "вектор запроса длины "@ + dec(query.len() as int) + ", колонка VECTOR("@
                            + dec(dim as int) + ")"@,
                    )
                } else {
                    Ok(Term::Distance { metric, col, query })
                },
            },
            other => Err(
                "колонка '"@ + s[col as int].name + "' имеет тип "@ + name_of_type(other)
                    + ", а не VECTOR"@,
            ),
        },
        Ok(_) => Err("первый аргумент "@ + name + " должен быть векторной колонкой"@),
    }
}

/// A call without arguments.
pub open spec fn bare_bound(name: Seq<char>) -> Result<Term, Seq<char>> {
    let lname = ascii_lowered(name);
    if let Some(func) = aggregate_named(lname) {
        if func != AggFunc::Count {
            Err(name + "(*) не имеет смысла"@)
        } else {
            Ok(Term::Agg { func, arg: None, distinct: false })
        }
    } else if metric_named(lname) is Some {
        Err(name + " принимает (векторная_колонка, вектор_запроса)"@)
    } else if function_named(lname) is None {
        Err("функция '"@ + name + "' не поддерживается"@)
    } else {
        Err(name + ": неверное число аргументов ("@ + dec(0) + ")"@)
    }
}

/// A call: of an aggregate, of a distance, or of a function of one row.
pub open spec fn call_bound<F: Floats>(c: CallTree, s: Seq<Attr>, fl: F) -> Result<Term, Seq<char>>
    decreases c, 1nat, 0nat,
{
    match last_name(c.name) {
        Err(m) => Err(m),
        Ok(name) => if c.windowed {
            Err("оконные функции не поддерживаются"@)
        } else {
            match c.args {
                ArgsTree::Subquery => Err("подзапрос в аргументах функции"@),
                ArgsTree::Missing => bare_bound(name),
                ArgsTree::List { distinct, args } => listed_bound(name, distinct, args, s, fl),
            }
        },
    }
}

pub open spec fn listed_bound<F: Floats>(
    name: Seq<char>,
    distinct: bool,
    args: Seq<ArgTree>,
    s: Seq<Attr>,
    fl: F,
) -> Result<Term, Seq<char>>
    decreases args, 1nat, 0nat,
{
    let lname = ascii_lowered(name);
    let n = plain_count(args, 0);
    if let Some(func) = aggregate_named(lname) {
        if has_wildcard(args) || n == 0 {
            if func != AggFunc::Count {
                Err(name + "(*) не имеет смысла"@)
            } else {
                Ok(Term::Agg { func, arg: None, distinct: false })
            }
        } else if n != 1 {
            Err(name + " принимает один аргумент"@)
        } else {
            match bound_arg(args, plain_place(args, 0, 0), s, fl) {
                Err(m) => Err(m),
                Ok(x) => Ok(
                    Term::Agg {
                        func,
                        arg: Some(Box::new(x)),
                        distinct: distinct || counts_distinct(lname),
                    },
                ),
            }
        }
    } else if let Some(metric) = metric_named(lname) {
        if n != 2 {
            Err(name + " принимает (векторная_колонка, вектор_запроса)"@)
        } else {
            distance_term(
                name,
                metric,
                bound_arg(args, plain_place(args, 0, 0), s, fl),
                vector_arg(args, plain_place(args, 1, 0), fl),
                s,
            )
        }
    } else {
        match function_named(lname) {
            None => Err("функция '"@ + name + "' не поддерживается"@),
            Some(func) => match bound_args(args, args.len(), s, fl) {
                Err(m) => Err(m),
                Ok(v) => if takes(func, v.len()) {
                    Ok(Term::Func { func, args: v })
                } else {
                    Err(name + ": неверное число аргументов ("@ + dec(v.len() as int) + ")"@)
                },
            },
        }
    }
}

// --- binding ---------------------------------------------------------------------------------------

pub open spec fn agrees(r: Result<Expr, Error>, spec: Result<Term, Seq<char>>) -> bool {
    match r {
        Ok(x) => spec == Ok::<Term, Seq<char>>(x.view()),
        Err(e) => spec == Err::<Term, Seq<char>>(e@),
    }
}

fn bind_column(name: &str, schema: &Schema) -> (r: Result<Expr, Error>)
    ensures
        agrees(r, column_term(name@, schema@)),
{
    match schema.index_of(name) {
        Some(i) => Ok(Expr::Col(i)),
        None => Err(err(text3("нет колонки '", name, "'"))),
    }
}

fn negate_expr(e: Expr) -> (r: Expr)
    ensures
        r.view() == negative(e.view()),
{
    match e {
        Expr::Lit(Value::I64(i)) => Expr::Lit(Value::I64(hold(-(i as i128)))),
        Expr::Lit(Value::F64(f)) => Expr::Lit(Value::F64(negate(f))),
        other => Expr::Unary { op: UnOp::Neg, e: Box::new(other) },
    }
}

/// Binds an expression to the columns of a schema.
#[verifier::rlimit(60)]
#[verifier::spinoff_prover]
pub fn bind<F: Floats>(e: &Ast, schema: &Schema, fl: &F) -> (r: Result<Expr, Error>)
    requires
        fl.exact(),
    ensures
        agrees(r, bound(e.view(), schema@, *fl)),
    decreases *e, 1nat, 0nat,
{
    assert(e.view().node == e.node.view());
    match &e.node {
        Node::Ident(name) => bind_column(name.as_str(), schema),
        Node::Compound(parts) => {
            if parts.len() == 0 {
                return Err(err("пустое имя".to_owned()));
            }
            assert(strings(parts@).last() == parts@.last()@);
            bind_column(parts[parts.len() - 1].as_str(), schema)
        },
        Node::Value(_) => match literal(e, None, fl) {
            Ok(v) => Ok(Expr::Lit(v)),
            Err(m) => Err(m),
        },
        Node::Nested(x) => bind(x, schema, fl),
        Node::Unary { op, e: x } => {
            if eq_text(op.as_str(), "NOT") {
                match bind(x, schema, fl) {
                    Ok(b) => Ok(Expr::Unary { op: UnOp::Not, e: Box::new(b) }),
                    Err(m) => Err(m),
                }
            } else if eq_text(op.as_str(), "-") {
                match bind(x, schema, fl) {
                    Ok(b) => Ok(negate_expr(b)),
                    Err(m) => Err(m),
                }
            } else if eq_text(op.as_str(), "+") {
                bind(x, schema, fl)
            } else {
                Err(err(text2("унарный оператор не поддерживается: ", op.as_str())))
            }
        },
        Node::Binary { op, l, r } => {
            let op = match map_binop(op.as_str()) {
                Ok(op) => op,
                Err(m) => {
                    return Err(m);
                },
            };
            let l = match bind(l, schema, fl) {
                Ok(x) => x,
                Err(m) => {
                    return Err(m);
                },
            };
            match bind(r, schema, fl) {
                Ok(r) => Ok(Expr::Binary { op, l: Box::new(l), r: Box::new(r) }),
                Err(m) => Err(m),
            }
        },
        Node::IsNull => Err(
            err("IS [NOT] NULL не поддерживается: NULL-значений в veldb нет".to_owned()),
        ),
        Node::Like { e: x, pattern, negated, insensitive } => {
            let pattern = match literal(pattern, None, fl) {
                Ok(Value::Str(p)) => p,
                Ok(other) => {
                    return Err(
                        err(
                            text2(
                                "шаблон LIKE должен быть строкой, получено ",
                                quote(&other, fl).as_str(),
                            ),
                        ),
                    );
                },
                Err(m) => {
                    return Err(m);
                },
            };
            match bind(x, schema, fl) {
                Ok(b) => Ok(
                    Expr::Like {
                        e: Box::new(b),
                        pattern,
                        negated: *negated,
                        case_insensitive: *insensitive,
                    },
                ),
                Err(m) => Err(m),
            }
        },
        Node::InList { e: x, list, negated } => {
            let b = match bind(x, schema, fl) {
                Ok(b) => b,
                Err(m) => {
                    return Err(m);
                },
            };
            match literals(list, fl) {
                Ok(list) => Ok(Expr::InList { e: Box::new(b), list, negated: *negated }),
                Err(m) => Err(m),
            }
        },
        Node::Between { e: x, low, high, negated } => {
            let b = match bind(x, schema, fl) {
                Ok(b) => b,
                Err(m) => {
                    return Err(m);
                },
            };
            let low = match bind(low, schema, fl) {
                Ok(b) => b,
                Err(m) => {
                    return Err(m);
                },
            };
            match bind(high, schema, fl) {
                Ok(high) => Ok(
                    Expr::Between {
                        e: Box::new(b),
                        low: Box::new(low),
                        high: Box::new(high),
                        negated: *negated,
                    },
                ),
                Err(m) => Err(m),
            }
        },
        Node::Cast { e: x, ty } => {
            let b = match bind(x, schema, fl) {
                Ok(b) => b,
                Err(m) => {
                    return Err(m);
                },
            };
            match map_type(ty) {
                Ok(ty) => Ok(Expr::Cast { e: Box::new(b), ty }),
                Err(m) => Err(m),
            }
        },
        Node::Extract { part, e: x } => match part_of(part.as_str()) {
            None => Err(err(text3("EXTRACT(", part.as_str(), ") не поддерживается"))),
            Some(func) => match bind(x, schema, fl) {
                Ok(b) => Ok(unary_func(func, b)),
                Err(m) => Err(m),
            },
        },
        Node::Substring { e: x, from, count } => {
            assert(e.view().node == (TreeNode::Substring {
                e: Box::new(x.view()),
                from: crate::ast::boxed(*from),
                count: crate::ast::boxed(*count),
            }));
            let b = match bind(x, schema, fl) {
                Ok(b) => b,
                Err(m) => {
                    return Err(m);
                },
            };
            let start = match from {
                Some(f) => match bind(f, schema, fl) {
                    Ok(b) => b,
                    Err(m) => {
                        return Err(m);
                    },
                },
                None => Expr::lit_i(1),
            };
            match count {
                None => Ok(substring_of(b, start, None)),
                Some(c) => match bind(c, schema, fl) {
                    Ok(n) => Ok(substring_of(b, start, Some(n))),
                    Err(m) => Err(m),
                },
            }
        },
        Node::Case { .. } => bind_case(e, schema, fl),
        Node::Call(c) => bind_function(c, schema, fl),
        Node::Rounded { up, plain, e: x } => {
            if !*plain {
                return Err(err(text2("выражение не поддерживается: ", e.text.as_str())));
            }
            match bind(x, schema, fl) {
                Ok(b) => if *up {
                    Ok(unary_func(ScalarFunc::Ceil, b))
                } else {
                    Ok(unary_func(ScalarFunc::Floor, b))
                },
                Err(m) => Err(m),
            }
        },
        Node::Array(_) => Err(err(text2("выражение не поддерживается: ", e.text.as_str()))),
        Node::Other => Err(err(text2("выражение не поддерживается: ", e.text.as_str()))),
    }
}

fn unary_func(func: ScalarFunc, e: Expr) -> (r: Expr)
    ensures
        r.view() == (Term::Func { func, args: seq![e.view()] }),
{
    let mut args: Vec<Expr> = Vec::new();
    args.push(e);
    assert(terms(args@) =~= seq![e.view()]);
    Expr::Func { func, args }
}

fn substring_of(e: Expr, from: Expr, count: Option<Expr>) -> (r: Expr)
    ensures
        r.view() == (Term::Func {
            func: ScalarFunc::Substring,
            args: match count {
                Some(n) => seq![e.view(), from.view(), n.view()],
                None => seq![e.view(), from.view()],
            },
        }),
{
    let mut args: Vec<Expr> = Vec::new();
    args.push(e);
    args.push(from);
    match count {
        Some(n) => {
            args.push(n);
            assert(terms(args@) =~= seq![e.view(), from.view(), n.view()]);
        },
        None => {
            assert(terms(args@) =~= seq![e.view(), from.view()]);
        },
    }
    Expr::Func { func: ScalarFunc::Substring, args }
}

fn if_of(cond: Expr, value: Expr, rest: Option<Expr>) -> (r: Expr)
    ensures
        r.view() == branch(cond.view(), value.view(), maybe(rest)),
{
    let mut args: Vec<Expr> = Vec::new();
    args.push(cond);
    args.push(value);
    match rest {
        Some(x) => {
            args.push(x);
            assert(terms(args@) =~= seq![cond.view(), value.view(), x.view()]);
        },
        None => {
            assert(terms(args@) =~= seq![cond.view(), value.view()]);
        },
    }
    Expr::Func { func: ScalarFunc::If, args }
}

proof fn lemma_case_err<F: Floats>(t: Tree, i: nat, j: nat, s: Seq<Attr>, fl: F)
    requires
        t.node is Case,
        i <= j <= t.node->whens.len(),
        case_from(t, j, s, fl) is Err,
    ensures
        case_from(t, i, s, fl) == case_from(t, j, s, fl),
    decreases j - i,
{
    if i < j {
        lemma_case_err(t, i + 1, j, s, fl);
    }
}

/// `CASE` as nested `if`.
#[verifier::rlimit(40)]
fn bind_case<F: Floats>(e: &Ast, schema: &Schema, fl: &F) -> (r: Result<Expr, Error>)
    requires
        fl.exact(),
        e.node is Case,
    ensures
        agrees(r, bound(e.view(), schema@, *fl)),
    decreases *e, 0nat, 0nat,
{
    let ghost t = e.view();
    match &e.node {
        Node::Case { operand, whens, otherwise } => {
            assert(t.node == e.node.view());
            assert(t.node == (TreeNode::Case {
                operand: crate::ast::boxed(*operand),
                whens: crate::ast::when_trees(whens@),
                otherwise: crate::ast::boxed(*otherwise),
            }));
            let mut out = match otherwise {
                Some(x) => match bind(x, schema, fl) {
                    Ok(b) => Some(b),
                    Err(m) => {
                        proof {
                            lemma_case_err(t, 0, whens@.len(), schema@, *fl);
                        }
                        return Err(m);
                    },
                },
                None => None,
            };
            let mut i: usize = whens.len();
            while i > 0
                invariant
                    fl.exact(),
                    i <= whens.len(),
                    t == e.view(),
                    t.node == (TreeNode::Case {
                        operand: crate::ast::boxed(*operand),
                        whens: crate::ast::when_trees(whens@),
                        otherwise: crate::ast::boxed(*otherwise),
                    }),
                    e.node == (Node::Case {
                        operand: *operand,
                        whens: *whens,
                        otherwise: *otherwise,
                    }),
                    case_from(t, i as nat, schema@, *fl) == Ok::<Option<Term>, Seq<char>>(
                        maybe(out),
                    ),
                decreases i,
            {
                i -= 1;
                let w = &whens[i];
                assert(t.node->whens[i as int] == w.view());
                assert(w.view().condition == w.condition.view());
                proof {
                    assert(decreases_to!(*e => e.node));
                    assert(decreases_to!(e.node => e.node->whens));
                    assert(decreases_to!(whens@ => whens@[i as int]));
                    if case_from(t, i as nat, schema@, *fl) is Err {
                        lemma_case_err(t, 0, i as nat, schema@, *fl);
                    }
                }
                let cond = match operand {
                    Some(o) => {
                        let l = match bind(o, schema, fl) {
                            Ok(b) => b,
                            Err(m) => {
                                return Err(m);
                            },
                        };
                        match bind(&w.condition, schema, fl) {
                            Ok(r) => Expr::Binary { op: BinOp::Eq, l: Box::new(l), r: Box::new(r) },
                            Err(m) => {
                                return Err(m);
                            },
                        }
                    },
                    None => match bind(&w.condition, schema, fl) {
                        Ok(b) => b,
                        Err(m) => {
                            return Err(m);
                        },
                    },
                };
                let value = match bind(&w.result, schema, fl) {
                    Ok(b) => b,
                    Err(m) => {
                        return Err(m);
                    },
                };
                out = Some(if_of(cond, value, out));
            }
            match out {
                Some(x) => Ok(x),
                None => {
                    let s = String::new();
                    assert(s@ =~= Seq::<char>::empty());
                    Ok(Expr::Lit(Value::Str(s)))
                },
            }
        },
        _ => Err(err(String::new())),
    }
}

proof fn lemma_args_err<F: Floats>(v: Seq<ArgTree>, k: nat, n: nat, s: Seq<Attr>, fl: F)
    requires
        k <= n <= v.len(),
        bound_args(v, k, s, fl) is Err,
    ensures
        bound_args(v, n, s, fl) == bound_args(v, k, s, fl),
    decreases n - k,
{
    if k < n {
        lemma_args_err(v, k, (n - 1) as nat, s, fl);
    }
}

pub fn bind_function<F: Floats>(c: &Call, schema: &Schema, fl: &F) -> (r: Result<Expr, Error>)
    requires
        fl.exact(),
    ensures
        agrees(r, call_bound(c.view(), schema@, *fl)),
    decreases *c, 1nat, 0nat,
{
    let name = match ident_of(&c.name) {
        Ok(n) => n,
        Err(m) => {
            return Err(m);
        },
    };
    if c.windowed {
        return Err(err("оконные функции не поддерживаются".to_owned()));
    }
    match &c.args {
        Args::Subquery => Err(err("подзапрос в аргументах функции".to_owned())),
        Args::Missing => bind_bare(name.as_str()),
        Args::List { distinct, args } => bind_listed(name.as_str(), *distinct, args, schema, fl),
    }
}

fn bind_bare(name: &str) -> (r: Result<Expr, Error>)
    ensures
        agrees(r, bare_bound(name@)),
{
    let lname = to_ascii_lower(name);
    if let Some(func) = aggregate_of(lname.as_str()) {
        if func != AggFunc::Count {
            return Err(err(text2(name, "(*) не имеет смысла")));
        }
        return Ok(Expr::Agg { func, arg: None, distinct: false });
    }
    if Metric::from_name(name).is_some() {
        return Err(err(text2(name, " принимает (векторная_колонка, вектор_запроса)")));
    }
    if ScalarFunc::from_name(name).is_none() {
        return Err(err(text3("функция '", name, "' не поддерживается")));
    }
    Err(err(text4(name, ": неверное число аргументов (", dec_usize(0).as_str(), ")")))
}

#[verifier::rlimit(40)]
fn bind_listed<F: Floats>(
    name: &str,
    distinct: bool,
    args: &Vec<Arg>,
    schema: &Schema,
    fl: &F,
) -> (r: Result<Expr, Error>)
    requires
        fl.exact(),
    ensures
        agrees(r, listed_bound(name@, distinct, crate::ast::arg_trees(args@), schema@, *fl)),
    decreases *args, 1nat, 0nat,
{
    let ghost t = crate::ast::arg_trees(args@);
    let lname = to_ascii_lower(name);
    let (plain, wildcard) = plain_places(args);
    if let Some(func) = aggregate_of(lname.as_str()) {
        if wildcard || plain.len() == 0 {
            if func != AggFunc::Count {
                return Err(err(text2(name, "(*) не имеет смысла")));
            }
            return Ok(Expr::Agg { func, arg: None, distinct: false });
        }
        if plain.len() != 1 {
            return Err(err(text2(name, " принимает один аргумент")));
        }
        let on_its_own = eq_text(lname.as_str(), "uniq") || eq_text(
            lname.as_str(),
            "count_distinct",
        );
        assert(plain@[0] == plain_place(t, 0, 0));
        return match bind_arg(args, plain[0], schema, fl) {
            Ok(b) => Ok(
                Expr::Agg { func, arg: Some(Box::new(b)), distinct: distinct || on_its_own },
            ),
            Err(m) => Err(m),
        };
    }
    if let Some(metric) = Metric::from_name(name) {
        if plain.len() != 2 {
            return Err(err(text2(name, " принимает (векторная_колонка, вектор_запроса)")));
        }
        assert(plain@[0] == plain_place(t, 0, 0));
        assert(plain@[1] == plain_place(t, 1, 0));
        let first = bind_arg(args, plain[0], schema, fl);
        assert(schema.fields@.len() == schema@.len());
        let n: usize = schema.fields.len();
        proof {
            lemma_arg_within(t, plain@[0] as nat, schema@, *fl);
        }
        return bind_distance(name, metric, first, args, plain[1], schema, fl);
    }
    let func = match ScalarFunc::from_name(name) {
        Some(f) => f,
        None => {
            return Err(err(text3("функция '", name, "' не поддерживается")));
        },
    };
    let bound = match bind_args(args, schema, fl) {
        Ok(v) => v,
        Err(m) => {
            return Err(m);
        },
    };
    if !arity_ok(func, bound.len()) {
        return Err(
            err(
                text4(
                    name,
                    ": неверное число аргументов (",
                    dec_usize(bound.len()).as_str(),
                    ")",
                ),
            ),
        );
    }
    Ok(Expr::Func { func, args: bound })
}

fn bind_arg<F: Floats>(args: &Vec<Arg>, i: usize, schema: &Schema, fl: &F) -> (r: Result<
    Expr,
    Error,
>)
    requires
        fl.exact(),
        i < args.len(),
        args@[i as int] is Plain,
    ensures
        agrees(r, bound_arg(crate::ast::arg_trees(args@), i as nat, schema@, *fl)),
    decreases *args, 0nat, 0nat,
{
    assert(crate::ast::arg_trees(args@)[i as int] == args@[i as int].view());
    assert(decreases_to!(args@ => args@[i as int]));
    match &args[i] {
        Arg::Plain(e) => bind(e, schema, fl),
        _ => Err(err(String::new())),
    }
}

fn bind_args<F: Floats>(args: &Vec<Arg>, schema: &Schema, fl: &F) -> (r: Result<Vec<Expr>, Error>)
    requires
        fl.exact(),
    ensures
        match r {
            Ok(v) => bound_args(crate::ast::arg_trees(args@), args@.len(), schema@, *fl) == Ok::<
                Seq<Term>,
                Seq<char>,
            >(terms(v@)),
            Err(e) => bound_args(crate::ast::arg_trees(args@), args@.len(), schema@, *fl) == Err::<
                Seq<Term>,
                Seq<char>,
            >(e@),
        },
    decreases *args, 0nat, 0nat,
{
    let ghost t = crate::ast::arg_trees(args@);
    let mut out: Vec<Expr> = Vec::new();
    let mut i: usize = 0;
    assert(terms(out@) =~= Seq::<Term>::empty());
    while i < args.len()
        invariant
            i <= args.len(),
            fl.exact(),
            t == crate::ast::arg_trees(args@),
            bound_args(t, i as nat, schema@, *fl) == Ok::<Seq<Term>, Seq<char>>(terms(out@)),
        decreases args.len() - i,
    {
        assert(t[i as int] == args@[i as int].view());
        assert(decreases_to!(args@ => args@[i as int]));
        match &args[i] {
            Arg::Plain(e) => match bind(e, schema, fl) {
                Ok(b) => {
                    let ghost before = terms(out@);
                    out.push(b);
                    assert(terms(out@) =~= before.push(b.view()));
                },
                Err(m) => {
                    proof {
                        lemma_args_err(t, (i + 1) as nat, t.len(), schema@, *fl);
                    }
                    return Err(m);
                },
            },
            _ => {},
        }
        i += 1;
    }
    Ok(out)
}

fn bind_distance<F: Floats>(
    name: &str,
    metric: Metric,
    first: Result<Expr, Error>,
    args: &Vec<Arg>,
    second: usize,
    schema: &Schema,
    fl: &F,
) -> (r: Result<Expr, Error>)
    requires
        fl.exact(),
        second < args@.len(),
        args@[second as int] is Plain,
        first matches Ok(x) ==> within(x.view(), schema@.len()),
    ensures
        match first {
            Ok(x) => agrees(
                r,
                distance_term(
                    name@,
                    metric,
                    Ok(x.view()),
                    vector_arg(crate::ast::arg_trees(args@), second as nat, *fl),
                    schema@,
                ),
            ),
            Err(e) => r matches Err(m) && m@ == e@,
        },
{
    let col = match first {
        Ok(Expr::Col(i)) => i,
        Ok(_) => {
            return Err(
                err(text3("первый аргумент ", name, " должен быть векторной колонкой")),
            );
        },
        Err(m) => {
            return Err(m);
        },
    };
    assert(crate::ast::arg_trees(args@)[second as int] == args@[second as int].view());
    let f = &schema.fields[col];
    let dim = match f.ty {
        DataType::Vector(d) => d,
        other => {
            return Err(
                err(
                    text5(
                        "колонка '",
                        f.name.as_str(),
                        "' имеет тип ",
                        other.name().as_str(),
                        ", а не VECTOR",
                    ),
                ),
            );
        },
    };
    let query = match &args[second] {
        Arg::Plain(e) => match vector_literal(e, fl) {
            Ok(q) => q,
            Err(m) => {
                return Err(m);
            },
        },
        _ => {
            return Err(err(String::new()));
        },
    };
    if query.len() != dim {
        return Err(
            err(
                text5(
                    "вектор запроса длины ",
                    dec_usize(query.len()).as_str(),
                    ", колонка VECTOR(",
                    dec_usize(dim).as_str(),
                    ")",
                ),
            ),
        );
    }
    Ok(Expr::Distance { metric, col, query })
}

// --- laws ------------------------------------------------------------------------------------------

/// Whether an expression names only the first `n` columns.
pub open spec fn within(t: Term, n: nat) -> bool
    decreases t,
{
    match t {
        Term::Col(i) => i < n,
        Term::Lit(_) => true,
        Term::Binary { l, r, .. } => within(*l, n) && within(*r, n),
        Term::Unary { e, .. } => within(*e, n),
        Term::Like { e, .. } => within(*e, n),
        Term::InList { e, .. } => within(*e, n),
        Term::Between { e, low, high, .. } => within(*e, n) && within(*low, n) && within(*high, n),
        Term::Func { args, .. } => forall|i: int|
            0 <= i < args.len() ==> within(#[trigger] args[i], n),
        Term::Distance { col, .. } => col < n,
        Term::Agg { arg, .. } => match arg {
            Some(e) => within(*e, n),
            None => true,
        },
        Term::Cast { e, .. } => within(*e, n),
    }
}

/// An expression that could be bound to a schema names only columns of that schema.
#[verifier::rlimit(60)]
#[verifier::spinoff_prover]
pub proof fn lemma_bound_within<F: Floats>(t: Tree, s: Seq<Attr>, fl: F)
    requires
        s.len() <= usize::MAX,
    ensures
        bound(t, s, fl) matches Ok(x) ==> within(x, s.len()),
    decreases t, 1nat, 0nat,
{
    match t.node {
        TreeNode::Ident(name) => crate::table::lemma_column_from(s, name, 0),
        TreeNode::Compound(parts) => crate::table::lemma_column_from(s, parts.last(), 0),
        TreeNode::Nested(e) => lemma_bound_within(*e, s, fl),
        TreeNode::Unary { e, .. } => {
            lemma_bound_within(*e, s, fl);
            if let Ok(x) = bound(*e, s, fl) {
                assert(within(negative(x), s.len()));
            }
        },
        TreeNode::Binary { l, r, .. } => {
            lemma_bound_within(*l, s, fl);
            lemma_bound_within(*r, s, fl);
        },
        TreeNode::Like { e, .. } => lemma_bound_within(*e, s, fl),
        TreeNode::InList { e, .. } => lemma_bound_within(*e, s, fl),
        TreeNode::Between { e, low, high, .. } => {
            lemma_bound_within(*e, s, fl);
            lemma_bound_within(*low, s, fl);
            lemma_bound_within(*high, s, fl);
        },
        TreeNode::Cast { e, .. } => lemma_bound_within(*e, s, fl),
        TreeNode::Extract { e, .. } => lemma_bound_within(*e, s, fl),
        TreeNode::Substring { e, from, count } => {
            lemma_bound_within(*e, s, fl);
            if let Some(f) = from {
                lemma_bound_within(*f, s, fl);
            }
            if let Some(c) = count {
                lemma_bound_within(*c, s, fl);
            }
            if let Ok(x) = bound(t, s, fl) {
                let args = x->args;
                assert(within(Term::Lit(Cell::I64(1)), s.len()));
                assert(within(args[0], s.len()) && within(args[1], s.len()));
            }
        },
        TreeNode::Case { .. } => lemma_case_within(t, 0, s, fl),
        TreeNode::Call(c) => lemma_call_within(c, s, fl),
        TreeNode::Rounded { e, .. } => lemma_bound_within(*e, s, fl),
        _ => {},
    }
}

proof fn lemma_case_within<F: Floats>(t: Tree, i: nat, s: Seq<Attr>, fl: F)
    requires
        s.len() <= usize::MAX,
        t.node is Case,
    ensures
        case_from(t, i, s, fl) matches Ok(Some(x)) ==> within(x, s.len()),
    decreases t, 0nat, t.node->whens.len() - i,
{
    if let TreeNode::Case { operand, whens, otherwise } = t.node {
        if i >= whens.len() {
            if let Some(e) = otherwise {
                lemma_bound_within(*e, s, fl);
            }
        } else {
            assert(decreases_to!(t => t.node->whens));
            assert(decreases_to!(whens => whens[i as int]));
            lemma_case_within(t, i + 1, s, fl);
            lemma_bound_within(whens[i as int].condition, s, fl);
            lemma_bound_within(whens[i as int].result, s, fl);
            if let Some(o) = operand {
                lemma_bound_within(*o, s, fl);
            }
            if let Ok(Some(x)) = case_from(t, i, s, fl) {
                let args = x->args;
                if let Some(o) = operand {
                    assert(within(args[0], s.len()));
                }
                assert(within(args[1], s.len()));
            }
        }
    }
}

proof fn lemma_arg_within<F: Floats>(v: Seq<ArgTree>, i: nat, s: Seq<Attr>, fl: F)
    requires
        s.len() <= usize::MAX,
    ensures
        bound_arg(v, i, s, fl) matches Ok(x) ==> within(x, s.len()),
    decreases v, 0nat, 0nat,
{
    if i < v.len() {
        assert(decreases_to!(v => v[i as int]));
        if let ArgTree::Plain(e) = v[i as int] {
            lemma_bound_within(e, s, fl);
        }
    }
}

proof fn lemma_args_within<F: Floats>(v: Seq<ArgTree>, n: nat, s: Seq<Attr>, fl: F)
    requires
        s.len() <= usize::MAX,
    ensures
        bound_args(v, n, s, fl) matches Ok(x) ==> forall|i: int|
            0 <= i < x.len() ==> within(#[trigger] x[i], s.len()),
    decreases v, 0nat, n,
{
    if 0 < n <= v.len() {
        lemma_args_within(v, (n - 1) as nat, s, fl);
        assert(decreases_to!(v => v[n - 1]));
        if let ArgTree::Plain(e) = v[n - 1] {
            lemma_bound_within(e, s, fl);
        }
    }
}

#[verifier::spinoff_prover]
#[verifier::rlimit(60)]
proof fn lemma_listed_within<F: Floats>(
    name: Seq<char>,
    distinct: bool,
    args: Seq<ArgTree>,
    s: Seq<Attr>,
    fl: F,
)
    requires
        s.len() <= usize::MAX,
    ensures
        listed_bound(name, distinct, args, s, fl) matches Ok(x) ==> within(x, s.len()),
    decreases args, 1nat, 0nat,
{
    lemma_arg_within(args, plain_place(args, 0, 0), s, fl);
    lemma_args_within(args, args.len(), s, fl);
}

proof fn lemma_call_within<F: Floats>(c: CallTree, s: Seq<Attr>, fl: F)
    requires
        s.len() <= usize::MAX,
    ensures
        call_bound(c, s, fl) matches Ok(x) ==> within(x, s.len()),
    decreases c, 1nat, 0nat,
{
    if let ArgsTree::List { args, distinct } = c.args {
        if let Ok(name) = last_name(c.name) {
            lemma_listed_within(name, distinct, args, s, fl);
        }
    }
}

} // verus!
