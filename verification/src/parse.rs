//! SQL text to parsed statements, by the parser of `sqlparser`.
//!
//! The parser's own tree is opaque here. What a tree holds has a name for each kind
//! of node (`expr_tree` and the like); the functions that take a node apart say how
//! the parts make up the whole.
use crate::ast::{
    ArgTree, Args, ArgsTree, Arg, AskTree, Ask, Ast, Body, BodyTree, Call, CallTree, ColumnSpec,
    ColumnTree, Item, ItemTree, Limit, LimitTree, Literal, LiteralTree, Name, NameTree, Node,
    OrderBy, OrderTree, Parsed, ParsedTree, Rows, RowsTree, SortKey, SortTree, Source, SourceTree,
    Tree, TreeNode, TypeName, TypeTree, When, WhenTree,
};
use crate::text::{copy_texts, err, in_context, strings, Error};
use crate::token::{refusal_of, refused_text, tokenize};
use sqlparser::ast as sa;
use sqlparser::ast::{
    DataType as SqlType, Expr as SqlExpr, OrderBy as SqlOrderBy, Query as SqlQuery,
    Select as SqlSelect, Statement as SqlStatement, Value as SqlValue,
};
use vstd::prelude::*;

verus! {

#[verifier::external_type_specification]
#[verifier::external_body]
pub struct ExSqlExpr(SqlExpr);

#[verifier::external_type_specification]
#[verifier::external_body]
pub struct ExSqlValue(SqlValue);

#[verifier::external_type_specification]
#[verifier::external_body]
pub struct ExIdent(sa::Ident);

#[verifier::external_type_specification]
#[verifier::external_body]
pub struct ExObjectName(sa::ObjectName);

#[verifier::external_type_specification]
#[verifier::external_body]
pub struct ExSqlType(SqlType);

#[verifier::external_type_specification]
#[verifier::external_body]
pub struct ExFunction(sa::Function);

#[verifier::external_type_specification]
#[verifier::external_body]
pub struct ExFunctionArg(sa::FunctionArg);

#[verifier::external_type_specification]
#[verifier::external_body]
pub struct ExCaseWhen(sa::CaseWhen);

#[verifier::external_type_specification]
#[verifier::external_body]
pub struct ExSqlStatement(SqlStatement);

#[verifier::external_type_specification]
#[verifier::external_body]
pub struct ExCreateTable(sa::CreateTable);

#[verifier::external_type_specification]
#[verifier::external_body]
pub struct ExColumnDef(sa::ColumnDef);

#[verifier::external_type_specification]
#[verifier::external_body]
pub struct ExInsert(sa::Insert);

#[verifier::external_type_specification]
#[verifier::external_body]
pub struct ExSqlQuery(SqlQuery);

#[verifier::external_type_specification]
#[verifier::external_body]
pub struct ExSqlSelect(SqlSelect);

#[verifier::external_type_specification]
#[verifier::external_body]
pub struct ExTableWithJoins(sa::TableWithJoins);

#[verifier::external_type_specification]
#[verifier::external_body]
pub struct ExSelectItem(sa::SelectItem);

#[verifier::external_type_specification]
#[verifier::external_body]
pub struct ExGroupByExpr(sa::GroupByExpr);

#[verifier::external_type_specification]
#[verifier::external_body]
pub struct ExSqlOrderBy(SqlOrderBy);

#[verifier::external_type_specification]
#[verifier::external_body]
pub struct ExOrderByExpr(sa::OrderByExpr);

#[verifier::external_type_specification]
#[verifier::external_body]
pub struct ExLimitClause(sa::LimitClause);

#[verifier::external_type_specification]
#[verifier::external_body]
#[verifier::reject_recursive_types(T)]
pub struct ExParens<T>(sa::Parens<T>);

// --- expressions ---------------------------------------------------------------------------

/// What an expression of `sqlparser` holds, as far as the planner reads it.
pub uninterp spec fn expr_tree(e: sa::Expr) -> Tree;

/// What a literal holds.
pub uninterp spec fn literal_tree(v: sa::Value) -> LiteralTree;

/// The text of an identifier, without quotes.
pub uninterp spec fn ident_text(i: sa::Ident) -> Seq<char>;

/// What the name of an object holds.
pub uninterp spec fn name_tree(n: sa::ObjectName) -> NameTree;

/// What a type holds.
pub uninterp spec fn type_tree(t: sa::DataType) -> TypeTree;

/// What a call of a function holds.
pub uninterp spec fn call_tree(f: sa::Function) -> CallTree;

/// What an argument of a function holds.
pub uninterp spec fn arg_tree(a: sa::FunctionArg) -> ArgTree;

/// What a branch of CASE holds.
pub uninterp spec fn when_tree(w: sa::CaseWhen) -> WhenTree;

pub open spec fn expr_trees(v: Seq<sa::Expr>) -> Seq<Tree> {
    Seq::new(v.len(), |i: int| expr_tree(v[i]))
}

pub open spec fn ident_texts(v: Seq<sa::Ident>) -> Seq<Seq<char>> {
    Seq::new(v.len(), |i: int| ident_text(v[i]))
}

pub open spec fn name_trees(v: Seq<sa::ObjectName>) -> Seq<NameTree> {
    Seq::new(v.len(), |i: int| name_tree(v[i]))
}

pub open spec fn arg_trees_of(v: Seq<sa::FunctionArg>) -> Seq<ArgTree> {
    Seq::new(v.len(), |i: int| arg_tree(v[i]))
}

pub open spec fn when_trees_of(v: Seq<sa::CaseWhen>) -> Seq<WhenTree> {
    Seq::new(v.len(), |i: int| when_tree(v[i]))
}

pub open spec fn child(e: Option<&sa::Expr>) -> Option<Box<Tree>> {
    match e {
        Some(x) => Some(Box::new(expr_tree(*x))),
        None => None,
    }
}

/// The top of an expression without operators.
enum Leaf<'a> {
    Ident(String),
    Compound(&'a Vec<sa::Ident>),
    Value(&'a sa::Value),
    Nested(&'a sa::Expr),
    Array(&'a Vec<sa::Expr>),
    Call(&'a sa::Function),
    IsNull,
    Else,
}

/// The top of an expression that is an operator.
enum Oper<'a> {
    Unary(String, &'a sa::Expr),
    Binary(String, &'a sa::Expr, &'a sa::Expr),
    Like(&'a sa::Expr, &'a sa::Expr, bool, bool),
    InList(&'a sa::Expr, &'a Vec<sa::Expr>, bool),
    Between(&'a sa::Expr, &'a sa::Expr, &'a sa::Expr, bool),
    Else,
}

/// The top of an expression with a syntax of its own.
enum Form<'a> {
    Cast(&'a sa::Expr, &'a sa::DataType),
    Extract(String, &'a sa::Expr),
    Substring(&'a sa::Expr, Option<&'a sa::Expr>, Option<&'a sa::Expr>),
    Else,
}

/// The parts of CASE.
struct CaseParts<'a> {
    operand: Option<&'a sa::Expr>,
    whens: &'a Vec<sa::CaseWhen>,
    otherwise: Option<&'a sa::Expr>,
}

impl<'a> Leaf<'a> {
    /// The node that the parts make up.
    spec fn node(self) -> Option<TreeNode> {
        match self {
            Leaf::Ident(s) => Some(TreeNode::Ident(s@)),
            Leaf::Compound(v) => Some(TreeNode::Compound(ident_texts(v@))),
            Leaf::Value(v) => Some(TreeNode::Value(literal_tree(*v))),
            Leaf::Nested(e) => Some(TreeNode::Nested(Box::new(expr_tree(*e)))),
            Leaf::Array(v) => Some(TreeNode::Array(expr_trees(v@))),
            Leaf::Call(f) => Some(TreeNode::Call(call_tree(*f))),
            Leaf::IsNull => Some(TreeNode::IsNull),
            Leaf::Else => None,
        }
    }
}

impl<'a> Oper<'a> {
    /// The node that the parts make up.
    spec fn node(self) -> Option<TreeNode> {
        match self {
            Oper::Unary(op, e) => Some(
                TreeNode::Unary { op: op@, e: Box::new(expr_tree(*e)) },
            ),
            Oper::Binary(op, l, r) => Some(
                TreeNode::Binary {
                    op: op@,
                    l: Box::new(expr_tree(*l)),
                    r: Box::new(expr_tree(*r)),
                },
            ),
            Oper::Like(e, p, negated, insensitive) => Some(
                TreeNode::Like {
                    e: Box::new(expr_tree(*e)),
                    pattern: Box::new(expr_tree(*p)),
                    negated,
                    insensitive,
                },
            ),
            Oper::InList(e, v, negated) => Some(
                TreeNode::InList { e: Box::new(expr_tree(*e)), list: expr_trees(v@), negated },
            ),
            Oper::Between(e, l, h, negated) => Some(
                TreeNode::Between {
                    e: Box::new(expr_tree(*e)),
                    low: Box::new(expr_tree(*l)),
                    high: Box::new(expr_tree(*h)),
                    negated,
                },
            ),
            Oper::Else => None,
        }
    }
}

impl<'a> Form<'a> {
    /// The node that the parts make up.
    spec fn node(self) -> Option<TreeNode> {
        match self {
            Form::Cast(e, t) => Some(
                TreeNode::Cast { e: Box::new(expr_tree(*e)), ty: type_tree(*t) },
            ),
            Form::Extract(p, e) => Some(
                TreeNode::Extract { part: p@, e: Box::new(expr_tree(*e)) },
            ),
            Form::Substring(e, f, c) => Some(
                TreeNode::Substring {
                    e: Box::new(expr_tree(*e)),
                    from: child(f),
                    count: child(c),
                },
            ),
            Form::Else => None,
        }
    }
}

spec fn is_leaf(n: TreeNode) -> bool {
    n is Ident || n is Compound || n is Value || n is Nested || n is Array || n is Call || n
        is IsNull
}

spec fn is_oper(n: TreeNode) -> bool {
    n is Unary || n is Binary || n is Like || n is InList || n is Between
}

spec fn is_form(n: TreeNode) -> bool {
    n is Cast || n is Extract || n is Substring
}

/// `Display` of an `Expr` of `sqlparser`: its text as SQL. It fails an assertion on a query
/// with `LIMIT ALL BY`, which no expression that [`parse_text`] gives holds.
#[verifier::external_body]
fn expr_text(e: &sa::Expr) -> (r: String)
    ensures
        r@ == expr_tree(*e).text,
{
    e.to_string()
}

/// The variants of an `Expr` of `sqlparser` that stand alone, taken apart.
#[verifier::external_body]
fn leaf_of(e: &sa::Expr) -> (r: Leaf<'_>)
    ensures
        match r.node() {
            Some(n) => expr_tree(*e).node == n,
            None => !is_leaf(expr_tree(*e).node),
        },
{
    match e {
        sa::Expr::Identifier(i) => Leaf::Ident(i.value.clone()),
        sa::Expr::CompoundIdentifier(v) => Leaf::Compound(v),
        sa::Expr::Value(v) => Leaf::Value(&v.value),
        sa::Expr::Nested(x) => Leaf::Nested(x),
        sa::Expr::Array(a) => Leaf::Array(&a.elem),
        sa::Expr::Function(f) => Leaf::Call(f),
        sa::Expr::IsNull(_) => Leaf::IsNull,
        sa::Expr::IsNotNull(_) => Leaf::IsNull,
        _ => Leaf::Else,
    }
}

/// The variants of an `Expr` of `sqlparser` that are operators, taken apart; an
/// operator is given by its text as SQL.
#[verifier::external_body]
fn oper_of(e: &sa::Expr) -> (r: Oper<'_>)
    ensures
        match r.node() {
            Some(n) => expr_tree(*e).node == n,
            None => !is_oper(expr_tree(*e).node),
        },
{
    match e {
        sa::Expr::UnaryOp { op, expr } => Oper::Unary(op.to_string(), expr),
        sa::Expr::BinaryOp { left, op, right } => Oper::Binary(op.to_string(), left, right),
        sa::Expr::Like { negated, expr, pattern, .. } => Oper::Like(expr, pattern, *negated, false),
        sa::Expr::ILike { negated, expr, pattern, .. } => Oper::Like(expr, pattern, *negated, true),
        sa::Expr::InList { expr, list, negated } => Oper::InList(expr, list, *negated),
        sa::Expr::Between { expr, negated, low, high } => Oper::Between(expr, low, high, *negated),
        _ => Oper::Else,
    }
}

/// The variants `Cast`, `Extract` and `Substring` of an `Expr` of `sqlparser`, taken
/// apart; the part of a time is given by its text as SQL.
#[verifier::external_body]
fn form_of(e: &sa::Expr) -> (r: Form<'_>)
    ensures
        match r.node() {
            Some(n) => expr_tree(*e).node == n,
            None => !is_form(expr_tree(*e).node),
        },
{
    match e {
        sa::Expr::Cast { expr, data_type, .. } => Form::Cast(expr, data_type),
        sa::Expr::Extract { field, expr, .. } => Form::Extract(field.to_string(), expr),
        sa::Expr::Substring { expr, substring_from: a, substring_for: b, .. } => {
            Form::Substring(expr, a.as_deref(), b.as_deref())
        }
        _ => Form::Else,
    }
}

/// The variant `Case` of an `Expr` of `sqlparser`, taken apart.
#[verifier::external_body]
fn case_of(e: &sa::Expr) -> (r: Option<CaseParts<'_>>)
    ensures
        match r {
            Some(c) => expr_tree(*e).node == (TreeNode::Case {
                operand: child(c.operand),
                whens: when_trees_of(c.whens@),
                otherwise: child(c.otherwise),
            }),
            None => !(expr_tree(*e).node is Case),
        },
{
    match e {
        sa::Expr::Case { operand: o, conditions: whens, else_result: x, .. } => {
            Some(CaseParts { operand: o.as_deref(), whens, otherwise: x.as_deref() })
        }
        _ => None,
    }
}

/// The variants `Ceil` and `Floor` of an `Expr` of `sqlparser`, taken apart: whether
/// it rounds up, whether it has no further argument, and what it rounds.
#[verifier::external_body]
fn rounding_of(e: &sa::Expr) -> (r: Option<(bool, bool, &sa::Expr)>)
    ensures
        match r {
            Some((up, plain, x)) => expr_tree(*e).node == (TreeNode::Rounded {
                up,
                plain,
                e: Box::new(expr_tree(*x)),
            }),
            None => !(expr_tree(*e).node is Rounded),
        },
{
    let (up, expr, field) = match e {
        sa::Expr::Ceil { expr, field } => (true, expr, field),
        sa::Expr::Floor { expr, field } => (false, expr, field),
        _ => return None,
    };
    let unit = sa::CeilFloorKind::DateTimeField(sa::DateTimeField::NoDateTime);
    Some((up, *field == unit, expr))
}

/// A `Value` of `sqlparser`, its variants told apart.
#[verifier::external_body]
fn literal_of(v: &sa::Value) -> (r: Literal)
    ensures
        r@ == literal_tree(*v),
{
    match v {
        sa::Value::Number(n, _) => Literal::Number(n.clone()),
        sa::Value::SingleQuotedString(s) => Literal::Text(s.clone()),
        sa::Value::DoubleQuotedString(s) => Literal::Text(s.clone()),
        sa::Value::Boolean(b) => Literal::Bool(*b),
        _ => Literal::Other,
    }
}

/// The field `value` of an `Ident` of `sqlparser`.
#[verifier::external_body]
fn ident_value(i: &sa::Ident) -> (r: String)
    ensures
        r@ == ident_text(*i),
{
    i.value.clone()
}

/// An `ObjectName` of `sqlparser`: each of its parts, none for one that is no identifier, and
/// its text as SQL.
#[verifier::external_body]
fn name_of(n: &sa::ObjectName) -> (r: Name)
    ensures
        r@ == name_tree(*n),
{
    let parts = n.0.iter().map(|p| p.as_ident().map(|i| i.value.clone())).collect();
    Name { parts, text: n.to_string() }
}

/// A `DataType` of `sqlparser`: its text as SQL, and the name and arguments of its
/// variant `Custom`.
#[verifier::external_body]
fn type_parts(t: &sa::DataType) -> (r: (String, Option<(&sa::ObjectName, &Vec<String>)>))
    ensures
        r.0@ == type_tree(*t).text,
        type_tree(*t).custom == (match r.1 {
            Some((n, args)) => Some((name_tree(*n), strings(args@))),
            None => None,
        }),
{
    let custom = match t {
        sa::DataType::Custom(name, args) => Some((name, args)),
        _ => None,
    };
    (t.to_string(), custom)
}

/// The arguments of a call.
enum CallArgs<'a> {
    Missing,
    Subquery,
    List(bool, &'a Vec<sa::FunctionArg>),
}

spec fn call_args(a: CallArgs<'_>) -> ArgsTree {
    match a {
        CallArgs::Missing => ArgsTree::Missing,
        CallArgs::Subquery => ArgsTree::Subquery,
        CallArgs::List(distinct, v) => ArgsTree::List { distinct, args: arg_trees_of(v@) },
    }
}

/// A `Function` of `sqlparser`: its name, whether it has `OVER`, its arguments.
#[verifier::external_body]
fn call_parts(f: &sa::Function) -> (r: (&sa::ObjectName, bool, CallArgs<'_>))
    ensures
        call_tree(*f) == (CallTree {
            name: name_tree(*r.0),
            windowed: r.1,
            args: call_args(r.2),
        }),
{
    let args = match &f.args {
        sa::FunctionArguments::None => CallArgs::Missing,
        sa::FunctionArguments::Subquery(_) => CallArgs::Subquery,
        sa::FunctionArguments::List(l) => CallArgs::List(
            l.duplicate_treatment == Some(sa::DuplicateTreatment::Distinct),
            &l.args,
        ),
    };
    (&f.name, f.over.is_some(), args)
}

/// One argument of a call.
enum OneArg<'a> {
    Plain(&'a sa::Expr),
    Wildcard,
    Else,
}

/// A `FunctionArg` of `sqlparser`: an expression, with or without a name, or `*`.
#[verifier::external_body]
fn arg_of(a: &sa::FunctionArg) -> (r: OneArg<'_>)
    ensures
        arg_tree(*a) == (match r {
            OneArg::Plain(e) => ArgTree::Plain(expr_tree(*e)),
            OneArg::Wildcard => ArgTree::Wildcard,
            OneArg::Else => ArgTree::Other,
        }),
{
    match a {
        sa::FunctionArg::Unnamed(sa::FunctionArgExpr::Expr(e)) => OneArg::Plain(e),
        sa::FunctionArg::Named { arg: sa::FunctionArgExpr::Expr(e), .. } => OneArg::Plain(e),
        sa::FunctionArg::Unnamed(sa::FunctionArgExpr::Wildcard) => OneArg::Wildcard,
        _ => OneArg::Else,
    }
}

/// A `CaseWhen` of `sqlparser`: its condition and its result.
#[verifier::external_body]
fn when_parts(w: &sa::CaseWhen) -> (r: (&sa::Expr, &sa::Expr))
    ensures
        when_tree(*w) == (WhenTree { condition: expr_tree(*r.0), result: expr_tree(*r.1) }),
{
    (&w.condition, &w.result)
}

fn lower_type(t: &sa::DataType) -> (r: TypeName)
    ensures
        r@ == type_tree(*t),
{
    let (text, custom) = type_parts(t);
    let custom = match custom {
        Some((n, args)) => Some((name_of(n), copy_texts(args))),
        None => None,
    };
    TypeName { text, custom }
}

fn lower_opt(e: Option<&sa::Expr>) -> (r: Option<Box<Ast>>)
    ensures
        crate::ast::boxed(r) == child(e),
    decreases child(e), 0nat,
{
    match e {
        Some(x) => {
            proof {
                assert(decreases_to!(child(e) => child(e)->Some_0));
            }
            Some(Box::new(lower_expr(x)))
        },
        None => None,
    }
}

fn lower_all(v: &Vec<sa::Expr>) -> (r: Vec<Ast>)
    ensures
        crate::ast::trees(r@) == expr_trees(v@),
    decreases expr_trees(v@), 0nat,
{
    let mut out: Vec<Ast> = Vec::new();
    let mut i: usize = 0;
    while i < v.len()
        invariant
            i <= v.len(),
            out.len() == i,
            forall|k: int| 0 <= k < i ==> (#[trigger] out[k]).view() == expr_tree(v@[k]),
        decreases v.len() - i,
    {
        assert(decreases_to!(expr_trees(v@) => expr_trees(v@)[i as int]));
        out.push(lower_expr(&v[i]));
        i += 1;
    }
    assert(crate::ast::trees(out@) =~= expr_trees(v@));
    out
}

fn lower_whens(v: &Vec<sa::CaseWhen>) -> (r: Vec<When>)
    ensures
        crate::ast::when_trees(r@) == when_trees_of(v@),
    decreases when_trees_of(v@), 0nat,
{
    let ghost ts = when_trees_of(v@);
    let mut out: Vec<When> = Vec::new();
    let mut i: usize = 0;
    while i < v.len()
        invariant
            i <= v.len(),
            ts == when_trees_of(v@),
            out.len() == i,
            forall|k: int| 0 <= k < i ==> (#[trigger] out[k]).view() == ts[k],
        decreases v.len() - i,
    {
        let (c, x) = when_parts(&v[i]);
        proof {
            assert(decreases_to!(ts => ts[i as int]));
            assert(decreases_to!(ts[i as int] => ts[i as int].condition));
            assert(decreases_to!(ts[i as int] => ts[i as int].result));
        }
        let condition = lower_expr(c);
        let result = lower_expr(x);
        out.push(When { condition, result });
        i += 1;
    }
    assert(crate::ast::when_trees(out@) =~= ts);
    out
}

fn lower_args(v: &Vec<sa::FunctionArg>) -> (r: Vec<Arg>)
    ensures
        crate::ast::arg_trees(r@) == arg_trees_of(v@),
    decreases arg_trees_of(v@), 0nat,
{
    let ghost ts = arg_trees_of(v@);
    let mut out: Vec<Arg> = Vec::new();
    let mut i: usize = 0;
    while i < v.len()
        invariant
            i <= v.len(),
            ts == arg_trees_of(v@),
            out.len() == i,
            forall|k: int| 0 <= k < i ==> (#[trigger] out[k]).view() == ts[k],
        decreases v.len() - i,
    {
        let a = match arg_of(&v[i]) {
            OneArg::Plain(e) => {
                proof {
                    assert(decreases_to!(ts => ts[i as int]));
                    assert(decreases_to!(ts[i as int] => ts[i as int]->Plain_0));
                }
                Arg::Plain(lower_expr(e))
            },
            OneArg::Wildcard => Arg::Wildcard,
            OneArg::Else => Arg::Other,
        };
        out.push(a);
        i += 1;
    }
    assert(crate::ast::arg_trees(out@) =~= ts);
    out
}

fn lower_call(f: &sa::Function) -> (r: Call)
    ensures
        r.view() == call_tree(*f),
    decreases call_tree(*f), 0nat,
{
    let (name, windowed, args) = call_parts(f);
    let ghost t = call_tree(*f);
    let args = match args {
        CallArgs::Missing => Args::Missing,
        CallArgs::Subquery => Args::Subquery,
        CallArgs::List(distinct, v) => {
            proof {
                assert(decreases_to!(t => t.args));
                assert(decreases_to!(t.args => t.args->List_args));
            }
            Args::List { distinct, args: lower_args(v) }
        },
    };
    Call { name: name_of(name), windowed, args }
}

fn lower_idents(v: &Vec<sa::Ident>) -> (r: Vec<String>)
    ensures
        strings(r@) == ident_texts(v@),
{
    let mut out: Vec<String> = Vec::new();
    let mut i: usize = 0;
    while i < v.len()
        invariant
            i <= v.len(),
            out.len() == i,
            forall|k: int| 0 <= k < i ==> (#[trigger] out[k])@ == ident_text(v@[k]),
        decreases v.len() - i,
    {
        out.push(ident_value(&v[i]));
        i += 1;
    }
    assert(strings(out@) =~= ident_texts(v@));
    out
}

fn lower_leaf(e: &sa::Expr, l: Leaf<'_>) -> (r: Node)
    requires
        l.node() == Some(expr_tree(*e).node),
    ensures
        r.view() == expr_tree(*e).node,
    decreases expr_tree(*e), 0nat,
{
    let ghost t = expr_tree(*e);
    proof {
        assert(decreases_to!(t => t.node));
    }
    match l {
        Leaf::Ident(s) => Node::Ident(s),
        Leaf::Compound(v) => Node::Compound(lower_idents(v)),
        Leaf::Value(v) => Node::Value(literal_of(v)),
        Leaf::Nested(x) => {
            proof {
                assert(decreases_to!(t.node => t.node->Nested_0));
            }
            Node::Nested(Box::new(lower_expr(x)))
        },
        Leaf::Array(v) => {
            proof {
                assert(decreases_to!(t.node => t.node->Array_0));
            }
            Node::Array(lower_all(v))
        },
        Leaf::Call(f) => {
            proof {
                assert(decreases_to!(t.node => t.node->Call_0));
            }
            Node::Call(lower_call(f))
        },
        Leaf::IsNull => Node::IsNull,
        Leaf::Else => Node::Other,
    }
}

fn lower_oper(e: &sa::Expr, o: Oper<'_>) -> (r: Node)
    requires
        o.node() == Some(expr_tree(*e).node),
    ensures
        r.view() == expr_tree(*e).node,
    decreases expr_tree(*e), 0nat,
{
    let ghost t = expr_tree(*e);
    proof {
        assert(decreases_to!(t => t.node));
    }
    match o {
        Oper::Unary(op, x) => {
            proof {
                assert(decreases_to!(t.node => t.node->Unary_e));
            }
            Node::Unary { op, e: Box::new(lower_expr(x)) }
        },
        Oper::Binary(op, l, r) => {
            proof {
                assert(decreases_to!(t.node => t.node->l));
                assert(decreases_to!(t.node => t.node->r));
            }
            Node::Binary { op, l: Box::new(lower_expr(l)), r: Box::new(lower_expr(r)) }
        },
        Oper::Like(x, p, negated, insensitive) => {
            proof {
                assert(decreases_to!(t.node => t.node->Like_e));
                assert(decreases_to!(t.node => t.node->pattern));
            }
            Node::Like {
                e: Box::new(lower_expr(x)),
                pattern: Box::new(lower_expr(p)),
                negated,
                insensitive,
            }
        },
        Oper::InList(x, v, negated) => {
            proof {
                assert(decreases_to!(t.node => t.node->InList_e));
                assert(decreases_to!(t.node => t.node->list));
            }
            Node::InList { e: Box::new(lower_expr(x)), list: lower_all(v), negated }
        },
        Oper::Between(x, l, h, negated) => {
            proof {
                assert(decreases_to!(t.node => t.node->Between_e));
                assert(decreases_to!(t.node => t.node->low));
                assert(decreases_to!(t.node => t.node->high));
            }
            Node::Between {
                e: Box::new(lower_expr(x)),
                low: Box::new(lower_expr(l)),
                high: Box::new(lower_expr(h)),
                negated,
            }
        },
        Oper::Else => Node::Other,
    }
}

fn lower_form(e: &sa::Expr, f: Form<'_>) -> (r: Node)
    requires
        f.node() == Some(expr_tree(*e).node),
    ensures
        r.view() == expr_tree(*e).node,
    decreases expr_tree(*e), 0nat,
{
    let ghost t = expr_tree(*e);
    proof {
        assert(decreases_to!(t => t.node));
    }
    match f {
        Form::Cast(x, ty) => {
            proof {
                assert(decreases_to!(t.node => t.node->Cast_e));
            }
            Node::Cast { e: Box::new(lower_expr(x)), ty: lower_type(ty) }
        },
        Form::Extract(part, x) => {
            proof {
                assert(decreases_to!(t.node => t.node->Extract_e));
            }
            Node::Extract { part, e: Box::new(lower_expr(x)) }
        },
        Form::Substring(x, a, b) => {
            proof {
                assert(decreases_to!(t.node => t.node->Substring_e));
                assert(decreases_to!(t.node => t.node->from));
                assert(decreases_to!(t.node => t.node->count));
            }
            Node::Substring {
                e: Box::new(lower_expr(x)),
                from: lower_opt(a),
                count: lower_opt(b),
            }
        },
        Form::Else => Node::Other,
    }
}

fn lower_expr(e: &sa::Expr) -> (r: Ast)
    ensures
        r.view() == expr_tree(*e),
    decreases expr_tree(*e), 1nat,
{
    let ghost t = expr_tree(*e);
    proof {
        assert(decreases_to!(t => t.node));
    }
    let text = expr_text(e);
    let node = match leaf_of(e) {
        Leaf::Else => match oper_of(e) {
            Oper::Else => match form_of(e) {
                Form::Else => match case_of(e) {
                    Some(c) => {
                        proof {
                            assert(decreases_to!(t.node => t.node->operand));
                            assert(decreases_to!(t.node => t.node->whens));
                            assert(decreases_to!(t.node => t.node->otherwise));
                        }
                        Node::Case {
                            operand: lower_opt(c.operand),
                            whens: lower_whens(c.whens),
                            otherwise: lower_opt(c.otherwise),
                        }
                    },
                    None => match rounding_of(e) {
                        Some((up, plain, x)) => {
                            proof {
                                assert(decreases_to!(t.node => t.node->Rounded_e));
                            }
                            Node::Rounded { up, plain, e: Box::new(lower_expr(x)) }
                        },
                        None => Node::Other,
                    },
                },
                f => lower_form(e, f),
            },
            o => lower_oper(e, o),
        },
        l => lower_leaf(e, l),
    };
    Ast { text, node }
}

// --- statements -----------------------------------------------------------------------------

/// What a statement of `sqlparser` holds, as far as the planner reads it.
pub uninterp spec fn statement_tree(s: sa::Statement) -> ParsedTree;

/// What a CREATE TABLE holds.
pub uninterp spec fn create_tree(c: sa::CreateTable) -> ParsedTree;

/// What a column of CREATE TABLE holds.
pub uninterp spec fn column_tree(c: sa::ColumnDef) -> ColumnTree;

/// What an INSERT holds.
pub uninterp spec fn insert_tree(i: sa::Insert) -> ParsedTree;

/// The rows that a query under INSERT gives.
pub uninterp spec fn rows_tree(q: sa::Query) -> RowsTree;

/// What a row of VALUES holds.
pub uninterp spec fn row_tree(r: sa::Parens<Vec<sa::Expr>>) -> Seq<Tree>;

/// What a query holds.
pub uninterp spec fn query_tree(q: sa::Query) -> AskTree;

/// What a simple SELECT holds.
pub uninterp spec fn select_tree(s: sa::Select) -> BodyTree;

/// What a source in FROM holds.
pub uninterp spec fn source_tree(t: sa::TableWithJoins) -> SourceTree;

/// What an item of SELECT holds.
pub uninterp spec fn item_tree(i: sa::SelectItem) -> ItemTree;

/// The keys of a GROUP BY; `None` for `GROUP BY ALL`.
pub uninterp spec fn group_tree(g: sa::GroupByExpr) -> Option<Seq<Tree>>;

/// What an ORDER BY holds.
pub uninterp spec fn order_tree(o: sa::OrderBy) -> OrderTree;

/// What a key of ORDER BY holds.
pub uninterp spec fn sort_tree(o: sa::OrderByExpr) -> SortTree;

/// What LIMIT and OFFSET hold.
pub uninterp spec fn limit_tree(l: sa::LimitClause) -> LimitTree;

/// The statements of a text, or what the parser says is wrong with it.
pub uninterp spec fn parsed(sql: Seq<char>) -> Result<Seq<ParsedTree>, Seq<char>>;

pub open spec fn statement_trees(v: Seq<sa::Statement>) -> Seq<ParsedTree> {
    Seq::new(v.len(), |i: int| statement_tree(v[i]))
}

pub open spec fn column_trees_of(v: Seq<sa::ColumnDef>) -> Seq<ColumnTree> {
    Seq::new(v.len(), |i: int| column_tree(v[i]))
}

pub open spec fn row_trees_of(v: Seq<sa::Parens<Vec<sa::Expr>>>) -> Seq<Seq<Tree>> {
    Seq::new(v.len(), |i: int| row_tree(v[i]))
}

pub open spec fn source_trees_of(v: Seq<sa::TableWithJoins>) -> Seq<SourceTree> {
    Seq::new(v.len(), |i: int| source_tree(v[i]))
}

pub open spec fn item_trees_of(v: Seq<sa::SelectItem>) -> Seq<ItemTree> {
    Seq::new(v.len(), |i: int| item_tree(v[i]))
}

pub open spec fn sort_trees_of(v: Seq<sa::OrderByExpr>) -> Seq<SortTree> {
    Seq::new(v.len(), |i: int| sort_tree(v[i]))
}

pub open spec fn expr_opt(e: Option<&sa::Expr>) -> Option<Tree> {
    match e {
        Some(x) => Some(expr_tree(*x)),
        None => None,
    }
}

pub open spec fn table_opt(n: Option<&sa::ObjectName>) -> Option<NameTree> {
    match n {
        Some(x) => Some(name_tree(*x)),
        None => None,
    }
}

/// `Parser::parse_sql` of `sqlparser` with the generic dialect: the statements of the
/// text, or the text of the error; both depend on the text alone. On `FLUSH RELAY LOGS FOR
/// CHANNEL` without a name it panics, and of what it gives for `LIMIT ALL BY` inside something
/// else the text cannot be had (`expr_text`, `statement_kind`), so that texts with these are
/// left out. Trees of `sqlparser` come from here alone.
#[verifier::external_body]
fn parse_text(sql: &str) -> (r: Result<Vec<sa::Statement>, String>)
    requires
        refused_text(sql@) is None,
    ensures
        parsed(sql@) == (match r {
            Ok(v) => Ok(statement_trees(v@)),
            Err(e) => Err(e@),
        }),
{
    let dialect = sqlparser::dialect::GenericDialect {};
    sqlparser::parser::Parser::parse_sql(&dialect, sql).map_err(|e| e.to_string())
}

/// The kinds of statements.
enum Kind<'a> {
    Create(&'a sa::CreateTable),
    Drop(String, bool, &'a Vec<sa::ObjectName>),
    Insert(&'a sa::Insert),
    Query(&'a sa::Query),
    ShowTables,
    Describe(&'a sa::ObjectName),
    Else(String),
}

/// A `Statement` of `sqlparser`, its variants told apart; what DROP drops, and a
/// statement of another kind, are given by their text as SQL.
#[verifier::external_body]
fn statement_kind(s: &sa::Statement) -> (r: Kind<'_>)
    ensures
        statement_tree(*s) == (match r {
            Kind::Create(c) => create_tree(*c),
            Kind::Drop(kind, if_exists, v) => ParsedTree::Drop {
                kind: kind@,
                if_exists,
                names: name_trees(v@),
            },
            Kind::Insert(i) => insert_tree(*i),
            Kind::Query(q) => ParsedTree::Query(query_tree(*q)),
            Kind::ShowTables => ParsedTree::ShowTables,
            Kind::Describe(n) => ParsedTree::Describe(name_tree(*n)),
            Kind::Else(t) => ParsedTree::Other(t@),
        }),
{
    match s {
        sa::Statement::CreateTable(c) => Kind::Create(c),
        sa::Statement::Drop { object_type, if_exists, names, .. } => {
            Kind::Drop(object_type.to_string(), *if_exists, names)
        }
        sa::Statement::Insert(i) => Kind::Insert(i),
        sa::Statement::Query(q) => Kind::Query(q),
        sa::Statement::ShowTables { .. } => Kind::ShowTables,
        sa::Statement::ExplainTable { table_name, .. } => Kind::Describe(table_name),
        other => Kind::Else(other.to_string()),
    }
}

/// The parts of CREATE TABLE.
struct CreateParts<'a> {
    name: &'a sa::ObjectName,
    columns: &'a Vec<sa::ColumnDef>,
    if_not_exists: bool,
    from_query: bool,
}

/// A `CreateTable` of `sqlparser`: its name, its columns, `IF NOT EXISTS`, and
/// whether it has a query.
#[verifier::external_body]
fn create_parts(c: &sa::CreateTable) -> (r: CreateParts<'_>)
    ensures
        create_tree(*c) == (ParsedTree::CreateTable {
            name: name_tree(*r.name),
            columns: column_trees_of(r.columns@),
            if_not_exists: r.if_not_exists,
            from_query: r.from_query,
        }),
{
    CreateParts {
        name: &c.name,
        columns: &c.columns,
        if_not_exists: c.if_not_exists,
        from_query: c.query.is_some(),
    }
}

/// A `ColumnDef` of `sqlparser`: its name and its type.
#[verifier::external_body]
fn column_parts(c: &sa::ColumnDef) -> (r: (String, &sa::DataType))
    ensures
        column_tree(*c) == (ColumnTree { name: r.0@, ty: type_tree(*r.1) }),
{
    (c.name.value.clone(), &c.data_type)
}

/// The parts of INSERT.
struct InsertParts<'a> {
    table: Option<&'a sa::ObjectName>,
    text: String,
    columns: &'a Vec<sa::ObjectName>,
    source: Option<&'a sa::Query>,
}

spec fn source_rows(q: Option<&sa::Query>) -> RowsTree {
    match q {
        Some(x) => rows_tree(*x),
        None => RowsTree::Missing,
    }
}

/// An `Insert` of `sqlparser`: the table where it is given by its name, the text of
/// what it goes into, its columns, and the query that gives its rows.
#[verifier::external_body]
fn insert_parts(i: &sa::Insert) -> (r: InsertParts<'_>)
    ensures
        insert_tree(*i) == (ParsedTree::Insert {
            table: table_opt(r.table),
            text: r.text@,
            columns: name_trees(r.columns@),
            rows: source_rows(r.source),
        }),
{
    let table = match &i.table {
        sa::TableObject::TableName(n) => Some(n),
        _ => None,
    };
    let (text, source) = (i.table.to_string(), i.source.as_deref());
    InsertParts { table, text, columns: &i.columns, source }
}

/// The body of a `Query` of `sqlparser`, where it is VALUES: its rows.
#[verifier::external_body]
fn values_of(q: &sa::Query) -> (r: Option<&Vec<sa::Parens<Vec<sa::Expr>>>>)
    ensures
        rows_tree(*q) == (match r {
            Some(v) => RowsTree::Values(row_trees_of(v@)),
            None => RowsTree::Other,
        }),
{
    match &*q.body {
        sa::SetExpr::Values(v) => Some(&v.rows),
        _ => None,
    }
}

/// The content of a row in brackets of `sqlparser`.
#[verifier::external_body]
fn row_exprs(p: &sa::Parens<Vec<sa::Expr>>) -> (r: &Vec<sa::Expr>)
    ensures
        row_tree(*p) == expr_trees(r@),
{
    &p.content
}

/// The parts of a query.
struct QueryParts<'a> {
    with: bool,
    select: Option<&'a sa::Select>,
    order_by: Option<&'a sa::OrderBy>,
    limit: Option<&'a sa::LimitClause>,
}

spec fn select_opt(s: Option<&sa::Select>) -> Option<BodyTree> {
    match s {
        Some(x) => Some(select_tree(*x)),
        None => None,
    }
}

spec fn order_opt(o: Option<&sa::OrderBy>) -> OrderTree {
    match o {
        Some(x) => order_tree(*x),
        None => OrderTree::Missing,
    }
}

spec fn limit_opt(l: Option<&sa::LimitClause>) -> LimitTree {
    match l {
        Some(x) => limit_tree(*x),
        None => LimitTree::Missing,
    }
}

/// A `Query` of `sqlparser`: whether it has WITH, its body where that is a simple
/// SELECT, its ORDER BY, its LIMIT.
#[verifier::external_body]
fn query_parts(q: &sa::Query) -> (r: QueryParts<'_>)
    ensures
        query_tree(*q) == (AskTree {
            with: r.with,
            body: select_opt(r.select),
            order_by: order_opt(r.order_by),
            limit: limit_opt(r.limit),
        }),
{
    let select = match &*q.body {
        sa::SetExpr::Select(s) => Some(&**s),
        _ => None,
    };
    let (order_by, limit) = (q.order_by.as_ref(), q.limit_clause.as_ref());
    QueryParts { with: q.with.is_some(), select, order_by, limit }
}

/// The parts of a simple SELECT.
struct SelectParts<'a> {
    distinct: bool,
    from: &'a Vec<sa::TableWithJoins>,
    filter: Option<&'a sa::Expr>,
    items: &'a Vec<sa::SelectItem>,
    group_by: &'a sa::GroupByExpr,
    having: Option<&'a sa::Expr>,
}

/// A `Select` of `sqlparser`: whether it has DISTINCT, and its clauses.
#[verifier::external_body]
fn select_parts(s: &sa::Select) -> (r: SelectParts<'_>)
    ensures
        select_tree(*s) == (BodyTree {
            distinct: r.distinct,
            from: source_trees_of(r.from@),
            filter: expr_opt(r.filter),
            items: item_trees_of(r.items@),
            group_by: group_tree(*r.group_by),
            having: expr_opt(r.having),
        }),
{
    SelectParts {
        distinct: s.distinct.is_some(),
        from: &s.from,
        filter: s.selection.as_ref(),
        items: &s.projection,
        group_by: &s.group_by,
        having: s.having.as_ref(),
    }
}

/// A `TableWithJoins` of `sqlparser`: the name of its relation where that is a table,
/// the text of the relation, and whether it has joins.
#[verifier::external_body]
fn source_parts(t: &sa::TableWithJoins) -> (r: (Option<&sa::ObjectName>, String, bool))
    ensures
        source_tree(*t) == (SourceTree { name: table_opt(r.0), text: r.1@, joined: r.2 }),
{
    let name = match &t.relation {
        sa::TableFactor::Table { name, .. } => Some(name),
        _ => None,
    };
    (name, t.relation.to_string(), !t.joins.is_empty())
}

/// One item of SELECT.
enum OneItem<'a> {
    Wildcard,
    Plain(&'a sa::Expr),
    Aliased(&'a sa::Expr, String),
    Else(String),
}

/// A `SelectItem` of `sqlparser`, its variants told apart.
#[verifier::external_body]
fn item_of(i: &sa::SelectItem) -> (r: OneItem<'_>)
    ensures
        item_tree(*i) == (match r {
            OneItem::Wildcard => ItemTree::Wildcard,
            OneItem::Plain(e) => ItemTree::Plain(expr_tree(*e)),
            OneItem::Aliased(e, a) => ItemTree::Aliased(expr_tree(*e), a@),
            OneItem::Else(t) => ItemTree::Other(t@),
        }),
{
    match i {
        sa::SelectItem::Wildcard(_) => OneItem::Wildcard,
        sa::SelectItem::UnnamedExpr(e) => OneItem::Plain(e),
        sa::SelectItem::ExprWithAlias { expr, alias } => {
            OneItem::Aliased(expr, alias.value.clone())
        }
        other => OneItem::Else(other.to_string()),
    }
}

/// A `GroupByExpr` of `sqlparser`: its expressions; `None` for its variant `All`.
#[verifier::external_body]
fn group_keys(g: &sa::GroupByExpr) -> (r: Option<&Vec<sa::Expr>>)
    ensures
        group_tree(*g) == (match r {
            Some(v) => Some(expr_trees(v@)),
            None => None,
        }),
{
    match g {
        sa::GroupByExpr::Expressions(v, _) => Some(v),
        sa::GroupByExpr::All(_) => None,
    }
}

/// An `OrderBy` of `sqlparser`: its keys; `None` for its kind `All`.
#[verifier::external_body]
fn order_keys(o: &sa::OrderBy) -> (r: Option<&Vec<sa::OrderByExpr>>)
    ensures
        order_tree(*o) == (match r {
            Some(v) => OrderTree::Keys(sort_trees_of(v@)),
            None => OrderTree::All,
        }),
{
    match &o.kind {
        sa::OrderByKind::Expressions(v) => Some(v),
        sa::OrderByKind::All(_) => None,
    }
}

/// An `OrderByExpr` of `sqlparser`: its expression, and ASC or DESC where it is given.
#[verifier::external_body]
fn sort_parts(o: &sa::OrderByExpr) -> (r: (&sa::Expr, Option<bool>))
    ensures
        sort_tree(*o) == (SortTree { expr: expr_tree(*r.0), asc: r.1 }),
{
    (&o.expr, o.options.asc)
}

/// The parts of LIMIT and OFFSET.
enum LimitParts<'a> {
    Parts(Option<&'a sa::Expr>, Option<&'a sa::Expr>, bool),
    Comma(&'a sa::Expr, &'a sa::Expr),
}

/// A `LimitClause` of `sqlparser`, its variants told apart: the limit, the offset and
/// whether there is `LIMIT ... BY`; or the offset and the limit.
#[verifier::external_body]
fn limit_parts(l: &sa::LimitClause) -> (r: LimitParts<'_>)
    ensures
        limit_tree(*l) == (match r {
            LimitParts::Parts(limit, offset, by) => LimitTree::Parts {
                limit: expr_opt(limit),
                offset: expr_opt(offset),
                by,
            },
            LimitParts::Comma(offset, limit) => LimitTree::Comma {
                offset: expr_tree(*offset),
                limit: expr_tree(*limit),
            },
        }),
{
    match l {
        sa::LimitClause::LimitOffset { limit, offset, limit_by } => {
            let offset = offset.as_ref().map(|o| &o.value);
            LimitParts::Parts(limit.as_ref(), offset, !limit_by.is_empty())
        }
        sa::LimitClause::OffsetCommaLimit { offset, limit } => LimitParts::Comma(offset, limit),
    }
}

fn lower_maybe(e: Option<&sa::Expr>) -> (r: Option<Ast>)
    ensures
        crate::ast::tree_opt(r) == expr_opt(e),
{
    match e {
        Some(x) => Some(lower_expr(x)),
        None => None,
    }
}

fn lower_names(v: &Vec<sa::ObjectName>) -> (r: Vec<Name>)
    ensures
        crate::ast::names(r@) == name_trees(v@),
{
    let mut out: Vec<Name> = Vec::new();
    let mut i: usize = 0;
    while i < v.len()
        invariant
            i <= v.len(),
            out.len() == i,
            forall|k: int| 0 <= k < i ==> (#[trigger] out[k])@ == name_tree(v@[k]),
        decreases v.len() - i,
    {
        out.push(name_of(&v[i]));
        i += 1;
    }
    assert(crate::ast::names(out@) =~= name_trees(v@));
    out
}

fn lower_create(c: &sa::CreateTable) -> (r: Parsed)
    ensures
        r@ == create_tree(*c),
{
    let parts = create_parts(c);
    let v = parts.columns;
    let mut columns: Vec<ColumnSpec> = Vec::new();
    let mut i: usize = 0;
    while i < v.len()
        invariant
            i <= v.len(),
            columns.len() == i,
            forall|k: int|
                0 <= k < i ==> (ColumnTree {
                    name: (#[trigger] columns[k]).name@,
                    ty: columns[k].ty@,
                }) == column_tree(v@[k]),
        decreases v.len() - i,
    {
        let (name, ty) = column_parts(&v[i]);
        columns.push(ColumnSpec { name, ty: lower_type(ty) });
        i += 1;
    }
    assert(crate::ast::column_trees(columns@) =~= column_trees_of(v@));
    Parsed::CreateTable {
        name: name_of(parts.name),
        columns,
        if_not_exists: parts.if_not_exists,
        from_query: parts.from_query,
    }
}

fn lower_rows(q: &sa::Query) -> (r: Rows)
    ensures
        r@ == rows_tree(*q),
{
    let v = match values_of(q) {
        Some(v) => v,
        None => {
            return Rows::Other;
        },
    };
    let mut rows: Vec<Vec<Ast>> = Vec::new();
    let mut i: usize = 0;
    while i < v.len()
        invariant
            i <= v.len(),
            rows.len() == i,
            forall|k: int|
                0 <= k < i ==> crate::ast::trees((#[trigger] rows[k])@) == row_tree(v@[k]),
        decreases v.len() - i,
    {
        rows.push(lower_all(row_exprs(&v[i])));
        i += 1;
    }
    assert(crate::ast::tree_rows(rows@) =~= row_trees_of(v@));
    Rows::Values(rows)
}

fn lower_insert(i: &sa::Insert) -> (r: Parsed)
    ensures
        r@ == insert_tree(*i),
{
    let parts = insert_parts(i);
    let table = match parts.table {
        Some(n) => Some(name_of(n)),
        None => None,
    };
    let rows = match parts.source {
        Some(q) => lower_rows(q),
        None => Rows::Missing,
    };
    Parsed::Insert { table, text: parts.text, columns: lower_names(parts.columns), rows }
}

fn lower_sources(v: &Vec<sa::TableWithJoins>) -> (r: Vec<Source>)
    ensures
        crate::ast::source_trees(r@) == source_trees_of(v@),
{
    let mut out: Vec<Source> = Vec::new();
    let mut i: usize = 0;
    while i < v.len()
        invariant
            i <= v.len(),
            out.len() == i,
            crate::ast::source_trees(out@) == source_trees_of(v@).take(i as int),
        decreases v.len() - i,
    {
        let (name, text, joined) = source_parts(&v[i]);
        let name = match name {
            Some(n) => Some(name_of(n)),
            None => None,
        };
        let ghost before = crate::ast::source_trees(out@);
        let s = Source { name, text, joined };
        out.push(s);
        proof {
            let t = SourceTree {
                name: crate::ast::name_opt(s.name),
                text: s.text@,
                joined: s.joined,
            };
            assert(t == source_tree(v@[i as int]));
            assert(crate::ast::source_trees(out@) =~= before.push(t));
            assert(source_trees_of(v@).take(i + 1) =~= before.push(t));
        }
        i += 1;
    }
    assert(source_trees_of(v@).take(i as int) =~= source_trees_of(v@));
    out
}

fn lower_items(v: &Vec<sa::SelectItem>) -> (r: Vec<Item>)
    ensures
        crate::ast::item_trees(r@) == item_trees_of(v@),
{
    let mut out: Vec<Item> = Vec::new();
    let mut i: usize = 0;
    while i < v.len()
        invariant
            i <= v.len(),
            out.len() == i,
            forall|k: int| 0 <= k < i ==> (#[trigger] out[k])@ == item_tree(v@[k]),
        decreases v.len() - i,
    {
        let item = match item_of(&v[i]) {
            OneItem::Wildcard => Item::Wildcard,
            OneItem::Plain(e) => Item::Plain(lower_expr(e)),
            OneItem::Aliased(e, a) => Item::Aliased(lower_expr(e), a),
            OneItem::Else(t) => Item::Other(t),
        };
        out.push(item);
        i += 1;
    }
    assert(crate::ast::item_trees(out@) =~= item_trees_of(v@));
    out
}

fn lower_select(s: &sa::Select) -> (r: Body)
    ensures
        r@ == select_tree(*s),
{
    let p = select_parts(s);
    let group_by = match group_keys(p.group_by) {
        Some(v) => Some(lower_all(v)),
        None => None,
    };
    Body {
        distinct: p.distinct,
        from: lower_sources(p.from),
        filter: lower_maybe(p.filter),
        items: lower_items(p.items),
        group_by,
        having: lower_maybe(p.having),
    }
}

fn lower_order(o: &sa::OrderBy) -> (r: OrderBy)
    ensures
        r@ == order_tree(*o),
{
    let v = match order_keys(o) {
        Some(v) => v,
        None => {
            return OrderBy::All;
        },
    };
    let mut out: Vec<SortKey> = Vec::new();
    let mut i: usize = 0;
    while i < v.len()
        invariant
            i <= v.len(),
            out.len() == i,
            forall|k: int|
                0 <= k < i ==> (SortTree {
                    expr: (#[trigger] out[k]).expr.view(),
                    asc: out[k].asc,
                }) == sort_tree(v@[k]),
        decreases v.len() - i,
    {
        let (e, asc) = sort_parts(&v[i]);
        out.push(SortKey { expr: lower_expr(e), asc });
        i += 1;
    }
    assert(crate::ast::sort_trees(out@) =~= sort_trees_of(v@));
    OrderBy::Keys(out)
}

fn lower_limit(l: &sa::LimitClause) -> (r: Limit)
    ensures
        r@ == limit_tree(*l),
{
    match limit_parts(l) {
        LimitParts::Parts(limit, offset, by) => Limit::Parts {
            limit: lower_maybe(limit),
            offset: lower_maybe(offset),
            by,
        },
        LimitParts::Comma(offset, limit) => Limit::Comma {
            offset: lower_expr(offset),
            limit: lower_expr(limit),
        },
    }
}

fn lower_query(q: &sa::Query) -> (r: Ask)
    ensures
        r@ == query_tree(*q),
{
    let p = query_parts(q);
    let body = match p.select {
        Some(s) => Some(lower_select(s)),
        None => None,
    };
    let order_by = match p.order_by {
        Some(o) => lower_order(o),
        None => OrderBy::Missing,
    };
    let limit = match p.limit {
        Some(l) => lower_limit(l),
        None => Limit::Missing,
    };
    Ask { with: p.with, body, order_by, limit }
}

fn lower_statement(s: &sa::Statement) -> (r: Parsed)
    ensures
        r@ == statement_tree(*s),
{
    match statement_kind(s) {
        Kind::Create(c) => lower_create(c),
        Kind::Drop(kind, if_exists, v) => Parsed::Drop { kind, if_exists, names: lower_names(v) },
        Kind::Insert(i) => lower_insert(i),
        Kind::Query(q) => Parsed::Query(lower_query(q)),
        Kind::ShowTables => Parsed::ShowTables,
        Kind::Describe(n) => Parsed::Describe(name_of(n)),
        Kind::Else(t) => Parsed::Other(t),
    }
}

pub open spec fn parsed_trees(v: Seq<Parsed>) -> Seq<ParsedTree> {
    Seq::new(v.len(), |i: int| v[i]@)
}

/// What a text holds: its statements, or what is wrong with it.
pub open spec fn statements_of(sql: Seq<char>) -> Result<Seq<ParsedTree>, Seq<char>> {
    match refused_text(sql) {
        Some(e) => Err(e),
        None => parsed(sql),
    }
}

/// The statements of a text.
pub fn parse_sql(sql: &str) -> (r: Result<Vec<Parsed>, Error>)
    ensures
        match r {
            Ok(v) => statements_of(sql@) == Ok::<Seq<ParsedTree>, Seq<char>>(parsed_trees(v@)),
            Err(e) => statements_of(sql@) matches Err(m) && e@ == in_context("разбор SQL"@, m),
        },
{
    if let Ok(tokens) = tokenize(sql) {
        if let Some(e) = refusal_of(&tokens) {
            return Err(err(e).context("разбор SQL"));
        }
    }
    let stmts = match parse_text(sql) {
        Ok(v) => v,
        Err(e) => {
            return Err(err(e).context("разбор SQL"));
        },
    };
    let mut out: Vec<Parsed> = Vec::new();
    let mut i: usize = 0;
    while i < stmts.len()
        invariant
            i <= stmts.len(),
            out.len() == i,
            forall|k: int| 0 <= k < i ==> (#[trigger] out[k])@ == statement_tree(stmts@[k]),
        decreases stmts.len() - i,
    {
        out.push(lower_statement(&stmts[i]));
        i += 1;
    }
    assert(parsed_trees(out@) =~= statement_trees(stmts@));
    Ok(out)
}

} // verus!
