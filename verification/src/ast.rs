//! Parsed SQL as plain values: what the planner reads of a statement.
use crate::text::strings;
use vstd::prelude::*;

verus! {

/// A name of an object: its parts, none for a part that is no identifier, and its text.
#[derive(Debug)]
pub struct Name {
    pub parts: Vec<Option<String>>,
    pub text: String,
}

/// What a [`Name`] is.
#[verifier::ext_equal]
pub struct NameTree {
    pub parts: Seq<Option<Seq<char>>>,
    pub text: Seq<char>,
}

pub open spec fn text_of(s: Option<String>) -> Option<Seq<char>> {
    match s {
        Some(x) => Some(x@),
        None => None,
    }
}

pub open spec fn texts_of(v: Seq<Option<String>>) -> Seq<Option<Seq<char>>> {
    Seq::new(v.len(), |i: int| text_of(v[i]))
}

impl View for Name {
    type V = NameTree;

    open spec fn view(&self) -> NameTree {
        NameTree { parts: texts_of(self.parts@), text: self.text@ }
    }
}

pub open spec fn names(v: Seq<Name>) -> Seq<NameTree> {
    Seq::new(v.len(), |i: int| v[i]@)
}

/// The type of a column: its text, and where the parser knows no type of that name,
/// the name and the arguments.
#[derive(Debug)]
pub struct TypeName {
    pub text: String,
    pub custom: Option<(Name, Vec<String>)>,
}

/// What a [`TypeName`] is.
#[verifier::ext_equal]
pub struct TypeTree {
    pub text: Seq<char>,
    pub custom: Option<(NameTree, Seq<Seq<char>>)>,
}

impl View for TypeName {
    type V = TypeTree;

    open spec fn view(&self) -> TypeTree {
        TypeTree {
            text: self.text@,
            custom: match self.custom {
                Some((n, args)) => Some((n@, strings(args@))),
                None => None,
            },
        }
    }
}

#[derive(Debug)]
pub enum Literal {
    Number(String),
    /// A text in single or double quotes.
    Text(String),
    Bool(bool),
    Other,
}

/// What a [`Literal`] is.
#[verifier::ext_equal]
pub enum LiteralTree {
    Number(Seq<char>),
    Text(Seq<char>),
    Bool(bool),
    Other,
}

impl View for Literal {
    type V = LiteralTree;

    open spec fn view(&self) -> LiteralTree {
        match *self {
            Literal::Number(s) => LiteralTree::Number(s@),
            Literal::Text(s) => LiteralTree::Text(s@),
            Literal::Bool(b) => LiteralTree::Bool(b),
            Literal::Other => LiteralTree::Other,
        }
    }
}

/// An expression and its text.
#[derive(Debug)]
pub struct Ast {
    pub text: String,
    pub node: Node,
}

#[derive(Debug)]
#[allow(inconsistent_fields)]
pub enum Node {
    Ident(String),
    Compound(Vec<String>),
    Value(Literal),
    Nested(Box<Ast>),
    Unary { op: String, e: Box<Ast> },
    Binary { op: String, l: Box<Ast>, r: Box<Ast> },
    /// `IS NULL` and `IS NOT NULL`.
    IsNull,
    Like { e: Box<Ast>, pattern: Box<Ast>, negated: bool, insensitive: bool },
    InList { e: Box<Ast>, list: Vec<Ast>, negated: bool },
    Between { e: Box<Ast>, low: Box<Ast>, high: Box<Ast>, negated: bool },
    Cast { e: Box<Ast>, ty: TypeName },
    Extract { part: String, e: Box<Ast> },
    Substring { e: Box<Ast>, from: Option<Box<Ast>>, count: Option<Box<Ast>> },
    Case { operand: Option<Box<Ast>>, whens: Vec<When>, otherwise: Option<Box<Ast>> },
    Call(Call),
    Array(Vec<Ast>),
    /// `CEIL` and `FLOOR`; `plain` where they have no further argument.
    Rounded { up: bool, plain: bool, e: Box<Ast> },
    Other,
}

/// One branch of `CASE`.
#[derive(Debug)]
pub struct When {
    pub condition: Ast,
    pub result: Ast,
}

/// A call of a function.
#[derive(Debug)]
pub struct Call {
    pub name: Name,
    /// Whether it is a window function.
    pub windowed: bool,
    pub args: Args,
}

#[derive(Debug)]
pub enum Args {
    Missing,
    Subquery,
    List { distinct: bool, args: Vec<Arg> },
}

#[derive(Debug)]
pub enum Arg {
    Plain(Ast),
    Wildcard,
    Other,
}

/// What an [`Ast`] is.
#[verifier::ext_equal]
pub struct Tree {
    pub text: Seq<char>,
    pub node: TreeNode,
}

/// What a [`Node`] is.
#[verifier::ext_equal]
#[allow(inconsistent_fields)]
pub enum TreeNode {
    Ident(Seq<char>),
    Compound(Seq<Seq<char>>),
    Value(LiteralTree),
    Nested(Box<Tree>),
    Unary { op: Seq<char>, e: Box<Tree> },
    Binary { op: Seq<char>, l: Box<Tree>, r: Box<Tree> },
    IsNull,
    Like { e: Box<Tree>, pattern: Box<Tree>, negated: bool, insensitive: bool },
    InList { e: Box<Tree>, list: Seq<Tree>, negated: bool },
    Between { e: Box<Tree>, low: Box<Tree>, high: Box<Tree>, negated: bool },
    Cast { e: Box<Tree>, ty: TypeTree },
    Extract { part: Seq<char>, e: Box<Tree> },
    Substring { e: Box<Tree>, from: Option<Box<Tree>>, count: Option<Box<Tree>> },
    Case { operand: Option<Box<Tree>>, whens: Seq<WhenTree>, otherwise: Option<Box<Tree>> },
    Call(CallTree),
    Array(Seq<Tree>),
    Rounded { up: bool, plain: bool, e: Box<Tree> },
    Other,
}

/// What a [`When`] is.
#[verifier::ext_equal]
pub struct WhenTree {
    pub condition: Tree,
    pub result: Tree,
}

/// What a [`Call`] is.
#[verifier::ext_equal]
pub struct CallTree {
    pub name: NameTree,
    pub windowed: bool,
    pub args: ArgsTree,
}

/// What [`Args`] are.
#[verifier::ext_equal]
pub enum ArgsTree {
    Missing,
    Subquery,
    List { distinct: bool, args: Seq<ArgTree> },
}

/// What an [`Arg`] is.
#[verifier::ext_equal]
pub enum ArgTree {
    Plain(Tree),
    Wildcard,
    Other,
}

pub open spec fn boxed(e: Option<Box<Ast>>) -> Option<Box<Tree>>
    decreases e,
{
    match e {
        Some(x) => Some(Box::new(x.view())),
        None => None,
    }
}

pub open spec fn trees(v: Seq<Ast>) -> Seq<Tree>
    decreases v,
{
    Seq::new(
        v.len(),
        |i: int|
            if 0 <= i < v.len() {
                v[i].view()
            } else {
                Tree { text: Seq::empty(), node: TreeNode::Other }
            },
    )
}

pub open spec fn when_trees(v: Seq<When>) -> Seq<WhenTree>
    decreases v,
{
    Seq::new(
        v.len(),
        |i: int|
            if 0 <= i < v.len() {
                v[i].view()
            } else {
                arbitrary()
            },
    )
}

pub open spec fn arg_trees(v: Seq<Arg>) -> Seq<ArgTree>
    decreases v,
{
    Seq::new(
        v.len(),
        |i: int|
            if 0 <= i < v.len() {
                v[i].view()
            } else {
                ArgTree::Other
            },
    )
}

impl Ast {
    pub open spec fn view(self) -> Tree
        decreases self,
    {
        Tree { text: self.text@, node: self.node.view() }
    }
}

impl When {
    pub open spec fn view(self) -> WhenTree
        decreases self,
    {
        WhenTree { condition: self.condition.view(), result: self.result.view() }
    }
}

impl Call {
    pub open spec fn view(self) -> CallTree
        decreases self,
    {
        CallTree { name: self.name@, windowed: self.windowed, args: self.args.view() }
    }
}

impl Args {
    pub open spec fn view(self) -> ArgsTree
        decreases self,
    {
        match self {
            Args::Missing => ArgsTree::Missing,
            Args::Subquery => ArgsTree::Subquery,
            Args::List { distinct, args } => ArgsTree::List { distinct, args: arg_trees(args@) },
        }
    }
}

impl Arg {
    pub open spec fn view(self) -> ArgTree
        decreases self,
    {
        match self {
            Arg::Plain(e) => ArgTree::Plain(e.view()),
            Arg::Wildcard => ArgTree::Wildcard,
            Arg::Other => ArgTree::Other,
        }
    }
}

impl Node {
    pub open spec fn view(self) -> TreeNode
        decreases self,
    {
        match self {
            Node::Ident(s) => TreeNode::Ident(s@),
            Node::Compound(v) => TreeNode::Compound(strings(v@)),
            Node::Value(l) => TreeNode::Value(l@),
            Node::Nested(e) => TreeNode::Nested(Box::new(e.view())),
            Node::Unary { op, e } => TreeNode::Unary { op: op@, e: Box::new(e.view()) },
            Node::Binary { op, l, r } => TreeNode::Binary {
                op: op@,
                l: Box::new(l.view()),
                r: Box::new(r.view()),
            },
            Node::IsNull => TreeNode::IsNull,
            Node::Like { e, pattern, negated, insensitive } => TreeNode::Like {
                e: Box::new(e.view()),
                pattern: Box::new(pattern.view()),
                negated,
                insensitive,
            },
            Node::InList { e, list, negated } => TreeNode::InList {
                e: Box::new(e.view()),
                list: trees(list@),
                negated,
            },
            Node::Between { e, low, high, negated } => TreeNode::Between {
                e: Box::new(e.view()),
                low: Box::new(low.view()),
                high: Box::new(high.view()),
                negated,
            },
            Node::Cast { e, ty } => TreeNode::Cast { e: Box::new(e.view()), ty: ty@ },
            Node::Extract { part, e } => TreeNode::Extract {
                part: part@,
                e: Box::new(e.view()),
            },
            Node::Substring { e, from, count } => TreeNode::Substring {
                e: Box::new(e.view()),
                from: boxed(from),
                count: boxed(count),
            },
            Node::Case { operand, whens, otherwise } => TreeNode::Case {
                operand: boxed(operand),
                whens: when_trees(whens@),
                otherwise: boxed(otherwise),
            },
            Node::Call(c) => TreeNode::Call(c.view()),
            Node::Array(v) => TreeNode::Array(trees(v@)),
            Node::Rounded { up, plain, e } => TreeNode::Rounded {
                up,
                plain,
                e: Box::new(e.view()),
            },
            Node::Other => TreeNode::Other,
        }
    }
}

// --- statements ---------------------------------------------------------------------------

pub open spec fn tree_opt(e: Option<Ast>) -> Option<Tree> {
    match e {
        Some(x) => Some(x.view()),
        None => None,
    }
}

pub open spec fn tree_rows(v: Seq<Vec<Ast>>) -> Seq<Seq<Tree>> {
    Seq::new(v.len(), |i: int| trees(v[i]@))
}

/// A column of CREATE TABLE.
#[derive(Debug)]
pub struct ColumnSpec {
    pub name: String,
    pub ty: TypeName,
}

/// What a [`ColumnSpec`] is.
#[verifier::ext_equal]
pub struct ColumnTree {
    pub name: Seq<char>,
    pub ty: TypeTree,
}

pub open spec fn column_trees(v: Seq<ColumnSpec>) -> Seq<ColumnTree> {
    Seq::new(v.len(), |i: int| ColumnTree { name: v[i].name@, ty: v[i].ty@ })
}

/// One source in FROM: its name where it is a table, its text, whether it is joined
/// with others.
#[derive(Debug)]
pub struct Source {
    pub name: Option<Name>,
    pub text: String,
    pub joined: bool,
}

/// What a [`Source`] is.
#[verifier::ext_equal]
pub struct SourceTree {
    pub name: Option<NameTree>,
    pub text: Seq<char>,
    pub joined: bool,
}

pub open spec fn name_opt(n: Option<Name>) -> Option<NameTree> {
    match n {
        Some(x) => Some(x@),
        None => None,
    }
}

pub open spec fn source_trees(v: Seq<Source>) -> Seq<SourceTree> {
    Seq::new(
        v.len(),
        |i: int|
            SourceTree { name: name_opt(v[i].name), text: v[i].text@, joined: v[i].joined },
    )
}

/// One item of what SELECT returns.
#[derive(Debug)]
pub enum Item {
    Wildcard,
    Plain(Ast),
    Aliased(Ast, String),
    Other(String),
}

/// What an [`Item`] is.
#[verifier::ext_equal]
pub enum ItemTree {
    Wildcard,
    Plain(Tree),
    Aliased(Tree, Seq<char>),
    Other(Seq<char>),
}

impl View for Item {
    type V = ItemTree;

    open spec fn view(&self) -> ItemTree {
        match *self {
            Item::Wildcard => ItemTree::Wildcard,
            Item::Plain(e) => ItemTree::Plain(e.view()),
            Item::Aliased(e, a) => ItemTree::Aliased(e.view(), a@),
            Item::Other(s) => ItemTree::Other(s@),
        }
    }
}

pub open spec fn item_trees(v: Seq<Item>) -> Seq<ItemTree> {
    Seq::new(v.len(), |i: int| v[i]@)
}

/// A simple SELECT.
#[derive(Debug)]
pub struct Body {
    pub distinct: bool,
    pub from: Vec<Source>,
    pub filter: Option<Ast>,
    pub items: Vec<Item>,
    /// `None`: `GROUP BY ALL`.
    pub group_by: Option<Vec<Ast>>,
    pub having: Option<Ast>,
}

/// What a [`Body`] is.
#[verifier::ext_equal]
pub struct BodyTree {
    pub distinct: bool,
    pub from: Seq<SourceTree>,
    pub filter: Option<Tree>,
    pub items: Seq<ItemTree>,
    pub group_by: Option<Seq<Tree>>,
    pub having: Option<Tree>,
}

impl View for Body {
    type V = BodyTree;

    open spec fn view(&self) -> BodyTree {
        BodyTree {
            distinct: self.distinct,
            from: source_trees(self.from@),
            filter: tree_opt(self.filter),
            items: item_trees(self.items@),
            group_by: match self.group_by {
                Some(v) => Some(trees(v@)),
                None => None,
            },
            having: tree_opt(self.having),
        }
    }
}

/// A key of ORDER BY.
#[derive(Debug)]
pub struct SortKey {
    pub expr: Ast,
    pub asc: Option<bool>,
}

/// What a [`SortKey`] is.
#[verifier::ext_equal]
pub struct SortTree {
    pub expr: Tree,
    pub asc: Option<bool>,
}

pub open spec fn sort_trees(v: Seq<SortKey>) -> Seq<SortTree> {
    Seq::new(v.len(), |i: int| SortTree { expr: v[i].expr.view(), asc: v[i].asc })
}

#[derive(Debug)]
pub enum OrderBy {
    Missing,
    All,
    Keys(Vec<SortKey>),
}

/// What an [`OrderBy`] is.
#[verifier::ext_equal]
pub enum OrderTree {
    Missing,
    All,
    Keys(Seq<SortTree>),
}

impl View for OrderBy {
    type V = OrderTree;

    open spec fn view(&self) -> OrderTree {
        match *self {
            OrderBy::Missing => OrderTree::Missing,
            OrderBy::All => OrderTree::All,
            OrderBy::Keys(v) => OrderTree::Keys(sort_trees(v@)),
        }
    }
}

#[derive(Debug)]
#[allow(inconsistent_fields)]
pub enum Limit {
    Missing,
    /// `LIMIT`, `OFFSET`; `by` where there is a `LIMIT ... BY`.
    Parts { limit: Option<Ast>, offset: Option<Ast>, by: bool },
    /// `LIMIT offset, limit`.
    Comma { offset: Ast, limit: Ast },
}

/// What a [`Limit`] is.
#[verifier::ext_equal]
#[allow(inconsistent_fields)]
pub enum LimitTree {
    Missing,
    Parts { limit: Option<Tree>, offset: Option<Tree>, by: bool },
    Comma { offset: Tree, limit: Tree },
}

impl View for Limit {
    type V = LimitTree;

    open spec fn view(&self) -> LimitTree {
        match *self {
            Limit::Missing => LimitTree::Missing,
            Limit::Parts { limit, offset, by } => LimitTree::Parts {
                limit: tree_opt(limit),
                offset: tree_opt(offset),
                by,
            },
            Limit::Comma { offset, limit } => LimitTree::Comma {
                offset: offset.view(),
                limit: limit.view(),
            },
        }
    }
}

/// A query.
#[derive(Debug)]
pub struct Ask {
    /// Whether it has a `WITH`.
    pub with: bool,
    /// `None` where it is no simple SELECT.
    pub body: Option<Body>,
    pub order_by: OrderBy,
    pub limit: Limit,
}

/// What an [`Ask`] is.
#[verifier::ext_equal]
pub struct AskTree {
    pub with: bool,
    pub body: Option<BodyTree>,
    pub order_by: OrderTree,
    pub limit: LimitTree,
}

impl View for Ask {
    type V = AskTree;

    open spec fn view(&self) -> AskTree {
        AskTree {
            with: self.with,
            body: match self.body {
                Some(b) => Some(b@),
                None => None,
            },
            order_by: self.order_by@,
            limit: self.limit@,
        }
    }
}

/// Where INSERT takes its rows from.
#[derive(Debug)]
pub enum Rows {
    Missing,
    Values(Vec<Vec<Ast>>),
    Other,
}

/// What [`Rows`] are.
#[verifier::ext_equal]
pub enum RowsTree {
    Missing,
    Values(Seq<Seq<Tree>>),
    Other,
}

impl View for Rows {
    type V = RowsTree;

    open spec fn view(&self) -> RowsTree {
        match *self {
            Rows::Missing => RowsTree::Missing,
            Rows::Values(v) => RowsTree::Values(tree_rows(v@)),
            Rows::Other => RowsTree::Other,
        }
    }
}

/// A statement as it was parsed.
#[derive(Debug)]
#[allow(inconsistent_fields)]
pub enum Parsed {
    CreateTable { name: Name, columns: Vec<ColumnSpec>, if_not_exists: bool, from_query: bool },
    Drop { kind: String, if_exists: bool, names: Vec<Name> },
    Insert { table: Option<Name>, text: String, columns: Vec<Name>, rows: Rows },
    Query(Ask),
    ShowTables,
    Describe(Name),
    Other(String),
}

/// What a [`Parsed`] statement is.
#[verifier::ext_equal]
#[allow(inconsistent_fields)]
pub enum ParsedTree {
    CreateTable {
        name: NameTree,
        columns: Seq<ColumnTree>,
        if_not_exists: bool,
        from_query: bool,
    },
    Drop { kind: Seq<char>, if_exists: bool, names: Seq<NameTree> },
    Insert { table: Option<NameTree>, text: Seq<char>, columns: Seq<NameTree>, rows: RowsTree },
    Query(AskTree),
    ShowTables,
    Describe(NameTree),
    Other(Seq<char>),
}

impl View for Parsed {
    type V = ParsedTree;

    open spec fn view(&self) -> ParsedTree {
        match *self {
            Parsed::CreateTable { name, columns, if_not_exists, from_query } =>
                ParsedTree::CreateTable {
                name: name@,
                columns: column_trees(columns@),
                if_not_exists,
                from_query,
            },
            Parsed::Drop { kind, if_exists, names: v } => ParsedTree::Drop {
                kind: kind@,
                if_exists,
                names: names(v@),
            },
            Parsed::Insert { table, text, columns, rows } => ParsedTree::Insert {
                table: name_opt(table),
                text: text@,
                columns: names(columns@),
                rows: rows@,
            },
            Parsed::Query(q) => ParsedTree::Query(q@),
            Parsed::ShowTables => ParsedTree::ShowTables,
            Parsed::Describe(n) => ParsedTree::Describe(n@),
            Parsed::Other(s) => ParsedTree::Other(s@),
        }
    }
}

} // verus!
