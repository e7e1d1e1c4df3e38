//! The plan of a query: what the SQL planner makes and the executor runs.
use crate::column::{
    cell_rows, cells, copy_row, copy_words, eq_rows, eq_values, eq_vectors, same_cell, same_cells,
    same_vector, Cell, DataType, Value,
};
use crate::table::{Attr, Schema};
use crate::text::{ascii_lowered, eq_text, strings, to_ascii_lower};
use vstd::prelude::*;
use vstd::string::*;

verus! {

#[derive(Debug, Clone, Copy, PartialEq, Eq, Structural)]
pub enum BinOp {
    Add,
    Sub,
    Mul,
    Div,
    Mod,
    Eq,
    NotEq,
    Lt,
    LtEq,
    Gt,
    GtEq,
    And,
    Or,
}

#[derive(Debug, Clone, Copy, PartialEq, Eq, Structural)]
pub enum UnOp {
    Not,
    Neg,
}

#[derive(Debug, Clone, Copy, PartialEq, Eq, Structural)]
pub enum AggFunc {
    Count,
    Sum,
    Avg,
    Min,
    Max,
}

/// How far one vector is from another; less is nearer for each of them.
#[derive(Debug, Clone, Copy, PartialEq, Eq, Structural)]
pub enum Metric {
    L2,
    Cosine,
    /// The inner product with its sign turned.
    NegInnerProduct,
}

/// The metric of a name in lower case.
#[verifier::opaque]
pub open spec fn metric_named(s: Seq<char>) -> Option<Metric> {
    if s == "l2_distance"@ || s == "l2"@ || s == "euclidean_distance"@ {
        Some(Metric::L2)
    } else if s == "cosine_distance"@ || s == "cosine"@ {
        Some(Metric::Cosine)
    } else if s == "inner_product"@ || s == "dot_product"@ {
        Some(Metric::NegInnerProduct)
    } else {
        None
    }
}

impl Metric {
    pub fn from_name(s: &str) -> (r: Option<Metric>)
        ensures
            r == metric_named(ascii_lowered(s@)),
    {
        reveal(metric_named);
        let low = to_ascii_lower(s);
        let n = low.as_str();
        if eq_text(n, "l2_distance") || eq_text(n, "l2") || eq_text(n, "euclidean_distance") {
            Some(Metric::L2)
        } else if eq_text(n, "cosine_distance") || eq_text(n, "cosine") {
            Some(Metric::Cosine)
        } else if eq_text(n, "inner_product") || eq_text(n, "dot_product") {
            Some(Metric::NegInnerProduct)
        } else {
            None
        }
    }
}

#[derive(Debug, Clone, Copy, PartialEq, Eq, Structural)]
pub enum ScalarFunc {
    Length,
    Lower,
    Upper,
    Abs,
    Floor,
    Ceil,
    Round,
    Sqrt,
    Substring,
    /// The parts of a time that is given as seconds since 1970.
    ExtractHour,
    ExtractMinute,
    ExtractDay,
    ExtractMonth,
    ExtractYear,
    Coalesce,
    If,
    /// A time rounded down to a unit.
    DateTrunc,
}

/// The function of a name in lower case.
#[verifier::opaque]
pub open spec fn function_named(s: Seq<char>) -> Option<ScalarFunc> {
    if s == "length"@ || s == "char_length"@ || s == "octet_length"@ {
        Some(ScalarFunc::Length)
    } else if s == "lower"@ || s == "lcase"@ {
        Some(ScalarFunc::Lower)
    } else if s == "upper"@ || s == "ucase"@ {
        Some(ScalarFunc::Upper)
    } else if s == "abs"@ {
        Some(ScalarFunc::Abs)
    } else if s == "floor"@ {
        Some(ScalarFunc::Floor)
    } else if s == "ceil"@ || s == "ceiling"@ {
        Some(ScalarFunc::Ceil)
    } else if s == "round"@ {
        Some(ScalarFunc::Round)
    } else if s == "sqrt"@ {
        Some(ScalarFunc::Sqrt)
    } else if s == "substring"@ || s == "substr"@ {
        Some(ScalarFunc::Substring)
    } else if s == "to_hour"@ {
        Some(ScalarFunc::ExtractHour)
    } else if s == "to_minute"@ {
        Some(ScalarFunc::ExtractMinute)
    } else if s == "to_day"@ || s == "to_dayofmonth"@ {
        Some(ScalarFunc::ExtractDay)
    } else if s == "to_month"@ {
        Some(ScalarFunc::ExtractMonth)
    } else if s == "to_year"@ {
        Some(ScalarFunc::ExtractYear)
    } else if s == "coalesce"@ {
        Some(ScalarFunc::Coalesce)
    } else if s == "if"@ {
        Some(ScalarFunc::If)
    } else if s == "date_trunc"@ || s == "to_start_of"@ {
        Some(ScalarFunc::DateTrunc)
    } else {
        None
    }
}

impl ScalarFunc {
    pub fn from_name(s: &str) -> (r: Option<ScalarFunc>)
        ensures
            r == function_named(ascii_lowered(s@)),
    {
        reveal(function_named);
        let low = to_ascii_lower(s);
        let n = low.as_str();
        if eq_text(n, "length") || eq_text(n, "char_length") || eq_text(n, "octet_length") {
            Some(ScalarFunc::Length)
        } else if eq_text(n, "lower") || eq_text(n, "lcase") {
            Some(ScalarFunc::Lower)
        } else if eq_text(n, "upper") || eq_text(n, "ucase") {
            Some(ScalarFunc::Upper)
        } else if eq_text(n, "abs") {
            Some(ScalarFunc::Abs)
        } else if eq_text(n, "floor") {
            Some(ScalarFunc::Floor)
        } else if eq_text(n, "ceil") || eq_text(n, "ceiling") {
            Some(ScalarFunc::Ceil)
        } else if eq_text(n, "round") {
            Some(ScalarFunc::Round)
        } else if eq_text(n, "sqrt") {
            Some(ScalarFunc::Sqrt)
        } else if eq_text(n, "substring") || eq_text(n, "substr") {
            Some(ScalarFunc::Substring)
        } else if eq_text(n, "to_hour") {
            Some(ScalarFunc::ExtractHour)
        } else if eq_text(n, "to_minute") {
            Some(ScalarFunc::ExtractMinute)
        } else if eq_text(n, "to_day") || eq_text(n, "to_dayofmonth") {
            Some(ScalarFunc::ExtractDay)
        } else if eq_text(n, "to_month") {
            Some(ScalarFunc::ExtractMonth)
        } else if eq_text(n, "to_year") {
            Some(ScalarFunc::ExtractYear)
        } else if eq_text(n, "coalesce") {
            Some(ScalarFunc::Coalesce)
        } else if eq_text(n, "if") {
            Some(ScalarFunc::If)
        } else if eq_text(n, "date_trunc") || eq_text(n, "to_start_of") {
            Some(ScalarFunc::DateTrunc)
        } else {
            None
        }
    }
}

/// Whether a function takes `n` arguments.
pub open spec fn takes(func: ScalarFunc, n: nat) -> bool {
    match func {
        ScalarFunc::Substring => 2 <= n <= 3,
        ScalarFunc::If => n == 3,
        ScalarFunc::Coalesce => n > 0,
        ScalarFunc::Round => 1 <= n <= 2,
        ScalarFunc::DateTrunc => n == 2,
        _ => n == 1,
    }
}

pub fn arity_ok(func: ScalarFunc, n: usize) -> (r: bool)
    ensures
        r == takes(func, n as nat),
{
    match func {
        ScalarFunc::Substring => 2 <= n && n <= 3,
        ScalarFunc::If => n == 3,
        ScalarFunc::Coalesce => n > 0,
        ScalarFunc::Round => 1 <= n && n <= 2,
        ScalarFunc::DateTrunc => n == 2,
        _ => n == 1,
    }
}

#[derive(Debug)]
#[allow(inconsistent_fields)]
pub enum Expr {
    /// A column by its index in the source: the table, or the groups made of it.
    Col(usize),
    Lit(Value),
    Binary { op: BinOp, l: Box<Expr>, r: Box<Expr> },
    Unary { op: UnOp, e: Box<Expr> },
    Like { e: Box<Expr>, pattern: String, negated: bool, case_insensitive: bool },
    InList { e: Box<Expr>, list: Vec<Value>, negated: bool },
    Between { e: Box<Expr>, low: Box<Expr>, high: Box<Expr>, negated: bool },
    Func { func: ScalarFunc, args: Vec<Expr> },
    /// The distance from a vector column to a constant vector.
    Distance { metric: Metric, col: usize, query: Vec<u32> },
    Agg { func: AggFunc, arg: Option<Box<Expr>>, distinct: bool },
    Cast { e: Box<Expr>, ty: DataType },
}

/// What an [`Expr`] is.
#[verifier::ext_equal]
#[allow(inconsistent_fields)]
pub enum Term {
    Col(usize),
    Lit(Cell),
    Binary { op: BinOp, l: Box<Term>, r: Box<Term> },
    Unary { op: UnOp, e: Box<Term> },
    Like { e: Box<Term>, pattern: Seq<char>, negated: bool, case_insensitive: bool },
    InList { e: Box<Term>, list: Seq<Cell>, negated: bool },
    Between { e: Box<Term>, low: Box<Term>, high: Box<Term>, negated: bool },
    Func { func: ScalarFunc, args: Seq<Term> },
    Distance { metric: Metric, col: usize, query: Seq<u32> },
    Agg { func: AggFunc, arg: Option<Box<Term>>, distinct: bool },
    Cast { e: Box<Term>, ty: DataType },
}

/// What each expression of a list is.
pub open spec fn terms(v: Seq<Expr>) -> Seq<Term>
    decreases v,
{
    Seq::new(
        v.len(),
        |i: int|
            if 0 <= i < v.len() {
                v[i].view()
            } else {
                Term::Col(0)
            },
    )
}

impl Expr {
    pub open spec fn view(self) -> Term
        decreases self,
    {
        match self {
            Expr::Col(i) => Term::Col(i),
            Expr::Lit(v) => Term::Lit(v@),
            Expr::Binary { op, l, r } => Term::Binary {
                op,
                l: Box::new(l.view()),
                r: Box::new(r.view()),
            },
            Expr::Unary { op, e } => Term::Unary { op, e: Box::new(e.view()) },
            Expr::Like { e, pattern, negated, case_insensitive } => Term::Like {
                e: Box::new(e.view()),
                pattern: pattern@,
                negated,
                case_insensitive,
            },
            Expr::InList { e, list, negated } => Term::InList {
                e: Box::new(e.view()),
                list: cells(list@),
                negated,
            },
            Expr::Between { e, low, high, negated } => Term::Between {
                e: Box::new(e.view()),
                low: Box::new(low.view()),
                high: Box::new(high.view()),
                negated,
            },
            Expr::Func { func, args } => Term::Func { func, args: terms(args@) },
            Expr::Distance { metric, col, query } => Term::Distance { metric, col, query: query@ },
            Expr::Agg { func, arg, distinct } => Term::Agg {
                func,
                arg: match arg {
                    Some(a) => Some(Box::new(a.view())),
                    None => None,
                },
                distinct,
            },
            Expr::Cast { e, ty } => Term::Cast { e: Box::new(e.view()), ty },
        }
    }
}

/// Whether two expressions are the same, numbers compared as numbers.
pub open spec fn same_term(a: Term, b: Term) -> bool
    decreases a,
{
    match (a, b) {
        (Term::Col(i), Term::Col(j)) => i == j,
        (Term::Lit(x), Term::Lit(y)) => same_cell(x, y),
        (Term::Binary { op: o, l: x, r: y }, Term::Binary { op: p, l: u, r: v }) => o == p
            && same_term(*x, *u) && same_term(*y, *v),
        (Term::Unary { op: o, e: x }, Term::Unary { op: p, e: y }) => o == p && same_term(*x, *y),
        (
            Term::Like { e: x, pattern: p, negated: n, case_insensitive: c },
            Term::Like { e: y, pattern: q, negated: m, case_insensitive: d },
        ) => same_term(*x, *y) && p == q && n == m && c == d,
        (
            Term::InList { e: x, list: l, negated: n },
            Term::InList { e: y, list: k, negated: m },
        ) => same_term(*x, *y) && same_cells(l, k) && n == m,
        (
            Term::Between { e: x, low: l, high: h, negated: n },
            Term::Between { e: y, low: k, high: g, negated: m },
        ) => same_term(*x, *y) && same_term(*l, *k) && same_term(*h, *g) && n == m,
        (Term::Func { func: f, args: v }, Term::Func { func: g, args: w }) => f == g
            && same_terms(v, w, v.len()),
        (
            Term::Distance { metric: m, col: c, query: q },
            Term::Distance { metric: n, col: d, query: p },
        ) => m == n && c == d && same_vector(q, p),
        (
            Term::Agg { func: f, arg: x, distinct: d },
            Term::Agg { func: g, arg: y, distinct: c },
        ) => f == g && d == c && match (x, y) {
            (Some(u), Some(v)) => same_term(*u, *v),
            (None, None) => true,
            _ => false,
        },
        (Term::Cast { e: x, ty: t }, Term::Cast { e: y, ty: u }) => same_term(*x, *y) && t == u,
        _ => false,
    }
}

/// Whether two lists of expressions are the same, the first `n` of each.
pub open spec fn same_terms(v: Seq<Term>, w: Seq<Term>, n: nat) -> bool
    decreases v, n,
{
    v.len() == w.len() && (n == 0 || n > v.len() || (same_terms(v, w, (n - 1) as nat) && same_term(
        v[n - 1],
        w[n - 1],
    )))
}

/// The expressions met on the way down the tree, each before those inside it.
/// With `stop`, what is inside an aggregate is left out.
pub open spec fn visited(t: Term, stop: bool) -> Seq<Term>
    decreases t, 1nat,
{
    seq![t] + match t {
        Term::Binary { l, r, .. } => visited(*l, stop) + visited(*r, stop),
        Term::Unary { e, .. } => visited(*e, stop),
        Term::Cast { e, .. } => visited(*e, stop),
        Term::Like { e, .. } => visited(*e, stop),
        Term::InList { e, .. } => visited(*e, stop),
        Term::Between { e, low, high, .. } => visited(*e, stop) + visited(*low, stop) + visited(
            *high,
            stop,
        ),
        Term::Func { args, .. } => visited_all(args, stop, args.len()),
        Term::Agg { arg, .. } => match arg {
            Some(a) if !stop => visited(*a, stop),
            _ => Seq::empty(),
        },
        _ => Seq::empty(),
    }
}

pub open spec fn visited_all(v: Seq<Term>, stop: bool, n: nat) -> Seq<Term>
    decreases v, n,
{
    if n == 0 || n > v.len() {
        Seq::empty()
    } else {
        visited_all(v, stop, (n - 1) as nat) + visited(v[n - 1], stop)
    }
}

pub open spec fn has_aggregate(t: Term) -> bool {
    exists|i: int| 0 <= i < visited(t, false).len() && (#[trigger] visited(t, false)[i]) is Agg
}

/// What the first pair stands in for that is the same as `t`, if any is.
pub open spec fn replacement(t: Term, pats: Seq<(Term, Term)>) -> Option<Term>
    decreases pats.len(),
{
    if pats.len() == 0 {
        None
    } else if same_term(t, pats[0].0) {
        Some(pats[0].1)
    } else {
        replacement(t, pats.skip(1))
    }
}

/// The expression with every part that a pair speaks of replaced, from the top
/// down and once: what was put in is not looked at again.
pub open spec fn substituted(t: Term, pats: Seq<(Term, Term)>) -> Term
    decreases t, 1nat,
{
    match replacement(t, pats) {
        Some(r) => r,
        None => match t {
            Term::Binary { op, l, r } => Term::Binary {
                op,
                l: Box::new(substituted(*l, pats)),
                r: Box::new(substituted(*r, pats)),
            },
            Term::Unary { op, e } => Term::Unary { op, e: Box::new(substituted(*e, pats)) },
            Term::Cast { e, ty } => Term::Cast { e: Box::new(substituted(*e, pats)), ty },
            Term::Like { e, pattern, negated, case_insensitive } => Term::Like {
                e: Box::new(substituted(*e, pats)),
                pattern,
                negated,
                case_insensitive,
            },
            Term::InList { e, list, negated } => Term::InList {
                e: Box::new(substituted(*e, pats)),
                list,
                negated,
            },
            Term::Between { e, low, high, negated } => Term::Between {
                e: Box::new(substituted(*e, pats)),
                low: Box::new(substituted(*low, pats)),
                high: Box::new(substituted(*high, pats)),
                negated,
            },
            Term::Func { func, args } => Term::Func { func, args: substituted_all(args, pats) },
            Term::Agg { func, arg, distinct } => Term::Agg {
                func,
                arg: match arg {
                    Some(a) => Some(Box::new(substituted(*a, pats))),
                    None => None,
                },
                distinct,
            },
            other => other,
        },
    }
}

pub open spec fn substituted_all(v: Seq<Term>, pats: Seq<(Term, Term)>) -> Seq<Term>
    decreases v, 0nat,
{
    Seq::new(
        v.len(),
        |i: int|
            if 0 <= i < v.len() {
                substituted(v[i], pats)
            } else {
                Term::Col(0)
            },
    )
}

pub open spec fn pairs(v: Seq<(Expr, Expr)>) -> Seq<(Term, Term)> {
    Seq::new(v.len(), |i: int| (v[i].0.view(), v[i].1.view()))
}

/// What each of some expressions is.
pub open spec fn seen(v: Seq<&Expr>) -> Seq<Term> {
    Seq::new(v.len(), |i: int| v[i].view())
}

impl Clone for Expr {
    fn clone(&self) -> (r: Expr)
        ensures
            r.view() == self.view(),
    {
        self.copy()
    }
}

/// A copy of a list of expressions.
pub fn copy_exprs(v: &Vec<Expr>) -> (r: Vec<Expr>)
    ensures
        terms(r@) == terms(v@),
    decreases v@, 0nat,
{
    let mut out: Vec<Expr> = Vec::new();
    let mut i: usize = 0;
    while i < v.len()
        invariant
            i <= v.len(),
            out.len() == i,
            forall|k: int| 0 <= k < i ==> (#[trigger] out[k]).view() == v[k].view(),
        decreases v.len() - i,
    {
        assert(decreases_to!(v@ => v@[i as int]));
        out.push(v[i].copy());
        i += 1;
    }
    assert(terms(out@) =~= terms(v@));
    out
}

impl Expr {
    pub fn lit_i(v: i64) -> (r: Expr)
        ensures
            r.view() == Term::Lit(Cell::I64(v)),
    {
        Expr::Lit(Value::I64(v))
    }

    fn copy(&self) -> (r: Expr)
        ensures
            r.view() == self.view(),
        decreases *self, 1nat,
    {
        match self {
            Expr::Col(i) => Expr::Col(*i),
            Expr::Lit(v) => Expr::Lit(v.clone()),
            Expr::Binary { op, l, r } => Expr::Binary {
                op: *op,
                l: Box::new(l.copy()),
                r: Box::new(r.copy()),
            },
            Expr::Unary { op, e } => Expr::Unary { op: *op, e: Box::new(e.copy()) },
            Expr::Like { e, pattern, negated, case_insensitive } => Expr::Like {
                e: Box::new(e.copy()),
                pattern: pattern.clone(),
                negated: *negated,
                case_insensitive: *case_insensitive,
            },
            Expr::InList { e, list, negated } => Expr::InList {
                e: Box::new(e.copy()),
                list: copy_row(list),
                negated: *negated,
            },
            Expr::Between { e, low, high, negated } => Expr::Between {
                e: Box::new(e.copy()),
                low: Box::new(low.copy()),
                high: Box::new(high.copy()),
                negated: *negated,
            },
            Expr::Func { func, args } => Expr::Func { func: *func, args: copy_exprs(args) },
            Expr::Distance { metric, col, query } => Expr::Distance {
                metric: *metric,
                col: *col,
                query: copy_words(query),
            },
            Expr::Agg { func, arg, distinct } => Expr::Agg {
                func: *func,
                arg: match arg {
                    Some(a) => Some(Box::new(a.copy())),
                    None => None,
                },
                distinct: *distinct,
            },
            Expr::Cast { e, ty } => Expr::Cast { e: Box::new(e.copy()), ty: *ty },
        }
    }

    /// Whether two expressions are the same, numbers compared as numbers.
    pub fn same(&self, other: &Expr) -> (r: bool)
        ensures
            r == same_term(self.view(), other.view()),
        decreases *self, 1nat,
    {
        match (self, other) {
            (Expr::Col(i), Expr::Col(j)) => *i == *j,
            (Expr::Lit(x), Expr::Lit(y)) => eq_values(x, y),
            (Expr::Binary { op: o, l: x, r: y }, Expr::Binary { op: p, l: u, r: v }) => *o == *p
                && x.same(u) && y.same(v),
            (Expr::Unary { op: o, e: x }, Expr::Unary { op: p, e: y }) => *o == *p && x.same(y),
            (
                Expr::Like { e: x, pattern: p, negated: n, case_insensitive: c },
                Expr::Like { e: y, pattern: q, negated: m, case_insensitive: d },
            ) => x.same(y) && *p == *q && *n == *m && *c == *d,
            (
                Expr::InList { e: x, list: l, negated: n },
                Expr::InList { e: y, list: k, negated: m },
            ) => x.same(y) && eq_rows(l, k) && *n == *m,
            (
                Expr::Between { e: x, low: l, high: h, negated: n },
                Expr::Between { e: y, low: k, high: g, negated: m },
            ) => x.same(y) && l.same(k) && h.same(g) && *n == *m,
            (Expr::Func { func: f, args: v }, Expr::Func { func: g, args: w }) => *f == *g
                && same_exprs(v, w),
            (
                Expr::Distance { metric: m, col: c, query: q },
                Expr::Distance { metric: n, col: d, query: p },
            ) => *m == *n && *c == *d && eq_vectors(q, p),
            (
                Expr::Agg { func: f, arg: x, distinct: d },
                Expr::Agg { func: g, arg: y, distinct: c },
            ) => *f == *g && *d == *c && match (x, y) {
                (Some(u), Some(v)) => u.same(v),
                (None, None) => true,
                _ => false,
            },
            (Expr::Cast { e: x, ty: t }, Expr::Cast { e: y, ty: u }) => x.same(y) && *t == *u,
            _ => false,
        }
    }

    /// The expressions met on the way down the tree, each before those inside it.
    /// With `stop`, what is inside an aggregate is left out.
    pub fn walk(&self, stop: bool) -> (r: Vec<&Expr>)
        ensures
            seen(r@) == visited(self.view(), stop),
    {
        let mut out: Vec<&Expr> = Vec::new();
        self.walk_into(stop, &mut out);
        assert(seen(out@) =~= visited(self.view(), stop));
        out
    }

    fn walk_into<'a>(&'a self, stop: bool, out: &mut Vec<&'a Expr>)
        ensures
            seen(final(out)@) == seen(old(out)@) + visited(self.view(), stop),
        decreases *self, 1nat,
    {
        let ghost before = seen(out@);
        out.push(self);
        assert(seen(out@) =~= before + seq![self.view()]);
        match self {
            Expr::Binary { l, r, .. } => {
                l.walk_into(stop, out);
                r.walk_into(stop, out);
            },
            Expr::Unary { e, .. } => e.walk_into(stop, out),
            Expr::Cast { e, .. } => e.walk_into(stop, out),
            Expr::Like { e, .. } => e.walk_into(stop, out),
            Expr::InList { e, .. } => e.walk_into(stop, out),
            Expr::Between { e, low, high, .. } => {
                e.walk_into(stop, out);
                low.walk_into(stop, out);
                high.walk_into(stop, out);
            },
            Expr::Func { args, .. } => {
                walk_all(args, stop, out);
            },
            Expr::Agg { arg, .. } => match arg {
                Some(a) => {
                    if !stop {
                        a.walk_into(stop, out);
                    }
                },
                None => {},
            },
            _ => {},
        }
        assert(seen(out@) =~= before + visited(self.view(), stop));
    }

    pub fn contains_agg(&self) -> (r: bool)
        ensures
            r == has_aggregate(self.view()),
    {
        let nodes = self.walk(false);
        let mut i: usize = 0;
        while i < nodes.len()
            invariant
                i <= nodes.len(),
                seen(nodes@) == visited(self.view(), false),
                forall|k: int|
                    0 <= k < i ==> !((#[trigger] visited(self.view(), false)[k]) is Agg),
            decreases nodes.len() - i,
        {
            assert(nodes@[i as int].view() == seen(nodes@)[i as int]);
            if let Expr::Agg { .. } = nodes[i] {
                assert(visited(self.view(), false)[i as int] is Agg);
                return true;
            }
            i += 1;
        }
        false
    }

    /// What the first pair stands in for that is the same as the expression.
    pub fn replaced_by<'a>(&self, pats: &'a Vec<(Expr, Expr)>) -> (r: Option<&'a Expr>)
        ensures
            match r {
                Some(to) => replacement(self.view(), pairs(pats@)) == Some(to.view()),
                None => replacement(self.view(), pairs(pats@)) is None,
            },
    {
        let mut k: usize = 0;
        assert(pairs(pats@).skip(0) =~= pairs(pats@));
        while k < pats.len()
            invariant
                k <= pats.len(),
                replacement(self.view(), pairs(pats@)) == replacement(
                    self.view(),
                    pairs(pats@).skip(k as int),
                ),
            decreases pats.len() - k,
        {
            assert(pairs(pats@).skip(k as int)[0] == pairs(pats@)[k as int]);
            assert(pairs(pats@).skip(k as int).skip(1) =~= pairs(pats@).skip(k + 1));
            if self.same(&pats[k].0) {
                return Some(&pats[k].1);
            }
            k += 1;
        }
        None
    }

    /// The expression with every part that a pair speaks of replaced, from the top
    /// down and once: what was put in is not looked at again.
    pub fn substitute(&self, pats: &Vec<(Expr, Expr)>) -> (r: Expr)
        ensures
            r.view() == substituted(self.view(), pairs(pats@)),
        decreases *self, 1nat,
    {
        if let Some(to) = self.replaced_by(pats) {
            return to.clone();
        }
        match self {
            Expr::Binary { op, l, r } => Expr::Binary {
                op: *op,
                l: Box::new(l.substitute(pats)),
                r: Box::new(r.substitute(pats)),
            },
            Expr::Unary { op, e } => Expr::Unary { op: *op, e: Box::new(e.substitute(pats)) },
            Expr::Cast { e, ty } => Expr::Cast { e: Box::new(e.substitute(pats)), ty: *ty },
            Expr::Like { e, pattern, negated, case_insensitive } => Expr::Like {
                e: Box::new(e.substitute(pats)),
                pattern: pattern.clone(),
                negated: *negated,
                case_insensitive: *case_insensitive,
            },
            Expr::InList { e, list, negated } => Expr::InList {
                e: Box::new(e.substitute(pats)),
                list: copy_row(list),
                negated: *negated,
            },
            Expr::Between { e, low, high, negated } => Expr::Between {
                e: Box::new(e.substitute(pats)),
                low: Box::new(low.substitute(pats)),
                high: Box::new(high.substitute(pats)),
                negated: *negated,
            },
            Expr::Func { func, args } => Expr::Func {
                func: *func,
                args: substitute_all(args, pats),
            },
            Expr::Agg { func, arg, distinct } => Expr::Agg {
                func: *func,
                arg: match arg {
                    Some(a) => Some(Box::new(a.substitute(pats))),
                    None => None,
                },
                distinct: *distinct,
            },
            other => other.clone(),
        }
    }
}

fn same_exprs(v: &Vec<Expr>, w: &Vec<Expr>) -> (r: bool)
    ensures
        r == same_terms(terms(v@), terms(w@), terms(v@).len()),
    decreases v@, 0nat,
{
    if v.len() != w.len() {
        return false;
    }
    let mut ok: bool = true;
    let mut i: usize = 0;
    while i < v.len()
        invariant
            i <= v.len(),
            v.len() == w.len(),
            ok == same_terms(terms(v@), terms(w@), i as nat),
        decreases v.len() - i,
    {
        assert(decreases_to!(v@ => v@[i as int]));
        ok = ok && v[i].same(&w[i]);
        i += 1;
    }
    ok
}

fn walk_all<'a>(v: &'a Vec<Expr>, stop: bool, out: &mut Vec<&'a Expr>)
    ensures
        seen(final(out)@) == seen(old(out)@) + visited_all(terms(v@), stop, v@.len()),
    decreases v@, 0nat,
{
    let ghost before = seen(out@);
    let mut i: usize = 0;
    assert(before =~= before + visited_all(terms(v@), stop, 0));
    while i < v.len()
        invariant
            i <= v.len(),
            seen(out@) == before + visited_all(terms(v@), stop, i as nat),
        decreases v.len() - i,
    {
        assert(decreases_to!(v@ => v@[i as int]));
        let ghost here = visited_all(terms(v@), stop, i as nat);
        v[i].walk_into(stop, out);
        assert(terms(v@)[i as int] == v@[i as int].view());
        assert(before + here + visited(v@[i as int].view(), stop) =~= before + (here + visited(
            v@[i as int].view(),
            stop,
        )));
        i += 1;
    }
}

fn substitute_all(v: &Vec<Expr>, pats: &Vec<(Expr, Expr)>) -> (r: Vec<Expr>)
    ensures
        terms(r@) == substituted_all(terms(v@), pairs(pats@)),
    decreases v@, 0nat,
{
    let mut out: Vec<Expr> = Vec::new();
    let mut i: usize = 0;
    while i < v.len()
        invariant
            i <= v.len(),
            out.len() == i,
            forall|k: int|
                0 <= k < i ==> (#[trigger] out[k]).view() == substituted(
                    v[k].view(),
                    pairs(pats@),
                ),
        decreases v.len() - i,
    {
        assert(decreases_to!(v@ => v@[i as int]));
        out.push(v[i].substitute(pats));
        i += 1;
    }
    assert(terms(out@) =~= substituted_all(terms(v@), pairs(pats@)));
    out
}

#[derive(Debug)]
pub struct Projection {
    pub expr: Expr,
    pub alias: String,
}

/// What a [`Projection`] is.
#[verifier::ext_equal]
pub struct Output {
    pub expr: Term,
    pub alias: Seq<char>,
}

pub open spec fn outputs(v: Seq<Projection>) -> Seq<Output> {
    Seq::new(v.len(), |i: int| Output { expr: v[i].expr.view(), alias: v[i].alias@ })
}

#[derive(Debug)]
pub struct OrderKey {
    pub expr: Expr,
    pub asc: bool,
}

/// What an [`OrderKey`] is.
#[verifier::ext_equal]
pub struct Key {
    pub expr: Term,
    pub asc: bool,
}

pub open spec fn keys(v: Seq<OrderKey>) -> Seq<Key> {
    Seq::new(v.len(), |i: int| Key { expr: v[i].expr.view(), asc: v[i].asc })
}

pub open spec fn maybe(e: Option<Expr>) -> Option<Term> {
    match e {
        Some(x) => Some(x.view()),
        None => None,
    }
}

#[derive(Debug)]
pub struct Select {
    /// `None`: one row without columns.
    pub table: Option<String>,
    pub filter: Option<Expr>,
    pub group_by: Vec<Expr>,
    /// Keeps or drops a group. Read after grouping and before ordering.
    pub having: Option<Expr>,
    pub projection: Vec<Projection>,
    pub order_by: Vec<OrderKey>,
    pub limit: Option<usize>,
    pub offset: usize,
}

/// What a [`Select`] is.
#[verifier::ext_equal]
pub struct Query {
    pub table: Option<Seq<char>>,
    pub filter: Option<Term>,
    pub group_by: Seq<Term>,
    pub having: Option<Term>,
    pub projection: Seq<Output>,
    pub order_by: Seq<Key>,
    pub limit: Option<usize>,
    pub offset: usize,
}

impl View for Select {
    type V = Query;

    open spec fn view(&self) -> Query {
        Query {
            table: match self.table {
                Some(s) => Some(s@),
                None => None,
            },
            filter: maybe(self.filter),
            group_by: terms(self.group_by@),
            having: maybe(self.having),
            projection: outputs(self.projection@),
            order_by: keys(self.order_by@),
            limit: self.limit,
            offset: self.offset,
        }
    }
}

/// Whether the query groups: it has keys, or an aggregate in what it returns or
/// orders by.
pub open spec fn is_grouping(q: Query) -> bool {
    ||| q.group_by.len() > 0
    ||| exists|i: int| 0 <= i < q.projection.len() && has_aggregate((#[trigger] q.projection[i]).expr)
    ||| exists|i: int| 0 <= i < q.order_by.len() && has_aggregate((#[trigger] q.order_by[i]).expr)
}

impl Select {
    pub fn is_aggregate(&self) -> (r: bool)
        ensures
            r == is_grouping(self@),
    {
        if self.group_by.len() > 0 {
            return true;
        }
        let mut i: usize = 0;
        while i < self.projection.len()
            invariant
                i <= self.projection.len(),
                forall|k: int|
                    0 <= k < i ==> !has_aggregate((#[trigger] self@.projection[k]).expr),
            decreases self.projection.len() - i,
        {
            if self.projection[i].expr.contains_agg() {
                assert(has_aggregate(self@.projection[i as int].expr));
                return true;
            }
            i += 1;
        }
        let mut j: usize = 0;
        while j < self.order_by.len()
            invariant
                j <= self.order_by.len(),
                forall|k: int| 0 <= k < j ==> !has_aggregate((#[trigger] self@.order_by[k]).expr),
            decreases self.order_by.len() - j,
        {
            if self.order_by[j].expr.contains_agg() {
                assert(has_aggregate(self@.order_by[j as int].expr));
                return true;
            }
            j += 1;
        }
        false
    }
}

#[derive(Debug)]
pub enum Statement {
    CreateTable { name: String, schema: Schema, if_not_exists: bool },
    DropTable { name: String, if_exists: bool },
    Insert { table: String, columns: Option<Vec<String>>, rows: Vec<Vec<Value>> },
    Select(Box<Select>),
    ShowTables,
    Describe(String),
}

/// What a [`Statement`] is.
#[verifier::ext_equal]
pub enum Command {
    CreateTable { name: Seq<char>, schema: Seq<Attr>, if_not_exists: bool },
    DropTable { name: Seq<char>, if_exists: bool },
    Insert { table: Seq<char>, columns: Option<Seq<Seq<char>>>, rows: Seq<Seq<Cell>> },
    Select(Query),
    ShowTables,
    Describe(Seq<char>),
}

impl View for Statement {
    type V = Command;

    open spec fn view(&self) -> Command {
        match *self {
            Statement::CreateTable { name, schema, if_not_exists } => Command::CreateTable {
                name: name@,
                schema: schema@,
                if_not_exists,
            },
            Statement::DropTable { name, if_exists } => Command::DropTable {
                name: name@,
                if_exists,
            },
            Statement::Insert { table, columns, rows } => Command::Insert {
                table: table@,
                columns: match columns {
                    Some(v) => Some(strings(v@)),
                    None => None,
                },
                rows: cell_rows(rows@),
            },
            Statement::Select(s) => Command::Select((*s)@),
            Statement::ShowTables => Command::ShowTables,
            Statement::Describe(n) => Command::Describe(n@),
        }
    }
}

} // verus!
