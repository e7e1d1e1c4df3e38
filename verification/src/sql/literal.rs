//! Literals, types and names.
use crate::ast::{Ast, Literal, LiteralTree, Name, NameTree, Node, Tree, TreeNode, TypeName, TypeTree};
use crate::column::{cell_number, cell_type, name_of_type, Cell, DataType, Value};
use crate::exec::ops::{held, hold};
use crate::float::{negate, negated, Floats};
use crate::text::{
    dec, dec_usize, eq_ignore_ascii_case, eq_text, err, float_error, in_context, int_error,
    integer, natural, not_a_float, parse_i64, same_name, split, split_text, starts_with, strings,
    strip, stripped, text2, text3, text5, trim, trimmed, usize_in, Error,
};
use vstd::prelude::*;
use vstd::string::*;

verus! {

broadcast use vstd::string::group_string_axioms;

/// The identifier that a name ends in.
pub open spec fn last_name(n: NameTree) -> Result<Seq<char>, Seq<char>> {
    if n.parts.len() > 0 && n.parts.last() is Some {
        Ok(n.parts.last()->0)
    } else {
        Err("не удалось прочитать имя '"@ + n.text + "'"@)
    }
}

pub fn ident_of(n: &Name) -> (r: Result<String, Error>)
    ensures
        match r {
            Ok(s) => last_name(n@) == Ok::<Seq<char>, Seq<char>>(s@),
            Err(e) => last_name(n@) == Err::<Seq<char>, Seq<char>>(e@),
        },
{
    let k: usize = n.parts.len();
    if k > 0 {
        assert(n@.parts.last() == crate::ast::text_of(n.parts@[k - 1]));
        if let Some(s) = &n.parts[k - 1] {
            return Ok(s.clone());
        }
    }
    Err(err(text3("не удалось прочитать имя '", n.text.as_str(), "'")))
}

// --- types -------------------------------------------------------------------------------

/// Whether a type is the one of a name, with arguments or without.
pub open spec fn is_type(text: Seq<char>, name: Seq<char>) -> bool {
    text == name || ((name + "("@).is_prefix_of(text) && text.last() == ')')
}

/// The type of a column of a type that the parser knows.
pub open spec fn known_type(text: Seq<char>) -> Option<DataType> {
    if is_type(text, "TINYINT"@) || is_type(text, "SMALLINT"@) || is_type(text, "INT"@) || is_type(
        text,
        "INTEGER"@,
    ) || is_type(text, "BIGINT"@) {
        Some(DataType::I64)
    } else if is_type(text, "FLOAT"@) || text == "REAL"@ || is_type(text, "DOUBLE"@) || text
        == "DOUBLE PRECISION"@ || is_type(text, "DECIMAL"@) {
        Some(DataType::F64)
    } else if text == "BOOLEAN"@ || text == "BOOL"@ {
        Some(DataType::Bool)
    } else if is_type(text, "CHAR"@) || is_type(text, "VARCHAR"@) || text == "TEXT"@ || is_type(
        text,
        "STRING"@,
    ) || is_type(text, "NVARCHAR"@) {
        Some(DataType::Str)
    } else {
        None
    }
}

/// The type of a column. A vector is no type of the parser's own: it comes as a name
/// with an argument.
pub open spec fn column_type(t: TypeTree) -> Result<DataType, Seq<char>> {
    match t.custom {
        Some((name, args)) => match last_name(name) {
            Err(e) => Err(e),
            Ok(n) => if !same_name(n, "vector"@) {
                Err("неизвестный тип '"@ + n + "'"@)
            } else if args.len() == 0 {
                Err("VECTOR требует размерность: VECTOR(768)"@)
            } else {
                match natural(trim(args[0])) {
                    Some(d) if d <= usize::MAX => Ok(DataType::Vector(d as usize)),
                    _ => Err(in_context("размерность VECTOR"@, int_error(trim(args[0])))),
                }
            },
        },
        None => match known_type(t.text) {
            Some(ty) => Ok(ty),
            None => Err("тип не поддерживается: "@ + t.text),
        },
    }
}

fn type_is(text: &str, name: &str) -> (r: bool)
    ensures
        r == is_type(text@, name@),
{
    if eq_text(text, name) {
        return true;
    }
    let open = text2(name, "(");
    if !starts_with(text, open.as_str()) {
        return false;
    }
    proof {
        reveal_strlit("(");
    }
    let v = crate::text::chars_of(text);
    assert(v@.len() >= open@.len() > 0);
    v[v.len() - 1] == ')'
}

fn known_type_of(t: &str) -> (r: Option<DataType>)
    ensures
        r == known_type(t@),
{
    if type_is(t, "TINYINT") || type_is(t, "SMALLINT") || type_is(t, "INT") || type_is(
        t,
        "INTEGER",
    ) || type_is(t, "BIGINT") {
        Some(DataType::I64)
    } else if type_is(t, "FLOAT") || eq_text(t, "REAL") || type_is(t, "DOUBLE") || eq_text(
        t,
        "DOUBLE PRECISION",
    ) || type_is(t, "DECIMAL") {
        Some(DataType::F64)
    } else if eq_text(t, "BOOLEAN") || eq_text(t, "BOOL") {
        Some(DataType::Bool)
    } else if type_is(t, "CHAR") || type_is(t, "VARCHAR") || eq_text(t, "TEXT") || type_is(
        t,
        "STRING",
    ) || type_is(t, "NVARCHAR") {
        Some(DataType::Str)
    } else {
        None
    }
}

pub fn map_type(t: &TypeName) -> (r: Result<DataType, Error>)
    ensures
        match r {
            Ok(ty) => column_type(t@) == Ok::<DataType, Seq<char>>(ty),
            Err(e) => column_type(t@) == Err::<DataType, Seq<char>>(e@),
        },
{
    match &t.custom {
        Some((name, args)) => {
            let n = match ident_of(name) {
                Ok(n) => n,
                Err(e) => {
                    return Err(e);
                },
            };
            if !eq_ignore_ascii_case(n.as_str(), "vector") {
                return Err(err(text3("неизвестный тип '", n.as_str(), "'")));
            }
            if args.len() == 0 {
                return Err(err("VECTOR требует размерность: VECTOR(768)".to_owned()));
            }
            assert(strings(args@)[0] == args@[0]@);
            match usize_in(trimmed(args[0].as_str()).as_str()) {
                Ok(d) => Ok(DataType::Vector(d)),
                Err(e) => Err(e.context("размерность VECTOR")),
            }
        },
        None => match known_type_of(t.text.as_str()) {
            Some(ty) => Ok(ty),
            None => Err(err(text2("тип не поддерживается: ", t.text.as_str()))),
        },
    }
}

// --- vectors in texts -------------------------------------------------------------------------

/// What stands between the brackets of a vector.
pub open spec fn vector_body(s: Seq<char>) -> Seq<char> {
    strip(trim(s), '[', ']')
}

/// The first `n` of some texts as singles.
pub open spec fn singles_in<F: Floats>(parts: Seq<Seq<char>>, n: nat, fl: F) -> Result<
    Seq<u32>,
    Seq<char>,
>
    decreases n,
{
    if n == 0 || n > parts.len() {
        Ok(Seq::empty())
    } else {
        match singles_in(parts, (n - 1) as nat, fl) {
            Err(e) => Err(e),
            Ok(v) => {
                let p = parts[n - 1];
                match fl.single_in(trim(p)) {
                    Some(x) => Ok(v.push(x)),
                    None => Err(
                        in_context("элемент вектора '"@ + p + "'"@, float_error(trim(p))),
                    ),
                }
            },
        }
    }
}

/// The vector that a text like `[1,2,3]` stands for.
pub open spec fn vector_in<F: Floats>(s: Seq<char>, fl: F) -> Result<Seq<u32>, Seq<char>> {
    let body = vector_body(s);
    if trim(body).len() == 0 {
        Err("пустой вектор"@)
    } else {
        let parts = split(body, ',');
        singles_in(parts, parts.len(), fl)
    }
}

proof fn lemma_singles_err<F: Floats>(parts: Seq<Seq<char>>, k: nat, n: nat, fl: F)
    requires
        k <= n <= parts.len(),
        singles_in(parts, k, fl) is Err,
    ensures
        singles_in(parts, n, fl) == singles_in(parts, k, fl),
    decreases n - k,
{
    if k < n {
        lemma_singles_err(parts, k, (n - 1) as nat, fl);
    }
}

/// The vector that a text like `[1,2,3]` stands for.
pub fn parse_vec_str<F: Floats>(s: &str, fl: &F) -> (r: Result<Vec<u32>, Error>)
    requires
        fl.exact(),
    ensures
        match r {
            Ok(v) => vector_in(s@, *fl) == Ok::<Seq<u32>, Seq<char>>(v@),
            Err(e) => vector_in(s@, *fl) == Err::<Seq<u32>, Seq<char>>(e@),
        },
{
    let inner = trimmed(s);
    let body = stripped(inner.as_str(), '[', ']');
    if trimmed(body.as_str()).as_str().is_empty() {
        return Err(err("пустой вектор".to_owned()));
    }
    let parts = split_text(body.as_str(), ',');
    let ghost ps = strings(parts@);
    let mut out: Vec<u32> = Vec::new();
    let mut i: usize = 0;
    while i < parts.len()
        invariant
            i <= parts.len(),
            fl.exact(),
            ps == strings(parts@),
            vector_in(s@, *fl) == singles_in(ps, ps.len(), *fl),
            singles_in(ps, i as nat, *fl) == Ok::<Seq<u32>, Seq<char>>(out@),
        decreases parts.len() - i,
    {
        let p = parts[i].as_str();
        assert(ps[i as int] == p@);
        let t = trimmed(p);
        match fl.parse_single(t.as_str()) {
            Some(x) => out.push(x),
            None => {
                proof {
                    lemma_singles_err(ps, (i + 1) as nat, ps.len(), *fl);
                }
                let place = text3("элемент вектора '", p, "'");
                return Err(not_a_float(t.as_str()).context(place.as_str()));
            },
        }
        i += 1;
    }
    Ok(out)
}

// --- literals ---------------------------------------------------------------------------------

/// A number: an integer where it is one that fits, else a double.
pub open spec fn number_cell<F: Floats>(n: Seq<char>, fl: F) -> Result<Cell, Seq<char>> {
    match integer(n) {
        Some(i) if i64::MIN <= i <= i64::MAX => Ok(Cell::I64(i as i64)),
        _ => match fl.double_in(n) {
            Some(x) => Ok(Cell::F64(x)),
            None => Err(in_context("число '"@ + n + "'"@, float_error(n))),
        },
    }
}

/// A literal where a type is wanted, or none in particular.
pub open spec fn literal_cell<F: Floats>(e: Tree, want: Option<DataType>, fl: F) -> Result<
    Cell,
    Seq<char>,
>
    decreases e, 1nat, 0nat,
{
    match want {
        Some(DataType::Vector(dim)) => match vector_cell(e, fl) {
            Err(x) => Err(x),
            Ok(v) => if v.len() != dim {
                Err(
                    "вектор длины "@ + dec(v.len() as int) + " в колонку VECTOR("@ + dec(dim as int)
                        + ")"@,
                )
            } else {
                Ok(Cell::Vector(v))
            },
        },
        _ => {
            let r = match e.node {
                TreeNode::Value(l) => match l {
                    LiteralTree::Number(n) => number_cell(n, fl),
                    LiteralTree::Text(s) => Ok(Cell::Str(s)),
                    LiteralTree::Bool(b) => Ok(Cell::Bool(b)),
                    LiteralTree::Other => Err("литерал не поддерживается: "@ + e.text),
                },
                TreeNode::Unary { op, e: x } => if op == "-"@ {
                    match literal_cell(*x, None, fl) {
                        Err(m) => Err(m),
                        Ok(Cell::I64(i)) => Ok(Cell::I64(held(-i))),
                        Ok(Cell::F64(f)) => Ok(Cell::F64(negated(f))),
                        Ok(c) => Err("унарный минус к "@ + name_of_type(cell_type(c))),
                    }
                } else {
                    Err("здесь ожидался литерал, а не '"@ + e.text + "'"@)
                },
                _ => Err("здесь ожидался литерал, а не '"@ + e.text + "'"@),
            };
            match (want, r) {
                (Some(DataType::F64), Ok(Cell::I64(i))) => Ok(Cell::F64(fl.from_int(i))),
                _ => r,
            }
        },
    }
}

/// A vector: `ARRAY[..]`, or a text like `[1,2,3]`.
pub open spec fn vector_cell<F: Floats>(e: Tree, fl: F) -> Result<Seq<u32>, Seq<char>>
    decreases e, 0nat, 0nat,
{
    match e.node {
        TreeNode::Array(v) => vector_items(v, v.len(), fl),
        TreeNode::Value(l) => match l {
            LiteralTree::Text(s) => vector_in(s, fl),
            _ => Err("вектор задаётся как '[1,2,3]', получено "@ + e.text),
        },
        _ => Err("вектор задаётся как '[1,2,3]' или ARRAY[1,2,3], получено '"@ + e.text + "'"@),
    }
}

/// The first `n` items of `ARRAY[..]` as singles.
pub open spec fn vector_items<F: Floats>(v: Seq<Tree>, n: nat, fl: F) -> Result<Seq<u32>, Seq<char>>
    decreases v, n, 0nat,
{
    if n == 0 || n > v.len() {
        Ok(Seq::empty())
    } else {
        match vector_items(v, (n - 1) as nat, fl) {
            Err(e) => Err(e),
            Ok(out) => match literal_cell(v[n - 1], None, fl) {
                Err(e) => Err(e),
                Ok(c) => match cell_number(c, fl) {
                    Some(x) => Ok(out.push(fl.narrowed(x))),
                    None => Err("элемент вектора должен быть числом"@),
                },
            },
        }
    }
}

pub proof fn lemma_items_err<F: Floats>(v: Seq<Tree>, k: nat, n: nat, fl: F)
    requires
        k <= n <= v.len(),
        vector_items(v, k, fl) is Err,
    ensures
        vector_items(v, n, fl) == vector_items(v, k, fl),
    decreases n - k,
{
    if k < n {
        lemma_items_err(v, k, (n - 1) as nat, fl);
    }
}

fn number_value<F: Floats>(n: &str, fl: &F) -> (r: Result<Value, Error>)
    requires
        fl.exact(),
    ensures
        match r {
            Ok(v) => number_cell(n@, *fl) == Ok::<Cell, Seq<char>>(v@),
            Err(e) => number_cell(n@, *fl) == Err::<Cell, Seq<char>>(e@),
        },
{
    match parse_i64(n) {
        Some(i) => Ok(Value::I64(i)),
        None => match fl.parse(n) {
            Some(x) => Ok(Value::F64(x)),
            None => {
                let place = text3("число '", n, "'");
                Err(not_a_float(n).context(place.as_str()))
            },
        },
    }
}

/// A literal where a type is wanted, or none in particular.
pub fn literal<F: Floats>(e: &Ast, want: Option<DataType>, fl: &F) -> (r: Result<Value, Error>)
    requires
        fl.exact(),
    ensures
        match r {
            Ok(v) => literal_cell(e.view(), want, *fl) == Ok::<Cell, Seq<char>>(v@),
            Err(x) => literal_cell(e.view(), want, *fl) == Err::<Cell, Seq<char>>(x@),
        },
    decreases *e, 1nat,
{
    if let Some(DataType::Vector(dim)) = want {
        let v = match vector_literal(e, fl) {
            Ok(v) => v,
            Err(x) => {
                return Err(x);
            },
        };
        if v.len() != dim {
            return Err(
                err(
                    text5(
                        "вектор длины ",
                        dec_usize(v.len()).as_str(),
                        " в колонку VECTOR(",
                        dec_usize(dim).as_str(),
                        ")",
                    ),
                ),
            );
        }
        return Ok(Value::Vector(v));
    }
    let v = match &e.node {
        Node::Value(l) => match l {
            Literal::Number(n) => match number_value(n.as_str(), fl) {
                Ok(v) => v,
                Err(x) => {
                    return Err(x);
                },
            },
            Literal::Text(s) => Value::Str(s.clone()),
            Literal::Bool(b) => Value::Bool(*b),
            Literal::Other => {
                return Err(err(text2("литерал не поддерживается: ", e.text.as_str())));
            },
        },
        Node::Unary { op, e: x } => {
            if !eq_text(op.as_str(), "-") {
                return Err(err(text3("здесь ожидался литерал, а не '", e.text.as_str(), "'")));
            }
            assert(decreases_to!(*e => e.node));
            match literal(x, None, fl) {
                Err(m) => {
                    return Err(m);
                },
                Ok(Value::I64(i)) => Value::I64(hold(-(i as i128))),
                Ok(Value::F64(f)) => Value::F64(negate(f)),
                Ok(other) => {
                    return Err(
                        err(text2("унарный минус к ", other.type_of().name().as_str())),
                    );
                },
            }
        },
        _ => {
            return Err(err(text3("здесь ожидался литерал, а не '", e.text.as_str(), "'")));
        },
    };
    match (want, v) {
        (Some(DataType::F64), Value::I64(i)) => Ok(Value::F64(fl.of_int(i))),
        (_, v) => Ok(v),
    }
}

/// A vector: `ARRAY[..]`, or a text like `[1,2,3]`.
pub fn vector_literal<F: Floats>(e: &Ast, fl: &F) -> (r: Result<Vec<u32>, Error>)
    requires
        fl.exact(),
    ensures
        match r {
            Ok(v) => vector_cell(e.view(), *fl) == Ok::<Seq<u32>, Seq<char>>(v@),
            Err(x) => vector_cell(e.view(), *fl) == Err::<Seq<u32>, Seq<char>>(x@),
        },
    decreases *e, 0nat,
{
    match &e.node {
        Node::Array(v) => {
            let ghost ts = crate::ast::trees(v@);
            let mut out: Vec<u32> = Vec::new();
            let mut i: usize = 0;
            while i < v.len()
                invariant
                    i <= v.len(),
                    fl.exact(),
                    e.node == Node::Array(*v),
                    ts == crate::ast::trees(v@),
                    vector_cell(e.view(), *fl) == vector_items(ts, ts.len(), *fl),
                    vector_items(ts, i as nat, *fl) == Ok::<Seq<u32>, Seq<char>>(out@),
                decreases v.len() - i,
            {
                assert(ts[i as int] == v@[i as int].view());
                assert(decreases_to!(*e => e.node));
                assert(decreases_to!(e.node => e.node->Array_0));
                assert(decreases_to!(v@ => v@[i as int]));
                let x = match literal(&v[i], None, fl) {
                    Ok(x) => x,
                    Err(m) => {
                        proof {
                            lemma_items_err(ts, (i + 1) as nat, ts.len(), *fl);
                        }
                        return Err(m);
                    },
                };
                match x.as_f64(fl) {
                    Some(f) => out.push(fl.narrow(f)),
                    None => {
                        proof {
                            lemma_items_err(ts, (i + 1) as nat, ts.len(), *fl);
                        }
                        return Err(err("элемент вектора должен быть числом".to_owned()));
                    },
                }
                i += 1;
            }
            Ok(out)
        },
        Node::Value(l) => match l {
            Literal::Text(s) => parse_vec_str(s.as_str(), fl),
            _ => Err(err(text2("вектор задаётся как '[1,2,3]', получено ", e.text.as_str()))),
        },
        _ => Err(
            err(
                text3(
                    "вектор задаётся как '[1,2,3]' или ARRAY[1,2,3], получено '",
                    e.text.as_str(),
                    "'",
                ),
            ),
        ),
    }
}

/// A list of literals, the first `n` of it.
pub open spec fn literal_cells<F: Floats>(v: Seq<Tree>, n: nat, fl: F) -> Result<Seq<Cell>, Seq<char>>
    decreases n,
{
    if n == 0 || n > v.len() {
        Ok(Seq::empty())
    } else {
        match literal_cells(v, (n - 1) as nat, fl) {
            Err(e) => Err(e),
            Ok(out) => match literal_cell(v[n - 1], None, fl) {
                Err(e) => Err(e),
                Ok(c) => Ok(out.push(c)),
            },
        }
    }
}

proof fn lemma_cells_err<F: Floats>(v: Seq<Tree>, k: nat, n: nat, fl: F)
    requires
        k <= n <= v.len(),
        literal_cells(v, k, fl) is Err,
    ensures
        literal_cells(v, n, fl) == literal_cells(v, k, fl),
    decreases n - k,
{
    if k < n {
        lemma_cells_err(v, k, (n - 1) as nat, fl);
    }
}

pub fn literals<F: Floats>(v: &Vec<Ast>, fl: &F) -> (r: Result<Vec<Value>, Error>)
    requires
        fl.exact(),
    ensures
        match r {
            Ok(out) => literal_cells(crate::ast::trees(v@), v@.len(), *fl) == Ok::<
                Seq<Cell>,
                Seq<char>,
            >(crate::column::cells(out@)),
            Err(e) => literal_cells(crate::ast::trees(v@), v@.len(), *fl) == Err::<
                Seq<Cell>,
                Seq<char>,
            >(e@),
        },
{
    let ghost ts = crate::ast::trees(v@);
    let mut out: Vec<Value> = Vec::new();
    let mut i: usize = 0;
    assert(crate::column::cells(out@) =~= Seq::<Cell>::empty());
    while i < v.len()
        invariant
            i <= v.len(),
            fl.exact(),
            ts == crate::ast::trees(v@),
            literal_cells(ts, i as nat, *fl) == Ok::<Seq<Cell>, Seq<char>>(
                crate::column::cells(out@),
            ),
        decreases v.len() - i,
    {
        assert(ts[i as int] == v@[i as int].view());
        match literal(&v[i], None, fl) {
            Ok(x) => {
                let ghost before = crate::column::cells(out@);
                out.push(x);
                assert(crate::column::cells(out@) =~= before.push(x@));
            },
            Err(m) => {
                proof {
                    lemma_cells_err(ts, (i + 1) as nat, ts.len(), *fl);
                }
                return Err(m);
            },
        }
        i += 1;
    }
    Ok(out)
}

} // verus!
