//! JSON as the database reads it: the values of rows, and what a server answers.
use crate::column::{name_of_type, Cell, DataType, Value};
use crate::float::{absolute, magnitude, Floats, INFINITY};
use crate::text::{dec, dec_usize, err, text2, text4, text5, Error};
use serde_json::Value as JsonValue;
use vstd::prelude::*;
use vstd::string::*;

verus! {

broadcast use vstd::string::group_string_axioms;

#[verifier::external_type_specification]
#[verifier::external_body]
pub struct ExJsonValue(JsonValue);

/// A JSON value and its text.
#[verifier::ext_equal]
pub struct Json {
    pub text: Seq<char>,
    pub node: Box<JsonNode>,
}

#[verifier::ext_equal]
pub enum JsonNode {
    Null,
    Bool(bool),
    /// A number, as an `i64` and as a `u64` where it is one, and the bits of it as a double.
    Number { whole: Option<i64>, count: Option<u64>, bits: u64 },
    Text(Seq<char>),
    Array(Seq<Json>),
    Object(Map<Seq<char>, Json>),
}

/// What a `serde_json::Value` holds.
pub uninterp spec fn json_tree(v: JsonValue) -> Json;

pub open spec fn json_trees(v: Seq<JsonValue>) -> Seq<Json> {
    Seq::new(v.len(), |i: int| json_tree(v[i]))
}

/// The value that a text in bytes stands for, or what `serde_json` says is wrong with it.
pub uninterp spec fn json_in(b: Seq<u8>) -> Result<Json, Seq<char>>;

/// `from_slice` of `serde_json` into a `Value`: the value, or the text of the error; both
/// depend on the bytes alone.
#[verifier::external_body]
pub(crate) fn json_of(b: &[u8]) -> (r: Result<JsonValue, String>)
    ensures
        match r {
            Ok(v) => json_in(b@) == Ok::<Json, Seq<char>>(json_tree(v)),
            Err(e) => json_in(b@) == Err::<Json, Seq<char>>(e@),
        },
{
    serde_json::from_slice(b).map_err(|e| e.to_string())
}

/// `Value::to_string` of `serde_json`: the text of the value.
#[verifier::external_body]
pub(crate) fn json_text(v: &JsonValue) -> (r: String)
    ensures
        r@ == json_tree(*v).text,
{
    v.to_string()
}

/// `Value::is_null` of `serde_json`.
#[verifier::external_body]
pub(crate) fn json_null(v: &JsonValue) -> (r: bool)
    ensures
        r == (*json_tree(*v).node is Null),
{
    v.is_null()
}

/// `Value::as_bool` of `serde_json`: the value where it is true or false.
#[verifier::external_body]
pub(crate) fn json_bool(v: &JsonValue) -> (r: Option<bool>)
    ensures
        r == (match *json_tree(*v).node {
            JsonNode::Bool(b) => Some(b),
            _ => None,
        }),
{
    v.as_bool()
}

/// `Value::as_i64` of `serde_json`: the number where it is an `i64`.
#[verifier::external_body]
pub(crate) fn json_int(v: &JsonValue) -> (r: Option<i64>)
    ensures
        r == (match *json_tree(*v).node {
            JsonNode::Number { whole, .. } => whole,
            _ => None,
        }),
{
    v.as_i64()
}

/// `Value::as_u64` of `serde_json`: the number where it is a `u64`.
#[verifier::external_body]
pub(crate) fn json_count(v: &JsonValue) -> (r: Option<u64>)
    ensures
        r == (match *json_tree(*v).node {
            JsonNode::Number { count, .. } => count,
            _ => None,
        }),
{
    v.as_u64()
}

/// `Value::as_f64` of `serde_json`: the bits of the number as a double; there are some for
/// every number.
#[verifier::external_body]
pub(crate) fn json_bits(v: &JsonValue) -> (r: Option<u64>)
    ensures
        r == (match *json_tree(*v).node {
            JsonNode::Number { bits, .. } => Some(bits),
            _ => None,
        }),
{
    v.as_f64().map(|x| x.to_bits())
}

/// `Value::as_str` of `serde_json`: the text where the value is one.
#[verifier::external_body]
pub(crate) fn json_str(v: &JsonValue) -> (r: Option<&str>)
    ensures
        match r {
            Some(s) => *json_tree(*v).node == JsonNode::Text(s@),
            None => !(*json_tree(*v).node is Text),
        },
{
    v.as_str()
}

/// `Value::as_array` of `serde_json`: the items where the value is an array.
#[verifier::external_body]
pub(crate) fn json_items(v: &JsonValue) -> (r: Option<&Vec<JsonValue>>)
    ensures
        match r {
            Some(a) => *json_tree(*v).node == JsonNode::Array(json_trees(a@)),
            None => !(*json_tree(*v).node is Array),
        },
{
    v.as_array()
}

/// `Value::get` of `serde_json` with a key: the value under the key where there is one.
#[verifier::external_body]
pub(crate) fn json_field<'a>(v: &'a JsonValue, key: &str) -> (r: Option<&'a JsonValue>)
    ensures
        match r {
            Some(x) => field_of(json_tree(*v), key@) == Some(json_tree(*x)),
            None => field_of(json_tree(*v), key@) is None,
        },
{
    v.get(key)
}

/// What stands under a key.
pub open spec fn field_of(j: Json, key: Seq<char>) -> Option<Json> {
    match *j.node {
        JsonNode::Object(m) => if m.dom().contains(key) {
            Some(m[key])
        } else {
            None
        },
        _ => None,
    }
}

/// The items under a key; none where no array stands there.
pub open spec fn items_of(j: Json, key: Seq<char>) -> Option<Seq<Json>> {
    match field_of(j, key) {
        Some(x) => match *x.node {
            JsonNode::Array(v) => Some(v),
            _ => None,
        },
        None => None,
    }
}

/// The text under a key; none where no text stands there.
pub open spec fn text_under(j: Json, key: Seq<char>) -> Option<Seq<char>> {
    match field_of(j, key) {
        Some(x) => match *x.node {
            JsonNode::Text(s) => Some(s),
            _ => None,
        },
        None => None,
    }
}

pub fn items_under<'a>(v: &'a JsonValue, key: &str) -> (r: Option<&'a Vec<JsonValue>>)
    ensures
        match r {
            Some(a) => items_of(json_tree(*v), key@) == Some(json_trees(a@)),
            None => items_of(json_tree(*v), key@) is None,
        },
{
    match json_field(v, key) {
        Some(x) => json_items(x),
        None => None,
    }
}

pub fn str_under<'a>(v: &'a JsonValue, key: &str) -> (r: Option<&'a str>)
    ensures
        match r {
            Some(s) => text_under(json_tree(*v), key@) == Some(s@),
            None => text_under(json_tree(*v), key@) is None,
        },
{
    match json_field(v, key) {
        Some(x) => json_str(x),
        None => None,
    }
}

// --- values of columns ------------------------------------------------------------------------

/// The first `n` items of an array as singles.
pub open spec fn json_singles<F: Floats>(v: Seq<Json>, n: nat, fl: F) -> Result<Seq<u32>, Seq<char>>
    decreases n,
{
    if n == 0 || n > v.len() {
        Ok(Seq::empty())
    } else {
        match json_singles(v, (n - 1) as nat, fl) {
            Err(e) => Err(e),
            Ok(out) => match *v[n - 1].node {
                JsonNode::Number { bits, .. } => Ok(out.push(fl.narrowed(bits))),
                _ => Err("элемент вектора не число"@),
            },
        }
    }
}

/// A JSON value for a column of a type.
pub open spec fn json_cell<F: Floats>(j: Json, ty: DataType, fl: F) -> Result<Cell, Seq<char>> {
    match (ty, *j.node) {
        (DataType::I64, JsonNode::Number { whole, .. }) => match whole {
            Some(x) => Ok(Cell::I64(x)),
            None => Err(j.text + " не целое"@),
        },
        (DataType::F64, JsonNode::Number { bits, .. }) => Ok(Cell::F64(bits)),
        (DataType::Bool, JsonNode::Bool(b)) => Ok(Cell::Bool(b)),
        (DataType::Str, JsonNode::Text(s)) => Ok(Cell::Str(s)),
        (DataType::Vector(dim), JsonNode::Array(v)) => if v.len() != dim {
            Err(
                "вектор длины "@ + dec(v.len() as int) + " в колонку VECTOR("@ + dec(dim as int)
                    + ")"@,
            )
        } else {
            match json_singles(v, v.len(), fl) {
                Ok(x) => Ok(Cell::Vector(x)),
                Err(e) => Err(e),
            }
        },
        _ => Err("значение "@ + j.text + " не подходит колонке "@ + name_of_type(ty)),
    }
}

proof fn lemma_singles_err<F: Floats>(v: Seq<Json>, k: nat, n: nat, fl: F)
    requires
        k <= n <= v.len(),
        json_singles(v, k, fl) is Err,
    ensures
        json_singles(v, n, fl) == json_singles(v, k, fl),
    decreases n - k,
{
    if k < n {
        lemma_singles_err(v, k, (n - 1) as nat, fl);
    }
}

fn singles<F: Floats>(v: &Vec<JsonValue>, fl: &F) -> (r: Result<Vec<u32>, Error>)
    requires
        fl.exact(),
    ensures
        match r {
            Ok(x) => json_singles(json_trees(v@), v@.len(), *fl) == Ok::<Seq<u32>, Seq<char>>(x@),
            Err(e) => json_singles(json_trees(v@), v@.len(), *fl) == Err::<Seq<u32>, Seq<char>>(
                e@,
            ),
        },
{
    let ghost t = json_trees(v@);
    let mut out: Vec<u32> = Vec::new();
    let mut i: usize = 0;
    while i < v.len()
        invariant
            i <= v.len(),
            fl.exact(),
            t == json_trees(v@),
            json_singles(t, i as nat, *fl) == Ok::<Seq<u32>, Seq<char>>(out@),
        decreases v.len() - i,
    {
        assert(t[i as int] == json_tree(v@[i as int]));
        match json_bits(&v[i]) {
            Some(bits) => out.push(fl.narrow(bits)),
            None => {
                proof {
                    lemma_singles_err(t, (i + 1) as nat, t.len(), *fl);
                }
                return Err(err("элемент вектора не число".to_owned()));
            },
        }
        i += 1;
    }
    Ok(out)
}

/// A value as an answer carries it. JSON has neither infinities nor a not-a-number: those go
/// as their text.
pub open spec fn worded<F: Floats>(c: Cell, fl: F) -> Cell {
    match c {
        Cell::F64(x) => if magnitude(x) >= INFINITY {
            Cell::Str(fl.double_text(x))
        } else {
            c
        },
        _ => c,
    }
}

impl Value {
    /// The value as an answer carries it. JSON has neither infinities nor a not-a-number:
    /// those go as their text.
    pub fn worded<F: Floats>(self, fl: &F) -> (r: Value)
        requires
            fl.exact(),
        ensures
            r@ == worded(self@, *fl),
    {
        if let Value::F64(x) = self {
            if absolute(x) >= INFINITY {
                return Value::Str(fl.show(x));
            }
        }
        self
    }

    /// A JSON value for a column of a type.
    pub fn from_json<F: Floats>(j: &JsonValue, ty: DataType, fl: &F) -> (r: Result<Value, Error>)
        requires
            fl.exact(),
        ensures
            match r {
                Ok(v) => json_cell(json_tree(*j), ty, *fl) == Ok::<Cell, Seq<char>>(v@),
                Err(e) => json_cell(json_tree(*j), ty, *fl) == Err::<Cell, Seq<char>>(e@),
            },
    {
        match ty {
            DataType::I64 => {
                if json_bits(j).is_some() {
                    return match json_int(j) {
                        Some(x) => Ok(Value::I64(x)),
                        None => Err(err(text2(json_text(j).as_str(), " не целое"))),
                    };
                }
            },
            DataType::F64 => {
                if let Some(bits) = json_bits(j) {
                    return Ok(Value::F64(bits));
                }
            },
            DataType::Bool => {
                if let Some(b) = json_bool(j) {
                    return Ok(Value::Bool(b));
                }
            },
            DataType::Str => {
                if let Some(s) = json_str(j) {
                    return Ok(Value::Str(s.to_owned()));
                }
            },
            DataType::Vector(dim) => {
                if let Some(v) = json_items(j) {
                    if v.len() != dim {
                        return Err(
                            err(
                                text5(
                                    "вектор длины ",
                                    dec_usize(v.len()).as_str(),
                                    " в колонку VECTOR(",
                                    dec_usize(dim).as_str(),
                                    ")",
                                ),
                            ),
                        );
                    }
                    return match singles(v, fl) {
                        Ok(x) => Ok(Value::Vector(x)),
                        Err(e) => Err(e),
                    };
                }
            },
        }
        Err(
            err(
                text4(
                    "значение ",
                    json_text(j).as_str(),
                    " не подходит колонке ",
                    ty.name().as_str(),
                ),
            ),
        )
    }
}

} // verus!
