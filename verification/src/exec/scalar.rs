//! Casts, scalar functions and the text of values.
use crate::column::{bit, bit_of, bits, truths, Cell, Cells, DataType, Value};
use crate::exec::arr::{bools, numbers, spread, Arr};
use crate::exec::calendar::{extract_part, time_floor, time_part};
use crate::exec::ops::{agrees, held, hold, place_of};
use crate::float::{
    absolute, eq_numbers, magnitude, negate, negated, number_eq, FloatOp, Floats, ZERO,
};
use crate::plan::{ScalarFunc, UnOp};
use crate::text::{
    chars_of, dec, dec_i64, dec_usize, eq_text, err, integer, join, join_texts,
    lemma_strings_push, lowercase, parse_i64, string_of_range, strings, text2, text3, to_lowercase,
    to_uppercase, trim, trimmed, uppercase, Error,
};
use vstd::prelude::*;
use vstd::string::*;

verus! {

broadcast use vstd::string::group_string_axioms;

// --- text of values -----------------------------------------------------------------

pub open spec fn single_texts<F: Floats>(v: Seq<u32>, fl: F) -> Seq<Seq<char>> {
    Seq::new(v.len(), |i: int| fl.single_text(v[i]))
}

/// The text of a value.
pub open spec fn rendered<F: Floats>(c: Cell, fl: F) -> Seq<char> {
    match c {
        Cell::I64(x) => dec(x as int),
        Cell::F64(x) => fl.double_text(x),
        Cell::Bool(b) => if b {
            "true"@
        } else {
            "false"@
        },
        Cell::Str(s) => s,
        Cell::Vector(v) => "["@ + join(single_texts(v, fl), ","@) + "]"@,
    }
}

/// The text of a value.
pub fn render<F: Floats>(v: &Value, fl: &F) -> (r: String)
    requires
        fl.exact(),
    ensures
        r@ == rendered(v@, *fl),
{
    match v {
        Value::I64(x) => dec_i64(*x),
        Value::F64(x) => fl.show(*x),
        Value::Bool(b) => if *b {
            "true".to_owned()
        } else {
            "false".to_owned()
        },
        Value::Str(s) => s.clone(),
        Value::Vector(v) => {
            let mut parts: Vec<String> = Vec::new();
            let mut i: usize = 0;
            while i < v.len()
                invariant
                    i <= v.len(),
                    fl.exact(),
                    parts.len() == i,
                    forall|k: int| 0 <= k < i ==> (#[trigger] parts[k])@ == fl.single_text(v[k]),
                decreases v.len() - i,
            {
                parts.push(fl.show_single(v[i]));
                i += 1;
            }
            assert(strings(parts@) =~= single_texts(v@, *fl));
            text3("[", join_texts(&parts, ",").as_str(), "]")
        },
    }
}

// --- casts ----------------------------------------------------------------------------

/// The integer that a text stands for; zero where it stands for none.
pub open spec fn text_int(s: Seq<char>) -> i64 {
    match integer(trim(s)) {
        Some(n) if i64::MIN <= n <= i64::MAX => n as i64,
        _ => 0,
    }
}

/// The double that a text stands for; zero where it stands for none.
pub open spec fn text_number<F: Floats>(s: Seq<char>, fl: F) -> u64 {
    match fl.double_in(trim(s)) {
        Some(x) => x,
        None => ZERO,
    }
}

pub open spec fn map_ints<F: Floats>(v: Seq<u64>, fl: F) -> Seq<i64> {
    Seq::new(v.len(), |i: int| fl.to_int(v[i]))
}

pub open spec fn cast_to<F: Floats>(c: Cells, ty: DataType, fl: F) -> Result<Cells, Seq<char>> {
    match ty {
        DataType::I64 => match c {
            Cells::Str(v) => Ok(Cells::I64(Seq::new(v.len(), |i: int| text_int(v[i])))),
            _ => match numbers(c, fl) {
                Err(e) => Err(e),
                Ok(v) => Ok(Cells::I64(map_ints(v, fl))),
            },
        },
        DataType::F64 => match c {
            Cells::Str(v) => Ok(Cells::F64(Seq::new(v.len(), |i: int| text_number(v[i], fl)))),
            _ => match numbers(c, fl) {
                Err(e) => Err(e),
                Ok(v) => Ok(Cells::F64(v)),
            },
        },
        DataType::Bool => match numbers(c, fl) {
            Err(e) => Err(e),
            Ok(v) => Ok(
                Cells::Bool(bits(Seq::new(v.len(), |i: int| !number_eq(v[i], ZERO)))),
            ),
        },
        DataType::Str => Ok(Cells::Str(Seq::new(c.len(), |i: int| rendered(c.at(i), fl)))),
        DataType::Vector(_) => Err("CAST в VECTOR не поддерживается"@),
    }
}

pub fn cast<F: Floats>(v: &Arr, ty: DataType, fl: &F) -> (r: Result<Arr, Error>)
    requires
        fl.exact(),
    ensures
        agrees(r, cast_to(v@, ty, *fl)),
{
    match ty {
        DataType::I64 => match v {
            Arr::Str(s) => {
                let mut out: Vec<i64> = Vec::new();
                let mut i: usize = 0;
                while i < s.len()
                    invariant
                        i <= s.len(),
                        out.len() == i,
                        forall|k: int| 0 <= k < i ==> (#[trigger] out[k]) == text_int(s[k]@),
                    decreases s.len() - i,
                {
                    out.push(
                        match parse_i64(trimmed(s[i].as_str()).as_str()) {
                            Some(n) => n,
                            None => 0,
                        },
                    );
                    i += 1;
                }
                assert(out@ =~= Seq::new(strings(s@).len(), |i: int| text_int(strings(s@)[i])));
                Ok(Arr::I64(out))
            },
            other => match other.to_f64(fl) {
                Err(e) => Err(e),
                Ok(x) => Ok(Arr::I64(to_ints(&x, fl))),
            },
        },
        DataType::F64 => match v {
            Arr::Str(s) => {
                let mut out: Vec<u64> = Vec::new();
                let mut i: usize = 0;
                while i < s.len()
                    invariant
                        i <= s.len(),
                        fl.exact(),
                        out.len() == i,
                        forall|k: int|
                            0 <= k < i ==> (#[trigger] out[k]) == text_number(s[k]@, *fl),
                    decreases s.len() - i,
                {
                    out.push(
                        match fl.parse(trimmed(s[i].as_str()).as_str()) {
                            Some(x) => x,
                            None => ZERO,
                        },
                    );
                    i += 1;
                }
                assert(out@ =~= Seq::new(
                    strings(s@).len(),
                    |i: int| text_number(strings(s@)[i], *fl),
                ));
                Ok(Arr::F64(out))
            },
            other => match other.to_f64(fl) {
                Err(e) => Err(e),
                Ok(x) => Ok(Arr::F64(x)),
            },
        },
        DataType::Bool => match v.to_f64(fl) {
            Err(e) => Err(e),
            Ok(x) => {
                let mut out: Vec<u8> = Vec::new();
                let mut i: usize = 0;
                while i < x.len()
                    invariant
                        i <= x.len(),
                        out.len() == i,
                        forall|k: int|
                            0 <= k < i ==> (#[trigger] out[k]) == bit(!number_eq(x[k], ZERO)),
                    decreases x.len() - i,
                {
                    out.push(bit_of(!eq_numbers(x[i], ZERO)));
                    i += 1;
                }
                assert(out@ =~= bits(Seq::new(x@.len(), |i: int| !number_eq(x@[i], ZERO))));
                Ok(Arr::Bool(out))
            },
        },
        DataType::Str => {
            let mut out: Vec<String> = Vec::new();
            let mut i: usize = 0;
            while i < v.len()
                invariant
                    i <= v@.len(),
                    fl.exact(),
                    out.len() == i,
                    forall|k: int| 0 <= k < i ==> (#[trigger] out[k])@ == rendered(v@.at(k), *fl),
                decreases v@.len() - i,
            {
                out.push(render(&v.value(i), fl));
                i += 1;
            }
            assert(strings(out@) =~= Seq::new(v@.len(), |i: int| rendered(v@.at(i), *fl)));
            Ok(Arr::Str(out))
        },
        DataType::Vector(_) => Err(err("CAST в VECTOR не поддерживается".to_owned())),
    }
}

fn to_ints<F: Floats>(x: &Vec<u64>, fl: &F) -> (r: Vec<i64>)
    requires
        fl.exact(),
    ensures
        r@ == map_ints(x@, *fl),
{
    let mut out: Vec<i64> = Vec::new();
    let mut i: usize = 0;
    while i < x.len()
        invariant
            i <= x.len(),
            fl.exact(),
            out@ == map_ints(x@, *fl).take(i as int),
        decreases x.len() - i,
    {
        out.push(fl.as_int(x[i]));
        assert(out@ =~= map_ints(x@, *fl).take(i + 1));
        i += 1;
    }
    assert(out@ =~= map_ints(x@, *fl));
    out
}

// --- unary operators -----------------------------------------------------------------

pub open spec fn unary<F: Floats>(op: UnOp, c: Cells, fl: F) -> Result<Cells, Seq<char>> {
    match op {
        UnOp::Not => match bools(c) {
            Err(e) => Err(e),
            Ok(v) => Ok(Cells::Bool(bits(Seq::new(v.len(), |i: int| !v[i])))),
        },
        UnOp::Neg => match c {
            Cells::I64(v) => Ok(Cells::I64(Seq::new(v.len(), |i: int| held(-v[i])))),
            _ => match numbers(c, fl) {
                Err(e) => Err(e),
                Ok(v) => Ok(Cells::F64(Seq::new(v.len(), |i: int| negated(v[i])))),
            },
        },
    }
}

/// Truth values turned round.
pub fn flip(v: &Vec<u8>) -> (r: Vec<u8>)
    ensures
        r@ == bits(Seq::new(v@.len(), |i: int| !truths(v@)[i])),
{
    let mut out: Vec<u8> = Vec::new();
    let mut i: usize = 0;
    while i < v.len()
        invariant
            i <= v.len(),
            out.len() == i,
            forall|k: int| 0 <= k < i ==> (#[trigger] out[k]) == bit(v[k] == 0),
        decreases v.len() - i,
    {
        out.push(bit_of(v[i] == 0));
        i += 1;
    }
    assert(out@ =~= bits(Seq::new(v@.len(), |i: int| !truths(v@)[i])));
    out
}

pub fn eval_unary<F: Floats>(op: UnOp, v: &Arr, fl: &F) -> (r: Result<Arr, Error>)
    requires
        fl.exact(),
    ensures
        agrees(r, unary(op, v@, *fl)),
{
    match op {
        UnOp::Not => match v.as_bool() {
            Err(e) => Err(e),
            Ok(x) => Ok(Arr::Bool(flip(x))),
        },
        UnOp::Neg => match v {
            Arr::I64(x) => {
                let mut out: Vec<i64> = Vec::new();
                let mut i: usize = 0;
                while i < x.len()
                    invariant
                        i <= x.len(),
                        out.len() == i,
                        forall|k: int| 0 <= k < i ==> (#[trigger] out[k]) == held(-x[k]),
                    decreases x.len() - i,
                {
                    out.push(hold(-(x[i] as i128)));
                    i += 1;
                }
                assert(out@ =~= Seq::new(x@.len(), |i: int| held(-x@[i])));
                Ok(Arr::I64(out))
            },
            other => match other.to_f64(fl) {
                Err(e) => Err(e),
                Ok(x) => {
                    let mut out: Vec<u64> = Vec::new();
                    let mut i: usize = 0;
                    while i < x.len()
                        invariant
                            i <= x.len(),
                            out.len() == i,
                            forall|k: int| 0 <= k < i ==> (#[trigger] out[k]) == negated(x[k]),
                        decreases x.len() - i,
                    {
                        out.push(negate(x[i]));
                        i += 1;
                    }
                    assert(out@ =~= Seq::new(x@.len(), |i: int| negated(x@[i])));
                    Ok(Arr::F64(out))
                },
            },
        },
    }
}

// --- scalar functions -----------------------------------------------------------------

/// The length that the arguments agree on: that of the first that is no constant.
pub open spec fn common_len(args: Seq<Cells>) -> nat
    decreases args.len(),
{
    if args.len() == 0 {
        1
    } else if args[0].len() != 1 {
        args[0].len()
    } else {
        common_len(args.skip(1))
    }
}

/// Whether arguments that are no constants have one length.
pub open spec fn aligned(args: Seq<Cells>, n: nat) -> bool {
    forall|i: int| 0 <= i < args.len() ==> (#[trigger] args[i]).len() == 1 || args[i].len() == n
}

/// Whether a function can be computed of `n` arguments. Those that it does not need may be
/// there all the same; `if` goes without its last one.
pub open spec fn computes(func: ScalarFunc, n: nat) -> bool {
    n >= match func {
        ScalarFunc::Substring | ScalarFunc::DateTrunc | ScalarFunc::If => 2int,
        _ => 1,
    }
}

/// What stands for a missing value of the type of `c`: the empty text, or zero.
pub open spec fn neutral(c: Cells) -> Cells {
    match c {
        Cells::Str(_) => Cells::Str(seq![Seq::empty()]),
        _ => Cells::F64(seq![ZERO]),
    }
}

/// The arguments of `if`; one without its last argument gets the neutral value of the type
/// of its second.
pub open spec fn with_else(args: Seq<Cells>) -> Seq<Cells> {
    if args.len() == 2 {
        args.push(neutral(args[1]))
    } else {
        args
    }
}

/// A part of a text; characters are counted from one.
pub open spec fn cut(s: Seq<char>, start: i64, count: Option<i64>) -> Seq<char> {
    let from = clipped(start - 1, s.len());
    match count {
        None => s.subrange(from, s.len() as int),
        Some(c) => s.subrange(from, from + clipped(c as int, (s.len() - from) as nat)),
    }
}

pub open spec fn clipped(x: int, most: nat) -> int {
    if x < 0 {
        0
    } else if x > most {
        most as int
    } else {
        x
    }
}

/// The number of seconds in a unit of time.
pub open spec fn unit_seconds(u: Seq<char>) -> Result<int, Seq<char>> {
    if u == "second"@ {
        Ok(1)
    } else if u == "minute"@ {
        Ok(60)
    } else if u == "hour"@ {
        Ok(3600)
    } else if u == "day"@ {
        Ok(86_400)
    } else {
        Err("date_trunc: единица '"@ + u + "' не поддерживается"@)
    }
}

pub open spec fn float_map<F: Floats>(op: FloatOp, v: Seq<u64>, d: u64, fl: F) -> Seq<u64> {
    Seq::new(v.len(), |i: int| fl.apply(op, v[i], d))
}

pub open spec fn float_func(func: ScalarFunc) -> FloatOp {
    match func {
        ScalarFunc::Floor => FloatOp::Floor,
        ScalarFunc::Ceil => FloatOp::Ceil,
        _ => FloatOp::Sqrt,
    }
}

/// The decimal places to round to: the first value of the second argument.
pub open spec fn places<F: Floats>(args: Seq<Cells>, fl: F) -> Result<u64, Seq<char>> {
    if args.len() < 2 {
        Ok(ZERO)
    } else {
        match numbers(args[1], fl) {
            Err(e) => Err(e),
            Ok(d) => if d.len() == 0 {
                Ok(ZERO)
            } else {
                Ok(d[0])
            },
        }
    }
}

pub open spec fn substring<F: Floats>(args: Seq<Cells>, fl: F) -> Result<Cells, Seq<char>> {
    match args[0] {
        Cells::Str(s) => match numbers(args[1], fl) {
            Err(e) => Err(e),
            Ok(start) => if args.len() < 3 {
                Ok(
                    Cells::Str(
                        Seq::new(
                            common_len(args),
                            |i: int|
                                cut(
                                    s[spread(s.len(), i)],
                                    fl.to_int(start[spread(start.len(), i)]),
                                    None,
                                ),
                        ),
                    ),
                )
            } else {
                match numbers(args[2], fl) {
                    Err(e) => Err(e),
                    Ok(count) => Ok(
                        Cells::Str(
                            Seq::new(
                                common_len(args),
                                |i: int|
                                    cut(
                                        s[spread(s.len(), i)],
                                        fl.to_int(start[spread(start.len(), i)]),
                                        Some(fl.to_int(count[spread(count.len(), i)])),
                                    ),
                            ),
                        ),
                    ),
                }
            },
        },
        _ => Err("substring применим к строкам"@),
    }
}

pub open spec fn truncated<F: Floats>(args: Seq<Cells>, fl: F) -> Result<Cells, Seq<char>> {
    match args[0] {
        Cells::Str(unit) => match numbers(args[1], fl) {
            Err(e) => Err(e),
            Ok(secs) => if unit.len() == 0 {
                Ok(Cells::I64(Seq::empty()))
            } else {
                match unit_seconds(lowercase(unit[0])) {
                    Err(e) => Err(e),
                    Ok(step) => Ok(
                        Cells::I64(
                            Seq::new(
                                secs.len(),
                                |i: int| held(time_floor(fl.to_int(secs[i]) as int, step)),
                            ),
                        ),
                    ),
                }
            },
        },
        _ => Err("date_trunc: первым аргументом единица времени, например 'minute'"@),
    }
}

pub open spec fn chosen<F: Floats>(args: Seq<Cells>, fl: F) -> Result<Cells, Seq<char>> {
    match bools(args[0]) {
        Err(e) => Err(e),
        Ok(cond) => match (args[1], args[2]) {
            (Cells::Str(x), Cells::Str(y)) => Ok(
                Cells::Str(
                    Seq::new(
                        common_len(args),
                        |i: int|
                            if cond[spread(cond.len(), i)] {
                                x[spread(x.len(), i)]
                            } else {
                                y[spread(y.len(), i)]
                            },
                    ),
                ),
            ),
            _ => match numbers(args[1], fl) {
                Err(e) => Err(e),
                Ok(x) => match numbers(args[2], fl) {
                    Err(e) => Err(e),
                    Ok(y) => Ok(
                        Cells::F64(
                            Seq::new(
                                common_len(args),
                                |i: int|
                                    if cond[spread(cond.len(), i)] {
                                        x[spread(x.len(), i)]
                                    } else {
                                        y[spread(y.len(), i)]
                                    },
                            ),
                        ),
                    ),
                },
            },
        },
    }
}

/// A scalar function of its arguments.
pub open spec fn scalar<F: Floats>(func: ScalarFunc, args: Seq<Cells>, fl: F) -> Result<
    Cells,
    Seq<char>,
> {
    if !computes(func, args.len()) {
        Err("неверное число аргументов: "@ + dec(args.len() as int))
    } else {
        match func {
            ScalarFunc::Length => match args[0] {
                Cells::Str(s) => Ok(
                    Cells::I64(Seq::new(s.len(), |i: int| held(s[i].len() as int))),
                ),
                c => Err(
                    "length применим к строкам, получено "@ + crate::column::name_of_type(
                        c.data_type(),
                    ),
                ),
            },
            ScalarFunc::Lower => match args[0] {
                Cells::Str(s) => Ok(Cells::Str(Seq::new(s.len(), |i: int| lowercase(s[i])))),
                c => Err(not_text(c)),
            },
            ScalarFunc::Upper => match args[0] {
                Cells::Str(s) => Ok(Cells::Str(Seq::new(s.len(), |i: int| uppercase(s[i])))),
                c => Err(not_text(c)),
            },
            ScalarFunc::Abs => match args[0] {
                Cells::I64(v) => Ok(
                    Cells::I64(
                        Seq::new(
                            v.len(),
                            |i: int|
                                if v[i] < 0 {
                                    held(-v[i])
                                } else {
                                    v[i]
                                },
                        ),
                    ),
                ),
                c => match numbers(c, fl) {
                    Err(e) => Err(e),
                    Ok(v) => Ok(Cells::F64(Seq::new(v.len(), |i: int| magnitude(v[i])))),
                },
            },
            ScalarFunc::Floor | ScalarFunc::Ceil | ScalarFunc::Sqrt => match numbers(args[0], fl) {
                Err(e) => Err(e),
                Ok(v) => Ok(Cells::F64(float_map(float_func(func), v, ZERO, fl))),
            },
            ScalarFunc::Round => match numbers(args[0], fl) {
                Err(e) => Err(e),
                Ok(v) => match places(args, fl) {
                    Err(e) => Err(e),
                    Ok(d) => Ok(Cells::F64(float_map(FloatOp::Round, v, d, fl))),
                },
            },
            ScalarFunc::Substring => substring(args, fl),
            ScalarFunc::ExtractHour
            | ScalarFunc::ExtractMinute
            | ScalarFunc::ExtractDay
            | ScalarFunc::ExtractMonth
            | ScalarFunc::ExtractYear => match numbers(args[0], fl) {
                Err(e) => Err(e),
                Ok(v) => Ok(
                    Cells::I64(
                        Seq::new(v.len(), |i: int| time_part(func, fl.to_int(v[i]) as int) as i64),
                    ),
                ),
            },
            ScalarFunc::DateTrunc => truncated(args, fl),
            ScalarFunc::Coalesce => Ok(args[0]),
            ScalarFunc::If => chosen(with_else(args), fl),
        }
    }
}

pub open spec fn not_text(c: Cells) -> Seq<char> {
    "lower/upper применимы к строкам, получено "@ + crate::column::name_of_type(c.data_type())
}

pub open spec fn arrays(v: Seq<Arr>) -> Seq<Cells> {
    Seq::new(v.len(), |i: int| v[i]@)
}

fn cut_text(s: &str, start: i64, count: Option<i64>) -> (r: String)
    ensures
        r@ == cut(s@, start, count),
{
    let v = chars_of(s);
    let n: usize = v.len();
    let from: usize = if start <= 1 {
        0
    } else if (start - 1) as u64 > n as u64 {
        n
    } else {
        (start - 1) as usize
    };
    let to: usize = match count {
        None => n,
        Some(c) => if c <= 0 {
            from
        } else if c as u64 > (n - from) as u64 {
            n
        } else {
            from + c as usize
        },
    };
    string_of_range(&v, from, to)
}

fn args_len(args: &Vec<Arr>) -> (r: usize)
    ensures
        r == common_len(arrays(args@)),
{
    let mut i: usize = 0;
    assert(arrays(args@).skip(0) =~= arrays(args@));
    while i < args.len()
        invariant
            i <= args.len(),
            common_len(arrays(args@).skip(i as int)) == common_len(arrays(args@)),
        decreases args.len() - i,
    {
        assert(arrays(args@).skip(i as int)[0] == args@[i as int]@);
        assert(arrays(args@).skip(i as int).skip(1) =~= arrays(args@).skip(i + 1));
        if args[i].len() != 1 {
            return args[i].len();
        }
        i += 1;
    }
    1
}

proof fn lemma_common_len(args: Seq<Cells>, n: nat)
    requires
        aligned(args, n),
    ensures
        aligned(args, common_len(args)),
    decreases args.len(),
{
    if args.len() > 0 {
        let rest = args.skip(1);
        assert forall|i: int| 0 <= i < rest.len() implies (#[trigger] rest[i]).len() == 1
            || rest[i].len() == n by {
            assert(rest[i] == args[i + 1]);
        }
        lemma_common_len(rest, n);
        if args[0].len() != 1 {
            assert(args[0].len() == n);
        } else {
            assert forall|i: int| 0 <= i < args.len() implies (#[trigger] args[i]).len() == 1
                || args[i].len() == common_len(args) by {
                if i > 0 {
                    assert(rest[i - 1] == args[i]);
                }
            }
        }
    }
}

fn map_floats<F: Floats>(op: FloatOp, v: &Vec<u64>, d: u64, fl: &F) -> (r: Vec<u64>)
    requires
        fl.exact(),
    ensures
        r@ == float_map(op, v@, d, *fl),
{
    let mut out: Vec<u64> = Vec::new();
    let mut i: usize = 0;
    while i < v.len()
        invariant
            i <= v.len(),
            fl.exact(),
            out@ == float_map(op, v@, d, *fl).take(i as int),
        decreases v.len() - i,
    {
        out.push(fl.compute(op, v[i], d));
        assert(out@ =~= float_map(op, v@, d, *fl).take(i + 1));
        i += 1;
    }
    assert(out@ =~= float_map(op, v@, d, *fl));
    out
}

fn substring_of<F: Floats>(args: &Vec<Arr>, fl: &F) -> (r: Result<Arr, Error>)
    requires
        fl.exact(),
        args.len() >= 2,
        aligned(arrays(args@), common_len(arrays(args@))),
    ensures
        agrees(r, substring(arrays(args@), *fl)),
{
    let ghost ca = arrays(args@);
    assert(ca[0] == args@[0]@ && ca[1] == args@[1]@);
    let n: usize = args_len(args);
    let s = match &args[0] {
        Arr::Str(s) => s,
        _ => {
            return Err(err("substring применим к строкам".to_owned()));
        },
    };
    let start = match args[1].to_f64(fl) {
        Ok(v) => v,
        Err(e) => {
            return Err(e);
        },
    };
    let count: Option<Vec<u64>> = if args.len() < 3 {
        None
    } else {
        assert(ca[2] == args@[2]@);
        match args[2].to_f64(fl) {
            Ok(v) => Some(v),
            Err(e) => {
                return Err(e);
            },
        }
    };
    let ghost want = substring(ca, *fl)->Ok_0->Str_0;
    let mut out: Vec<String> = Vec::new();
    let mut i: usize = 0;
    assert(substring(ca, *fl) is Ok);
    assert(want.len() == n);
    while i < n
        invariant
            i <= n,
            fl.exact(),
            n == common_len(ca),
            ca == arrays(args@),
            args.len() >= 2,
            ca[0] == Cells::Str(strings(s@)),
            numbers(ca[1], *fl) == Ok::<Seq<u64>, Seq<char>>(start@),
            count is None <==> args.len() < 3,
            count matches Some(c) ==> numbers(ca[2], *fl) == Ok::<Seq<u64>, Seq<char>>(c@),
            s@.len() == 1 || s@.len() == n,
            start@.len() == 1 || start@.len() == n,
            count matches Some(c) ==> c@.len() == 1 || c@.len() == n,
            substring(ca, *fl) == Ok::<Cells, Seq<char>>(Cells::Str(want)),
            want.len() == n,
            strings(out@) == want.take(i as int),
        decreases n - i,
    {
        let begin: i64 = fl.as_int(start[place_of(start.len(), i)]);
        let take: Option<i64> = match &count {
            None => None,
            Some(c) => Some(fl.as_int(c[place_of(c.len(), i)])),
        };
        let piece = cut_text(s[place_of(s.len(), i)].as_str(), begin, take);
        proof {
            lemma_strings_push(out@, piece);
            assert(strings(s@)[spread(s@.len(), i as int)] == s@[spread(s@.len(), i as int)]@);
            assert(want[i as int] == piece@);
        }
        out.push(piece);
        assert(strings(out@) =~= want.take(i + 1));
        i += 1;
    }
    assert(strings(out@) =~= want);
    Ok(Arr::Str(out))
}

fn seconds_in(u: &str) -> (r: Result<i64, Error>)
    ensures
        match r {
            Ok(n) => unit_seconds(u@) == Ok::<int, Seq<char>>(n as int) && n > 0,
            Err(e) => unit_seconds(u@) == Err::<int, Seq<char>>(e@),
        },
{
    if eq_text(u, "second") {
        Ok(1)
    } else if eq_text(u, "minute") {
        Ok(60)
    } else if eq_text(u, "hour") {
        Ok(3600)
    } else if eq_text(u, "day") {
        Ok(86_400)
    } else {
        Err(err(text3("date_trunc: единица '", u, "' не поддерживается")))
    }
}

fn floor_time(ts: i64, step: i64) -> (r: i64)
    requires
        0 < step <= 86_400,
    ensures
        r == held(time_floor(ts as int, step as int)),
{
    proof {
        vstd::arithmetic::div_mod::lemma_fundamental_div_mod(ts as int, step as int);
        vstd::arithmetic::div_mod::lemma_mod_bound(ts as int, step as int);
        assert((ts as int / step as int) * step == step * (ts as int / step as int))
            by (nonlinear_arith);
    }
    let rest: i64 = match ts.checked_rem_euclid(step) {
        Some(r) => r,
        None => 0,
    };
    hold(ts as i128 - rest as i128)
}

fn trunc_of<F: Floats>(args: &Vec<Arr>, fl: &F) -> (r: Result<Arr, Error>)
    requires
        fl.exact(),
        args.len() >= 2,
    ensures
        agrees(r, truncated(arrays(args@), *fl)),
{
    let ghost ca = arrays(args@);
    assert(ca[0] == args@[0]@ && ca[1] == args@[1]@);
    let unit = match &args[0] {
        Arr::Str(u) => u,
        _ => {
            return Err(
                err("date_trunc: первым аргументом единица времени, например 'minute'".to_owned()),
            );
        },
    };
    let secs = match args[1].to_f64(fl) {
        Ok(v) => v,
        Err(e) => {
            return Err(e);
        },
    };
    if unit.len() == 0 {
        let none: Vec<i64> = Vec::new();
        return Ok(Arr::I64(none));
    }
    let step: i64 = match seconds_in(to_lowercase(unit[0].as_str()).as_str()) {
        Ok(n) => n,
        Err(e) => {
            return Err(e);
        },
    };
    let ghost want = truncated(ca, *fl)->Ok_0->I64_0;
    assert(truncated(ca, *fl) == Ok::<Cells, Seq<char>>(Cells::I64(want)));
    assert(0 < step <= 86_400);
    let mut out: Vec<i64> = Vec::new();
    let mut i: usize = 0;
    while i < secs.len()
        invariant
            i <= secs.len(),
            fl.exact(),
            0 < step <= 86_400,
            want.len() == secs@.len(),
            forall|k: int|
                0 <= k < secs@.len() ==> (#[trigger] want[k]) == held(
                    time_floor(fl.to_int(secs@[k]) as int, step as int),
                ),
            out@ == want.take(i as int),
        decreases secs.len() - i,
    {
        out.push(floor_time(fl.as_int(secs[i]), step));
        assert(out@ =~= want.take(i + 1));
        i += 1;
    }
    assert(out@ =~= want);
    Ok(Arr::I64(out))
}

fn choose_of<F: Floats>(args: &Vec<Arr>, fl: &F) -> (r: Result<Arr, Error>)
    requires
        fl.exact(),
        args.len() >= 3,
        aligned(arrays(args@), common_len(arrays(args@))),
    ensures
        agrees(r, chosen(arrays(args@), *fl)),
{
    let ghost ca = arrays(args@);
    assert(ca[0] == args@[0]@ && ca[1] == args@[1]@ && ca[2] == args@[2]@);
    let n: usize = args_len(args);
    let cond = match args[0].as_bool() {
        Ok(v) => v,
        Err(e) => {
            return Err(e);
        },
    };
    match (&args[1], &args[2]) {
        (Arr::Str(x), Arr::Str(y)) => {
            let ghost want = chosen(ca, *fl)->Ok_0->Str_0;
            let mut out: Vec<String> = Vec::new();
            let mut i: usize = 0;
            while i < n
                invariant
                    i <= n,
                    cond@.len() == 1 || cond@.len() == n,
                    x@.len() == 1 || x@.len() == n,
                    y@.len() == 1 || y@.len() == n,
                    want.len() == n,
                    forall|k: int|
                        0 <= k < n ==> (#[trigger] want[k]) == (if cond@[spread(cond@.len(), k)] != 0 {
                            x@[spread(x@.len(), k)]@
                        } else {
                            y@[spread(y@.len(), k)]@
                        }),
                    strings(out@) == want.take(i as int),
                decreases n - i,
            {
                let pick = if cond[place_of(cond.len(), i)] != 0 {
                    x[place_of(x.len(), i)].clone()
                } else {
                    y[place_of(y.len(), i)].clone()
                };
                proof {
                    lemma_strings_push(out@, pick);
                }
                out.push(pick);
                assert(strings(out@) =~= want.take(i + 1));
                i += 1;
            }
            assert(strings(out@) =~= want);
            Ok(Arr::Str(out))
        },
        _ => {
            let x = match args[1].to_f64(fl) {
                Ok(v) => v,
                Err(e) => {
                    return Err(e);
                },
            };
            let y = match args[2].to_f64(fl) {
                Ok(v) => v,
                Err(e) => {
                    return Err(e);
                },
            };
            let ghost want = chosen(ca, *fl)->Ok_0->F64_0;
            let mut out: Vec<u64> = Vec::new();
            let mut i: usize = 0;
            while i < n
                invariant
                    i <= n,
                    cond@.len() == 1 || cond@.len() == n,
                    x@.len() == 1 || x@.len() == n,
                    y@.len() == 1 || y@.len() == n,
                    want.len() == n,
                    forall|k: int|
                        0 <= k < n ==> (#[trigger] want[k]) == (if cond@[spread(cond@.len(), k)] != 0 {
                            x@[spread(x@.len(), k)]
                        } else {
                            y@[spread(y@.len(), k)]
                        }),
                    out@ == want.take(i as int),
                decreases n - i,
            {
                out.push(
                    if cond[place_of(cond.len(), i)] != 0 {
                        x[place_of(x.len(), i)]
                    } else {
                        y[place_of(y.len(), i)]
                    },
                );
                assert(out@ =~= want.take(i + 1));
                i += 1;
            }
            assert(out@ =~= want);
            Ok(Arr::F64(out))
        },
    }
}

fn change_case(func: ScalarFunc, a: &Arr) -> (r: Result<Arr, Error>)
    requires
        func == ScalarFunc::Lower || func == ScalarFunc::Upper,
    ensures
        match a@ {
            Cells::Str(s) => r matches Ok(x) && x@ == Cells::Str(
                Seq::new(
                    s.len(),
                    |i: int|
                        if func == ScalarFunc::Lower {
                            lowercase(s[i])
                        } else {
                            uppercase(s[i])
                        },
                ),
            ),
            c => r matches Err(e) && e@ == not_text(c),
        },
{
    match a {
        Arr::Str(s) => {
            let mut out: Vec<String> = Vec::new();
            let mut i: usize = 0;
            while i < s.len()
                invariant
                    i <= s.len(),
                    out.len() == i,
                    forall|k: int|
                        0 <= k < i ==> (#[trigger] out[k])@ == (if func == ScalarFunc::Lower {
                            lowercase(s[k]@)
                        } else {
                            uppercase(s[k]@)
                        }),
                decreases s.len() - i,
            {
                out.push(
                    if func == ScalarFunc::Lower {
                        to_lowercase(s[i].as_str())
                    } else {
                        to_uppercase(s[i].as_str())
                    },
                );
                i += 1;
            }
            assert(strings(out@) =~= Seq::new(
                strings(s@).len(),
                |i: int|
                    if func == ScalarFunc::Lower {
                        lowercase(strings(s@)[i])
                    } else {
                        uppercase(strings(s@)[i])
                    },
            ));
            Ok(Arr::Str(out))
        },
        other => Err(
            err(
                text2(
                    "lower/upper применимы к строкам, получено ",
                    other.data_type().name().as_str(),
                ),
            ),
        ),
    }
}

fn lengths_of(s: &Vec<String>) -> (r: Vec<i64>)
    ensures
        r@ == Seq::new(strings(s@).len(), |i: int| held(strings(s@)[i].len() as int)),
{
    let mut out: Vec<i64> = Vec::new();
    let mut i: usize = 0;
    while i < s.len()
        invariant
            i <= s.len(),
            out.len() == i,
            forall|k: int| 0 <= k < i ==> (#[trigger] out[k]) == held(s[k]@.len() as int),
        decreases s.len() - i,
    {
        out.push(hold(chars_of(s[i].as_str()).len() as i128));
        i += 1;
    }
    assert(out@ =~= Seq::new(strings(s@).len(), |i: int| held(strings(s@)[i].len() as int)));
    out
}

fn absolute_of<F: Floats>(a: &Arr, fl: &F) -> (r: Result<Arr, Error>)
    requires
        fl.exact(),
    ensures
        agrees(r, scalar(ScalarFunc::Abs, seq![a@], *fl)),
{
    match a {
        Arr::I64(v) => {
            let mut out: Vec<i64> = Vec::new();
            let mut i: usize = 0;
            while i < v.len()
                invariant
                    i <= v.len(),
                    out.len() == i,
                    forall|k: int|
                        0 <= k < i ==> (#[trigger] out[k]) == (if v[k] < 0 {
                            held(-v[k])
                        } else {
                            v[k]
                        }),
                decreases v.len() - i,
            {
                out.push(
                    if v[i] < 0 {
                        hold(-(v[i] as i128))
                    } else {
                        v[i]
                    },
                );
                i += 1;
            }
            assert(out@ =~= Seq::new(
                v@.len(),
                |i: int|
                    if v@[i] < 0 {
                        held(-v@[i])
                    } else {
                        v@[i]
                    },
            ));
            Ok(Arr::I64(out))
        },
        other => match other.to_f64(fl) {
            Err(e) => Err(e),
            Ok(v) => {
                let mut out: Vec<u64> = Vec::new();
                let mut i: usize = 0;
                while i < v.len()
                    invariant
                        i <= v.len(),
                        out.len() == i,
                        forall|k: int| 0 <= k < i ==> (#[trigger] out[k]) == magnitude(v[k]),
                    decreases v.len() - i,
                {
                    out.push(absolute(v[i]));
                    i += 1;
                }
                assert(out@ =~= Seq::new(v@.len(), |i: int| magnitude(v@[i])));
                Ok(Arr::F64(out))
            },
        },
    }
}

fn parts_of<F: Floats>(func: ScalarFunc, v: &Vec<u64>, fl: &F) -> (r: Vec<i64>)
    requires
        fl.exact(),
    ensures
        r@ == Seq::new(v@.len(), |i: int| time_part(func, fl.to_int(v@[i]) as int) as i64),
{
    let mut out: Vec<i64> = Vec::new();
    let mut i: usize = 0;
    while i < v.len()
        invariant
            i <= v.len(),
            fl.exact(),
            out.len() == i,
            forall|k: int|
                0 <= k < i ==> (#[trigger] out[k]) == time_part(func, fl.to_int(v[k]) as int) as i64,
        decreases v.len() - i,
    {
        out.push(extract_part(func, fl.as_int(v[i])));
        i += 1;
    }
    assert(out@ =~= Seq::new(v@.len(), |i: int| time_part(func, fl.to_int(v@[i]) as int) as i64));
    out
}

fn neutral_of(a: &Arr) -> (r: Arr)
    ensures
        r@ == neutral(a@),
{
    match a {
        Arr::Str(_) => {
            let s = String::new();
            assert(s@ =~= Seq::<char>::empty());
            let mut v: Vec<String> = Vec::new();
            v.push(s);
            assert(strings(v@) =~= seq![Seq::<char>::empty()]);
            Arr::Str(v)
        },
        _ => {
            let mut v: Vec<u64> = Vec::new();
            v.push(ZERO);
            assert(v@ =~= seq![ZERO]);
            Arr::F64(v)
        },
    }
}

/// A scalar function of its arguments. The length of the result is set by the
/// arguments that are no constants: over an empty selection it is empty too.
pub fn scalar_func<F: Floats>(func: ScalarFunc, args: Vec<Arr>, fl: &F) -> (r: Result<Arr, Error>)
    requires
        fl.exact(),
        exists|n: nat| aligned(arrays(args@), n),
    ensures
        agrees(r, scalar(func, arrays(args@), *fl)),
{
    let ghost ca = arrays(args@);
    let least: usize = match func {
        ScalarFunc::Substring | ScalarFunc::DateTrunc | ScalarFunc::If => 2,
        _ => 1,
    };
    if args.len() < least {
        return Err(err(text2("неверное число аргументов: ", dec_usize(args.len()).as_str())));
    }
    proof {
        let n = choose|n: nat| aligned(ca, n);
        lemma_common_len(ca, n);
        assert(ca[0] == args@[0]@);
    }
    match func {
        ScalarFunc::Length => match &args[0] {
            Arr::Str(s) => Ok(Arr::I64(lengths_of(s))),
            other => Err(
                err(
                    text2("length применим к строкам, получено ", other.data_type().name().as_str()),
                ),
            ),
        },
        ScalarFunc::Lower | ScalarFunc::Upper => {
            let r = change_case(func, &args[0]);
            proof {
                if let Cells::Str(s) = ca[0] {
                    assert(Seq::new(
                        s.len(),
                        |i: int|
                            if func == ScalarFunc::Lower {
                                lowercase(s[i])
                            } else {
                                uppercase(s[i])
                            },
                    ) =~= scalar(func, ca, *fl)->Ok_0->Str_0);
                }
            }
            r
        },
        ScalarFunc::Abs => {
            assert(scalar(func, ca, *fl) == scalar(func, seq![ca[0]], *fl));
            absolute_of(&args[0], fl)
        },
        ScalarFunc::Floor | ScalarFunc::Ceil | ScalarFunc::Sqrt => match args[0].to_f64(fl) {
            Err(e) => Err(e),
            Ok(v) => {
                let op = match func {
                    ScalarFunc::Floor => FloatOp::Floor,
                    ScalarFunc::Ceil => FloatOp::Ceil,
                    _ => FloatOp::Sqrt,
                };
                Ok(Arr::F64(map_floats(op, &v, ZERO, fl)))
            },
        },
        ScalarFunc::Round => match args[0].to_f64(fl) {
            Err(e) => Err(e),
            Ok(v) => {
                let d: u64 = if args.len() < 2 {
                    ZERO
                } else {
                    assert(ca[1] == args@[1]@);
                    match args[1].to_f64(fl) {
                        Err(e) => {
                            return Err(e);
                        },
                        Ok(d) => if d.len() == 0 {
                            ZERO
                        } else {
                            d[0]
                        },
                    }
                };
                Ok(Arr::F64(map_floats(FloatOp::Round, &v, d, fl)))
            },
        },
        ScalarFunc::Substring => substring_of(&args, fl),
        ScalarFunc::ExtractHour
        | ScalarFunc::ExtractMinute
        | ScalarFunc::ExtractDay
        | ScalarFunc::ExtractMonth
        | ScalarFunc::ExtractYear => match args[0].to_f64(fl) {
            Err(e) => Err(e),
            Ok(v) => Ok(Arr::I64(parts_of(func, &v, fl))),
        },
        ScalarFunc::DateTrunc => trunc_of(&args, fl),
        ScalarFunc::Coalesce => {
            let mut args = args;
            Ok(args.swap_remove(0))
        },
        ScalarFunc::If => {
            let mut args = args;
            if args.len() == 2 {
                assert(ca[1] == args@[1]@);
                let x = neutral_of(&args[1]);
                args.push(x);
                proof {
                    assert(arrays(args@) =~= ca.push(neutral(ca[1])));
                    lemma_common_len(arrays(args@), common_len(ca));
                }
            } else {
                assert(arrays(args@) =~= ca);
            }
            choose_of(&args, fl)
        },
    }
}

/// A condition and a value with nothing for the other rows, as `CASE` without `ELSE` has it:
/// rows on which the condition fails get the empty text where the value is a text, and zero
/// where it is a number.
pub proof fn lemma_without_else<F: Floats>(cond: Seq<u8>, value: Cells, i: int, fl: F)
    requires
        value !is Vector,
        cond.len() == 1 || value.len() == 1 || cond.len() == value.len(),
        0 <= i < common_len(seq![Cells::Bool(cond), value]),
    ensures
        scalar(ScalarFunc::If, seq![Cells::Bool(cond), value], fl) matches Ok(c) && c.len()
            == common_len(seq![Cells::Bool(cond), value]) && c.at(i) == (match value {
            Cells::Str(v) => Cell::Str(
                if cond[spread(cond.len(), i)] != 0 {
                    v[spread(v.len(), i)]
                } else {
                    Seq::empty()
                },
            ),
            _ => Cell::F64(
                if cond[spread(cond.len(), i)] != 0 {
                    let v = numbers(value, fl)->Ok_0;
                    v[spread(v.len(), i)]
                } else {
                    ZERO
                },
            ),
        }),
{
    let args = seq![Cells::Bool(cond), value];
    let all = with_else(args);
    assert(all.len() == 3 && all[0] == args[0] && all[1] == args[1]);
    assert(common_len(all) == common_len(args)) by {
        reveal_with_fuel(common_len, 4);
        assert(all.skip(1)[0] == value && args.skip(1)[0] == value);
        assert(all.skip(1).skip(1)[0] == neutral(value));
    }
}

} // verus!
