//! Operators on arrays.
use crate::column::{bit_of, bits, truths, Cells};
use crate::exec::arr::{bools, numbers, spread, Arr};
use crate::float::{number_rank, rank_numbers, FloatOp, Floats};
use crate::plan::BinOp;
use crate::text::{
    dec, dec_usize, err, rank_of, rank_text, strings, text4, text_rank, Error, Rank,
};
use vstd::prelude::*;
use vstd::string::*;

verus! {

broadcast use vstd::string::group_string_axioms;

// --- operators --------------------------------------------------------------------

/// An integer held within the range of `i64`.
pub open spec fn held(x: int) -> i64 {
    if x > i64::MAX {
        i64::MAX
    } else if x < i64::MIN {
        i64::MIN
    } else {
        x as i64
    }
}

pub fn hold(x: i128) -> (r: i64)
    ensures
        r == held(x as int),
{
    if x > i64::MAX as i128 {
        i64::MAX
    } else if x < i64::MIN as i128 {
        i64::MIN
    } else {
        x as i64
    }
}

pub fn add_held(a: i64, b: i64) -> (r: i64)
    ensures
        r == held(a + b),
{
    hold(a as i128 + b as i128)
}

/// The remainder with the sign of the dividend; zero where there is none.
pub open spec fn remainder(a: int, b: int) -> int {
    let m = (if a < 0 {
        -a
    } else {
        a
    });
    let d = (if b < 0 {
        -b
    } else {
        b
    });
    if b == 0 {
        0
    } else if a < 0 {
        -(m % d)
    } else {
        m % d
    }
}

/// Integer arithmetic, held within the range of `i64`.
pub open spec fn int_result(op: BinOp, a: i64, b: i64) -> i64 {
    match op {
        BinOp::Add => held(a + b),
        BinOp::Sub => held(a - b),
        BinOp::Mul => held(a * b),
        _ => remainder(a as int, b as int) as i64,
    }
}

fn int_remainder(a: i64, b: i64) -> (r: i64)
    ensures
        r == remainder(a as int, b as int) as i64,
{
    if b == 0 {
        return 0;
    }
    let m: i128 = if a < 0 {
        -(a as i128)
    } else {
        a as i128
    };
    let d: i128 = if b < 0 {
        -(b as i128)
    } else {
        b as i128
    };
    let x: i128 = m % d;
    proof {
        vstd::arithmetic::div_mod::lemma_mod_bound(m as int, d as int);
    }
    if a < 0 {
        (-x) as i64
    } else {
        x as i64
    }
}

fn int_compute(op: BinOp, a: i64, b: i64) -> (r: i64)
    ensures
        r == int_result(op, a, b),
{
    match op {
        BinOp::Add => hold(a as i128 + b as i128),
        BinOp::Sub => hold(a as i128 - b as i128),
        BinOp::Mul => {
            assert(-0x4000_0000_0000_0000_0000_0000_0000_0000 <= a * b
                <= 0x4000_0000_0000_0000_0000_0000_0000_0000) by (nonlinear_arith)
                requires
                    -0x8000_0000_0000_0000 <= a <= 0x7fff_ffff_ffff_ffff,
                    -0x8000_0000_0000_0000 <= b <= 0x7fff_ffff_ffff_ffff,
            ;
            hold((a as i128) * (b as i128))
        },
        _ => int_remainder(a, b),
    }
}

pub open spec fn compares(op: BinOp) -> bool {
    match op {
        BinOp::Eq | BinOp::NotEq | BinOp::Lt | BinOp::LtEq | BinOp::Gt | BinOp::GtEq => true,
        _ => false,
    }
}

fn is_comparison(op: BinOp) -> (r: bool)
    ensures
        r == compares(op),
{
    match op {
        BinOp::Eq | BinOp::NotEq | BinOp::Lt | BinOp::LtEq | BinOp::Gt | BinOp::GtEq => true,
        _ => false,
    }
}

/// Whether a comparison holds of two values that stand so to each other.
pub open spec fn holds(op: BinOp, o: Rank) -> bool {
    match op {
        BinOp::Eq => o == Rank::Equal,
        BinOp::NotEq => o != Rank::Equal,
        BinOp::Lt => o == Rank::Less,
        BinOp::LtEq => o != Rank::Greater,
        BinOp::Gt => o == Rank::Greater,
        _ => o != Rank::Less,
    }
}

fn rank_holds(op: BinOp, o: Rank) -> (r: bool)
    ensures
        r == holds(op, o),
{
    match op {
        BinOp::Eq => o == Rank::Equal,
        BinOp::NotEq => o != Rank::Equal,
        BinOp::Lt => o == Rank::Less,
        BinOp::LtEq => o != Rank::Greater,
        BinOp::Gt => o == Rank::Greater,
        _ => o != Rank::Less,
    }
}

/// A comparison of doubles: what is not a number differs from everything, itself
/// too.
pub open spec fn number_holds(op: BinOp, a: u64, b: u64) -> bool {
    match number_rank(a, b) {
        Some(o) => holds(op, o),
        None => op == BinOp::NotEq,
    }
}

pub open spec fn float_op(op: BinOp) -> FloatOp {
    match op {
        BinOp::Add => FloatOp::Add,
        BinOp::Sub => FloatOp::Sub,
        BinOp::Mul => FloatOp::Mul,
        BinOp::Div => FloatOp::Div,
        _ => FloatOp::Rem,
    }
}

fn to_float_op(op: BinOp) -> (r: FloatOp)
    ensures
        r == float_op(op),
{
    match op {
        BinOp::Add => FloatOp::Add,
        BinOp::Sub => FloatOp::Sub,
        BinOp::Mul => FloatOp::Mul,
        BinOp::Div => FloatOp::Div,
        _ => FloatOp::Rem,
    }
}

/// How many values come of two arrays: as many as each has, or as many as the
/// other where one of them is a constant.
pub open spec fn paired(l: nat, r: nat) -> Result<nat, Seq<char>> {
    if l == r {
        Ok(l)
    } else if l == 1 {
        Ok(r)
    } else if r == 1 {
        Ok(l)
    } else {
        Err("несовместимые длины операндов: "@ + dec(l as int) + " и "@ + dec(r as int))
    }
}

fn pair_len(l: usize, r: usize) -> (n: Result<usize, Error>)
    ensures
        match n {
            Ok(k) => paired(l as nat, r as nat) == Ok::<nat, Seq<char>>(k as nat),
            Err(e) => paired(l as nat, r as nat) == Err::<nat, Seq<char>>(e@),
        },
{
    if l == r {
        Ok(l)
    } else if l == 1 {
        Ok(r)
    } else if r == 1 {
        Ok(l)
    } else {
        Err(
            err(
                text4(
                    "несовместимые длины операндов: ",
                    dec_usize(l).as_str(),
                    " и ",
                    dec_usize(r).as_str(),
                ),
            ),
        )
    }
}

/// An operator on two arrays.
pub open spec fn binary<F: Floats>(op: BinOp, l: Cells, r: Cells, fl: F) -> Result<
    Cells,
    Seq<char>,
> {
    match paired(l.len(), r.len()) {
        Err(e) => Err(e),
        Ok(n) => if op == BinOp::And || op == BinOp::Or {
            match bools(l) {
                Err(e) => Err(e),
                Ok(a) => match bools(r) {
                    Err(e) => Err(e),
                    Ok(b) => Ok(Cells::Bool(bits(joined(op, a, b, n)))),
                },
            }
        } else {
            match (l, r) {
                (Cells::Str(a), Cells::Str(b)) => if compares(op) {
                    Ok(Cells::Bool(bits(texts_compared(op, a, b, n))))
                } else {
                    Err("арифметический оператор применён к строкам"@)
                },
                (Cells::Str(_), _) => Err(mixed()),
                (_, Cells::Str(_)) => Err(mixed()),
                (Cells::I64(a), Cells::I64(b)) if compares(op) => Ok(
                    Cells::Bool(bits(ints_compared(op, a, b, n))),
                ),
                (Cells::I64(a), Cells::I64(b)) if op != BinOp::Div => Ok(
                    Cells::I64(ints_computed(op, a, b, n)),
                ),
                _ => match numbers(l, fl) {
                    Err(e) => Err(e),
                    Ok(a) => match numbers(r, fl) {
                        Err(e) => Err(e),
                        Ok(b) => if compares(op) {
                            Ok(Cells::Bool(bits(numbers_compared(op, a, b, n))))
                        } else {
                            Ok(Cells::F64(numbers_computed(op, a, b, n, fl)))
                        },
                    },
                },
            }
        },
    }
}

pub open spec fn mixed() -> Seq<char> {
    "сравнение строки с числом: приведите типы явно через CAST"@
}

pub open spec fn joined(op: BinOp, a: Seq<bool>, b: Seq<bool>, n: nat) -> Seq<bool> {
    Seq::new(
        n,
        |i: int|
            if op == BinOp::And {
                a[spread(a.len(), i)] && b[spread(b.len(), i)]
            } else {
                a[spread(a.len(), i)] || b[spread(b.len(), i)]
            },
    )
}

pub open spec fn texts_compared(
    op: BinOp,
    a: Seq<Seq<char>>,
    b: Seq<Seq<char>>,
    n: nat,
) -> Seq<bool> {
    Seq::new(n, |i: int| holds(op, text_rank(a[spread(a.len(), i)], b[spread(b.len(), i)])))
}

pub open spec fn ints_compared(op: BinOp, a: Seq<i64>, b: Seq<i64>, n: nat) -> Seq<bool> {
    Seq::new(
        n,
        |i: int|
            holds(op, rank_of(a[spread(a.len(), i)] as int, b[spread(b.len(), i)] as int)),
    )
}

pub open spec fn ints_computed(op: BinOp, a: Seq<i64>, b: Seq<i64>, n: nat) -> Seq<i64> {
    Seq::new(n, |i: int| int_result(op, a[spread(a.len(), i)], b[spread(b.len(), i)]))
}

pub open spec fn numbers_compared(op: BinOp, a: Seq<u64>, b: Seq<u64>, n: nat) -> Seq<bool> {
    Seq::new(n, |i: int| number_holds(op, a[spread(a.len(), i)], b[spread(b.len(), i)]))
}

pub open spec fn numbers_computed<F: Floats>(
    op: BinOp,
    a: Seq<u64>,
    b: Seq<u64>,
    n: nat,
    fl: F,
) -> Seq<u64> {
    Seq::new(
        n,
        |i: int| fl.apply(float_op(op), a[spread(a.len(), i)], b[spread(b.len(), i)]),
    )
}

/// The place of `i` among `n` values.
pub(crate) fn place_of(n: usize, i: usize) -> (r: usize)
    ensures
        r == spread(n as nat, i as int),
{
    if n == 1 {
        0
    } else {
        i
    }
}

fn join_bools(op: BinOp, a: &Vec<u8>, b: &Vec<u8>, n: usize) -> (r: Vec<u8>)
    requires
        paired(a@.len(), b@.len()) == Ok::<nat, Seq<char>>(n as nat),
    ensures
        r@ == bits(joined(op, truths(a@), truths(b@), n as nat)),
{
    let mut out: Vec<u8> = Vec::new();
    let mut i: usize = 0;
    while i < n
        invariant
            i <= n,
            paired(a@.len(), b@.len()) == Ok::<nat, Seq<char>>(n as nat),
            out@ == bits(joined(op, truths(a@), truths(b@), n as nat)).take(i as int),
        decreases n - i,
    {
        let x: bool = a[place_of(a.len(), i)] != 0;
        let y: bool = b[place_of(b.len(), i)] != 0;
        out.push(
            bit_of(
                if op == BinOp::And {
                    x && y
                } else {
                    x || y
                },
            ),
        );
        assert(out@ =~= bits(joined(op, truths(a@), truths(b@), n as nat)).take(i + 1));
        i += 1;
    }
    assert(out@ =~= bits(joined(op, truths(a@), truths(b@), n as nat)));
    out
}

fn compare_texts(op: BinOp, a: &Vec<String>, b: &Vec<String>, n: usize) -> (r: Vec<u8>)
    requires
        paired(a@.len(), b@.len()) == Ok::<nat, Seq<char>>(n as nat),
    ensures
        r@ == bits(texts_compared(op, strings(a@), strings(b@), n as nat)),
{
    let mut out: Vec<u8> = Vec::new();
    let mut i: usize = 0;
    while i < n
        invariant
            i <= n,
            paired(a@.len(), b@.len()) == Ok::<nat, Seq<char>>(n as nat),
            out@ == bits(texts_compared(op, strings(a@), strings(b@), n as nat)).take(i as int),
        decreases n - i,
    {
        let x = a[place_of(a.len(), i)].as_str();
        let y = b[place_of(b.len(), i)].as_str();
        out.push(bit_of(rank_holds(op, rank_text(x, y))));
        assert(out@ =~= bits(texts_compared(op, strings(a@), strings(b@), n as nat)).take(i + 1));
        i += 1;
    }
    assert(out@ =~= bits(texts_compared(op, strings(a@), strings(b@), n as nat)));
    out
}

fn rank_ints(a: i64, b: i64) -> (r: Rank)
    ensures
        r == rank_of(a as int, b as int),
{
    if a < b {
        Rank::Less
    } else if a == b {
        Rank::Equal
    } else {
        Rank::Greater
    }
}

fn compare_ints(op: BinOp, a: &Vec<i64>, b: &Vec<i64>, n: usize) -> (r: Vec<u8>)
    requires
        paired(a@.len(), b@.len()) == Ok::<nat, Seq<char>>(n as nat),
    ensures
        r@ == bits(ints_compared(op, a@, b@, n as nat)),
{
    let mut out: Vec<u8> = Vec::new();
    let mut i: usize = 0;
    while i < n
        invariant
            i <= n,
            paired(a@.len(), b@.len()) == Ok::<nat, Seq<char>>(n as nat),
            out@ == bits(ints_compared(op, a@, b@, n as nat)).take(i as int),
        decreases n - i,
    {
        out.push(bit_of(rank_holds(op, rank_ints(a[place_of(a.len(), i)], b[place_of(b.len(), i)]))));
        assert(out@ =~= bits(ints_compared(op, a@, b@, n as nat)).take(i + 1));
        i += 1;
    }
    assert(out@ =~= bits(ints_compared(op, a@, b@, n as nat)));
    out
}

fn compute_ints(op: BinOp, a: &Vec<i64>, b: &Vec<i64>, n: usize) -> (r: Vec<i64>)
    requires
        paired(a@.len(), b@.len()) == Ok::<nat, Seq<char>>(n as nat),
    ensures
        r@ == ints_computed(op, a@, b@, n as nat),
{
    let mut out: Vec<i64> = Vec::new();
    let mut i: usize = 0;
    while i < n
        invariant
            i <= n,
            paired(a@.len(), b@.len()) == Ok::<nat, Seq<char>>(n as nat),
            out@ == ints_computed(op, a@, b@, n as nat).take(i as int),
        decreases n - i,
    {
        out.push(int_compute(op, a[place_of(a.len(), i)], b[place_of(b.len(), i)]));
        assert(out@ =~= ints_computed(op, a@, b@, n as nat).take(i + 1));
        i += 1;
    }
    assert(out@ =~= ints_computed(op, a@, b@, n as nat));
    out
}

fn numbers_hold(op: BinOp, a: u64, b: u64) -> (r: bool)
    ensures
        r == number_holds(op, a, b),
{
    match rank_numbers(a, b) {
        Some(o) => rank_holds(op, o),
        None => op == BinOp::NotEq,
    }
}

fn compare_numbers(op: BinOp, a: &Vec<u64>, b: &Vec<u64>, n: usize) -> (r: Vec<u8>)
    requires
        paired(a@.len(), b@.len()) == Ok::<nat, Seq<char>>(n as nat),
    ensures
        r@ == bits(numbers_compared(op, a@, b@, n as nat)),
{
    let mut out: Vec<u8> = Vec::new();
    let mut i: usize = 0;
    while i < n
        invariant
            i <= n,
            paired(a@.len(), b@.len()) == Ok::<nat, Seq<char>>(n as nat),
            out@ == bits(numbers_compared(op, a@, b@, n as nat)).take(i as int),
        decreases n - i,
    {
        out.push(bit_of(numbers_hold(op, a[place_of(a.len(), i)], b[place_of(b.len(), i)])));
        assert(out@ =~= bits(numbers_compared(op, a@, b@, n as nat)).take(i + 1));
        i += 1;
    }
    assert(out@ =~= bits(numbers_compared(op, a@, b@, n as nat)));
    out
}

fn compute_numbers<F: Floats>(
    op: BinOp,
    a: &Vec<u64>,
    b: &Vec<u64>,
    n: usize,
    fl: &F,
) -> (r: Vec<u64>)
    requires
        paired(a@.len(), b@.len()) == Ok::<nat, Seq<char>>(n as nat),
        fl.exact(),
    ensures
        r@ == numbers_computed(op, a@, b@, n as nat, *fl),
{
    let fop = to_float_op(op);
    let mut out: Vec<u64> = Vec::new();
    let mut i: usize = 0;
    while i < n
        invariant
            i <= n,
            fl.exact(),
            fop == float_op(op),
            paired(a@.len(), b@.len()) == Ok::<nat, Seq<char>>(n as nat),
            out@ == numbers_computed(op, a@, b@, n as nat, *fl).take(i as int),
        decreases n - i,
    {
        out.push(fl.compute(fop, a[place_of(a.len(), i)], b[place_of(b.len(), i)]));
        assert(out@ =~= numbers_computed(op, a@, b@, n as nat, *fl).take(i + 1));
        i += 1;
    }
    assert(out@ =~= numbers_computed(op, a@, b@, n as nat, *fl));
    out
}

/// Whether an array, or the error in its place, is what a specification says.
pub open spec fn agrees(r: Result<Arr, Error>, s: Result<Cells, Seq<char>>) -> bool {
    match r {
        Ok(a) => s == Ok::<Cells, Seq<char>>(a@),
        Err(e) => s == Err::<Cells, Seq<char>>(e@),
    }
}

/// An operator on two arrays.
pub fn eval_binary<F: Floats>(op: BinOp, l: &Arr, r: &Arr, fl: &F) -> (out: Result<Arr, Error>)
    requires
        fl.exact(),
    ensures
        agrees(out, binary(op, l@, r@, *fl)),
{
    let n: usize = match pair_len(l.len(), r.len()) {
        Ok(n) => n,
        Err(e) => {
            return Err(e);
        },
    };
    if op == BinOp::And || op == BinOp::Or {
        let a = match l.as_bool() {
            Ok(v) => v,
            Err(e) => {
                return Err(e);
            },
        };
        let b = match r.as_bool() {
            Ok(v) => v,
            Err(e) => {
                return Err(e);
            },
        };
        return Ok(Arr::Bool(join_bools(op, a, b, n)));
    }
    let comparison = is_comparison(op);
    match (l, r) {
        (Arr::Str(a), Arr::Str(b)) => {
            if !comparison {
                return Err(err("арифметический оператор применён к строкам".to_owned()));
            }
            return Ok(Arr::Bool(compare_texts(op, a, b, n)));
        },
        (Arr::Str(_), _) => {
            return Err(
                err("сравнение строки с числом: приведите типы явно через CAST".to_owned()),
            );
        },
        (_, Arr::Str(_)) => {
            return Err(
                err("сравнение строки с числом: приведите типы явно через CAST".to_owned()),
            );
        },
        (Arr::I64(a), Arr::I64(b)) => {
            if comparison {
                return Ok(Arr::Bool(compare_ints(op, a, b, n)));
            }
            if op != BinOp::Div {
                return Ok(Arr::I64(compute_ints(op, a, b, n)));
            }
        },
        _ => {},
    }
    let a = match l.to_f64(fl) {
        Ok(v) => v,
        Err(e) => {
            return Err(e);
        },
    };
    let b = match r.to_f64(fl) {
        Ok(v) => v,
        Err(e) => {
            return Err(e);
        },
    };
    if comparison {
        return Ok(Arr::Bool(compare_numbers(op, &a, &b, n)));
    }
    Ok(Arr::F64(compute_numbers(op, &a, &b, n, fl)))
}

} // verus!
