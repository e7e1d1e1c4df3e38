//! Floating-point numbers by their bits.
//!
//! A double is held as the `u64` of its IEEE 754 bits, a single as the `u32` of
//! its bits. What a comparison needs is read off the bits here. Arithmetic,
//! conversion and text come from a [`Floats`] that the caller hands in.
use crate::text::{rank_of, Rank};
use vstd::prelude::*;

verus! {

/// The operations on doubles that an expression can ask for. `Floor`, `Ceil` and
/// `Sqrt` read only the first operand; `Round` rounds the first to as many
/// decimal places as the second says, truncated to an integer.
#[derive(Clone, Copy, PartialEq, Eq, Structural, Debug)]
pub enum FloatOp {
    Add,
    Sub,
    Mul,
    Div,
    Rem,
    Min,
    Max,
    Floor,
    Ceil,
    Sqrt,
    Round,
}

/// The operations on singles that a distance takes. `Sqrt` reads only the first operand.
#[derive(Clone, Copy, PartialEq, Eq, Structural, Debug)]
pub enum SingleOp {
    Add,
    Sub,
    Mul,
    Div,
    Sqrt,
}

/// The bits of zero and of one.
pub const ZERO: u64 = 0;

pub const ONE: u64 = 0x3FF0_0000_0000_0000;

pub const SIGN: u64 = 0x8000_0000_0000_0000;

/// The bits of zero below zero: what is added to it stays as it is, zero above zero too.
pub const NEGATIVE_ZERO: u64 = SIGN;

pub const INFINITY: u64 = 0x7FF0_0000_0000_0000;

/// The bits without the sign.
pub open spec fn magnitude(x: u64) -> u64 {
    if x >= SIGN {
        (x - SIGN) as u64
    } else {
        x
    }
}

pub open spec fn is_nan(x: u64) -> bool {
    magnitude(x) > INFINITY
}

/// The number with its sign turned.
pub open spec fn negated(x: u64) -> u64 {
    if x >= SIGN {
        (x - SIGN) as u64
    } else {
        (x + SIGN) as u64
    }
}

/// A double on the number line: both zeros at 0, larger numbers further out.
pub open spec fn line(x: u64) -> int {
    if x >= SIGN {
        -(magnitude(x) as int)
    } else {
        x as int
    }
}

/// The order of numbers; `None` where either is not a number.
pub open spec fn number_rank(a: u64, b: u64) -> Option<Rank> {
    if is_nan(a) || is_nan(b) {
        None
    } else {
        Some(rank_of(line(a), line(b)))
    }
}

/// The place of a double in the total order of IEEE 754: as on the number line,
/// with negative zero before positive zero and the non-numbers at the ends.
pub open spec fn place(x: u64) -> int {
    if x >= SIGN {
        -(magnitude(x) as int) - 1
    } else {
        x as int
    }
}

pub open spec fn total_rank(a: u64, b: u64) -> Rank {
    rank_of(place(a), place(b))
}

/// Equal as numbers.
pub open spec fn number_eq(a: u64, b: u64) -> bool {
    number_rank(a, b) == Some(Rank::Equal)
}

pub fn negate(x: u64) -> (r: u64)
    ensures
        r == negated(x),
{
    if x >= SIGN {
        x - SIGN
    } else {
        x + SIGN
    }
}

pub fn absolute(x: u64) -> (r: u64)
    ensures
        r == magnitude(x),
{
    if x >= SIGN {
        x - SIGN
    } else {
        x
    }
}

pub fn rank_numbers(a: u64, b: u64) -> (r: Option<Rank>)
    ensures
        r == number_rank(a, b),
{
    let x: u64 = absolute(a);
    let y: u64 = absolute(b);
    if x > INFINITY || y > INFINITY {
        return None;
    }
    let less: bool = if a >= SIGN {
        if b >= SIGN {
            y < x
        } else {
            x > 0 || y > 0
        }
    } else {
        b < SIGN && x < y
    };
    let equal: bool = (x == 0 && y == 0) || a == b;
    Some(
        if less {
            Rank::Less
        } else if equal {
            Rank::Equal
        } else {
            Rank::Greater
        },
    )
}

pub fn rank_total(a: u64, b: u64) -> (r: Rank)
    ensures
        r == total_rank(a, b),
{
    if a == b {
        Rank::Equal
    } else if a >= SIGN {
        if b >= SIGN && a < b {
            Rank::Greater
        } else {
            Rank::Less
        }
    } else if b >= SIGN || a > b {
        Rank::Greater
    } else {
        Rank::Less
    }
}

pub fn eq_numbers(a: u64, b: u64) -> (r: bool)
    ensures
        r == number_eq(a, b),
{
    match rank_numbers(a, b) {
        Some(Rank::Equal) => true,
        _ => false,
    }
}

pub const SINGLE_SIGN: u32 = 0x8000_0000;

pub const SINGLE_NEGATIVE_ZERO: u32 = SINGLE_SIGN;

pub const SINGLE_INFINITY: u32 = 0x7F80_0000;

pub open spec fn single_magnitude(x: u32) -> u32 {
    if x >= SINGLE_SIGN {
        (x - SINGLE_SIGN) as u32
    } else {
        x
    }
}

/// Singles that are equal as numbers.
pub open spec fn single_eq(a: u32, b: u32) -> bool {
    &&& single_magnitude(a) <= SINGLE_INFINITY
    &&& single_magnitude(b) <= SINGLE_INFINITY
    &&& (a == b || single_magnitude(a) == 0 && single_magnitude(b) == 0)
}

fn single_absolute(x: u32) -> (r: u32)
    ensures
        r == single_magnitude(x),
{
    if x >= SINGLE_SIGN {
        x - SINGLE_SIGN
    } else {
        x
    }
}

pub fn eq_singles(a: u32, b: u32) -> (r: bool)
    ensures
        r == single_eq(a, b),
{
    let x: u32 = single_absolute(a);
    let y: u32 = single_absolute(b);
    x <= SINGLE_INFINITY && y <= SINGLE_INFINITY && (a == b || x == 0 && y == 0)
}

pub const SINGLE_ONE: u32 = 0x3F80_0000;

/// The single with its sign turned.
pub open spec fn single_negated(x: u32) -> u32 {
    if x >= SINGLE_SIGN {
        (x - SINGLE_SIGN) as u32
    } else {
        (x + SINGLE_SIGN) as u32
    }
}

pub fn negate_single(x: u32) -> (r: u32)
    ensures
        r == single_negated(x),
{
    if x >= SINGLE_SIGN {
        x - SINGLE_SIGN
    } else {
        x + SINGLE_SIGN
    }
}

/// Floating-point arithmetic, conversion and text, as functions of the bits.
pub trait Floats {
    /// Whether every operation below has one answer for each input.
    spec fn exact(&self) -> bool;

    spec fn apply(&self, op: FloatOp, a: u64, b: u64) -> u64;

    /// The double nearest to an integer.
    spec fn from_int(&self, x: i64) -> u64;

    /// A double without its fraction, held within the range of `i64`.
    spec fn to_int(&self, x: u64) -> i64;

    /// A double without its fraction, held within the range of `u64`.
    spec fn to_count(&self, x: u64) -> u64;

    /// The single nearest to a double.
    spec fn narrowed(&self, x: u64) -> u32;

    spec fn double_text(&self, x: u64) -> Seq<char>;

    spec fn single_text(&self, x: u32) -> Seq<char>;

    /// A double as messages quote it: never without a fraction or an exponent.
    spec fn double_quote(&self, x: u64) -> Seq<char>;

    spec fn single_quote(&self, x: u32) -> Seq<char>;

    spec fn double_in(&self, s: Seq<char>) -> Option<u64>;

    spec fn single_in(&self, s: Seq<char>) -> Option<u32>;

    spec fn apply_single(&self, op: SingleOp, a: u32, b: u32) -> u32;

    /// A single as a double.
    spec fn widened(&self, x: u32) -> u64;

    fn compute(&self, op: FloatOp, a: u64, b: u64) -> (r: u64)
        requires
            self.exact(),
        ensures
            r == self.apply(op, a, b),
    ;

    fn of_int(&self, x: i64) -> (r: u64)
        requires
            self.exact(),
        ensures
            r == self.from_int(x),
    ;

    fn as_int(&self, x: u64) -> (r: i64)
        requires
            self.exact(),
        ensures
            r == self.to_int(x),
    ;

    fn as_count(&self, x: u64) -> (r: u64)
        requires
            self.exact(),
        ensures
            r == self.to_count(x),
    ;

    fn narrow(&self, x: u64) -> (r: u32)
        requires
            self.exact(),
        ensures
            r == self.narrowed(x),
    ;

    fn show(&self, x: u64) -> (r: String)
        requires
            self.exact(),
        ensures
            r@ == self.double_text(x),
    ;

    fn show_single(&self, x: u32) -> (r: String)
        requires
            self.exact(),
        ensures
            r@ == self.single_text(x),
    ;

    fn quote(&self, x: u64) -> (r: String)
        requires
            self.exact(),
        ensures
            r@ == self.double_quote(x),
    ;

    fn quote_single(&self, x: u32) -> (r: String)
        requires
            self.exact(),
        ensures
            r@ == self.single_quote(x),
    ;

    fn parse(&self, s: &str) -> (r: Option<u64>)
        requires
            self.exact(),
        ensures
            r == self.double_in(s@),
    ;

    fn parse_single(&self, s: &str) -> (r: Option<u32>)
        requires
            self.exact(),
        ensures
            r == self.single_in(s@),
    ;

    fn compute_single(&self, op: SingleOp, a: u32, b: u32) -> (r: u32)
        requires
            self.exact(),
        ensures
            r == self.apply_single(op, a, b),
    ;

    fn widen(&self, x: u32) -> (r: u64)
        requires
            self.exact(),
        ensures
            r == self.widened(x),
    ;
}

/// Whether `f` may answer `r` on the text `s`.
pub open spec fn reads<P: Fn(&str) -> R, R>(f: P, s: Seq<char>, r: R) -> bool {
    exists|t: &str| t@ == s && #[trigger] call_ensures(f, (t,), r)
}

/// Floating-point operations given one by one as functions on bits.
pub struct Kernel<A, I, J, C, N, S, T, U, V, P, Q, B, W> {
    pub apply: A,
    pub of_int: I,
    pub as_int: J,
    pub as_count: C,
    pub narrow: N,
    pub show: S,
    pub show_single: T,
    pub quote: U,
    pub quote_single: V,
    pub parse: P,
    pub parse_single: Q,
    pub single: B,
    pub widen: W,
}

impl<A, I, J, C, N, S, T, U, V, P, Q, B, W> Floats for Kernel<A, I, J, C, N, S, T, U, V, P, Q, B, W> where
    A: Fn(FloatOp, u64, u64) -> u64,
    I: Fn(i64) -> u64,
    J: Fn(u64) -> i64,
    C: Fn(u64) -> u64,
    N: Fn(u64) -> u32,
    S: Fn(u64) -> String,
    T: Fn(u32) -> String,
    U: Fn(u64) -> String,
    V: Fn(u32) -> String,
    P: Fn(&str) -> Option<u64>,
    Q: Fn(&str) -> Option<u32>,
    B: Fn(SingleOp, u32, u32) -> u32,
    W: Fn(u32) -> u64,
 {
    /// Each function takes every input and has one answer for it.
    open spec fn exact(&self) -> bool {
        &&& forall|o: FloatOp, a: u64, b: u64| #[trigger] call_requires(self.apply, (o, a, b))
        &&& forall|o: FloatOp, a: u64, b: u64, r: u64|
            #[trigger] call_ensures(self.apply, (o, a, b), r) ==> r == self.apply(o, a, b)
        &&& forall|x: i64| #[trigger] call_requires(self.of_int, (x,))
        &&& forall|x: i64, r: u64|
            #[trigger] call_ensures(self.of_int, (x,), r) ==> r == self.from_int(x)
        &&& forall|x: u64| #[trigger] call_requires(self.as_int, (x,))
        &&& forall|x: u64, r: i64|
            #[trigger] call_ensures(self.as_int, (x,), r) ==> r == self.to_int(x)
        &&& forall|x: u64| #[trigger] call_requires(self.as_count, (x,))
        &&& forall|x: u64, r: u64|
            #[trigger] call_ensures(self.as_count, (x,), r) ==> r == self.to_count(x)
        &&& forall|x: u64| #[trigger] call_requires(self.narrow, (x,))
        &&& forall|x: u64, r: u32|
            #[trigger] call_ensures(self.narrow, (x,), r) ==> r == self.narrowed(x)
        &&& forall|x: u64| #[trigger] call_requires(self.show, (x,))
        &&& forall|x: u64, r: String|
            #[trigger] call_ensures(self.show, (x,), r) ==> r@ == self.double_text(x)
        &&& forall|x: u32| #[trigger] call_requires(self.show_single, (x,))
        &&& forall|x: u32, r: String|
            #[trigger] call_ensures(self.show_single, (x,), r) ==> r@ == self.single_text(x)
        &&& forall|x: u64| #[trigger] call_requires(self.quote, (x,))
        &&& forall|x: u64, r: String|
            #[trigger] call_ensures(self.quote, (x,), r) ==> r@ == self.double_quote(x)
        &&& forall|x: u32| #[trigger] call_requires(self.quote_single, (x,))
        &&& forall|x: u32, r: String|
            #[trigger] call_ensures(self.quote_single, (x,), r) ==> r@ == self.single_quote(x)
        &&& forall|s: &str| #[trigger] call_requires(self.parse, (s,))
        &&& forall|s: &str, r: Option<u64>|
            #[trigger] call_ensures(self.parse, (s,), r) ==> r == self.double_in(s@)
        &&& forall|s: &str| #[trigger] call_requires(self.parse_single, (s,))
        &&& forall|s: &str, r: Option<u32>|
            #[trigger] call_ensures(self.parse_single, (s,), r) ==> r == self.single_in(s@)
        &&& forall|o: SingleOp, a: u32, b: u32| #[trigger] call_requires(self.single, (o, a, b))
        &&& forall|o: SingleOp, a: u32, b: u32, r: u32|
            #[trigger] call_ensures(self.single, (o, a, b), r) ==> r == self.apply_single(o, a, b)
        &&& forall|x: u32| #[trigger] call_requires(self.widen, (x,))
        &&& forall|x: u32, r: u64|
            #[trigger] call_ensures(self.widen, (x,), r) ==> r == self.widened(x)
    }

    open spec fn apply(&self, op: FloatOp, a: u64, b: u64) -> u64 {
        choose|r: u64| call_ensures(self.apply, (op, a, b), r)
    }

    open spec fn from_int(&self, x: i64) -> u64 {
        choose|r: u64| call_ensures(self.of_int, (x,), r)
    }

    open spec fn to_int(&self, x: u64) -> i64 {
        choose|r: i64| call_ensures(self.as_int, (x,), r)
    }

    open spec fn to_count(&self, x: u64) -> u64 {
        choose|r: u64| call_ensures(self.as_count, (x,), r)
    }

    open spec fn narrowed(&self, x: u64) -> u32 {
        choose|r: u32| call_ensures(self.narrow, (x,), r)
    }

    open spec fn double_text(&self, x: u64) -> Seq<char> {
        (choose|r: String| call_ensures(self.show, (x,), r))@
    }

    open spec fn single_text(&self, x: u32) -> Seq<char> {
        (choose|r: String| call_ensures(self.show_single, (x,), r))@
    }

    open spec fn double_quote(&self, x: u64) -> Seq<char> {
        (choose|r: String| call_ensures(self.quote, (x,), r))@
    }

    open spec fn single_quote(&self, x: u32) -> Seq<char> {
        (choose|r: String| call_ensures(self.quote_single, (x,), r))@
    }

    open spec fn double_in(&self, s: Seq<char>) -> Option<u64> {
        choose|r: Option<u64>| reads(self.parse, s, r)
    }

    open spec fn single_in(&self, s: Seq<char>) -> Option<u32> {
        choose|r: Option<u32>| reads(self.parse_single, s, r)
    }

    open spec fn apply_single(&self, op: SingleOp, a: u32, b: u32) -> u32 {
        choose|r: u32| call_ensures(self.single, (op, a, b), r)
    }

    open spec fn widened(&self, x: u32) -> u64 {
        choose|r: u64| call_ensures(self.widen, (x,), r)
    }

    fn compute(&self, op: FloatOp, a: u64, b: u64) -> (r: u64) {
        (self.apply)(op, a, b)
    }

    fn of_int(&self, x: i64) -> (r: u64) {
        (self.of_int)(x)
    }

    fn as_int(&self, x: u64) -> (r: i64) {
        (self.as_int)(x)
    }

    fn as_count(&self, x: u64) -> (r: u64) {
        (self.as_count)(x)
    }

    fn narrow(&self, x: u64) -> (r: u32) {
        (self.narrow)(x)
    }

    fn show(&self, x: u64) -> (r: String) {
        (self.show)(x)
    }

    fn show_single(&self, x: u32) -> (r: String) {
        (self.show_single)(x)
    }

    fn quote(&self, x: u64) -> (r: String) {
        (self.quote)(x)
    }

    fn quote_single(&self, x: u32) -> (r: String) {
        (self.quote_single)(x)
    }

    fn parse(&self, s: &str) -> (r: Option<u64>) {
        (self.parse)(s)
    }

    fn parse_single(&self, s: &str) -> (r: Option<u32>) {
        (self.parse_single)(s)
    }

    fn compute_single(&self, op: SingleOp, a: u32, b: u32) -> (r: u32) {
        (self.single)(op, a, b)
    }

    fn widen(&self, x: u32) -> (r: u64) {
        (self.widen)(x)
    }
}

} // verus!
