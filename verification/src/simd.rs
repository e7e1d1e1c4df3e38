//! Distances between vectors and aggregates over the values of a column.
use crate::exec::ops::{held, hold};
use crate::float::{
    absolute, eq_singles, is_nan, negate_single, single_eq, single_negated, FloatOp, Floats,
    SingleOp, INFINITY, NEGATIVE_ZERO, SINGLE_INFINITY, SINGLE_NEGATIVE_ZERO, SINGLE_ONE,
};
use crate::plan::Metric;
use vstd::prelude::*;

verus! {

/// The length of the shorter of two vectors.
pub open spec fn common(a: Seq<u32>, b: Seq<u32>) -> nat {
    if a.len() <= b.len() {
        a.len()
    } else {
        b.len()
    }
}

/// The products of the first `n` pairs, added up one after another from `start`.
pub open spec fn dotted<F: Floats>(a: Seq<u32>, b: Seq<u32>, n: nat, start: u32, fl: F) -> u32
    decreases n,
{
    if n == 0 {
        start
    } else {
        fl.apply_single(
            SingleOp::Add,
            dotted(a, b, (n - 1) as nat, start, fl),
            fl.apply_single(SingleOp::Mul, a[n - 1], b[n - 1]),
        )
    }
}

/// The difference of two singles times itself.
pub open spec fn gap<F: Floats>(x: u32, y: u32, fl: F) -> u32 {
    let d = fl.apply_single(SingleOp::Sub, x, y);
    fl.apply_single(SingleOp::Mul, d, d)
}

/// The squared differences of the first `n` pairs, added up one after another from negative
/// zero.
pub open spec fn parted<F: Floats>(a: Seq<u32>, b: Seq<u32>, n: nat, fl: F) -> u32
    decreases n,
{
    if n == 0 {
        SINGLE_NEGATIVE_ZERO
    } else {
        fl.apply_single(
            SingleOp::Add,
            parted(a, b, (n - 1) as nat, fl),
            gap(a[n - 1], b[n - 1], fl),
        )
    }
}

/// One less the cosine between the first `n` elements of two vectors. A vector of length zero
/// has no direction: it is as far as a vector at a right angle.
pub open spec fn cosine_between<F: Floats>(a: Seq<u32>, b: Seq<u32>, n: nat, fl: F) -> u32 {
    let denom = fl.apply_single(
        SingleOp::Sqrt,
        fl.apply_single(SingleOp::Mul, dotted(a, a, n, 0, fl), dotted(b, b, n, 0, fl)),
        0,
    );
    if single_eq(denom, 0) {
        SINGLE_ONE
    } else {
        fl.apply_single(
            SingleOp::Sub,
            SINGLE_ONE,
            fl.apply_single(SingleOp::Div, dotted(a, b, n, 0, fl), denom),
        )
    }
}

/// How far one vector is from another, as a double. The Euclidean distance is left squared.
pub open spec fn distance<F: Floats>(metric: Metric, a: Seq<u32>, b: Seq<u32>, fl: F) -> u64 {
    fl.widened(
        match metric {
            Metric::L2 => parted(a, b, a.len(), fl),
            Metric::Cosine => cosine_between(a, b, a.len(), fl),
            Metric::NegInnerProduct => single_negated(
                dotted(a, b, a.len(), SINGLE_NEGATIVE_ZERO, fl),
            ),
        },
    )
}

/// The products of the pairs of two vectors, added up, as far as the shorter goes.
pub fn dot_scalar<F: Floats>(a: &[u32], b: &[u32], fl: &F) -> (r: u32)
    requires
        fl.exact(),
    ensures
        r == dotted(a@, b@, common(a@, b@), SINGLE_NEGATIVE_ZERO, *fl),
{
    let n: usize = if a.len() <= b.len() {
        a.len()
    } else {
        b.len()
    };
    let mut sum: u32 = SINGLE_NEGATIVE_ZERO;
    let mut i: usize = 0;
    while i < n
        invariant
            i <= n,
            n <= a.len(),
            n <= b.len(),
            fl.exact(),
            sum == dotted(a@, b@, i as nat, SINGLE_NEGATIVE_ZERO, *fl),
        decreases n - i,
    {
        sum = fl.compute_single(SingleOp::Add, sum, fl.compute_single(SingleOp::Mul, a[i], b[i]));
        i += 1;
    }
    sum
}

/// The squared differences of the pairs of two vectors, added up, as far as the shorter goes.
pub fn l2_sq_scalar<F: Floats>(a: &[u32], b: &[u32], fl: &F) -> (r: u32)
    requires
        fl.exact(),
    ensures
        r == parted(a@, b@, common(a@, b@), *fl),
{
    let n: usize = if a.len() <= b.len() {
        a.len()
    } else {
        b.len()
    };
    let mut sum: u32 = SINGLE_NEGATIVE_ZERO;
    let mut i: usize = 0;
    while i < n
        invariant
            i <= n,
            n <= a.len(),
            n <= b.len(),
            fl.exact(),
            sum == parted(a@, b@, i as nat, *fl),
        decreases n - i,
    {
        let d = fl.compute_single(SingleOp::Sub, a[i], b[i]);
        sum = fl.compute_single(SingleOp::Add, sum, fl.compute_single(SingleOp::Mul, d, d));
        i += 1;
    }
    sum
}

/// The inner product of two vectors of one length.
pub fn dot<F: Floats>(a: &[u32], b: &[u32], fl: &F) -> (r: u32)
    requires
        fl.exact(),
        a@.len() == b@.len(),
    ensures
        r == dotted(a@, b@, a@.len(), SINGLE_NEGATIVE_ZERO, *fl),
{
    dot_scalar(a, b, fl)
}

/// The square of the Euclidean distance between two vectors of one length. The root is not
/// taken: an order by distance does not need it.
pub fn l2_sq<F: Floats>(a: &[u32], b: &[u32], fl: &F) -> (r: u32)
    requires
        fl.exact(),
        a@.len() == b@.len(),
    ensures
        r == parted(a@, b@, a@.len(), *fl),
{
    l2_sq_scalar(a, b, fl)
}

/// One less the cosine between two vectors: the less, the closer, as with the others.
pub fn cosine_distance<F: Floats>(a: &[u32], b: &[u32], fl: &F) -> (r: u32)
    requires
        fl.exact(),
        a@.len() <= b@.len(),
    ensures
        r == cosine_between(a@, b@, a@.len(), *fl),
{
    let mut dot_ab: u32 = 0;
    let mut na: u32 = 0;
    let mut nb: u32 = 0;
    let mut i: usize = 0;
    while i < a.len()
        invariant
            i <= a.len() <= b.len(),
            fl.exact(),
            dot_ab == dotted(a@, b@, i as nat, 0, *fl),
            na == dotted(a@, a@, i as nat, 0, *fl),
            nb == dotted(b@, b@, i as nat, 0, *fl),
        decreases a.len() - i,
    {
        dot_ab = fl.compute_single(
            SingleOp::Add,
            dot_ab,
            fl.compute_single(SingleOp::Mul, a[i], b[i]),
        );
        na = fl.compute_single(SingleOp::Add, na, fl.compute_single(SingleOp::Mul, a[i], a[i]));
        nb = fl.compute_single(SingleOp::Add, nb, fl.compute_single(SingleOp::Mul, b[i], b[i]));
        i += 1;
    }
    let denom = fl.compute_single(SingleOp::Sqrt, fl.compute_single(SingleOp::Mul, na, nb), 0);
    if eq_singles(denom, 0) {
        return SINGLE_ONE;
    }
    fl.compute_single(SingleOp::Sub, SINGLE_ONE, fl.compute_single(SingleOp::Div, dot_ab, denom))
}

/// The length of a vector.
pub open spec fn length<F: Floats>(a: Seq<u32>, fl: F) -> u32 {
    fl.apply_single(SingleOp::Sqrt, dotted(a, a, a.len(), SINGLE_NEGATIVE_ZERO, fl), 0)
}

/// The length of a vector.
pub fn norm<F: Floats>(a: &[u32], fl: &F) -> (r: u32)
    requires
        fl.exact(),
    ensures
        r == length(a@, *fl),
{
    fl.compute_single(SingleOp::Sqrt, dot(a, a, fl), 0)
}

/// A vector times the inverse of its length; one whose length is not above zero as it is.
pub open spec fn normalized<F: Floats>(a: Seq<u32>, fl: F) -> Seq<u32> {
    let n = length(a, fl);
    if 0 < n <= SINGLE_INFINITY {
        let inv = fl.apply_single(SingleOp::Div, SINGLE_ONE, n);
        Seq::new(a.len(), |i: int| fl.apply_single(SingleOp::Mul, a[i], inv))
    } else {
        a
    }
}

/// Brings a vector to length one, in place. A vector of length zero stays as it is.
pub fn normalize<F: Floats>(a: &mut [u32], fl: &F)
    requires
        fl.exact(),
    ensures
        final(a)@ == normalized(old(a)@, *fl),
{
    let n = norm(a, fl);
    if 0 < n && n <= SINGLE_INFINITY {
        let inv = fl.compute_single(SingleOp::Div, SINGLE_ONE, n);
        let mut i: usize = 0;
        while i < a.len()
            invariant
                i <= a.len(),
                a@.len() == old(a)@.len(),
                fl.exact(),
                forall|k: int|
                    0 <= k < i ==> #[trigger] a@[k] == fl.apply_single(
                        SingleOp::Mul,
                        old(a)@[k],
                        inv,
                    ),
                forall|k: int| i <= k < a@.len() ==> #[trigger] a@[k] == old(a)@[k],
            decreases a.len() - i,
        {
            a[i] = fl.compute_single(SingleOp::Mul, a[i], inv);
            i += 1;
        }
        assert(a@ =~= normalized(old(a)@, *fl));
    }
}

/// How far one vector is from another of the same length, as a double.
pub fn measure<F: Floats>(metric: Metric, a: &[u32], b: &[u32], fl: &F) -> (r: u64)
    requires
        fl.exact(),
        a@.len() == b@.len(),
    ensures
        r == distance(metric, a@, b@, *fl),
{
    fl.widen(
        match metric {
            Metric::L2 => l2_sq(a, b, fl),
            Metric::Cosine => cosine_distance(a, b, fl),
            Metric::NegInnerProduct => negate_single(dot(a, b, fl)),
        },
    )
}

/// The sum of integers, which stops at the ends of an `i64` in place of wrapping.
pub open spec fn saturated(v: Seq<i64>) -> i64
    decreases v.len(),
{
    if v.len() == 0 {
        0
    } else {
        held(saturated(v.drop_last()) + v.last())
    }
}

/// The sum of integers, which stops at the ends of an `i64` in place of wrapping.
pub fn sum_i64(v: &[i64]) -> (r: i64)
    ensures
        r == saturated(v@),
{
    let mut sum: i64 = 0;
    let mut i: usize = 0;
    assert(v@.take(0) =~= Seq::<i64>::empty());
    while i < v.len()
        invariant
            i <= v.len(),
            sum == saturated(v@.take(i as int)),
        decreases v.len() - i,
    {
        assert(v@.take(i + 1).drop_last() =~= v@.take(i as int));
        sum = hold(sum as i128 + v[i] as i128);
        i += 1;
    }
    assert(v@.take(i as int) =~= v@);
    sum
}

pub open spec fn sum_of(v: Seq<i64>) -> int
    decreases v.len(),
{
    if v.len() == 0 {
        0
    } else {
        sum_of(v.drop_last()) + v.last()
    }
}

/// A sum whose every part fits is exact.
pub proof fn lemma_exact_sum(v: Seq<i64>)
    requires
        forall|n: int| 0 <= n <= v.len() ==> i64::MIN <= sum_of(#[trigger] v.take(n)) <= i64::MAX,
    ensures
        saturated(v) == sum_of(v),
    decreases v.len(),
{
    if v.len() > 0 {
        let w = v.drop_last();
        assert forall|n: int| 0 <= n <= w.len() implies i64::MIN <= sum_of(#[trigger] w.take(n))
            <= i64::MAX by {
            assert(w.take(n) =~= v.take(n));
        }
        lemma_exact_sum(w);
        assert(v.take(v.len() as int) =~= v);
    }
}

/// Whether two values are the least and the greatest of some.
pub open spec fn bounds(v: Seq<i64>, lo: i64, hi: i64) -> bool {
    v.contains(lo) && v.contains(hi) && forall|i: int| 0 <= i < v.len() ==> lo <= #[trigger] v[i] <= hi
}

/// The least and the greatest of some values.
pub fn min_max_i64(v: &[i64]) -> (r: Option<(i64, i64)>)
    ensures
        match r {
            Some((lo, hi)) => bounds(v@, lo, hi),
            None => v@.len() == 0,
        },
{
    if v.len() == 0 {
        return None;
    }
    let mut lo: i64 = v[0];
    let mut hi: i64 = v[0];
    let mut i: usize = 1;
    assert(v@[0] == lo);
    while i < v.len()
        invariant
            1 <= i <= v.len(),
            v@.contains(lo),
            v@.contains(hi),
            forall|k: int| 0 <= k < i ==> lo <= #[trigger] v@[k] <= hi,
        decreases v.len() - i,
    {
        let x = v[i];
        assert(v@.contains(x));
        if x < lo {
            lo = x;
        }
        if x > hi {
            hi = x;
        }
        i += 1;
    }
    Some((lo, hi))
}

/// Doubles added up one after another, from `start`.
pub open spec fn added<F: Floats>(v: Seq<u64>, start: u64, fl: F) -> u64
    decreases v.len(),
{
    if v.len() == 0 {
        start
    } else {
        fl.apply(FloatOp::Add, added(v.drop_last(), start, fl), v.last())
    }
}

/// Doubles, by their bits, added up one after another from negative zero.
pub fn sum_f64<F: Floats>(v: &[u64], fl: &F) -> (r: u64)
    requires
        fl.exact(),
    ensures
        r == added(v@, NEGATIVE_ZERO, *fl),
{
    let mut sum: u64 = NEGATIVE_ZERO;
    let mut i: usize = 0;
    assert(v@.take(0) =~= Seq::<u64>::empty());
    while i < v.len()
        invariant
            i <= v.len(),
            fl.exact(),
            sum == added(v@.take(i as int), NEGATIVE_ZERO, *fl),
        decreases v.len() - i,
    {
        assert(v@.take(i + 1).drop_last() =~= v@.take(i as int));
        sum = fl.compute(FloatOp::Add, sum, v[i]);
        i += 1;
    }
    assert(v@.take(i as int) =~= v@);
    sum
}

/// The least and the greatest of the numbers among the first `n` doubles.
pub open spec fn number_bounds<F: Floats>(v: Seq<u64>, n: nat, fl: F) -> Option<(u64, u64)>
    decreases n,
{
    if n == 0 || n > v.len() {
        None
    } else {
        let x = v[n - 1];
        let before = number_bounds(v, (n - 1) as nat, fl);
        if is_nan(x) {
            before
        } else {
            match before {
                None => Some((x, x)),
                Some((lo, hi)) => Some(
                    (fl.apply(FloatOp::Min, lo, x), fl.apply(FloatOp::Max, hi, x)),
                ),
            }
        }
    }
}

/// The least and the greatest of the numbers among some doubles, by their bits; those that
/// are no numbers are passed over.
pub fn min_max_f64<F: Floats>(v: &[u64], fl: &F) -> (r: Option<(u64, u64)>)
    requires
        fl.exact(),
    ensures
        r == number_bounds(v@, v@.len(), *fl),
{
    let mut out: Option<(u64, u64)> = None;
    let mut i: usize = 0;
    while i < v.len()
        invariant
            i <= v.len(),
            fl.exact(),
            out == number_bounds(v@, i as nat, *fl),
        decreases v.len() - i,
    {
        let x = v[i];
        if absolute(x) <= INFINITY {
            out = match out {
                None => Some((x, x)),
                Some((lo, hi)) => Some(
                    (fl.compute(FloatOp::Min, lo, x), fl.compute(FloatOp::Max, hi, x)),
                ),
            };
        }
        i += 1;
    }
    out
}

} // verus!
