//! What the distances between vectors are.
use crate::column::Cells;
use crate::exec::eval::evaluated;
use crate::float::{FloatOp, Floats, SingleOp};
use crate::laws::order::{below, no_number};
use crate::plan::{Metric, Term};
use crate::simd::{
    added, cosine_between, distance, dotted, gap, length, normalized, number_bounds, parted,
};
use vstd::prelude::*;

verus! {

/// The products of the elements of two vectors, place by place.
pub open spec fn products<F: Floats>(a: Seq<u32>, b: Seq<u32>, fl: F) -> Seq<u32> {
    Seq::new(a.len(), |i: int| fl.apply_single(SingleOp::Mul, a[i], b[i]))
}

/// The squares of the differences of the elements of two vectors, place by place.
pub open spec fn squares<F: Floats>(a: Seq<u32>, b: Seq<u32>, fl: F) -> Seq<u32> {
    Seq::new(
        a.len(),
        |i: int|
            fl.apply_single(
                SingleOp::Mul,
                fl.apply_single(SingleOp::Sub, a[i], b[i]),
                fl.apply_single(SingleOp::Sub, a[i], b[i]),
            ),
    )
}

/// All of some singles added up, the first of them to `start`.
pub open spec fn in_all<F: Floats>(v: Seq<u32>, start: u32, fl: F) -> u32 {
    v.fold_left(start, |s: u32, x: u32| fl.apply_single(SingleOp::Add, s, x))
}

proof fn lemma_dotted<F: Floats>(a: Seq<u32>, b: Seq<u32>, n: nat, start: u32, fl: F)
    requires
        n <= a.len(),
        n <= b.len(),
    ensures
        dotted(a, b, n, start, fl) == in_all(
            products(a.take(n as int), b.take(n as int), fl),
            start,
            fl,
        ),
    decreases n,
{
    let v = products(a.take(n as int), b.take(n as int), fl);
    if n > 0 {
        lemma_dotted(a, b, (n - 1) as nat, start, fl);
        assert(v.drop_last() =~= products(a.take(n - 1), b.take(n - 1), fl));
    }
}

proof fn lemma_parted<F: Floats>(a: Seq<u32>, b: Seq<u32>, n: nat, fl: F)
    requires
        n <= a.len(),
        n <= b.len(),
    ensures
        parted(a, b, n, fl) == in_all(
            squares(a.take(n as int), b.take(n as int), fl),
            0x8000_0000u32,
            fl,
        ),
    decreases n,
{
    let v = squares(a.take(n as int), b.take(n as int), fl);
    if n > 0 {
        lemma_parted(a, b, (n - 1) as nat, fl);
        assert(v.drop_last() =~= squares(a.take(n - 1), b.take(n - 1), fl));
        assert(v.last() == gap(a[n - 1], b[n - 1], fl));
    }
}

/// One less the sum of the products of all elements, over the root of the product of the two
/// sums of squares; one where that root is zero.
pub open spec fn cosine_of<F: Floats>(a: Seq<u32>, b: Seq<u32>, fl: F) -> u32 {
    let one = 0x3F80_0000u32;
    let root = fl.apply_single(
        SingleOp::Sqrt,
        fl.apply_single(
            SingleOp::Mul,
            in_all(products(a, a, fl), 0, fl),
            in_all(products(b, b, fl), 0, fl),
        ),
        0,
    );
    if root == 0 || root == 0x8000_0000u32 {
        one
    } else {
        fl.apply_single(
            SingleOp::Sub,
            one,
            fl.apply_single(SingleOp::Div, in_all(products(a, b, fl), 0, fl), root),
        )
    }
}

/// The three distances take in every element: the squares of all differences, all products
/// with the sign turned, and the cosine of the angle.
pub proof fn lemma_distances<F: Floats>(a: Seq<u32>, b: Seq<u32>, fl: F)
    requires
        a.len() == b.len(),
    ensures
        distance(Metric::L2, a, b, fl) == fl.widened(
            in_all(squares(a, b, fl), 0x8000_0000u32, fl),
        ),
        distance(Metric::Cosine, a, b, fl) == fl.widened(cosine_of(a, b, fl)),
        ({
            let dot = in_all(products(a, b, fl), 0x8000_0000u32, fl);
            distance(Metric::NegInnerProduct, a, b, fl) == fl.widened(
                if dot < 0x8000_0000u32 {
                    (dot + 0x8000_0000u32) as u32
                } else {
                    (dot - 0x8000_0000u32) as u32
                },
            )
        }),
{
    let n = a.len();
    assert(a.take(n as int) =~= a && b.take(n as int) =~= b);
    lemma_parted(a, b, n, fl);
    lemma_dotted(a, b, n, 0x8000_0000u32, fl);
    lemma_dotted(a, b, n, 0, fl);
    lemma_dotted(a, a, n, 0, fl);
    lemma_dotted(b, b, n, 0, fl);
}

/// Of vectors that are as long or longer, the cosine takes the elements of the first into
/// account; so do the sums of products and of squares, as far as the shorter goes.
pub proof fn lemma_sums<F: Floats>(a: Seq<u32>, b: Seq<u32>, n: nat, fl: F)
    requires
        n <= a.len(),
        n <= b.len(),
    ensures
        ({
            let (x, y) = (a.take(n as int), b.take(n as int));
            &&& dotted(a, b, n, 0x8000_0000u32, fl) == in_all(
                products(x, y, fl),
                0x8000_0000u32,
                fl,
            )
            &&& parted(a, b, n, fl) == in_all(squares(x, y, fl), 0x8000_0000u32, fl)
            &&& cosine_between(a, b, n, fl) == cosine_of(x, y, fl)
        }),
{
    lemma_dotted(a, b, n, 0x8000_0000u32, fl);
    lemma_parted(a, b, n, fl);
    lemma_dotted(a, b, n, 0, fl);
    lemma_dotted(a, a, n, 0, fl);
    lemma_dotted(b, b, n, 0, fl);
}

/// An element more in each vector adds its product to a sum of products, and the square of its
/// difference to a sum of squares, whatever the length.
pub proof fn lemma_one_more_element<F: Floats>(
    a: Seq<u32>,
    b: Seq<u32>,
    x: u32,
    y: u32,
    start: u32,
    fl: F,
)
    requires
        a.len() == b.len(),
    ensures
        ({
            let (c, d) = (a.push(x), b.push(y));
            let n = a.len();
            let e = fl.apply_single(SingleOp::Sub, x, y);
            &&& dotted(c, d, n + 1, start, fl) == fl.apply_single(
                SingleOp::Add,
                dotted(a, b, n, start, fl),
                fl.apply_single(SingleOp::Mul, x, y),
            )
            &&& parted(c, d, n + 1, fl) == fl.apply_single(
                SingleOp::Add,
                parted(a, b, n, fl),
                fl.apply_single(SingleOp::Mul, e, e),
            )
        }),
{
    let (c, d) = (a.push(x), b.push(y));
    let n = a.len();
    assert(c.take(n as int) =~= a.take(n as int) && d.take(n as int) =~= b.take(n as int));
    lemma_dotted(a, b, n, start, fl);
    lemma_dotted(c, d, n, start, fl);
    lemma_parted(a, b, n, fl);
    lemma_parted(c, d, n, fl);
}

/// A distance in a query is that of the vector in each row from the vector of the query.
pub proof fn lemma_distance_rows<F: Floats>(
    metric: Metric,
    col: usize,
    v: Seq<Seq<u32>>,
    query: Seq<u32>,
    frame: Seq<Cells>,
    rows: Seq<usize>,
    fl: F,
)
    requires
        col < frame.len(),
        frame[col as int] == (Cells::Vector { dim: query.len() as usize, rows: v }),
        query.len() <= usize::MAX,
    ensures
        evaluated(Term::Distance { metric, col, query }, frame, rows, fl) matches Ok(c)
            && c matches Cells::F64(d) && d.len() == rows.len() && forall|i: int|
            0 <= i < rows.len() ==> #[trigger] d[i] == distance(
                metric,
                v[rows[i] as int],
                query,
                fl,
            ),
{
}

// --- whole numbers ---------------------------------------------------------------------------

/// Whether the sums, differences and products of singles that stand for whole numbers are
/// those of the numbers, as long as they are no greater than `most`.
pub open spec fn counts_exactly<F: Floats>(
    fl: F,
    whole: spec_fn(u32) -> Option<int>,
    most: int,
) -> bool {
    &&& whole(0) == Some(0int)
    &&& whole(0x8000_0000u32) == Some(0int)
    &&& forall|a: u32, b: u32|
        #![trigger fl.apply_single(SingleOp::Add, a, b)]
        whole(a) is Some && whole(b) is Some && -most <= whole(a)->0 + whole(b)->0 <= most
            ==> whole(fl.apply_single(SingleOp::Add, a, b)) == Some(whole(a)->0 + whole(b)->0)
    &&& forall|a: u32, b: u32|
        #![trigger fl.apply_single(SingleOp::Sub, a, b)]
        whole(a) is Some && whole(b) is Some && -most <= whole(a)->0 - whole(b)->0 <= most
            ==> whole(fl.apply_single(SingleOp::Sub, a, b)) == Some(whole(a)->0 - whole(b)->0)
    &&& forall|a: u32, b: u32|
        #![trigger fl.apply_single(SingleOp::Mul, a, b)]
        whole(a) is Some && whole(b) is Some && -most <= whole(a)->0 * whole(b)->0 <= most
            ==> whole(fl.apply_single(SingleOp::Mul, a, b)) == Some(whole(a)->0 * whole(b)->0)
}

/// Whether a vector is made of singles that stand for some whole numbers.
pub open spec fn stands_for(
    a: Seq<u32>,
    x: Seq<int>,
    whole: spec_fn(u32) -> Option<int>,
) -> bool {
    a.len() == x.len() && forall|i: int| 0 <= i < a.len() ==> whole(#[trigger] a[i]) == Some(x[i])
}

/// The sum of the products of whole numbers, place by place.
pub open spec fn sum_of_products(x: Seq<int>, y: Seq<int>) -> int
    decreases x.len(),
{
    if x.len() == 0 {
        0
    } else {
        sum_of_products(x.drop_last(), y.drop_last()) + x.last() * y.last()
    }
}

/// The sum of the squares of the differences of whole numbers, place by place.
pub open spec fn sum_of_squares(x: Seq<int>, y: Seq<int>) -> int
    decreases x.len(),
{
    if x.len() == 0 {
        0
    } else {
        sum_of_squares(x.drop_last(), y.drop_last()) + (x.last() - y.last()) * (x.last()
            - y.last())
    }
}

/// Whether all that comes up on the way to the sum of products is no greater than `most`.
pub open spec fn products_fit(x: Seq<int>, y: Seq<int>, most: int) -> bool {
    &&& forall|i: int| 0 <= i < x.len() ==> -most <= #[trigger] x[i] * #[trigger] y[i] <= most
    &&& forall|k: int|
        0 <= k <= x.len() ==> -most <= sum_of_products(#[trigger] x.take(k), y.take(k)) <= most
}

/// Of vectors of whole numbers the sum of products is that of the numbers.
pub proof fn lemma_whole_dot<F: Floats>(
    a: Seq<u32>,
    b: Seq<u32>,
    x: Seq<int>,
    y: Seq<int>,
    start: u32,
    whole: spec_fn(u32) -> Option<int>,
    most: int,
    fl: F,
)
    requires
        counts_exactly(fl, whole, most),
        start == 0 || start == 0x8000_0000u32,
        stands_for(a, x, whole),
        stands_for(b, y, whole),
        a.len() == b.len(),
        products_fit(x, y, most),
    ensures
        whole(dotted(a, b, a.len(), start, fl)) == Some(sum_of_products(x, y)),
    decreases a.len(),
{
    if a.len() > 0 {
        let n = (a.len() - 1) as nat;
        let (c, d) = (a.drop_last(), b.drop_last());
        let (u, v) = (x.drop_last(), y.drop_last());
        assert forall|k: int| 0 <= k <= u.len() implies -most <= sum_of_products(
            #[trigger] u.take(k),
            v.take(k),
        ) <= most by {
            assert(u.take(k) =~= x.take(k) && v.take(k) =~= y.take(k));
            assert(-most <= sum_of_products(x.take(k), y.take(k)) <= most);
        }
        assert forall|i: int| 0 <= i < u.len() implies -most <= #[trigger] u[i] * #[trigger] v[i]
            <= most by {
            assert(-most <= x[i] * y[i] <= most);
        }
        lemma_whole_dot(c, d, u, v, start, whole, most, fl);
        assert(a =~= c.push(a[n as int]) && b =~= d.push(b[n as int]));
        lemma_one_more_element(c, d, a[n as int], b[n as int], start, fl);
        assert(x.take(x.len() as int) =~= x && y.take(y.len() as int) =~= y);
        assert(-most <= x[n as int] * y[n as int] <= most);
        assert(-most <= sum_of_products(x.take(x.len() as int), y.take(x.len() as int)) <= most);
        assert(whole(a[n as int]) == Some(x[n as int]) && whole(b[n as int]) == Some(y[n as int]));
    }
}

/// Whether all that comes up on the way to the sum of squares is no greater than `most`.
pub open spec fn squares_fit(x: Seq<int>, y: Seq<int>, most: int) -> bool {
    &&& forall|i: int|
        0 <= i < x.len() ==> -most <= #[trigger] x[i] - #[trigger] y[i] <= most && (x[i] - y[i])
            * (x[i] - y[i]) <= most
    &&& forall|k: int|
        0 <= k <= x.len() ==> -most <= sum_of_squares(#[trigger] x.take(k), y.take(k)) <= most
}

/// Of vectors of whole numbers the square of the Euclidean distance is that of the numbers.
pub proof fn lemma_whole_distance<F: Floats>(
    a: Seq<u32>,
    b: Seq<u32>,
    x: Seq<int>,
    y: Seq<int>,
    whole: spec_fn(u32) -> Option<int>,
    most: int,
    fl: F,
)
    requires
        counts_exactly(fl, whole, most),
        stands_for(a, x, whole),
        stands_for(b, y, whole),
        a.len() == b.len(),
        squares_fit(x, y, most),
    ensures
        whole(parted(a, b, a.len(), fl)) == Some(sum_of_squares(x, y)),
    decreases a.len(),
{
    if a.len() > 0 {
        let n = (a.len() - 1) as nat;
        let (c, d) = (a.drop_last(), b.drop_last());
        let (u, v) = (x.drop_last(), y.drop_last());
        assert forall|k: int| 0 <= k <= u.len() implies -most <= sum_of_squares(
            #[trigger] u.take(k),
            v.take(k),
        ) <= most by {
            assert(u.take(k) =~= x.take(k) && v.take(k) =~= y.take(k));
            assert(-most <= sum_of_squares(x.take(k), y.take(k)) <= most);
        }
        assert forall|i: int| 0 <= i < u.len() implies -most <= #[trigger] u[i] - #[trigger] v[i]
            <= most && (u[i] - v[i]) * (u[i] - v[i]) <= most by {
            assert(-most <= x[i] - y[i] <= most && (x[i] - y[i]) * (x[i] - y[i]) <= most);
        }
        lemma_whole_distance(c, d, u, v, whole, most, fl);
        let (p, q) = (a[n as int], b[n as int]);
        assert(a =~= c.push(p) && b =~= d.push(q));
        lemma_one_more_element(c, d, p, q, 0, fl);
        assert(x.take(x.len() as int) =~= x && y.take(y.len() as int) =~= y);
        assert(whole(p) == Some(x[n as int]) && whole(q) == Some(y[n as int]));
        let z = x[n as int] - y[n as int];
        assert(-most <= x[n as int] - y[n as int] <= most && z * z <= most);
        let e = fl.apply_single(SingleOp::Sub, p, q);
        assert(whole(e) == Some(z));
        assert(z * z >= 0) by (nonlinear_arith);
        assert(whole(fl.apply_single(SingleOp::Mul, e, e)) == Some(z * z));
        assert(-most <= sum_of_squares(x.take(x.len() as int), y.take(x.len() as int)) <= most);
    }
}

// --- lengths and columns ---------------------------------------------------------------------

/// The length of a vector is the root of the sum of its squares. A vector that is brought to
/// length one has each element times the inverse of the length; one whose length is no number
/// above zero stays as it is.
pub proof fn lemma_length<F: Floats>(a: Seq<u32>, fl: F)
    ensures
        ({
            let n = fl.apply_single(
                SingleOp::Sqrt,
                in_all(products(a, a, fl), 0x8000_0000u32, fl),
                0,
            );
            let one = 0x3F80_0000u32;
            &&& length(a, fl) == n
            &&& normalized(a, fl).len() == a.len()
            &&& forall|i: int|
                0 <= i < a.len() ==> #[trigger] normalized(a, fl)[i] == if 0 < n
                    <= 0x7F80_0000u32 {
                    fl.apply_single(
                        SingleOp::Mul,
                        a[i],
                        fl.apply_single(SingleOp::Div, one, n),
                    )
                } else {
                    a[i]
                }
        }),
{
    assert(a.take(a.len() as int) =~= a);
    lemma_dotted(a, a, a.len(), 0x8000_0000u32, fl);
}

/// The sum of a column of doubles takes in every one, in their order.
pub proof fn lemma_double_sum<F: Floats>(v: Seq<u64>, start: u64, fl: F)
    ensures
        added(v, start, fl) == v.fold_left(
            start,
            |s: u64, x: u64| fl.apply(FloatOp::Add, s, x),
        ),
    decreases v.len(),
{
    if v.len() > 0 {
        lemma_double_sum(v.drop_last(), start, fl);
    }
}

/// Whether the lesser and the greater of two numbers are told apart.
pub open spec fn tells_apart<F: Floats>(fl: F) -> bool {
    &&& forall|a: u64, b: u64|
        #![trigger fl.apply(FloatOp::Min, a, b)]
        !no_number(a) && !no_number(b) ==> {
            let m = fl.apply(FloatOp::Min, a, b);
            (m == a || m == b) && !below(a, m) && !below(b, m)
        }
    &&& forall|a: u64, b: u64|
        #![trigger fl.apply(FloatOp::Max, a, b)]
        !no_number(a) && !no_number(b) ==> {
            let m = fl.apply(FloatOp::Max, a, b);
            (m == a || m == b) && !below(m, a) && !below(m, b)
        }
}

/// The least and the greatest of a column of doubles are two of its numbers, and no number of
/// the column lies outside of them; a column without numbers has none.
pub proof fn lemma_double_bounds<F: Floats>(v: Seq<u64>, n: nat, fl: F)
    requires
        tells_apart(fl),
        n <= v.len(),
    ensures
        match number_bounds(v, n, fl) {
            None => forall|i: int| 0 <= i < n ==> no_number(#[trigger] v[i]),
            Some((lo, hi)) => {
                &&& !no_number(lo) && !no_number(hi)
                &&& v.take(n as int).contains(lo) && v.take(n as int).contains(hi)
                &&& forall|i: int|
                    0 <= i < n && !no_number(#[trigger] v[i]) ==> !below(v[i], lo) && !below(
                        hi,
                        v[i],
                    )
            },
        },
    decreases n,
{
    if n > 0 {
        lemma_double_bounds(v, (n - 1) as nat, fl);
        let x = v[n - 1];
        let (s, t) = (v.take(n - 1), v.take(n as int));
        assert(t =~= s.push(x));
        assert(t[n - 1] == x);
        if !no_number(x) {
            if let Some((lo, hi)) = number_bounds(v, (n - 1) as nat, fl) {
                let i = choose|i: int| 0 <= i < s.len() && s[i] == lo;
                let j = choose|j: int| 0 <= j < s.len() && s[j] == hi;
                assert(t[i] == lo && t[j] == hi);
                let a = fl.apply(FloatOp::Min, lo, x);
                let b = fl.apply(FloatOp::Max, hi, x);
                assert(t.contains(a) && t.contains(b));
            }
        } else if let Some((lo, hi)) = number_bounds(v, (n - 1) as nat, fl) {
            let i = choose|i: int| 0 <= i < s.len() && s[i] == lo;
            let j = choose|j: int| 0 <= j < s.len() && s[j] == hi;
            assert(t[i] == lo && t[j] == hi);
        }
    }
}

} // verus!
