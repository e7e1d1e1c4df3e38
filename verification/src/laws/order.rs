//! How texts and doubles stand to each other.
use crate::float::{number_eq, number_rank, total_rank};
use crate::text::{text_rank, Rank};
use vstd::prelude::*;

verus! {

/// Whether one text comes before another in a dictionary: they agree up to a place where the
/// first ends and the other goes on, or where its character has the lower code.
pub open spec fn earlier(a: Seq<char>, b: Seq<char>) -> bool {
    exists|k: int| #[trigger] parts_at(a, b, k)
}

pub open spec fn parts_at(a: Seq<char>, b: Seq<char>, k: int) -> bool {
    &&& 0 <= k <= a.len()
    &&& k < b.len()
    &&& forall|i: int| 0 <= i < k ==> a[i] == #[trigger] b[i]
    &&& k == a.len() || (a[k] as int) < (b[k] as int)
}

proof fn lemma_parts_deeper(a: Seq<char>, b: Seq<char>)
    requires
        a.len() > 0,
        b.len() > 0,
        a[0] == b[0],
    ensures
        earlier(a.skip(1), b.skip(1)) <==> earlier(a, b),
{
    let (x, y) = (a.skip(1), b.skip(1));
    if earlier(x, y) {
        let k = choose|k: int| #[trigger] parts_at(x, y, k);
        assert forall|i: int| 0 <= i < k + 1 implies a[i] == #[trigger] b[i] by {
            if i > 0 {
                assert(x[i - 1] == y[i - 1]);
            }
        }
        assert(parts_at(a, b, k + 1));
    }
    if earlier(a, b) {
        let k = choose|k: int| #[trigger] parts_at(a, b, k);
        assert(k > 0);
        assert forall|i: int| 0 <= i < k - 1 implies x[i] == #[trigger] y[i] by {
            assert(a[i + 1] == b[i + 1]);
        }
        assert(parts_at(x, y, k - 1));
    }
}

/// The order of texts is that of a dictionary.
pub proof fn lemma_texts(a: Seq<char>, b: Seq<char>)
    ensures
        text_rank(a, b) == Rank::Less <==> earlier(a, b),
        text_rank(a, b) == Rank::Greater <==> earlier(b, a),
        text_rank(a, b) == Rank::Equal <==> a == b,
    decreases a.len(),
{
    crate::text::lemma_text_rank_equal(a, b);
    if a.len() > 0 && b.len() > 0 {
        if a[0] == b[0] {
            lemma_texts(a.skip(1), b.skip(1));
            lemma_parts_deeper(a, b);
            lemma_parts_deeper(b, a);
        } else {
            assert forall|k: int| parts_at(a, b, k) implies k == 0 by {
                if k > 0 {
                    assert(a[0] == b[0]);
                }
            }
            assert forall|k: int| parts_at(b, a, k) implies k == 0 by {
                if k > 0 {
                    assert(b[0] == a[0]);
                }
            }
            if (a[0] as int) < (b[0] as int) {
                assert(parts_at(a, b, 0));
            } else {
                assert(parts_at(b, a, 0));
            }
        }
    } else {
        if b.len() > 0 {
            assert(parts_at(a, b, 0));
        }
        if a.len() > 0 {
            assert(parts_at(b, a, 0));
        }
    }
}

/// Whether the bits of a double are those of no number.
pub open spec fn no_number(x: u64) -> bool {
    x % 0x8000_0000_0000_0000u64 > 0x7FF0_0000_0000_0000u64
}

/// Whether the number of one double lies below that of another, by their bits: the bit of the
/// sign stands before those of the size. The two zeros are one number.
pub open spec fn below(a: u64, b: u64) -> bool {
    let (m, n) = (a % 0x8000_0000_0000_0000u64, b % 0x8000_0000_0000_0000u64);
    if a < 0x8000_0000_0000_0000u64 {
        b < 0x8000_0000_0000_0000u64 && m < n
    } else if b < 0x8000_0000_0000_0000u64 {
        m > 0 || n > 0
    } else {
        n < m
    }
}

/// Whether one double comes before another where every one has a place of its own: the
/// negative ones from the largest down, then the others from zero up.
pub open spec fn comes_before(a: u64, b: u64) -> bool {
    if a < 0x8000_0000_0000_0000u64 {
        a < b < 0x8000_0000_0000_0000u64
    } else {
        b < a
    }
}

/// Numbers compare by their sizes and signs; what is no number compares with nothing.
pub proof fn lemma_numbers(a: u64, b: u64)
    ensures
        number_rank(a, b) is None <==> no_number(a) || no_number(b),
        number_rank(a, b) is Some ==> {
            &&& number_rank(a, b) == Some(Rank::Less) <==> below(a, b)
            &&& number_rank(a, b) == Some(Rank::Greater) <==> below(b, a)
            &&& number_rank(a, b) == Some(Rank::Equal) <==> !below(a, b) && !below(b, a)
        },
        number_eq(a, b) <==> !no_number(a) && !no_number(b) && !below(a, b) && !below(b, a),
{
}

/// No two doubles share a place in the order of all of them.
pub proof fn lemma_places(a: u64, b: u64)
    ensures
        total_rank(a, b) == Rank::Less <==> comes_before(a, b),
        total_rank(a, b) == Rank::Greater <==> comes_before(b, a),
        total_rank(a, b) == Rank::Equal <==> a == b,
{
}

} // verus!
