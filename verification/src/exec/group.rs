//! GROUP BY and aggregates.
use crate::codec::{lemma_row_injective, row_bytes, storable, storable_row, typed, Writer};
use crate::column::{cell_type, Cell, Cells, DataType};
use crate::exec::arr::{spread, Arr};
use crate::exec::scalar::{aligned, arrays};
use crate::text::{err, Error};
use rustc_hash::FxHashMap;
use vstd::prelude::*;
use vstd::string::*;

verus! {

broadcast use vstd::string::group_string_axioms;

// --- numbers of byte strings ---------------------------------------------------------------

#[verifier::external_type_specification]
#[verifier::external_body]
pub struct ExFxBuildHasher(rustc_hash::FxBuildHasher);

/// Which byte strings a map holds, and the number of each.
pub uninterp spec fn numbered(m: FxHashMap<Vec<u8>, usize>) -> Map<Seq<u8>, usize>;

/// `FxHashMap::default` of `rustc_hash`: a map without entries.
#[verifier::external_body]
pub(crate) fn no_numbers() -> (r: FxHashMap<Vec<u8>, usize>)
    ensures
        numbered(r).dom() == Set::<Seq<u8>>::empty(),
{
    FxHashMap::default()
}

/// `get` of an `FxHashMap` of `rustc_hash`: the number under the bytes, if any is.
#[verifier::external_body]
pub(crate) fn number_under(m: &FxHashMap<Vec<u8>, usize>, k: &Vec<u8>) -> (r: Option<usize>)
    ensures
        r == (if numbered(*m).dom().contains(k@) {
            Some(numbered(*m)[k@])
        } else {
            None
        }),
{
    m.get(k).copied()
}

/// `insert` of an `FxHashMap` of `rustc_hash`: the number stands under the bytes.
#[verifier::external_body]
pub(crate) fn put_number(m: &mut FxHashMap<Vec<u8>, usize>, k: Vec<u8>, n: usize)
    ensures
        numbered(*final(m)) == numbered(*old(m)).insert(k@, n),
{
    m.insert(k, n);
}

// --- groups ----------------------------------------------------------------------------------

/// The values of the keys in a row.
pub open spec fn key_of(cols: Seq<Cells>, i: int) -> Seq<Cell> {
    Seq::new(cols.len(), |k: int| cols[k].key_at(spread(cols[k].len(), i)))
}

/// Whether a key like that of row `i` is the key of one of some rows.
pub open spec fn key_known(cols: Seq<Cells>, rows: Seq<usize>, i: int) -> bool {
    exists|g: int| is_group(cols, rows, i, g)
}

/// Whether row `i` has the key of the `g`-th of some rows.
pub open spec fn is_group(cols: Seq<Cells>, rows: Seq<usize>, i: int, g: int) -> bool {
    0 <= g < rows.len() && key_of(cols, rows[g] as int) == key_of(cols, i)
}

/// The rows among the first `n` whose key has not been met before.
pub open spec fn first_rows(cols: Seq<Cells>, n: nat) -> Seq<usize>
    decreases n,
{
    if n == 0 {
        Seq::empty()
    } else {
        let before = first_rows(cols, (n - 1) as nat);
        if key_known(cols, before, n - 1) {
            before
        } else {
            before.push((n - 1) as usize)
        }
    }
}

/// The group of row `i`: groups are numbered in the order in which their keys are
/// first met.
pub open spec fn group_at(cols: Seq<Cells>, rows: Seq<usize>, i: int) -> usize {
    (choose|g: int| is_group(cols, rows, i, g)) as usize
}

/// Rows by groups.
pub struct Groups {
    /// The group of each row.
    pub of: Vec<usize>,
    pub count: usize,
    /// The first row of each group.
    pub first: Vec<usize>,
}

/// What [`Groups`] are.
pub struct Grouping {
    pub of: Seq<usize>,
    pub count: nat,
    pub first: Seq<usize>,
}

impl View for Groups {
    type V = Grouping;

    open spec fn view(&self) -> Grouping {
        Grouping { of: self.of@, count: self.count as nat, first: self.first@ }
    }
}

/// The groups of the first `n` rows by some keys. Without keys there is one group,
/// of all the rows.
pub open spec fn grouped(cols: Seq<Cells>, n: nat) -> Result<Grouping, Seq<char>> {
    if cols.len() == 0 {
        Ok(Grouping { of: Seq::new(n, |i: int| 0usize), count: 1, first: Seq::empty() })
    } else if n > 0 && exists|k: int| 0 <= k < cols.len() && (#[trigger] cols[k]) is Vector {
        Err("группировка по векторной колонке не поддерживается"@)
    } else {
        let first = first_rows(cols, n);
        Ok(
            Grouping {
                of: Seq::new(n, |i: int| group_at(cols, first, i)),
                count: first.len(),
                first,
            },
        )
    }
}

/// The first rows of groups are rows, each with a key of its own, and every row
/// has the key of one of them.
pub proof fn lemma_first_rows(cols: Seq<Cells>, n: nat)
    requires
        n <= usize::MAX,
    ensures
        first_rows(cols, n).len() <= n,
        forall|g: int| 0 <= g < first_rows(cols, n).len() ==> (#[trigger] first_rows(cols, n)[g]) < n,
        forall|i: int| 0 <= i < n ==> #[trigger] key_known(cols, first_rows(cols, n), i),
        forall|g: int, h: int|
            0 <= g < h < first_rows(cols, n).len() ==> key_of(
                cols,
                (#[trigger] first_rows(cols, n)[g]) as int,
            ) != key_of(cols, (#[trigger] first_rows(cols, n)[h]) as int),
    decreases n,
{
    if n > 0 {
        let before = first_rows(cols, (n - 1) as nat);
        let now = first_rows(cols, n);
        lemma_first_rows(cols, (n - 1) as nat);
        assert forall|i: int| 0 <= i < n implies #[trigger] key_known(cols, now, i) by {
            if i < n - 1 {
                assert(key_known(cols, before, i));
                let g = choose|g: int| is_group(cols, before, i, g);
                assert(is_group(cols, now, i, g));
            } else if !key_known(cols, before, i) {
                assert(is_group(cols, now, i, now.len() - 1));
            }
        }
        assert forall|g: int, h: int| 0 <= g < h < now.len() implies key_of(
            cols,
            (#[trigger] now[g]) as int,
        ) != key_of(cols, (#[trigger] now[h]) as int) by {
            if h == before.len() {
                assert(!is_group(cols, before, n - 1, g));
            }
        }
    }
}

/// Two rows are in one group exactly when their keys are equal.
pub proof fn lemma_groups(cols: Seq<Cells>, n: nat, i: int, j: int)
    requires
        n <= usize::MAX,
        0 <= i < n,
        0 <= j < n,
    ensures
        is_group(cols, first_rows(cols, n), i, group_at(cols, first_rows(cols, n), i) as int),
        group_at(cols, first_rows(cols, n), i) == group_at(cols, first_rows(cols, n), j)
            <==> key_of(cols, i) == key_of(cols, j),
{
    let f = first_rows(cols, n);
    lemma_first_rows(cols, n);
    assert(key_known(cols, f, i));
    assert(key_known(cols, f, j));
    let g = choose|g: int| is_group(cols, f, i, g);
    let h = choose|h: int| is_group(cols, f, j, h);
    assert(is_group(cols, f, i, g));
    assert(is_group(cols, f, j, h));
    if key_of(cols, i) == key_of(cols, j) && g != h {
        if g < h {
            assert(key_of(cols, f[g] as int) != key_of(cols, f[h] as int));
        } else {
            assert(key_of(cols, f[h] as int) != key_of(cols, f[g] as int));
        }
    }
}

proof fn lemma_group_unique(cols: Seq<Cells>, n: nat, i: int, g: int)
    requires
        n <= usize::MAX,
        is_group(cols, first_rows(cols, n), i, g),
    ensures
        group_at(cols, first_rows(cols, n), i) == g,
{
    let f = first_rows(cols, n);
    lemma_first_rows(cols, n);
    let h = choose|h: int| is_group(cols, f, i, h);
    assert(is_group(cols, f, i, h));
    if g < h {
        assert(key_of(cols, f[g] as int) != key_of(cols, f[h] as int));
    } else if h < g {
        assert(key_of(cols, f[h] as int) != key_of(cols, f[g] as int));
    }
}

pub open spec fn key_types(cols: Seq<Cells>) -> Seq<DataType> {
    Seq::new(cols.len(), |k: int| cols[k].key_type())
}

fn write_key(cols: &Vec<Arr>, i: usize, n: usize) -> (r: Vec<u8>)
    requires
        aligned(arrays(cols@), n as nat),
        i < n,
        forall|k: int| 0 <= k < cols@.len() ==> !((#[trigger] arrays(cols@)[k]) is Vector),
    ensures
        r@ == row_bytes(key_of(arrays(cols@), i as int)),
        storable_row(key_of(arrays(cols@), i as int)),
        typed(key_of(arrays(cols@), i as int), key_types(arrays(cols@))),
{
    let ghost cs = arrays(cols@);
    let ghost row = key_of(cs, i as int);
    let mut w = Writer::new();
    let mut k: usize = 0;
    assert(row.take(0) =~= Seq::<Cell>::empty());
    while k < cols.len()
        invariant
            k <= cols.len(),
            i < n,
            cs == arrays(cols@),
            row == key_of(cs, i as int),
            aligned(cs, n as nat),
            forall|j: int| 0 <= j < cols@.len() ==> !((#[trigger] cs[j]) is Vector),
            w.buf@ == row_bytes(row.take(k as int)),
            forall|j: int| 0 <= j < k ==> storable(#[trigger] row[j]),
            forall|j: int| 0 <= j < k ==> cell_type(#[trigger] row[j]) == key_types(cs)[j],
        decreases cols.len() - k,
    {
        assert(cs[k as int] == cols@[k as int]@);
        let v = cols[k].key(i);
        w.value(&v);
        proof {
            let t = row.take(k + 1);
            assert(t.drop_last() =~= row.take(k as int));
            assert(t.last() == row[k as int]);
            assert(row[k as int] == v@);
        }
        k += 1;
    }
    assert(row.take(k as int) =~= row);
    w.buf
}

/// Whether the map holds the keys of the groups that are known, under their
/// numbers, and nothing else.
spec fn holds_groups(m: Map<Seq<u8>, usize>, cols: Seq<Cells>, f: Seq<usize>) -> bool {
    &&& forall|g: int|
        0 <= g < f.len() ==> m.dom().contains(row_bytes(key_of(cols, (#[trigger] f[g]) as int)))
            && m[row_bytes(key_of(cols, f[g] as int))] == g
    &&& forall|b: Seq<u8>| #[trigger]
        m.dom().contains(b) ==> 0 <= m[b] < f.len() && b == row_bytes(
            key_of(cols, f[m[b] as int] as int),
        )
}

#[verifier::spinoff_prover]
pub fn assign_groups(cols: &Vec<Arr>, n: usize) -> (r: Result<Groups, Error>)
    requires
        aligned(arrays(cols@), n as nat),
    ensures
        match r {
            Ok(g) => grouped(arrays(cols@), n as nat) == Ok::<Grouping, Seq<char>>(g@),
            Err(e) => grouped(arrays(cols@), n as nat) == Err::<Grouping, Seq<char>>(e@),
        },
{
    let ghost cs = arrays(cols@);
    let mut of: Vec<usize> = Vec::new();
    let mut first: Vec<usize> = Vec::new();
    let mut i: usize = 0;
    if cols.len() == 0 {
        while i < n
            invariant
                i <= n,
                of.len() == i,
                forall|k: int| 0 <= k < i ==> (#[trigger] of[k]) == 0,
            decreases n - i,
        {
            of.push(0);
            i += 1;
        }
        assert(of@ =~= Seq::new(n as nat, |i: int| 0usize));
        assert(first@ =~= Seq::<usize>::empty());
        return Ok(Groups { of, count: 1, first });
    }
    if n > 0 {
        let mut k: usize = 0;
        while k < cols.len()
            invariant
                k <= cols.len(),
                n > 0,
                cols.len() > 0,
                cs == arrays(cols@),
                forall|j: int| 0 <= j < k ==> !((#[trigger] cs[j]) is Vector),
            decreases cols.len() - k,
        {
            assert(cs[k as int] == cols@[k as int]@);
            if let Arr::Vector { .. } = cols[k] {
                assert(cs[k as int] is Vector);
                return Err(err("группировка по векторной колонке не поддерживается".to_owned()));
            }
            k += 1;
        }
    }
    let mut map = no_numbers();
    let mut count: usize = 0;
    while i < n
        invariant
            i <= n,
            cs == arrays(cols@),
            aligned(cs, n as nat),
            cols.len() > 0,
            n > 0 ==> forall|j: int| 0 <= j < cols@.len() ==> !((#[trigger] cs[j]) is Vector),
            first@ == first_rows(cs, i as nat),
            count == first@.len(),
            count <= i,
            of.len() == i,
            holds_groups(numbered(map), cs, first@),
            forall|k: int| 0 <= k < i ==> is_group(cs, first@, k, (#[trigger] of[k]) as int),
            forall|k: int|
                0 <= k < i ==> #[trigger] storable_row(key_of(cs, k)) && typed(
                    key_of(cs, k),
                    key_types(cs),
                ),
        decreases n - i,
    {
        let key = write_key(cols, i, n);
        let ghost f0 = first@;
        let ghost m0 = numbered(map);
        proof {
            lemma_first_rows(cs, i as nat);
        }
        match number_under(&map, &key) {
            Some(g) => {
                proof {
                    let r = f0[g as int] as int;
                    assert(m0.dom().contains(key@));
                    assert(storable_row(key_of(cs, r)));
                    lemma_row_injective(key_of(cs, r), key_of(cs, i as int), key_types(cs));
                    assert(is_group(cs, f0, i as int, g as int));
                }
                of.push(g);
            },
            None => {
                proof {
                    assert forall|g: int| !is_group(cs, f0, i as int, g) by {
                        if is_group(cs, f0, i as int, g) {
                            assert(m0.dom().contains(row_bytes(key_of(cs, f0[g] as int))));
                        }
                    }
                }
                of.push(count);
                first.push(i);
                put_number(&mut map, key, count);
                proof {
                    let m1 = numbered(map);
                    let f1 = first@;
                    assert(f1 =~= first_rows(cs, (i + 1) as nat));
                    assert forall|g: int| 0 <= g < f1.len() implies m1.dom().contains(
                        row_bytes(key_of(cs, (#[trigger] f1[g]) as int)),
                    ) && m1[row_bytes(key_of(cs, f1[g] as int))] == g by {
                        if g < f0.len() {
                            assert(f1[g] == f0[g]);
                            assert(m0.dom().contains(row_bytes(key_of(cs, f0[g] as int))));
                        }
                    }
                    assert forall|b: Seq<u8>| #[trigger] m1.dom().contains(b) implies 0 <= m1[b]
                        < f1.len() && b == row_bytes(key_of(cs, f1[m1[b] as int] as int)) by {
                        if b != key@ {
                            assert(m0.dom().contains(b));
                        }
                    }
                    assert forall|k: int| 0 <= k < i implies is_group(
                        cs,
                        f1,
                        k,
                        (#[trigger] of[k]) as int,
                    ) by {
                        assert(is_group(cs, f0, k, of[k] as int));
                    }
                    assert(is_group(cs, f1, i as int, count as int));
                }
                count = count + 1;
            },
        }
        i += 1;
    }
    proof {
        let want = Seq::new(n as nat, |i: int| group_at(cs, first@, i));
        assert forall|k: int| 0 <= k < n implies of@[k] == want[k] by {
            assert(is_group(cs, first@, k, of[k] as int));
            lemma_group_unique(cs, n as nat, k, of[k] as int);
        }
        assert(of@ =~= want);
    }
    Ok(Groups { of, count, first })
}

} // verus!
