//! Selections of rows, frames of columns, and the arrays computed from them.
use crate::column::{
    copy_words, lemma_vectors_push, name_of_type, str_bytes, too_long, truths, vectors, Cells,
    Column, DataType, StrColumn, Value,
};
use crate::float::Floats;
use crate::table::Table;
use crate::text::{err, strings, text2, Error};
use vstd::prelude::*;
use vstd::string::*;

verus! {

broadcast use vstd::string::group_string_axioms;

/// Which rows of a frame take part.
#[derive(Debug)]
pub enum Sel {
    /// The first so many.
    All(usize),
    Ids(Vec<usize>),
}

impl View for Sel {
    type V = Seq<usize>;

    open spec fn view(&self) -> Seq<usize> {
        match *self {
            Sel::All(n) => Seq::new(n as nat, |i: int| i as usize),
            Sel::Ids(v) => v@,
        }
    }
}

impl Sel {
    pub fn len(&self) -> (r: usize)
        ensures
            r == self@.len(),
    {
        match self {
            Sel::All(n) => *n,
            Sel::Ids(v) => v.len(),
        }
    }

    pub fn is_empty(&self) -> (r: bool)
        ensures
            r == (self@.len() == 0),
    {
        self.len() == 0
    }

    /// The row that stands at place `i`.
    pub fn row(&self, i: usize) -> (r: usize)
        requires
            i < self@.len(),
        ensures
            r == self@[i as int],
    {
        match self {
            Sel::All(_) => i,
            Sel::Ids(v) => v[i],
        }
    }

    /// The rows at the places that `order` names.
    pub fn permute(&self, order: &Vec<usize>) -> (r: Sel)
        requires
            forall|i: int| 0 <= i < order.len() ==> (#[trigger] order[i]) < self@.len(),
        ensures
            r@ == permuted(self@, order@),
    {
        let mut out: Vec<usize> = Vec::new();
        let mut i: usize = 0;
        while i < order.len()
            invariant
                i <= order.len(),
                forall|k: int| 0 <= k < order.len() ==> (#[trigger] order[k]) < self@.len(),
                out@ == permuted(self@, order@).take(i as int),
            decreases order.len() - i,
        {
            out.push(self.row(order[i]));
            i += 1;
        }
        assert(out@ =~= permuted(self@, order@));
        Sel::Ids(out)
    }
}

/// The rows at the places that `order` names.
pub open spec fn permuted(rows: Seq<usize>, order: Seq<usize>) -> Seq<usize> {
    Seq::new(order.len(), |i: int| rows[order[i] as int])
}

/// The columns that expressions are computed over: those of a table, or those of
/// the groups made of it.
pub struct Frame<'a> {
    pub cols: Vec<&'a Column>,
}

pub open spec fn contents(v: Seq<Column>) -> Seq<Cells> {
    Seq::new(v.len(), |i: int| v[i]@)
}

impl<'a> View for Frame<'a> {
    type V = Seq<Cells>;

    open spec fn view(&self) -> Seq<Cells> {
        Seq::new(self.cols@.len(), |i: int| self.cols@[i]@)
    }
}

/// Whether each row is a row of each column.
pub open spec fn covers(frame: Seq<Cells>, rows: Seq<usize>) -> bool {
    forall|c: int, i: int|
        0 <= c < frame.len() && 0 <= i < rows.len() ==> (#[trigger] rows[i]) < (
        #[trigger] frame[c]).len()
}

impl<'a> Frame<'a> {
    pub open spec fn wf(&self) -> bool {
        forall|c: int| 0 <= c < self.cols@.len() ==> (#[trigger] self.cols@[c]).wf()
    }

    pub fn of_table(t: &'a Table) -> (r: Frame<'a>)
        requires
            t.wf(),
        ensures
            r.wf(),
            r@ == t@.columns,
            covers(r@, Seq::new(t@.rows, |i: int| i as usize)),
    {
        let r = Frame::of_columns(&t.columns);
        let n: usize = t.nrows;
        assert(covers(r@, Seq::new(n as nat, |i: int| i as usize)));
        r
    }

    pub fn of_columns(cols: &'a Vec<Column>) -> (r: Frame<'a>)
        requires
            forall|c: int| 0 <= c < cols.len() ==> (#[trigger] cols[c]).wf(),
        ensures
            r.wf(),
            r@ == contents(cols@),
    {
        let mut out: Vec<&'a Column> = Vec::new();
        let mut i: usize = 0;
        while i < cols.len()
            invariant
                i <= cols.len(),
                out.len() == i,
                forall|c: int| 0 <= c < cols.len() ==> (#[trigger] cols[c]).wf(),
                forall|k: int| 0 <= k < i ==> *(#[trigger] out[k]) == cols[k],
            decreases cols.len() - i,
        {
            out.push(&cols[i]);
            i += 1;
        }
        let r = Frame { cols: out };
        assert(r@ =~= contents(cols@));
        r
    }
}

/// The value of an expression over a selection. One value alone is a constant and
/// stands for as many as are needed.
#[derive(Debug)]
pub enum Arr {
    I64(Vec<i64>),
    F64(Vec<u64>),
    /// One byte for each value; zero is false.
    Bool(Vec<u8>),
    Str(Vec<String>),
    Vector { dim: usize, rows: Vec<Vec<u32>> },
}

pub open spec fn word_rows(v: Seq<Vec<u32>>) -> Seq<Seq<u32>> {
    Seq::new(v.len(), |i: int| v[i]@)
}

impl View for Arr {
    type V = Cells;

    open spec fn view(&self) -> Cells {
        match *self {
            Arr::I64(v) => Cells::I64(v@),
            Arr::F64(v) => Cells::F64(v@),
            Arr::Bool(v) => Cells::Bool(v@),
            Arr::Str(v) => Cells::Str(strings(v@)),
            Arr::Vector { dim, rows } => Cells::Vector { dim, rows: word_rows(rows@) },
        }
    }
}

/// Where place `i` is found among `n` values: one alone stands for all.
pub open spec fn spread(n: nat, i: int) -> int {
    if n == 1 {
        0
    } else {
        i
    }
}

pub open spec fn bools(c: Cells) -> Result<Seq<bool>, Seq<char>> {
    match c {
        Cells::Bool(v) => Ok(truths(v)),
        _ => Err("ожидалось логическое выражение, получено "@ + name_of_type(c.data_type())),
    }
}

/// Numbers as doubles.
pub open spec fn numbers<F: Floats>(c: Cells, fl: F) -> Result<Seq<u64>, Seq<char>> {
    match c {
        Cells::F64(v) => Ok(v),
        Cells::I64(v) => Ok(Seq::new(v.len(), |i: int| fl.from_int(v[i]))),
        Cells::Bool(v) => Ok(Seq::new(v.len(), |i: int| fl.from_int(v[i] as i64))),
        _ => Err("ожидалось число, получено "@ + name_of_type(c.data_type())),
    }
}

/// The values as a column: texts have to fit into one.
pub open spec fn as_column(c: Cells) -> Result<Cells, Seq<char>> {
    match c {
        Cells::Str(v) => if str_bytes(v) > u32::MAX {
            Err(too_long())
        } else {
            Ok(c)
        },
        _ => Ok(c),
    }
}

proof fn lemma_str_bytes_grow(v: Seq<Seq<char>>, i: int)
    requires
        0 <= i <= v.len(),
    ensures
        str_bytes(v.take(i)) <= str_bytes(v),
    decreases v.len() - i,
{
    if i == v.len() {
        assert(v.take(i) =~= v);
    } else {
        lemma_str_bytes_grow(v, i + 1);
        assert(v.take(i + 1).drop_last() =~= v.take(i));
    }
}

impl Arr {
    pub fn len(&self) -> (r: usize)
        ensures
            r == self@.len(),
    {
        match self {
            Arr::I64(v) => v.len(),
            Arr::F64(v) => v.len(),
            Arr::Bool(v) => v.len(),
            Arr::Str(v) => v.len(),
            Arr::Vector { rows, .. } => rows.len(),
        }
    }

    pub fn is_empty(&self) -> (r: bool)
        ensures
            r == (self@.len() == 0),
    {
        self.len() == 0
    }

    pub fn data_type(&self) -> (r: DataType)
        ensures
            r == self@.data_type(),
    {
        match self {
            Arr::I64(_) => DataType::I64,
            Arr::F64(_) => DataType::F64,
            Arr::Bool(_) => DataType::Bool,
            Arr::Str(_) => DataType::Str,
            Arr::Vector { dim, .. } => DataType::Vector(*dim),
        }
    }

    /// The value at place `i`.
    pub fn value(&self, i: usize) -> (r: Value)
        requires
            self@.len() == 1 || i < self@.len(),
        ensures
            r@ == self@.at(spread(self@.len(), i as int)),
    {
        let j: usize = if self.len() == 1 {
            0
        } else {
            i
        };
        match self {
            Arr::I64(v) => Value::I64(v[j]),
            Arr::F64(v) => Value::F64(v[j]),
            Arr::Bool(v) => Value::Bool(v[j] != 0),
            Arr::Str(v) => Value::Str(v[j].clone()),
            Arr::Vector { rows, .. } => Value::Vector(copy_words(&rows[j])),
        }
    }

    /// The value at place `i` as a key.
    pub fn key(&self, i: usize) -> (r: Value)
        requires
            self@.len() == 1 || i < self@.len(),
        ensures
            r@ == self@.key_at(spread(self@.len(), i as int)),
    {
        match self {
            Arr::Bool(v) => Value::I64(
                if v.len() == 1 {
                    v[0]
                } else {
                    v[i]
                } as i64,
            ),
            _ => self.value(i),
        }
    }

    /// Truth values, by their bytes.
    pub fn as_bool(&self) -> (r: Result<&Vec<u8>, Error>)
        ensures
            match r {
                Ok(v) => bools(self@) == Ok::<Seq<bool>, Seq<char>>(truths(v@)),
                Err(e) => bools(self@) == Err::<Seq<bool>, Seq<char>>(e@),
            },
    {
        match self {
            Arr::Bool(v) => Ok(v),
            other => Err(
                err(
                    text2(
                        "ожидалось логическое выражение, получено ",
                        other.data_type().name().as_str(),
                    ),
                ),
            ),
        }
    }

    /// The values as doubles.
    pub fn to_f64<F: Floats>(&self, fl: &F) -> (r: Result<Vec<u64>, Error>)
        requires
            fl.exact(),
        ensures
            match r {
                Ok(v) => numbers(self@, *fl) == Ok::<Seq<u64>, Seq<char>>(v@),
                Err(e) => numbers(self@, *fl) == Err::<Seq<u64>, Seq<char>>(e@),
            },
    {
        match self {
            Arr::F64(v) => {
                let mut out: Vec<u64> = Vec::new();
                out.extend_from_slice(v.as_slice());
                assert(out@ =~= v@);
                Ok(out)
            },
            Arr::I64(v) => {
                let mut out: Vec<u64> = Vec::new();
                let mut i: usize = 0;
                while i < v.len()
                    invariant
                        i <= v.len(),
                        out.len() == i,
                        fl.exact(),
                        forall|k: int| 0 <= k < i ==> (#[trigger] out[k]) == fl.from_int(v[k]),
                    decreases v.len() - i,
                {
                    out.push(fl.of_int(v[i]));
                    i += 1;
                }
                assert(out@ =~= Seq::new(v@.len(), |i: int| fl.from_int(v@[i])));
                Ok(out)
            },
            Arr::Bool(v) => {
                let mut out: Vec<u64> = Vec::new();
                let mut i: usize = 0;
                while i < v.len()
                    invariant
                        i <= v.len(),
                        out.len() == i,
                        fl.exact(),
                        forall|k: int|
                            0 <= k < i ==> (#[trigger] out[k]) == fl.from_int(v[k] as i64),
                    decreases v.len() - i,
                {
                    out.push(fl.of_int(v[i] as i64));
                    i += 1;
                }
                assert(out@ =~= Seq::new(v@.len(), |i: int| fl.from_int(v@[i] as i64)));
                Ok(out)
            },
            other => Err(
                err(text2("ожидалось число, получено ", other.data_type().name().as_str())),
            ),
        }
    }

    /// The values as a column.
    #[verifier::loop_isolation(false)]
    pub fn into_column(self) -> (r: Result<Column, Error>)
        requires
            self@ matches Cells::Vector { dim, rows } ==> forall|i: int|
                0 <= i < rows.len() ==> (#[trigger] rows[i]).len() == dim && dim > 0,
        ensures
            match r {
                Ok(c) => as_column(self@) == Ok::<Cells, Seq<char>>(c@) && c.wf(),
                Err(e) => as_column(self@) == Err::<Cells, Seq<char>>(e@),
            },
    {
        match self {
            Arr::I64(v) => Ok(Column::I64(v)),
            Arr::F64(v) => Ok(Column::F64(v)),
            Arr::Bool(v) => Ok(Column::Bool(v)),
            Arr::Str(v) => {
                let mut c = StrColumn::new();
                let mut i: usize = 0;
                while i < v.len()
                    invariant
                        i <= v.len(),
                        c.wf(),
                        c@ == strings(v@).take(i as int),
                    decreases v.len() - i,
                {
                    assert(strings(v@).take(i + 1).drop_last() =~= strings(v@).take(i as int));
                    assert(strings(v@).take(i + 1).last() == v@[i as int]@);
                    if !c.has_room(v[i].as_str()) {
                        proof {
                            lemma_str_bytes_grow(strings(v@), i + 1);
                        }
                        return Err(err("строки колонки не помещаются в 4 ГиБ".to_owned()));
                    }
                    c.push(v[i].as_str());
                    assert(c@ =~= strings(v@).take(i + 1));
                    i += 1;
                }
                assert(strings(v@).take(i as int) =~= strings(v@));
                proof {
                    c.lemma_layout();
                    c.lemma_size();
                }
                Ok(Column::Str(c))
            },
            Arr::Vector { dim, rows } => {
                let mut data: Vec<u32> = Vec::new();
                let mut i: usize = 0;
                assert(vectors(dim, data@) =~= word_rows(rows@).take(0));
                assert forall|k: int| 0 <= k < rows.len() implies (#[trigger] word_rows(
                    rows@,
                )[k]).len() == dim && dim > 0 by {
                    assert(self@->Vector_rows[k].len() == dim);
                }
                while i < rows.len()
                    invariant
                        i <= rows.len(),
                        forall|k: int|
                            0 <= k < rows.len() ==> (#[trigger] word_rows(rows@)[k]).len() == dim
                                && dim > 0,
                        dim == 0 ==> data@.len() == 0,
                        dim > 0 ==> data@.len() % dim as nat == 0,
                        vectors(dim, data@) == word_rows(rows@).take(i as int),
                    decreases rows.len() - i,
                {
                    let ghost d0 = data@;
                    assert(word_rows(rows@)[i as int] == rows@[i as int]@);
                    data.extend_from_slice(rows[i].as_slice());
                    proof {
                        assert(data@ =~= d0 + rows@[i as int]@);
                        lemma_vectors_push(dim, d0, rows@[i as int]@);
                        assert(vectors(dim, data@) =~= word_rows(rows@).take(i + 1));
                    }
                    i += 1;
                }
                assert(word_rows(rows@).take(i as int) =~= word_rows(rows@));
                Ok(Column::Vector { dim, data })
            },
        }
    }
}

} // verus!
