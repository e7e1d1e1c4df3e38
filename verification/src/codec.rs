//! The binary format of snapshots, of the write-ahead log and of replication.
//!
//! Numbers are little-endian. A value is written without its type: that is known
//! from the schema.
use crate::column::{
    bit, cell_type, flat, joined_bytes, lemma_cut_layout, lemma_flat_vectors, lemma_joined_len,
    lemma_layout_cuts, lemma_vectors_flat, parts_error, pieces, str_bytes, text_offsets, utf8,
    utf8_error, vectors, Cell, Cells, Column, DataType, StrColumn, Value,
};
use crate::table::{Attr, Field, Schema};
use crate::text::{
    dec, dec_u128, dec_u64, dec_usize, err, in_context, text2, text3, text4, text5, Error,
};
use vstd::bytes::*;
use vstd::prelude::*;
use vstd::string::*;
use vstd::utf8::*;

verus! {

broadcast use vstd::string::group_string_axioms;

// --- the format ----------------------------------------------------------------------

pub open spec fn u32_bytes(x: u32) -> Seq<u8> {
    spec_u32_to_le_bytes(x)
}

pub open spec fn u64_bytes(x: u64) -> Seq<u8> {
    spec_u64_to_le_bytes(x)
}

pub open spec fn i64_bytes(x: i64) -> Seq<u8> {
    u64_bytes(x as u64)
}

/// Bytes behind their number.
pub open spec fn blob(v: Seq<u8>) -> Seq<u8> {
    u64_bytes(v.len() as u64) + v
}

pub open spec fn text_bytes(s: Seq<char>) -> Seq<u8> {
    blob(encode_utf8(s))
}

pub open spec fn words_body(v: Seq<u32>) -> Seq<u8>
    decreases v.len(),
{
    if v.len() == 0 {
        Seq::empty()
    } else {
        words_body(v.drop_last()) + u32_bytes(v.last())
    }
}

/// Words of 32 bits behind their number.
pub open spec fn words(v: Seq<u32>) -> Seq<u8> {
    u64_bytes(v.len() as u64) + words_body(v)
}

pub open spec fn longs_body(v: Seq<u64>) -> Seq<u8>
    decreases v.len(),
{
    if v.len() == 0 {
        Seq::empty()
    } else {
        longs_body(v.drop_last()) + u64_bytes(v.last())
    }
}

/// Words of 64 bits behind their number.
pub open spec fn longs(v: Seq<u64>) -> Seq<u8> {
    u64_bytes(v.len() as u64) + longs_body(v)
}

pub open spec fn unsigned(v: Seq<i64>) -> Seq<u64> {
    Seq::new(v.len(), |i: int| v[i] as u64)
}

pub open spec fn type_bytes(ty: DataType) -> Seq<u8> {
    match ty {
        DataType::I64 => seq![1u8],
        DataType::F64 => seq![2u8],
        DataType::Bool => seq![3u8],
        DataType::Str => seq![4u8],
        DataType::Vector(d) => seq![5u8] + u64_bytes(d as u64),
    }
}

pub open spec fn attr_bytes(a: Attr) -> Seq<u8> {
    text_bytes(a.name) + type_bytes(a.ty)
}

pub open spec fn attrs_body(s: Seq<Attr>) -> Seq<u8>
    decreases s.len(),
{
    if s.len() == 0 {
        Seq::empty()
    } else {
        attrs_body(s.drop_last()) + attr_bytes(s.last())
    }
}

pub open spec fn schema_bytes(s: Seq<Attr>) -> Seq<u8> {
    u64_bytes(s.len() as u64) + attrs_body(s)
}

pub open spec fn value_bytes(c: Cell) -> Seq<u8> {
    match c {
        Cell::I64(x) => i64_bytes(x),
        Cell::F64(x) => u64_bytes(x),
        Cell::Bool(b) => seq![bit(b)],
        Cell::Str(s) => text_bytes(s),
        Cell::Vector(v) => words(v),
    }
}

/// A column: its values, and of strings and vectors how they lie.
pub open spec fn column_bytes(c: Cells) -> Seq<u8> {
    match c {
        Cells::I64(v) => longs(unsigned(v)),
        Cells::F64(v) => longs(v),
        Cells::Bool(v) => blob(v),
        Cells::Str(v) => words(text_offsets(v)) + blob(joined_bytes(v)),
        Cells::Vector { dim, rows } => u64_bytes(dim as u64) + words(flat(rows)),
    }
}

/// Values one after another.
pub open spec fn row_bytes(row: Seq<Cell>) -> Seq<u8>
    decreases row.len(),
{
    if row.len() == 0 {
        Seq::empty()
    } else {
        row_bytes(row.drop_last()) + value_bytes(row.last())
    }
}

// --- writing ---------------------------------------------------------------------------

pub struct Writer {
    pub buf: Vec<u8>,
}

impl Writer {
    pub fn new() -> (r: Writer)
        ensures
            r.buf@ == Seq::<u8>::empty(),
    {
        Writer { buf: Vec::new() }
    }

    pub fn put(&mut self, v: &[u8])
        ensures
            final(self).buf@ == old(self).buf@ + v@,
    {
        let ghost before = self.buf@;
        self.buf.extend_from_slice(v);
        assert(self.buf@ =~= before + v@);
    }

    pub fn u8(&mut self, v: u8)
        ensures
            final(self).buf@ == old(self).buf@ + seq![v],
    {
        let ghost before = self.buf@;
        self.buf.push(v);
        assert(self.buf@ =~= before + seq![v]);
    }

    pub fn u32(&mut self, v: u32)
        ensures
            final(self).buf@ == old(self).buf@ + u32_bytes(v),
    {
        let b = u32_to_le_bytes(v);
        self.put(b.as_slice());
    }

    pub fn u64(&mut self, v: u64)
        ensures
            final(self).buf@ == old(self).buf@ + u64_bytes(v),
    {
        let b = u64_to_le_bytes(v);
        self.put(b.as_slice());
    }

    pub fn i64(&mut self, v: i64)
        ensures
            final(self).buf@ == old(self).buf@ + i64_bytes(v),
    {
        self.u64(v as u64);
    }

    /// A double by its bits.
    pub fn f64_bits(&mut self, v: u64)
        ensures
            final(self).buf@ == old(self).buf@ + u64_bytes(v),
    {
        self.u64(v);
    }

    pub fn bytes(&mut self, v: &[u8])
        ensures
            final(self).buf@ == old(self).buf@ + blob(v@),
    {
        let ghost before = self.buf@;
        self.u64(v.len() as u64);
        self.put(v);
        assert(self.buf@ =~= before + blob(v@));
    }

    pub fn str(&mut self, v: &str)
        ensures
            final(self).buf@ == old(self).buf@ + text_bytes(v@),
            encode_utf8(v@).len() <= usize::MAX,
    {
        let b = v.as_bytes();
        let n: usize = b.len();
        self.bytes(b);
    }

    pub fn raw_u32(&mut self, v: &Vec<u32>)
        ensures
            final(self).buf@ == old(self).buf@ + words(v@),
            v@.len() <= usize::MAX,
    {
        let ghost before = self.buf@;
        let n: usize = v.len();
        self.u64(n as u64);
        let ghost head = self.buf@;
        let mut i: usize = 0;
        assert(self.buf@ =~= head + words_body(v@.take(0)));
        while i < v.len()
            invariant
                i <= v.len(),
                self.buf@ == head + words_body(v@.take(i as int)),
            decreases v.len() - i,
        {
            self.u32(v[i]);
            proof {
                let t = v@.take(i + 1);
                assert(t.drop_last() =~= v@.take(i as int));
                assert(self.buf@ =~= head + words_body(t));
            }
            i += 1;
        }
        assert(v@.take(i as int) =~= v@);
        assert(self.buf@ =~= before + words(v@));
    }

    pub fn raw_u64(&mut self, v: &Vec<u64>)
        ensures
            final(self).buf@ == old(self).buf@ + longs(v@),
    {
        let ghost before = self.buf@;
        self.u64(v.len() as u64);
        let ghost head = self.buf@;
        let mut i: usize = 0;
        assert(self.buf@ =~= head + longs_body(v@.take(0)));
        while i < v.len()
            invariant
                i <= v.len(),
                self.buf@ == head + longs_body(v@.take(i as int)),
            decreases v.len() - i,
        {
            self.u64(v[i]);
            proof {
                let t = v@.take(i + 1);
                assert(t.drop_last() =~= v@.take(i as int));
                assert(self.buf@ =~= head + longs_body(t));
            }
            i += 1;
        }
        assert(v@.take(i as int) =~= v@);
        assert(self.buf@ =~= before + longs(v@));
    }

    pub fn raw_i64(&mut self, v: &Vec<i64>)
        ensures
            final(self).buf@ == old(self).buf@ + longs(unsigned(v@)),
    {
        let ghost before = self.buf@;
        let ghost w = unsigned(v@);
        self.u64(v.len() as u64);
        let ghost head = self.buf@;
        let mut i: usize = 0;
        assert(self.buf@ =~= head + longs_body(w.take(0)));
        while i < v.len()
            invariant
                i <= v.len(),
                w == unsigned(v@),
                self.buf@ == head + longs_body(w.take(i as int)),
            decreases v.len() - i,
        {
            self.i64(v[i]);
            proof {
                let t = w.take(i + 1);
                assert(t.drop_last() =~= w.take(i as int));
                assert(self.buf@ =~= head + longs_body(t));
            }
            i += 1;
        }
        assert(w.take(i as int) =~= w);
        assert(self.buf@ =~= before + longs(w));
    }

    pub fn data_type(&mut self, ty: DataType)
        ensures
            final(self).buf@ == old(self).buf@ + type_bytes(ty),
    {
        let ghost before = self.buf@;
        match ty {
            DataType::I64 => self.u8(1),
            DataType::F64 => self.u8(2),
            DataType::Bool => self.u8(3),
            DataType::Str => self.u8(4),
            DataType::Vector(d) => {
                self.u8(5);
                self.u64(d as u64);
                assert(self.buf@ =~= before + type_bytes(ty));
            },
        }
    }

    pub fn schema(&mut self, s: &Schema)
        ensures
            final(self).buf@ == old(self).buf@ + schema_bytes(s@),
    {
        let ghost before = self.buf@;
        self.u64(s.fields.len() as u64);
        let ghost head = self.buf@;
        let mut i: usize = 0;
        assert(self.buf@ =~= head + attrs_body(s@.take(0)));
        while i < s.fields.len()
            invariant
                i <= s.fields.len(),
                self.buf@ == head + attrs_body(s@.take(i as int)),
            decreases s.fields.len() - i,
        {
            self.str(s.fields[i].name.as_str());
            self.data_type(s.fields[i].ty);
            proof {
                let t = s@.take(i + 1);
                assert(t.drop_last() =~= s@.take(i as int));
                assert(self.buf@ =~= head + attrs_body(t));
            }
            i += 1;
        }
        assert(s@.take(i as int) =~= s@);
        assert(self.buf@ =~= before + schema_bytes(s@));
    }

    /// A value without its type.
    pub fn column(&mut self, c: &Column)
        requires
            c.wf(),
        ensures
            final(self).buf@ == old(self).buf@ + column_bytes(c@),
    {
        let ghost b0 = self.buf@;
        match c {
            Column::I64(v) => self.raw_i64(v),
            Column::F64(v) => self.raw_u64(v),
            Column::Bool(v) => self.bytes(v.as_slice()),
            Column::Str(s) => {
                let (buf, offsets) = s.parts();
                self.raw_u32(offsets);
                self.bytes(buf.as_slice());
                proof {
                    s.lemma_layout();
                    lemma_cut_layout(s.layout().0, s.layout().1);
                    assert(self.buf@ =~= b0 + column_bytes(c@));
                }
            },
            Column::Vector { dim, data } => {
                self.u64(*dim as u64);
                self.raw_u32(data);
                proof {
                    if *dim > 0 {
                        lemma_vectors_flat(*dim, data@);
                    } else {
                        assert(vectors(*dim, data@) =~= Seq::<Seq<u32>>::empty());
                        assert(data@ =~= Seq::<u32>::empty());
                    }
                    assert(self.buf@ =~= b0 + column_bytes(c@));
                }
            },
        }
    }

    pub fn value(&mut self, v: &Value)
        ensures
            final(self).buf@ == old(self).buf@ + value_bytes(v@),
            storable(v@),
    {
        match v {
            Value::I64(x) => self.i64(*x),
            Value::F64(x) => self.f64_bits(*x),
            Value::Bool(x) => self.u8(
                if *x {
                    1
                } else {
                    0
                },
            ),
            Value::Str(x) => self.str(x.as_str()),
            Value::Vector(x) => self.raw_u32(x),
        }
    }
}

impl Default for Writer {
    fn default() -> (r: Writer)
        ensures
            r.buf@ == Seq::<u8>::empty(),
    {
        Writer::new()
    }
}

// --- what is read ------------------------------------------------------------------------

/// What a read gives, and the bytes that are left behind it.
pub type Read<T> = (Result<T, Seq<char>>, Seq<u8>);

pub open spec fn cut_short(need: int, have: nat) -> Seq<char> {
    "данные обрываются: нужно "@ + dec(need) + " байт, осталось "@ + dec(have as int)
}

pub open spec fn read_bytes(b: Seq<u8>, n: nat) -> Read<Seq<u8>> {
    if b.len() < n {
        (Err(cut_short(n as int, b.len())), b)
    } else {
        (Ok(b.take(n as int)), b.skip(n as int))
    }
}

pub open spec fn read_u8(b: Seq<u8>) -> Read<u8> {
    let (r, rest) = read_bytes(b, 1);
    match r {
        Ok(v) => (Ok(v[0]), rest),
        Err(e) => (Err(e), rest),
    }
}

pub open spec fn read_u32(b: Seq<u8>) -> Read<u32> {
    let (r, rest) = read_bytes(b, 4);
    match r {
        Ok(v) => (Ok(spec_u32_from_le_bytes(v)), rest),
        Err(e) => (Err(e), rest),
    }
}

pub open spec fn read_u64(b: Seq<u8>) -> Read<u64> {
    let (r, rest) = read_bytes(b, 8);
    match r {
        Ok(v) => (Ok(spec_u64_from_le_bytes(v)), rest),
        Err(e) => (Err(e), rest),
    }
}

pub open spec fn read_i64(b: Seq<u8>) -> Read<i64> {
    let (r, rest) = read_u64(b);
    match r {
        Ok(v) => (Ok(v as i64), rest),
        Err(e) => (Err(e), rest),
    }
}

/// A number of things, which has to fit in a `usize`.
pub open spec fn read_len(b: Seq<u8>) -> Read<usize> {
    let (r, rest) = read_u64(b);
    match r {
        Ok(v) => if v <= usize::MAX {
            (Ok(v as usize), rest)
        } else {
            (Err("число "@ + dec(v as int) + " слишком велико"@), rest)
        },
        Err(e) => (Err(e), rest),
    }
}

pub open spec fn read_blob(b: Seq<u8>) -> Read<Seq<u8>> {
    let (r, rest) = read_len(b);
    match r {
        Ok(n) => read_bytes(rest, n as nat),
        Err(e) => (Err(e), rest),
    }
}

pub open spec fn read_text(b: Seq<u8>) -> Read<Seq<char>> {
    let (r, rest) = read_blob(b);
    match r {
        Ok(v) => if valid_utf8(v) {
            (Ok(decode_utf8(v)), rest)
        } else {
            (Err(in_context("строка не в UTF-8"@, utf8_error(v))), rest)
        },
        Err(e) => (Err(e), rest),
    }
}

pub open spec fn words_in(b: Seq<u8>) -> Seq<u32> {
    Seq::new(b.len() / 4, |i: int| spec_u32_from_le_bytes(b.subrange(4 * i, 4 * i + 4)))
}

pub open spec fn longs_in(b: Seq<u8>) -> Seq<u64> {
    Seq::new(b.len() / 8, |i: int| spec_u64_from_le_bytes(b.subrange(8 * i, 8 * i + 8)))
}

pub open spec fn read_words(b: Seq<u8>) -> Read<Seq<u32>> {
    let (r, rest) = read_len(b);
    match r {
        Ok(n) => {
            let (v, rest) = read_bytes(rest, n as nat * 4);
            match v {
                Ok(v) => (Ok(words_in(v)), rest),
                Err(e) => (Err(e), rest),
            }
        },
        Err(e) => (Err(e), rest),
    }
}

pub open spec fn read_longs(b: Seq<u8>) -> Read<Seq<u64>> {
    let (r, rest) = read_len(b);
    match r {
        Ok(n) => {
            let (v, rest) = read_bytes(rest, n as nat * 8);
            match v {
                Ok(v) => (Ok(longs_in(v)), rest),
                Err(e) => (Err(e), rest),
            }
        },
        Err(e) => (Err(e), rest),
    }
}

pub open spec fn signed(v: Seq<u64>) -> Seq<i64> {
    Seq::new(v.len(), |i: int| v[i] as i64)
}

pub open spec fn read_type(b: Seq<u8>) -> Read<DataType> {
    let (r, rest) = read_u8(b);
    match r {
        Ok(1u8) => (Ok(DataType::I64), rest),
        Ok(2u8) => (Ok(DataType::F64), rest),
        Ok(3u8) => (Ok(DataType::Bool), rest),
        Ok(4u8) => (Ok(DataType::Str), rest),
        Ok(5u8) => {
            let (d, rest) = read_len(rest);
            match d {
                Ok(d) => (Ok(DataType::Vector(d)), rest),
                Err(e) => (Err(e), rest),
            }
        },
        Ok(k) => (Err("неизвестный код типа "@ + dec(k as int)), rest),
        Err(e) => (Err(e), rest),
    }
}

pub open spec fn read_attr(b: Seq<u8>) -> Read<Attr> {
    let (name, rest) = read_text(b);
    match name {
        Err(e) => (Err(e), rest),
        Ok(name) => {
            let (ty, rest) = read_type(rest);
            match ty {
                Err(e) => (Err(e), rest),
                Ok(ty) => (Ok(Attr { name, ty }), rest),
            }
        },
    }
}

pub open spec fn read_attrs(b: Seq<u8>, n: nat) -> Read<Seq<Attr>>
    decreases n,
{
    if n == 0 {
        (Ok(Seq::empty()), b)
    } else {
        let (r, rest) = read_attrs(b, (n - 1) as nat);
        match r {
            Err(e) => (Err(e), rest),
            Ok(s) => {
                let (a, rest) = read_attr(rest);
                match a {
                    Err(e) => (Err(e), rest),
                    Ok(a) => (Ok(s.push(a)), rest),
                }
            },
        }
    }
}

pub open spec fn read_schema(b: Seq<u8>) -> Read<Seq<Attr>> {
    let (r, rest) = read_len(b);
    match r {
        Ok(n) => read_attrs(rest, n as nat),
        Err(e) => (Err(e), rest),
    }
}

/// A value of a type that is known.
pub open spec fn read_value(b: Seq<u8>, ty: DataType) -> Read<Cell> {
    match ty {
        DataType::I64 => {
            let (r, rest) = read_i64(b);
            match r {
                Ok(x) => (Ok(Cell::I64(x)), rest),
                Err(e) => (Err(e), rest),
            }
        },
        DataType::F64 => {
            let (r, rest) = read_u64(b);
            match r {
                Ok(x) => (Ok(Cell::F64(x)), rest),
                Err(e) => (Err(e), rest),
            }
        },
        DataType::Bool => {
            let (r, rest) = read_u8(b);
            match r {
                Ok(x) => (Ok(Cell::Bool(x != 0)), rest),
                Err(e) => (Err(e), rest),
            }
        },
        DataType::Str => {
            let (r, rest) = read_text(b);
            match r {
                Ok(x) => (Ok(Cell::Str(x)), rest),
                Err(e) => (Err(e), rest),
            }
        },
        DataType::Vector(dim) => {
            let (r, rest) = read_words(b);
            match r {
                Ok(v) => if v.len() != dim {
                    (
                        Err("вектор длины "@ + dec(v.len() as int) + " вместо "@ + dec(dim as int)),
                        rest,
                    )
                } else {
                    (Ok(Cell::Vector(v)), rest)
                },
                Err(e) => (Err(e), rest),
            }
        },
    }
}

/// The first `n` values of a row whose types are known.
pub open spec fn read_row(b: Seq<u8>, types: Seq<DataType>, n: nat) -> Read<Seq<Cell>>
    decreases n,
{
    if n == 0 {
        (Ok(Seq::empty()), b)
    } else {
        let (r, rest) = read_row(b, types, (n - 1) as nat);
        match r {
            Err(e) => (Err(e), rest),
            Ok(row) => {
                let (v, rest) = read_value(rest, types[n - 1]);
                match v {
                    Err(e) => (Err(e), rest),
                    Ok(v) => (Ok(row.push(v)), rest),
                }
            },
        }
    }
}

/// A column of a type that is known.
pub open spec fn read_column(b: Seq<u8>, ty: DataType) -> Read<Cells> {
    match ty {
        DataType::I64 => {
            let (r, rest) = read_longs(b);
            match r {
                Ok(v) => (Ok(Cells::I64(signed(v))), rest),
                Err(e) => (Err(e), rest),
            }
        },
        DataType::F64 => {
            let (r, rest) = read_longs(b);
            match r {
                Ok(v) => (Ok(Cells::F64(v)), rest),
                Err(e) => (Err(e), rest),
            }
        },
        DataType::Bool => {
            let (r, rest) = read_blob(b);
            match r {
                Ok(v) => (Ok(Cells::Bool(v)), rest),
                Err(e) => (Err(e), rest),
            }
        },
        DataType::Str => {
            let (r, rest) = read_words(b);
            match r {
                Err(e) => (Err(e), rest),
                Ok(offsets) => {
                    let (r, rest) = read_blob(rest);
                    match r {
                        Err(e) => (Err(e), rest),
                        Ok(buf) => match parts_error(buf, offsets) {
                            Some(e) => (Err(e), rest),
                            None => (Ok(Cells::Str(pieces(buf, offsets))), rest),
                        },
                    }
                },
            }
        },
        DataType::Vector(dim) => {
            let (r, rest) = read_len(b);
            match r {
                Err(e) => (Err(e), rest),
                Ok(stored) => if stored != dim {
                    (
                        Err(
                            "в снапшоте VECTOR("@ + dec(stored as int) + "), в схеме VECTOR("@ + dec(
                                dim as int,
                            ) + ")"@,
                        ),
                        rest,
                    )
                } else {
                    let (r, rest) = read_words(rest);
                    match r {
                        Err(e) => (Err(e), rest),
                        Ok(data) => if dim == 0 || data.len() % dim as nat != 0 {
                            (
                                Err(
                                    "длина векторных данных "@ + dec(data.len() as int)
                                        + " не кратна "@ + dec(dim as int),
                                ),
                                rest,
                            )
                        } else {
                            (Ok(Cells::Vector { dim, rows: vectors(dim, data) }), rest)
                        },
                    }
                },
            }
        },
    }
}

// --- reading -----------------------------------------------------------------------------

pub struct Reader<'a> {
    data: &'a [u8],
    pos: usize,
}

impl<'a> Reader<'a> {
    pub closed spec fn wf(&self) -> bool {
        self.pos <= self.data@.len()
    }

    /// The bytes that are not read yet.
    pub closed spec fn rest(&self) -> Seq<u8> {
        self.data@.skip(self.pos as int)
    }

    /// All the bytes, those already read among them.
    pub closed spec fn whole(&self) -> Seq<u8> {
        self.data@
    }

    /// What is not read yet is the tail of what the reader was made with.
    pub proof fn lemma_rest(&self)
        requires
            self.wf(),
        ensures
            self.rest().len() <= self.whole().len(),
            self.rest() == self.whole().skip(self.whole().len() - self.rest().len()),
    {
    }

    pub fn new(data: &'a [u8]) -> (r: Reader<'a>)
        ensures
            r.wf(),
            r.rest() == data@,
            r.whole() == data@,
    {
        assert(data@.skip(0) =~= data@);
        Reader { data, pos: 0 }
    }

    pub fn remaining(&self) -> (r: usize)
        requires
            self.wf(),
        ensures
            r == self.rest().len(),
    {
        self.data.len() - self.pos
    }

    pub fn is_done(&self) -> (r: bool)
        requires
            self.wf(),
        ensures
            r == (self.rest().len() == 0),
    {
        self.pos >= self.data.len()
    }

    /// How many bytes have been read.
    pub fn pos(&self) -> (r: usize)
        requires
            self.wf(),
        ensures
            r + self.rest().len() == self.whole().len(),
    {
        self.pos
    }

    pub fn take(&mut self, n: usize) -> (r: Result<&'a [u8], Error>)
        requires
            old(self).wf(),
        ensures
            final(self).wf(),
            final(self).whole() == old(self).whole(),
            final(self).rest() == read_bytes(old(self).rest(), n as nat).1,
            match r {
                Ok(s) => read_bytes(old(self).rest(), n as nat).0 == Ok::<Seq<u8>, Seq<char>>(s@),
                Err(e) => read_bytes(old(self).rest(), n as nat).0 == Err::<Seq<u8>, Seq<char>>(e@),
            },
    {
        let total: usize = self.data.len();
        let have: usize = total - self.pos;
        if have < n {
            return Err(short_of(n as u128, have));
        }
        let s = vstd::slice::slice_subrange(self.data, self.pos, self.pos + n);
        assert(s@ =~= self.rest().take(n as int));
        assert(self.rest().skip(n as int) =~= self.data@.skip(self.pos + n));
        self.pos = self.pos + n;
        Ok(s)
    }

    /// The signature of eight bytes at the start of a file.
    pub fn take_magic(&mut self) -> (r: Result<&'a [u8], Error>)
        requires
            old(self).wf(),
        ensures
            final(self).wf(),
            final(self).whole() == old(self).whole(),
            final(self).rest() == read_bytes(old(self).rest(), 8).1,
            match r {
                Ok(s) => read_bytes(old(self).rest(), 8).0 == Ok::<Seq<u8>, Seq<char>>(s@),
                Err(e) => read_bytes(old(self).rest(), 8).0 == Err::<Seq<u8>, Seq<char>>(e@),
            },
    {
        self.take(8)
    }

    pub fn u8(&mut self) -> (r: Result<u8, Error>)
        requires
            old(self).wf(),
        ensures
            final(self).wf(),
            final(self).whole() == old(self).whole(),
            final(self).rest() == read_u8(old(self).rest()).1,
            match r {
                Ok(x) => read_u8(old(self).rest()).0 == Ok::<u8, Seq<char>>(x),
                Err(e) => read_u8(old(self).rest()).0 == Err::<u8, Seq<char>>(e@),
            },
    {
        match self.take(1) {
            Ok(s) => Ok(s[0]),
            Err(e) => Err(e),
        }
    }

    pub fn u32(&mut self) -> (r: Result<u32, Error>)
        requires
            old(self).wf(),
        ensures
            final(self).wf(),
            final(self).whole() == old(self).whole(),
            final(self).rest() == read_u32(old(self).rest()).1,
            match r {
                Ok(x) => read_u32(old(self).rest()).0 == Ok::<u32, Seq<char>>(x),
                Err(e) => read_u32(old(self).rest()).0 == Err::<u32, Seq<char>>(e@),
            },
    {
        match self.take(4) {
            Ok(s) => Ok(u32_from_le_bytes(s)),
            Err(e) => Err(e),
        }
    }

    pub fn u64(&mut self) -> (r: Result<u64, Error>)
        requires
            old(self).wf(),
        ensures
            final(self).wf(),
            final(self).whole() == old(self).whole(),
            final(self).rest() == read_u64(old(self).rest()).1,
            match r {
                Ok(x) => read_u64(old(self).rest()).0 == Ok::<u64, Seq<char>>(x),
                Err(e) => read_u64(old(self).rest()).0 == Err::<u64, Seq<char>>(e@),
            },
    {
        match self.take(8) {
            Ok(s) => Ok(u64_from_le_bytes(s)),
            Err(e) => Err(e),
        }
    }

    pub fn i64(&mut self) -> (r: Result<i64, Error>)
        requires
            old(self).wf(),
        ensures
            final(self).wf(),
            final(self).whole() == old(self).whole(),
            final(self).rest() == read_i64(old(self).rest()).1,
            match r {
                Ok(x) => read_i64(old(self).rest()).0 == Ok::<i64, Seq<char>>(x),
                Err(e) => read_i64(old(self).rest()).0 == Err::<i64, Seq<char>>(e@),
            },
    {
        match self.u64() {
            Ok(x) => Ok(x as i64),
            Err(e) => Err(e),
        }
    }

    /// A double by its bits.
    pub fn f64_bits(&mut self) -> (r: Result<u64, Error>)
        requires
            old(self).wf(),
        ensures
            final(self).wf(),
            final(self).whole() == old(self).whole(),
            final(self).rest() == read_u64(old(self).rest()).1,
            match r {
                Ok(x) => read_u64(old(self).rest()).0 == Ok::<u64, Seq<char>>(x),
                Err(e) => read_u64(old(self).rest()).0 == Err::<u64, Seq<char>>(e@),
            },
    {
        self.u64()
    }

    /// A number of things, which has to fit in a `usize`.
    pub fn count(&mut self) -> (r: Result<usize, Error>)
        requires
            old(self).wf(),
        ensures
            final(self).wf(),
            final(self).whole() == old(self).whole(),
            final(self).rest() == read_len(old(self).rest()).1,
            match r {
                Ok(x) => read_len(old(self).rest()).0 == Ok::<usize, Seq<char>>(x),
                Err(e) => read_len(old(self).rest()).0 == Err::<usize, Seq<char>>(e@),
            },
    {
        match self.u64() {
            Ok(x) => if x <= usize::MAX as u64 {
                Ok(x as usize)
            } else {
                Err(err(text3("число ", dec_u64(x).as_str(), " слишком велико")))
            },
            Err(e) => Err(e),
        }
    }

    pub fn bytes(&mut self) -> (r: Result<&'a [u8], Error>)
        requires
            old(self).wf(),
        ensures
            final(self).wf(),
            final(self).whole() == old(self).whole(),
            final(self).rest() == read_blob(old(self).rest()).1,
            match r {
                Ok(s) => read_blob(old(self).rest()).0 == Ok::<Seq<u8>, Seq<char>>(s@),
                Err(e) => read_blob(old(self).rest()).0 == Err::<Seq<u8>, Seq<char>>(e@),
            },
    {
        match self.count() {
            Ok(n) => self.take(n),
            Err(e) => Err(e),
        }
    }

    pub fn str(&mut self) -> (r: Result<String, Error>)
        requires
            old(self).wf(),
        ensures
            final(self).wf(),
            final(self).whole() == old(self).whole(),
            final(self).rest() == read_text(old(self).rest()).1,
            match r {
                Ok(s) => read_text(old(self).rest()).0 == Ok::<Seq<char>, Seq<char>>(s@),
                Err(e) => read_text(old(self).rest()).0 == Err::<Seq<char>, Seq<char>>(e@),
            },
    {
        match self.bytes() {
            Ok(b) => match utf8(b) {
                Ok(s) => {
                    proof {
                        encode_utf8_decode_utf8(s@);
                    }
                    Ok(s.to_owned())
                },
                Err(e) => Err(err(e).context("строка не в UTF-8")),
            },
            Err(e) => Err(e),
        }
    }

    fn take_many(&mut self, n: usize, size: usize) -> (r: Result<&'a [u8], Error>)
        requires
            old(self).wf(),
            0 < size <= 8,
        ensures
            final(self).wf(),
            final(self).whole() == old(self).whole(),
            final(self).rest() == read_bytes(old(self).rest(), n as nat * size as nat).1,
            match r {
                Ok(s) => read_bytes(old(self).rest(), n as nat * size as nat).0 == Ok::<
                    Seq<u8>,
                    Seq<char>,
                >(s@),
                Err(e) => read_bytes(old(self).rest(), n as nat * size as nat).0 == Err::<
                    Seq<u8>,
                    Seq<char>,
                >(e@),
            },
    {
        match n.checked_mul(size) {
            Some(k) => self.take(k),
            None => {
                let have: usize = self.remaining();
                assert(n * size <= 8 * usize::MAX) by (nonlinear_arith)
                    requires
                        n <= usize::MAX,
                        0 < size <= 8,
                ;
                Err(short_of(n as u128 * size as u128, have))
            },
        }
    }

    pub fn raw_u32(&mut self) -> (r: Result<Vec<u32>, Error>)
        requires
            old(self).wf(),
        ensures
            final(self).wf(),
            final(self).whole() == old(self).whole(),
            final(self).rest() == read_words(old(self).rest()).1,
            match r {
                Ok(v) => read_words(old(self).rest()).0 == Ok::<Seq<u32>, Seq<char>>(v@),
                Err(e) => read_words(old(self).rest()).0 == Err::<Seq<u32>, Seq<char>>(e@),
            },
    {
        let n: usize = match self.count() {
            Ok(n) => n,
            Err(e) => {
                return Err(e);
            },
        };
        let b = match self.take_many(n, 4) {
            Ok(b) => b,
            Err(e) => {
                return Err(e);
            },
        };
        Ok(split_words(b))
    }

    pub fn raw_u64(&mut self) -> (r: Result<Vec<u64>, Error>)
        requires
            old(self).wf(),
        ensures
            final(self).wf(),
            final(self).whole() == old(self).whole(),
            final(self).rest() == read_longs(old(self).rest()).1,
            match r {
                Ok(v) => read_longs(old(self).rest()).0 == Ok::<Seq<u64>, Seq<char>>(v@),
                Err(e) => read_longs(old(self).rest()).0 == Err::<Seq<u64>, Seq<char>>(e@),
            },
    {
        let n: usize = match self.count() {
            Ok(n) => n,
            Err(e) => {
                return Err(e);
            },
        };
        let b = match self.take_many(n, 8) {
            Ok(b) => b,
            Err(e) => {
                return Err(e);
            },
        };
        Ok(split_longs(b))
    }

    pub fn raw_i64(&mut self) -> (r: Result<Vec<i64>, Error>)
        requires
            old(self).wf(),
        ensures
            final(self).wf(),
            final(self).whole() == old(self).whole(),
            final(self).rest() == read_longs(old(self).rest()).1,
            match r {
                Ok(v) => read_longs(old(self).rest()).0 matches Ok(w) && v@ == signed(w),
                Err(e) => read_longs(old(self).rest()).0 == Err::<Seq<u64>, Seq<char>>(e@),
            },
    {
        let v = match self.raw_u64() {
            Ok(v) => v,
            Err(e) => {
                return Err(e);
            },
        };
        let mut out: Vec<i64> = Vec::new();
        let mut i: usize = 0;
        while i < v.len()
            invariant
                i <= v.len(),
                out.len() == i,
                forall|k: int| 0 <= k < i ==> (#[trigger] out[k]) == v[k] as i64,
            decreases v.len() - i,
        {
            out.push(v[i] as i64);
            i += 1;
        }
        assert(out@ =~= signed(v@));
        Ok(out)
    }

    pub fn raw_u8(&mut self) -> (r: Result<Vec<u8>, Error>)
        requires
            old(self).wf(),
        ensures
            final(self).wf(),
            final(self).whole() == old(self).whole(),
            final(self).rest() == read_blob(old(self).rest()).1,
            match r {
                Ok(v) => read_blob(old(self).rest()).0 == Ok::<Seq<u8>, Seq<char>>(v@),
                Err(e) => read_blob(old(self).rest()).0 == Err::<Seq<u8>, Seq<char>>(e@),
            },
    {
        match self.bytes() {
            Ok(b) => {
                let mut out: Vec<u8> = Vec::new();
                out.extend_from_slice(b);
                assert(out@ =~= b@);
                Ok(out)
            },
            Err(e) => Err(e),
        }
    }

    pub fn data_type(&mut self) -> (r: Result<DataType, Error>)
        requires
            old(self).wf(),
        ensures
            final(self).wf(),
            final(self).whole() == old(self).whole(),
            final(self).rest() == read_type(old(self).rest()).1,
            match r {
                Ok(t) => read_type(old(self).rest()).0 == Ok::<DataType, Seq<char>>(t),
                Err(e) => read_type(old(self).rest()).0 == Err::<DataType, Seq<char>>(e@),
            },
    {
        let k: u8 = match self.u8() {
            Ok(k) => k,
            Err(e) => {
                return Err(e);
            },
        };
        match k {
            1 => Ok(DataType::I64),
            2 => Ok(DataType::F64),
            3 => Ok(DataType::Bool),
            4 => Ok(DataType::Str),
            5 => match self.count() {
                Ok(d) => Ok(DataType::Vector(d)),
                Err(e) => Err(e),
            },
            other => Err(err(text2("неизвестный код типа ", dec_u64(other as u64).as_str()))),
        }
    }

    pub fn schema(&mut self) -> (r: Result<Schema, Error>)
        requires
            old(self).wf(),
        ensures
            final(self).wf(),
            final(self).whole() == old(self).whole(),
            final(self).rest() == read_schema(old(self).rest()).1,
            match r {
                Ok(s) => read_schema(old(self).rest()).0 == Ok::<Seq<Attr>, Seq<char>>(s@),
                Err(e) => read_schema(old(self).rest()).0 == Err::<Seq<Attr>, Seq<char>>(e@),
            },
    {
        let n: usize = match self.count() {
            Ok(n) => n,
            Err(e) => {
                return Err(e);
            },
        };
        let ghost b = self.rest();
        let mut s = Schema { fields: Vec::new() };
        let mut i: usize = 0;
        assert(s@ =~= Seq::<Attr>::empty());
        while i < n
            invariant
                i <= n,
                self.wf(),
                self.whole() == old(self).whole(),
                read_len(old(self).rest()) == (Ok::<usize, Seq<char>>(n), b),
                read_attrs(b, i as nat) == (Ok::<Seq<Attr>, Seq<char>>(s@), self.rest()),
            decreases n - i,
        {
            let ghost before = s@;
            let name = match self.str() {
                Ok(x) => x,
                Err(e) => {
                    proof {
                        lemma_attrs_err(b, (i + 1) as nat, n as nat);
                    }
                    return Err(e);
                },
            };
            let ty = match self.data_type() {
                Ok(x) => x,
                Err(e) => {
                    proof {
                        lemma_attrs_err(b, (i + 1) as nat, n as nat);
                    }
                    return Err(e);
                },
            };
            let ghost a = Attr { name: name@, ty };
            s.fields.push(Field { name, ty });
            assert(s@ =~= before.push(a));
            i += 1;
        }
        Ok(s)
    }

    pub fn value(&mut self, ty: DataType) -> (r: Result<Value, Error>)
        requires
            old(self).wf(),
        ensures
            final(self).wf(),
            final(self).whole() == old(self).whole(),
            final(self).rest() == read_value(old(self).rest(), ty).1,
            match r {
                Ok(v) => read_value(old(self).rest(), ty).0 == Ok::<Cell, Seq<char>>(v@),
                Err(e) => read_value(old(self).rest(), ty).0 == Err::<Cell, Seq<char>>(e@),
            },
    {
        match ty {
            DataType::I64 => match self.i64() {
                Ok(x) => Ok(Value::I64(x)),
                Err(e) => Err(e),
            },
            DataType::F64 => match self.f64_bits() {
                Ok(x) => Ok(Value::F64(x)),
                Err(e) => Err(e),
            },
            DataType::Bool => match self.u8() {
                Ok(x) => Ok(Value::Bool(x != 0)),
                Err(e) => Err(e),
            },
            DataType::Str => match self.str() {
                Ok(x) => Ok(Value::Str(x)),
                Err(e) => Err(e),
            },
            DataType::Vector(dim) => match self.raw_u32() {
                Ok(v) => if v.len() != dim {
                    Err(
                        err(
                            text4(
                                "вектор длины ",
                                dec_usize(v.len()).as_str(),
                                " вместо ",
                                dec_usize(dim).as_str(),
                            ),
                        ),
                    )
                } else {
                    Ok(Value::Vector(v))
                },
                Err(e) => Err(e),
            },
        }
    }

    pub fn column(&mut self, ty: DataType) -> (r: Result<Column, Error>)
        requires
            old(self).wf(),
        ensures
            final(self).wf(),
            final(self).whole() == old(self).whole(),
            final(self).rest() == read_column(old(self).rest(), ty).1,
            match r {
                Ok(c) => read_column(old(self).rest(), ty).0 == Ok::<Cells, Seq<char>>(c@)
                    && c.wf() && c@.data_type() == ty,
                Err(e) => read_column(old(self).rest(), ty).0 == Err::<Cells, Seq<char>>(e@),
            },
    {
        match ty {
            DataType::I64 => match self.raw_i64() {
                Ok(v) => Ok(Column::I64(v)),
                Err(e) => Err(e),
            },
            DataType::F64 => match self.raw_u64() {
                Ok(v) => Ok(Column::F64(v)),
                Err(e) => Err(e),
            },
            DataType::Bool => match self.raw_u8() {
                Ok(v) => Ok(Column::Bool(v)),
                Err(e) => Err(e),
            },
            DataType::Str => {
                let offsets = match self.raw_u32() {
                    Ok(v) => v,
                    Err(e) => {
                        return Err(e);
                    },
                };
                let buf = match self.raw_u8() {
                    Ok(v) => v,
                    Err(e) => {
                        return Err(e);
                    },
                };
                match StrColumn::from_parts(buf, offsets) {
                    Ok(c) => Ok(Column::Str(c)),
                    Err(e) => Err(e),
                }
            },
            DataType::Vector(dim) => {
                let stored: usize = match self.count() {
                    Ok(d) => d,
                    Err(e) => {
                        return Err(e);
                    },
                };
                if stored != dim {
                    return Err(
                        err(
                            text5(
                                "в снапшоте VECTOR(",
                                dec_usize(stored).as_str(),
                                "), в схеме VECTOR(",
                                dec_usize(dim).as_str(),
                                ")",
                            ),
                        ),
                    );
                }
                let data = match self.raw_u32() {
                    Ok(v) => v,
                    Err(e) => {
                        return Err(e);
                    },
                };
                if dim == 0 || data.len() % dim != 0 {
                    return Err(
                        err(
                            text4(
                                "длина векторных данных ",
                                dec_usize(data.len()).as_str(),
                                " не кратна ",
                                dec_usize(dim).as_str(),
                            ),
                        ),
                    );
                }
                Ok(Column::Vector { dim, data })
            },
        }
    }
}

proof fn lemma_attrs_err(b: Seq<u8>, k: nat, n: nat)
    requires
        k <= n,
        read_attrs(b, k).0 is Err,
    ensures
        read_attrs(b, n) == read_attrs(b, k),
    decreases n - k,
{
    if k < n {
        lemma_attrs_err(b, k, (n - 1) as nat);
    }
}

fn short_of(need: u128, have: usize) -> (r: Error)
    ensures
        r@ == cut_short(need as int, have as nat),
{
    err(
        text4(
            "данные обрываются: нужно ",
            dec_u128(need).as_str(),
            " байт, осталось ",
            dec_usize(have).as_str(),
        ),
    )
}

fn split_words(b: &[u8]) -> (r: Vec<u32>)
    ensures
        r@ == words_in(b@),
{
    let n: usize = b.len() / 4;
    let mut out: Vec<u32> = Vec::new();
    let mut i: usize = 0;
    while i < n
        invariant
            i <= n,
            n == b@.len() / 4,
            n * 4 <= b.len(),
            out@ == words_in(b@).take(i as int),
        decreases n - i,
    {
        let s = vstd::slice::slice_subrange(b, 4 * i, 4 * i + 4);
        out.push(u32_from_le_bytes(s));
        assert(out@ =~= words_in(b@).take(i + 1));
        i += 1;
    }
    assert(out@ =~= words_in(b@));
    out
}

fn split_longs(b: &[u8]) -> (r: Vec<u64>)
    ensures
        r@ == longs_in(b@),
{
    let n: usize = b.len() / 8;
    let mut out: Vec<u64> = Vec::new();
    let mut i: usize = 0;
    while i < n
        invariant
            i <= n,
            n == b@.len() / 8,
            n * 8 <= b.len(),
            out@ == longs_in(b@).take(i as int),
        decreases n - i,
    {
        let s = vstd::slice::slice_subrange(b, 8 * i, 8 * i + 8);
        out.push(u64_from_le_bytes(s));
        assert(out@ =~= longs_in(b@).take(i + 1));
        i += 1;
    }
    assert(out@ =~= longs_in(b@));
    out
}

// --- what is written is read back ---------------------------------------------------------

pub proof fn lemma_u32_back(x: u32, rest: Seq<u8>)
    ensures
        read_u32(u32_bytes(x) + rest) == (Ok::<u32, Seq<char>>(x), rest),
{
    lemma_auto_spec_u32_to_from_le_bytes();
    let b = u32_bytes(x);
    assert(b.len() == 4);
    assert((b + rest).take(4) =~= b);
    assert((b + rest).skip(4) =~= rest);
}

pub proof fn lemma_u64_back(x: u64, rest: Seq<u8>)
    ensures
        read_u64(u64_bytes(x) + rest) == (Ok::<u64, Seq<char>>(x), rest),
        u64_bytes(x).len() == 8,
{
    lemma_auto_spec_u64_to_from_le_bytes();
    let b = u64_bytes(x);
    assert(b.len() == 8);
    assert((b + rest).take(8) =~= b);
    assert((b + rest).skip(8) =~= rest);
}

proof fn lemma_signs(x: i64, u: u64)
    ensures
        (x as u64) as i64 == x,
        (u as i64) as u64 == u,
{
    assert((x as u64) as i64 == x) by (bit_vector);
    assert((u as i64) as u64 == u) by (bit_vector);
}

proof fn lemma_len_back(n: usize, rest: Seq<u8>)
    ensures
        read_len(u64_bytes(n as u64) + rest) == (Ok::<usize, Seq<char>>(n), rest),
{
    lemma_u64_back(n as u64, rest);
}

/// Bytes that were written are read back.
pub proof fn lemma_blob_back(v: Seq<u8>, rest: Seq<u8>)
    requires
        v.len() <= usize::MAX,
    ensures
        read_blob(blob(v) + rest) == (Ok::<Seq<u8>, Seq<char>>(v), rest),
{
    lemma_len_back(v.len() as usize, v + rest);
    assert(blob(v) + rest =~= u64_bytes(v.len() as u64) + (v + rest));
    assert((v + rest).take(v.len() as int) =~= v);
    assert((v + rest).skip(v.len() as int) =~= rest);
}

/// A text that was written is read back.
pub proof fn lemma_text_back(s: Seq<char>, rest: Seq<u8>)
    requires
        encode_utf8(s).len() <= usize::MAX,
    ensures
        read_text(text_bytes(s) + rest) == (Ok::<Seq<char>, Seq<char>>(s), rest),
{
    lemma_blob_back(encode_utf8(s), rest);
    encode_utf8_valid_utf8(s);
    encode_utf8_decode_utf8(s);
}

/// A type that was written is read back.
pub proof fn lemma_type_back(ty: DataType, rest: Seq<u8>)
    ensures
        read_type(type_bytes(ty) + rest) == (Ok::<DataType, Seq<char>>(ty), rest),
{
    let b = type_bytes(ty) + rest;
    match ty {
        DataType::Vector(d) => {
            lemma_len_back(d, rest);
            assert(b.skip(1) =~= u64_bytes(d as u64) + rest);
            assert(b.take(1)[0] == 5u8);
        },
        _ => {
            assert(b.skip(1) =~= rest);
            assert(b.take(1)[0] == type_bytes(ty)[0]);
        },
    }
}

pub open spec fn nameable(s: Seq<Attr>) -> bool {
    &&& s.len() <= usize::MAX
    &&& forall|i: int| 0 <= i < s.len() ==> encode_utf8((#[trigger] s[i]).name).len() <= usize::MAX
}

proof fn lemma_attrs_back(s: Seq<Attr>, n: nat, rest: Seq<u8>)
    requires
        nameable(s),
        n <= s.len(),
    ensures
        read_attrs(attrs_body(s.take(n as int)) + rest, n) == (
            Ok::<Seq<Attr>, Seq<char>>(s.take(n as int)),
            rest,
        ),
    decreases n,
{
    if n == 0 {
        assert(attrs_body(s.take(0)) + rest =~= rest);
        assert(s.take(0) =~= Seq::<Attr>::empty());
    } else {
        let t = s.take(n as int);
        let a = t.last();
        assert(t.drop_last() =~= s.take(n - 1));
        assert(a == s[n - 1]);
        let tail = attr_bytes(a) + rest;
        lemma_attrs_back(s, (n - 1) as nat, tail);
        assert(attrs_body(t) + rest =~= attrs_body(s.take(n - 1)) + tail);
        lemma_text_back(a.name, type_bytes(a.ty) + rest);
        assert(tail =~= text_bytes(a.name) + (type_bytes(a.ty) + rest));
        lemma_type_back(a.ty, rest);
        assert(s.take(n - 1).push(a) =~= t);
    }
}

/// A schema that was written is read back.
pub proof fn lemma_schema_back(s: Seq<Attr>, rest: Seq<u8>)
    requires
        nameable(s),
    ensures
        read_schema(schema_bytes(s) + rest) == (Ok::<Seq<Attr>, Seq<char>>(s), rest),
{
    lemma_len_back(s.len() as usize, attrs_body(s) + rest);
    assert(schema_bytes(s) + rest =~= u64_bytes(s.len() as u64) + (attrs_body(s) + rest));
    lemma_attrs_back(s, s.len(), rest);
    assert(s.take(s.len() as int) =~= s);
}

/// What is read from the start of some bytes does not depend on those behind it.
proof fn lemma_bytes_more(b: Seq<u8>, n: nat, t: Seq<u8>)
    requires
        read_bytes(b, n).0 is Ok,
    ensures
        read_bytes(b + t, n) == (read_bytes(b, n).0, read_bytes(b, n).1 + t),
{
    assert((b + t).take(n as int) =~= b.take(n as int));
    assert((b + t).skip(n as int) =~= b.skip(n as int) + t);
}

proof fn lemma_len_more(b: Seq<u8>, t: Seq<u8>)
    requires
        read_len(b).0 is Ok,
    ensures
        read_len(b + t) == (read_len(b).0, read_len(b).1 + t),
{
    lemma_bytes_more(b, 8, t);
}

proof fn lemma_text_more(b: Seq<u8>, t: Seq<u8>)
    requires
        read_text(b).0 is Ok,
    ensures
        read_text(b + t) == (read_text(b).0, read_text(b).1 + t),
{
    lemma_len_more(b, t);
    lemma_bytes_more(read_len(b).1, read_len(b).0->Ok_0 as nat, t);
}

proof fn lemma_type_more(b: Seq<u8>, t: Seq<u8>)
    requires
        read_type(b).0 is Ok,
    ensures
        read_type(b + t) == (read_type(b).0, read_type(b).1 + t),
{
    lemma_bytes_more(b, 1, t);
    if read_u8(b).0 == Ok::<u8, Seq<char>>(5) {
        lemma_len_more(read_u8(b).1, t);
    }
}

proof fn lemma_attrs_more(b: Seq<u8>, n: nat, t: Seq<u8>)
    requires
        read_attrs(b, n).0 is Ok,
    ensures
        read_attrs(b + t, n) == (read_attrs(b, n).0, read_attrs(b, n).1 + t),
    decreases n,
{
    if n > 0 {
        lemma_attrs_more(b, (n - 1) as nat, t);
        let rest = read_attrs(b, (n - 1) as nat).1;
        lemma_text_more(rest, t);
        lemma_type_more(read_text(rest).1, t);
    }
}

/// The bytes of a schema are that schema and nothing more.
pub proof fn lemma_schema_whole(s: Seq<Attr>)
    requires
        nameable(s),
    ensures
        read_schema(schema_bytes(s)) == (Ok::<Seq<Attr>, Seq<char>>(s), Seq::<u8>::empty()),
{
    lemma_schema_back(s, Seq::empty());
    assert(schema_bytes(s) + Seq::<u8>::empty() =~= schema_bytes(s));
}

/// A schema that is cut short anywhere is refused.
pub proof fn lemma_schema_cut(s: Seq<Attr>, n: int)
    requires
        nameable(s),
        0 <= n < schema_bytes(s).len(),
    ensures
        read_schema(schema_bytes(s).take(n)).0 is Err,
{
    let b = schema_bytes(s);
    let (head, t) = (b.take(n), b.skip(n));
    if read_schema(head).0 is Ok {
        lemma_len_more(head, t);
        lemma_attrs_more(read_len(head).1, read_len(head).0->Ok_0 as nat, t);
        assert(head + t =~= b);
        lemma_schema_whole(s);
        assert((read_schema(head).1 + t).len() >= t.len());
    }
}

proof fn lemma_words_in(v: Seq<u32>)
    ensures
        words_body(v).len() == v.len() * 4,
        words_in(words_body(v)) == v,
    decreases v.len(),
{
    lemma_auto_spec_u32_to_from_le_bytes();
    if v.len() > 0 {
        let w = v.drop_last();
        lemma_words_in(w);
        let b = words_body(w);
        assert(u32_bytes(v.last()).len() == 4);
        assert forall|i: int| 0 <= i < v.len() implies #[trigger] words_in(words_body(v))[i]
            == v[i] by {
            let s = words_body(v).subrange(4 * i, 4 * i + 4);
            if i < w.len() {
                assert(s =~= b.subrange(4 * i, 4 * i + 4));
                assert(words_in(b)[i] == w[i]);
            } else {
                assert(s =~= u32_bytes(v.last()));
            }
        }
    }
    assert(words_in(words_body(v)) =~= v);
}

proof fn lemma_longs_in(v: Seq<u64>)
    ensures
        longs_body(v).len() == v.len() * 8,
        longs_in(longs_body(v)) == v,
    decreases v.len(),
{
    lemma_auto_spec_u64_to_from_le_bytes();
    if v.len() > 0 {
        let w = v.drop_last();
        lemma_longs_in(w);
        let b = longs_body(w);
        assert(u64_bytes(v.last()).len() == 8);
        assert forall|i: int| 0 <= i < v.len() implies #[trigger] longs_in(longs_body(v))[i]
            == v[i] by {
            let s = longs_body(v).subrange(8 * i, 8 * i + 8);
            if i < w.len() {
                assert(s =~= b.subrange(8 * i, 8 * i + 8));
                assert(longs_in(b)[i] == w[i]);
            } else {
                assert(s =~= u64_bytes(v.last()));
            }
        }
    }
    assert(longs_in(longs_body(v)) =~= v);
}

proof fn lemma_words_back(v: Seq<u32>, rest: Seq<u8>)
    requires
        v.len() <= usize::MAX,
    ensures
        read_words(words(v) + rest) == (Ok::<Seq<u32>, Seq<char>>(v), rest),
{
    let b = words_body(v);
    lemma_words_in(v);
    lemma_len_back(v.len() as usize, b + rest);
    assert(words(v) + rest =~= u64_bytes(v.len() as u64) + (b + rest));
    assert((b + rest).take(b.len() as int) =~= b);
    assert((b + rest).skip(b.len() as int) =~= rest);
}

proof fn lemma_longs_back(v: Seq<u64>, rest: Seq<u8>)
    requires
        v.len() <= usize::MAX,
    ensures
        read_longs(longs(v) + rest) == (Ok::<Seq<u64>, Seq<char>>(v), rest),
{
    let b = longs_body(v);
    lemma_longs_in(v);
    lemma_len_back(v.len() as usize, b + rest);
    assert(longs(v) + rest =~= u64_bytes(v.len() as u64) + (b + rest));
    assert((b + rest).take(b.len() as int) =~= b);
    assert((b + rest).skip(b.len() as int) =~= rest);
}

/// Whether a value is no longer than memory can hold.
pub open spec fn storable(c: Cell) -> bool {
    match c {
        Cell::Str(s) => encode_utf8(s).len() <= usize::MAX,
        Cell::Vector(v) => v.len() <= usize::MAX,
        _ => true,
    }
}

/// A value that was written is read back under its type.
pub proof fn lemma_value_back(c: Cell, rest: Seq<u8>)
    requires
        storable(c),
    ensures
        read_value(value_bytes(c) + rest, cell_type(c)) == (
            Ok::<Cell, Seq<char>>(c),
            rest,
        ),
{
    match c {
        Cell::I64(x) => {
            lemma_u64_back(x as u64, rest);
            lemma_signs(x, 0);
        },
        Cell::F64(x) => {
            lemma_u64_back(x, rest);
        },
        Cell::Bool(b) => {
            let v = value_bytes(c) + rest;
            assert(v.take(1)[0] == bit(b));
            assert(v.skip(1) =~= rest);
        },
        Cell::Str(s) => {
            lemma_text_back(s, rest);
        },
        Cell::Vector(v) => {
            lemma_words_back(v, rest);
        },
    }
}

pub open spec fn storable_row(row: Seq<Cell>) -> bool {
    forall|i: int| 0 <= i < row.len() ==> storable(#[trigger] row[i])
}

/// Whether the values of a row have the types.
pub open spec fn typed(row: Seq<Cell>, types: Seq<DataType>) -> bool {
    row.len() == types.len() && forall|i: int|
        0 <= i < row.len() ==> cell_type(#[trigger] row[i]) == types[i]
}

pub proof fn lemma_row_back(row: Seq<Cell>, types: Seq<DataType>, n: nat, rest: Seq<u8>)
    requires
        storable_row(row),
        typed(row, types),
        n <= row.len(),
    ensures
        read_row(row_bytes(row.take(n as int)) + rest, types, n) == (
            Ok::<Seq<Cell>, Seq<char>>(row.take(n as int)),
            rest,
        ),
    decreases n,
{
    if n == 0 {
        assert(row_bytes(row.take(0)) + rest =~= rest);
        assert(row.take(0) =~= Seq::<Cell>::empty());
    } else {
        let t = row.take(n as int);
        let v = t.last();
        assert(t.drop_last() =~= row.take(n - 1));
        assert(v == row[n - 1]);
        let tail = value_bytes(v) + rest;
        lemma_row_back(row, types, (n - 1) as nat, tail);
        assert(row_bytes(t) + rest =~= row_bytes(row.take(n - 1)) + tail);
        lemma_value_back(v, rest);
        assert(row.take(n - 1).push(v) =~= t);
    }
}

/// Rows of the same types that are written alike are alike.
pub proof fn lemma_row_injective(a: Seq<Cell>, b: Seq<Cell>, types: Seq<DataType>)
    requires
        storable_row(a),
        storable_row(b),
        typed(a, types),
        typed(b, types),
        row_bytes(a) == row_bytes(b),
    ensures
        a == b,
{
    let none = Seq::<u8>::empty();
    lemma_row_back(a, types, a.len(), none);
    lemma_row_back(b, types, b.len(), none);
    assert(a.take(a.len() as int) =~= a);
    assert(b.take(b.len() as int) =~= b);
    assert(row_bytes(a) + none =~= row_bytes(b) + none);
}

/// Whether a column is no longer than memory can hold and has vectors of its length.
pub open spec fn storable_column(c: Cells) -> bool {
    &&& c.len() <= usize::MAX
    &&& match c {
        Cells::Str(v) => v.len() < usize::MAX && str_bytes(v) <= u32::MAX,
        Cells::Vector { dim, rows } => dim > 0 && flat(rows).len() <= usize::MAX && forall|i: int|
            0 <= i < rows.len() ==> (#[trigger] rows[i]).len() == dim,
        _ => true,
    }
}

#[verifier::spinoff_prover]
#[verifier::rlimit(40)]
proof fn lemma_strings_back(v: Seq<Seq<char>>, rest: Seq<u8>)
    requires
        storable_column(Cells::Str(v)),
    ensures
        read_column(column_bytes(Cells::Str(v)) + rest, DataType::Str) == (
            Ok::<Cells, Seq<char>>(Cells::Str(v)),
            rest,
        ),
{
    let buf = joined_bytes(v);
    let offsets = text_offsets(v);
    let tail = blob(buf) + rest;
    let all = column_bytes(Cells::Str(v)) + rest;
    assert(buf.len() <= u32::MAX) by {
        lemma_joined_len(v);
    }
    assert(all =~= words(offsets) + tail);
    lemma_words_back(offsets, tail);
    lemma_blob_back(buf, rest);
    assert(parts_error(buf, offsets) is None && pieces(buf, offsets) == v) by {
        lemma_layout_cuts(v);
    }
}

proof fn lemma_vectors_back(dim: usize, rows: Seq<Seq<u32>>, rest: Seq<u8>)
    requires
        storable_column(Cells::Vector { dim, rows }),
    ensures
        read_column(column_bytes(Cells::Vector { dim, rows }) + rest, DataType::Vector(dim)) == (
            Ok::<Cells, Seq<char>>(Cells::Vector { dim, rows }),
            rest,
        ),
{
    let tail = words(flat(rows)) + rest;
    lemma_len_back(dim, tail);
    lemma_flat_vectors(dim, rows);
    lemma_words_back(flat(rows), rest);
    assert(column_bytes(Cells::Vector { dim, rows }) + rest =~= u64_bytes(dim as u64) + tail);
}

/// A column that was written is read back under its type.
pub proof fn lemma_column_back(c: Cells, rest: Seq<u8>)
    requires
        storable_column(c),
    ensures
        read_column(column_bytes(c) + rest, c.data_type()) == (Ok::<Cells, Seq<char>>(c), rest),
{
    match c {
        Cells::I64(v) => {
            lemma_longs_back(unsigned(v), rest);
            assert forall|i: int| 0 <= i < v.len() implies signed(unsigned(v))[i] == v[i] by {
                lemma_signs(v[i], 0);
            }
            assert(signed(unsigned(v)) =~= v);
        },
        Cells::F64(v) => {
            lemma_longs_back(v, rest);
        },
        Cells::Bool(v) => lemma_blob_back(v, rest),
        Cells::Str(v) => lemma_strings_back(v, rest),
        Cells::Vector { dim, rows } => lemma_vectors_back(dim, rows, rest),
    }
}

// --- checksums ---------------------------------------------------------------------------

/// One step of the division by the IEEE polynomial, lowest bit first.
pub open spec fn crc_step(crc: u32) -> u32 {
    if crc & 1 == 1 {
        (crc >> 1) ^ 0xEDB8_8320u32
    } else {
        crc >> 1
    }
}

pub open spec fn crc_steps(crc: u32, n: nat) -> u32
    decreases n,
{
    if n == 0 {
        crc
    } else {
        crc_step(crc_steps(crc, (n - 1) as nat))
    }
}

/// The remainder after some bytes.
pub open spec fn crc_rest(b: Seq<u8>) -> u32
    decreases b.len(),
{
    if b.len() == 0 {
        0xFFFF_FFFFu32
    } else {
        crc_steps(crc_rest(b.drop_last()) ^ (b.last() as u32), 8)
    }
}

/// The CRC-32 of some bytes.
pub open spec fn crc_of(b: Seq<u8>) -> u32 {
    !crc_rest(b)
}

/// The CRC-32 of some bytes, with the IEEE polynomial.
pub fn crc32(data: &[u8]) -> (r: u32)
    ensures
        r == crc_of(data@),
{
    let mut crc: u32 = 0xFFFF_FFFF;
    let mut i: usize = 0;
    assert(data@.take(0) =~= Seq::<u8>::empty());
    while i < data.len()
        invariant
            i <= data.len(),
            crc == crc_rest(data@.take(i as int)),
        decreases data.len() - i,
    {
        assert(data@.take(i + 1).drop_last() =~= data@.take(i as int));
        crc = crc ^ (data[i] as u32);
        let ghost start = crc;
        let mut k: u32 = 0;
        while k < 8
            invariant
                k <= 8,
                crc == crc_steps(start, k as nat),
            decreases 8 - k,
        {
            crc = if crc & 1 == 1 {
                (crc >> 1) ^ 0xEDB8_8320u32
            } else {
                crc >> 1
            };
            k += 1;
        }
        i += 1;
    }
    assert(data@.take(i as int) =~= data@);
    !crc
}

proof fn lemma_step_tells(a: u32, b: u32)
    by (bit_vector)
    requires
        a != b,
    ensures
        (if a & 1 == 1 {
            (a >> 1) ^ 0xEDB8_8320u32
        } else {
            a >> 1
        }) != (if b & 1 == 1 {
            (b >> 1) ^ 0xEDB8_8320u32
        } else {
            b >> 1
        }),
{
}

proof fn lemma_steps_tell(a: u32, b: u32, n: nat)
    requires
        a != b,
    ensures
        crc_steps(a, n) != crc_steps(b, n),
    decreases n,
{
    if n > 0 {
        lemma_steps_tell(a, b, (n - 1) as nat);
        lemma_step_tells(crc_steps(a, (n - 1) as nat), crc_steps(b, (n - 1) as nat));
    }
}

proof fn lemma_rest_tells(b: Seq<u8>, i: int, x: u8)
    requires
        0 <= i < b.len(),
        x != b[i],
    ensures
        crc_rest(b.update(i, x)) != crc_rest(b),
    decreases b.len(),
{
    let c = b.update(i, x);
    let (p, q) = (crc_rest(b.drop_last()), crc_rest(c.drop_last()));
    let (y, z) = (b.last() as u32, c.last() as u32);
    if i == b.len() - 1 {
        assert(c.drop_last() =~= b.drop_last());
        assert(p ^ y != p ^ z) by (bit_vector)
            requires
                y != z,
        ;
    } else {
        assert(c.drop_last() =~= b.drop_last().update(i, x));
        lemma_rest_tells(b.drop_last(), i, x);
        assert(p ^ y != q ^ y) by (bit_vector)
            requires
                p != q,
        ;
    }
    lemma_steps_tell(p ^ y, q ^ z, 8);
}

/// A checksum tells bytes from those in which one byte is another.
pub proof fn lemma_crc_tells(b: Seq<u8>, i: int, x: u8)
    requires
        0 <= i < b.len(),
        x != b[i],
    ensures
        crc_of(b.update(i, x)) != crc_of(b),
{
    lemma_rest_tells(b, i, x);
    let (p, q) = (crc_rest(b), crc_rest(b.update(i, x)));
    assert(!p != !q) by (bit_vector)
        requires
            p != q,
    ;
}

// --- the order of bytes --------------------------------------------------------------------

/// `u32::to_ne_bytes`: the bytes of a number in the order of the machine. Which of the two
/// orders that is, the machine decides.
#[verifier::external_body]
fn native_bytes(x: u32) -> (r: [u8; 4])
    ensures
        r@ == u32_bytes(x) || r@ == u32_bytes(x).reverse(),
{
    x.to_ne_bytes()
}

/// Whether `native`, the bytes of the number 1 on a machine, have the lowest byte first.
pub fn order_checked(native: &[u8]) -> (r: Result<(), Error>)
    requires
        native@.len() == 4,
    ensures
        r is Ok <==> native@[0] == 1,
        r matches Err(e) ==> e@
            == "формат хранения little-endian; big-endian платформа не поддерживается"@,
{
    if native[0] != 1 {
        return Err(
            err(
                "формат хранения little-endian; big-endian платформа не поддерживается".to_owned(),
            ),
        );
    }
    Ok(())
}

/// Refuses a machine whose lowest byte does not come first.
pub fn ensure_le() -> (r: Result<(), Error>)
    ensures
        r matches Err(e) ==> e@
            == "формат хранения little-endian; big-endian платформа не поддерживается"@,
{
    let b = native_bytes(1);
    proof {
        lemma_auto_spec_u32_to_from_le_bytes();
    }
    order_checked(b.as_slice())
}

} // verus!
