//! Typed columns: dense arrays of values of one type.
//!
//! There is no NULL. A double is held by its bits, a vector as the bits of its
//! singles (see [`crate::float`]).
use crate::float::{eq_numbers, eq_singles, number_eq, single_eq, Floats, ONE, ZERO};
use crate::text::{dec, dec_usize, err, text3, text4, text5, Error};
use vstd::prelude::*;
use vstd::string::*;
use vstd::utf8::*;

verus! {

broadcast use vstd::string::group_string_axioms;

#[derive(Debug, Clone, Copy, PartialEq, Eq, Structural)]
pub enum DataType {
    I64,
    F64,
    Bool,
    Str,
    /// A dense vector of singles of a fixed dimension.
    Vector(usize),
}

pub open spec fn name_of_type(ty: DataType) -> Seq<char> {
    match ty {
        DataType::I64 => "INT"@,
        DataType::F64 => "DOUBLE"@,
        DataType::Bool => "BOOL"@,
        DataType::Str => "TEXT"@,
        DataType::Vector(d) => "VECTOR("@ + dec(d as int) + ")"@,
    }
}

impl DataType {
    /// The name of the type in SQL.
    pub fn name(&self) -> (r: String)
        ensures
            r@ == name_of_type(*self),
    {
        match self {
            DataType::I64 => "INT".to_owned(),
            DataType::F64 => "DOUBLE".to_owned(),
            DataType::Bool => "BOOL".to_owned(),
            DataType::Str => "TEXT".to_owned(),
            DataType::Vector(d) => text3("VECTOR(", dec_usize(*d).as_str(), ")"),
        }
    }
}

/// A single value.
#[derive(Debug)]
pub enum Value {
    I64(i64),
    /// A double by its bits.
    F64(u64),
    Bool(bool),
    Str(String),
    /// Singles by their bits.
    Vector(Vec<u32>),
}

/// What a [`Value`] is.
#[verifier::ext_equal]
pub enum Cell {
    I64(i64),
    F64(u64),
    Bool(bool),
    Str(Seq<char>),
    Vector(Seq<u32>),
}

impl View for Value {
    type V = Cell;

    open spec fn view(&self) -> Cell {
        match *self {
            Value::I64(x) => Cell::I64(x),
            Value::F64(x) => Cell::F64(x),
            Value::Bool(x) => Cell::Bool(x),
            Value::Str(x) => Cell::Str(x@),
            Value::Vector(x) => Cell::Vector(x@),
        }
    }
}

/// A row of values as what they are.
pub open spec fn cells(row: Seq<Value>) -> Seq<Cell> {
    Seq::new(row.len(), |i: int| row[i]@)
}

/// Rows of values as what they are.
pub open spec fn cell_rows(rows: Seq<Vec<Value>>) -> Seq<Seq<Cell>> {
    Seq::new(rows.len(), |i: int| cells(rows[i]@))
}

pub open spec fn cell_type(c: Cell) -> DataType {
    match c {
        Cell::I64(_) => DataType::I64,
        Cell::F64(_) => DataType::F64,
        Cell::Bool(_) => DataType::Bool,
        Cell::Str(_) => DataType::Str,
        Cell::Vector(v) => DataType::Vector(v.len() as usize),
    }
}

/// A value as a double, where it is a number.
pub open spec fn cell_number<F: Floats>(c: Cell, fl: F) -> Option<u64> {
    match c {
        Cell::I64(x) => Some(fl.from_int(x)),
        Cell::F64(x) => Some(x),
        Cell::Bool(b) => Some(if b {
            ONE
        } else {
            ZERO
        }),
        _ => None,
    }
}

pub fn copy_words(v: &Vec<u32>) -> (r: Vec<u32>)
    ensures
        r@ == v@,
{
    let mut out: Vec<u32> = Vec::new();
    out.extend_from_slice(v.as_slice());
    assert(out@ =~= v@);
    out
}

impl Clone for Value {
    fn clone(&self) -> (r: Value)
        ensures
            r@ == self@,
    {
        match self {
            Value::I64(x) => Value::I64(*x),
            Value::F64(x) => Value::F64(*x),
            Value::Bool(x) => Value::Bool(*x),
            Value::Str(x) => Value::Str(x.clone()),
            Value::Vector(x) => Value::Vector(copy_words(x)),
        }
    }
}

impl Value {
    pub fn type_of(&self) -> (r: DataType)
        ensures
            r == cell_type(self@),
    {
        match self {
            Value::I64(_) => DataType::I64,
            Value::F64(_) => DataType::F64,
            Value::Bool(_) => DataType::Bool,
            Value::Str(_) => DataType::Str,
            Value::Vector(v) => DataType::Vector(v.len()),
        }
    }

    /// The value as a double, where it is a number.
    pub fn as_f64<F: Floats>(&self, fl: &F) -> (r: Option<u64>)
        requires
            fl.exact(),
        ensures
            r == cell_number(self@, *fl),
    {
        match self {
            Value::I64(x) => Some(fl.of_int(*x)),
            Value::F64(x) => Some(*x),
            Value::Bool(b) => Some(
                if *b {
                    ONE
                } else {
                    ZERO
                },
            ),
            _ => None,
        }
    }
}

/// Whether two values are equal, numbers as numbers.
pub open spec fn same_cell(a: Cell, b: Cell) -> bool {
    match (a, b) {
        (Cell::F64(x), Cell::F64(y)) => number_eq(x, y),
        (Cell::Vector(x), Cell::Vector(y)) => same_vector(x, y),
        _ => a == b,
    }
}

pub open spec fn same_vector(x: Seq<u32>, y: Seq<u32>) -> bool {
    x.len() == y.len() && forall|i: int| 0 <= i < x.len() ==> single_eq(#[trigger] x[i], y[i])
}

pub open spec fn same_cells(a: Seq<Cell>, b: Seq<Cell>) -> bool {
    a.len() == b.len() && forall|i: int| 0 <= i < a.len() ==> same_cell(#[trigger] a[i], b[i])
}

pub fn eq_vectors(x: &Vec<u32>, y: &Vec<u32>) -> (r: bool)
    ensures
        r == same_vector(x@, y@),
{
    if x.len() != y.len() {
        return false;
    }
    let mut i: usize = 0;
    while i < x.len()
        invariant
            i <= x.len(),
            x.len() == y.len(),
            forall|k: int| 0 <= k < i ==> single_eq(#[trigger] x@[k], y@[k]),
        decreases x.len() - i,
    {
        if !eq_singles(x[i], y[i]) {
            return false;
        }
        i += 1;
    }
    true
}

pub fn eq_values(a: &Value, b: &Value) -> (r: bool)
    ensures
        r == same_cell(a@, b@),
{
    match (a, b) {
        (Value::I64(x), Value::I64(y)) => *x == *y,
        (Value::F64(x), Value::F64(y)) => eq_numbers(*x, *y),
        (Value::Bool(x), Value::Bool(y)) => *x == *y,
        (Value::Str(x), Value::Str(y)) => *x == *y,
        (Value::Vector(x), Value::Vector(y)) => eq_vectors(x, y),
        _ => false,
    }
}

pub fn eq_rows(a: &Vec<Value>, b: &Vec<Value>) -> (r: bool)
    ensures
        r == same_cells(cells(a@), cells(b@)),
{
    if a.len() != b.len() {
        return false;
    }
    let mut i: usize = 0;
    while i < a.len()
        invariant
            i <= a.len(),
            a.len() == b.len(),
            forall|k: int| 0 <= k < i ==> same_cell(#[trigger] cells(a@)[k], cells(b@)[k]),
        decreases a.len() - i,
    {
        if !eq_values(&a[i], &b[i]) {
            assert(!same_cell(cells(a@)[i as int], cells(b@)[i as int]));
            return false;
        }
        i += 1;
    }
    true
}

/// A copy of a row of values.
pub fn copy_row(row: &Vec<Value>) -> (r: Vec<Value>)
    ensures
        cells(r@) == cells(row@),
{
    let mut out: Vec<Value> = Vec::new();
    let mut i: usize = 0;
    while i < row.len()
        invariant
            i <= row.len(),
            out.len() == i,
            forall|k: int| 0 <= k < i ==> (#[trigger] out[k])@ == row[k]@,
        decreases row.len() - i,
    {
        out.push(row[i].clone());
        i += 1;
    }
    assert(cells(out@) =~= cells(row@));
    out
}

// --- sizes ----------------------------------------------------------------------

/// A number of bytes as a `usize`, held at its largest value.
pub open spec fn capped(n: int) -> usize {
    if n > usize::MAX {
        usize::MAX
    } else {
        n as usize
    }
}

pub fn add_sizes(a: usize, b: usize) -> (r: usize)
    ensures
        r == capped(a + b),
{
    a.saturating_add(b)
}

pub fn times_size(a: usize, k: usize) -> (r: usize)
    ensures
        r == capped(a * k),
{
    match a.checked_mul(k) {
        Some(n) => n,
        None => usize::MAX,
    }
}

// --- strings --------------------------------------------------------------------

/// What std says of bytes that are not UTF-8.
pub uninterp spec fn utf8_error(b: Seq<u8>) -> Seq<char>;

/// `std::str::from_utf8`: the text that the bytes encode, where they are valid
/// UTF-8; the text of the error depends on the bytes alone.
#[verifier::external_body]
pub(crate) fn utf8(b: &[u8]) -> (r: Result<&str, String>)
    ensures
        r is Ok <==> valid_utf8(b@),
        r matches Ok(s) ==> s.spec_bytes() == b@,
        r matches Err(e) ==> e@ == utf8_error(b@),
{
    std::str::from_utf8(b).map_err(|e| e.to_string())
}

/// How many bytes the texts take in UTF-8.
pub open spec fn str_bytes(s: Seq<Seq<char>>) -> nat
    decreases s.len(),
{
    if s.len() == 0 {
        0
    } else {
        str_bytes(s.drop_last()) + encode_utf8(s.last()).len()
    }
}

/// A column of strings: one buffer of bytes and the offsets of the strings in it.
#[derive(Debug)]
pub struct StrColumn {
    buf: Vec<u8>,
    /// `offsets[i]..offsets[i + 1]` are the bytes of string `i`.
    offsets: Vec<u32>,
}

/// The bytes of string `i`.
pub open spec fn piece(buf: Seq<u8>, offsets: Seq<u32>, i: int) -> Seq<u8> {
    buf.subrange(offsets[i] as int, offsets[i + 1] as int)
}

/// Whether the offsets cut the buffer into strings.
pub open spec fn cuts(buf: Seq<u8>, offsets: Seq<u32>) -> bool {
    &&& offsets.len() > 0
    &&& offsets[0] == 0
    &&& offsets.last() == buf.len()
    &&& forall|i: int, j: int| 0 <= i <= j < offsets.len() ==> offsets[i] <= offsets[j]
    &&& forall|i: int| 0 <= i < offsets.len() - 1 ==> valid_utf8(#[trigger] piece(buf, offsets, i))
}

/// The strings that the offsets cut out of the buffer.
pub open spec fn pieces(buf: Seq<u8>, offsets: Seq<u32>) -> Seq<Seq<char>> {
    Seq::new((offsets.len() - 1) as nat, |i: int| decode_utf8(piece(buf, offsets, i)))
}

/// Offsets are sums of lengths.
proof fn lemma_offsets(buf: Seq<u8>, offsets: Seq<u32>, n: int)
    requires
        cuts(buf, offsets),
        0 <= n < offsets.len(),
    ensures
        str_bytes(pieces(buf, offsets).take(n)) == offsets[n],
    decreases n,
{
    let p = pieces(buf, offsets);
    if n > 0 {
        lemma_offsets(buf, offsets, n - 1);
        assert(p.take(n).drop_last() =~= p.take(n - 1));
        assert(p.take(n).last() == p[n - 1]);
        assert(valid_utf8(piece(buf, offsets, n - 1)));
        decode_utf8_encode_utf8(piece(buf, offsets, n - 1));
    }
}

/// The bytes of some texts, one after another.
pub open spec fn joined_bytes(s: Seq<Seq<char>>) -> Seq<u8>
    decreases s.len(),
{
    if s.len() == 0 {
        Seq::empty()
    } else {
        joined_bytes(s.drop_last()) + encode_utf8(s.last())
    }
}

/// Where each of some texts begins among their bytes, and where the last ends.
pub open spec fn text_offsets(s: Seq<Seq<char>>) -> Seq<u32> {
    Seq::new(s.len() + 1, |i: int| str_bytes(s.take(i)) as u32)
}

pub proof fn lemma_joined_len(s: Seq<Seq<char>>)
    ensures
        joined_bytes(s).len() == str_bytes(s),
    decreases s.len(),
{
    if s.len() > 0 {
        lemma_joined_len(s.drop_last());
    }
}

proof fn lemma_joined_pieces(buf: Seq<u8>, offsets: Seq<u32>, n: int)
    requires
        cuts(buf, offsets),
        0 <= n < offsets.len(),
    ensures
        joined_bytes(pieces(buf, offsets).take(n)) == buf.take(offsets[n] as int),
    decreases n,
{
    let p = pieces(buf, offsets);
    if n > 0 {
        lemma_joined_pieces(buf, offsets, n - 1);
        assert(p.take(n).drop_last() =~= p.take(n - 1));
        assert(p.take(n).last() == p[n - 1]);
        assert(valid_utf8(piece(buf, offsets, n - 1)));
        decode_utf8_encode_utf8(piece(buf, offsets, n - 1));
        assert(offsets[n - 1] <= offsets[n] <= offsets.last());
        assert(buf.take(offsets[n] as int) =~= buf.take(offsets[n - 1] as int) + piece(
            buf,
            offsets,
            n - 1,
        ));
    } else {
        assert(buf.take(0) =~= Seq::<u8>::empty());
    }
}

/// A buffer that is cut into strings holds just their bytes, and the offsets are their
/// places.
pub proof fn lemma_cut_layout(buf: Seq<u8>, offsets: Seq<u32>)
    requires
        cuts(buf, offsets),
    ensures
        joined_bytes(pieces(buf, offsets)) == buf,
        text_offsets(pieces(buf, offsets)) == offsets,
{
    let p = pieces(buf, offsets);
    let n = offsets.len() - 1;
    lemma_joined_pieces(buf, offsets, n);
    assert(p.take(n) =~= p);
    assert(buf.take(offsets[n] as int) =~= buf);
    assert forall|i: int| 0 <= i < offsets.len() implies text_offsets(p)[i] == offsets[i] by {
        lemma_offsets(buf, offsets, i);
    }
    assert(text_offsets(p) =~= offsets);
}

proof fn lemma_str_bytes_grow(s: Seq<Seq<char>>, i: int, j: int)
    requires
        0 <= i <= j <= s.len(),
    ensures
        str_bytes(s.take(i)) <= str_bytes(s.take(j)),
        joined_bytes(s.take(j)).take(str_bytes(s.take(i)) as int) == joined_bytes(s.take(i)),
    decreases j - i,
{
    lemma_joined_len(s.take(i));
    lemma_joined_len(s.take(j));
    if i < j {
        lemma_str_bytes_grow(s, i, j - 1);
        lemma_joined_len(s.take(j - 1));
        assert(s.take(j).drop_last() =~= s.take(j - 1));
        assert(joined_bytes(s.take(j)).take(str_bytes(s.take(i)) as int) =~= joined_bytes(
            s.take(j - 1),
        ).take(str_bytes(s.take(i)) as int));
    } else {
        assert(joined_bytes(s.take(j)).take(str_bytes(s.take(i)) as int) =~= joined_bytes(
            s.take(i),
        ));
    }
}

/// The bytes of some texts are cut into just those texts at their places.
pub proof fn lemma_layout_cuts(s: Seq<Seq<char>>)
    requires
        str_bytes(s) <= u32::MAX,
    ensures
        cuts(joined_bytes(s), text_offsets(s)),
        pieces(joined_bytes(s), text_offsets(s)) == s,
        parts_error(joined_bytes(s), text_offsets(s)) is None,
{
    let buf = joined_bytes(s);
    let o = text_offsets(s);
    let n = s.len() as int;
    assert(s.take(n) =~= s);
    lemma_joined_len(s);
    assert forall|i: int, j: int| 0 <= i <= j < o.len() implies o[i] <= o[j] by {
        lemma_str_bytes_grow(s, i, j);
        lemma_str_bytes_grow(s, j, n);
    }
    assert(o[0] == 0) by {
        assert(s.take(0) =~= Seq::<Seq<char>>::empty());
    }
    assert forall|i: int| 0 <= i < n implies #[trigger] piece(buf, o, i) == encode_utf8(s[i]) by {
        lemma_str_bytes_grow(s, i, n);
        lemma_str_bytes_grow(s, i, i + 1);
        lemma_str_bytes_grow(s, i + 1, n);
        lemma_joined_len(s.take(i));
        assert(s.take(i + 1).drop_last() =~= s.take(i));
        let x = joined_bytes(s.take(i + 1));
        assert(x =~= joined_bytes(s.take(i)) + encode_utf8(s[i]));
        assert(piece(buf, o, i) =~= x.skip(str_bytes(s.take(i)) as int));
        assert(piece(buf, o, i) =~= encode_utf8(s[i]));
    }
    assert forall|i: int| 0 <= i < o.len() - 1 implies valid_utf8(
        #[trigger] piece(buf, o, i),
    ) by {
        encode_utf8_valid_utf8(s[i]);
    }
    assert forall|i: int| 0 <= i < n implies #[trigger] pieces(buf, o)[i] == s[i] by {
        assert(piece(buf, o, i) == encode_utf8(s[i]));
        encode_utf8_decode_utf8(s[i]);
    }
    assert(pieces(buf, o) =~= s);
    lemma_joined_valid(s);
}

proof fn lemma_joined_valid(s: Seq<Seq<char>>)
    ensures
        valid_utf8(joined_bytes(s)),
    decreases s.len(),
{
    if s.len() > 0 {
        lemma_joined_valid(s.drop_last());
        encode_utf8_valid_utf8(s.last());
        valid_utf8_concat(joined_bytes(s.drop_last()), encode_utf8(s.last()));
    }
}

impl View for StrColumn {
    type V = Seq<Seq<char>>;

    closed spec fn view(&self) -> Seq<Seq<char>> {
        pieces(self.buf@, self.offsets@)
    }
}

impl Default for StrColumn {
    fn default() -> (r: StrColumn)
        ensures
            r.wf(),
            r@ == Seq::<Seq<char>>::empty(),
    {
        StrColumn::new()
    }
}

impl StrColumn {
    /// The offsets cut the buffer into valid strings.
    pub closed spec fn wf(&self) -> bool {
        cuts(self.buf@, self.offsets@)
    }

    /// The bytes and offsets that the column is made of.
    pub closed spec fn layout(&self) -> (Seq<u8>, Seq<u32>) {
        (self.buf@, self.offsets@)
    }

    pub proof fn lemma_layout(&self)
        requires
            self.wf(),
        ensures
            cuts(self.layout().0, self.layout().1),
            self@ == pieces(self.layout().0, self.layout().1),
            str_bytes(self@) == self.layout().0.len(),
    {
        let n = self.offsets@.len() - 1;
        lemma_offsets(self.buf@, self.offsets@, n);
        assert(self@.take(n) =~= self@);
    }

    /// The offsets are of 32 bits, so the strings take no more than those reach.
    pub proof fn lemma_size(&self)
        requires
            self.wf(),
        ensures
            str_bytes(self@) <= u32::MAX,
    {
        self.lemma_layout();
    }

    /// There are more offsets than strings.
    pub proof fn lemma_count(&self)
        requires
            self.wf(),
        ensures
            self@.len() < usize::MAX,
    {
        assert(self.offsets.len() <= usize::MAX);
    }

    pub fn new() -> (r: StrColumn)
        ensures
            r.wf(),
            r@ == Seq::<Seq<char>>::empty(),
    {
        let mut offsets: Vec<u32> = Vec::new();
        offsets.push(0);
        let r = StrColumn { buf: Vec::new(), offsets };
        assert(r@ =~= Seq::<Seq<char>>::empty());
        r
    }

    /// Whether `s` can still be appended: the offsets are of 32 bits.
    pub fn has_room(&self, s: &str) -> (r: bool)
        requires
            self.wf(),
        ensures
            r == (str_bytes(self@) + encode_utf8(s@).len() <= u32::MAX),
    {
        proof {
            self.lemma_layout();
        }
        let n: usize = s.as_bytes().len();
        n <= u32::MAX as usize && self.buf.len() <= u32::MAX as usize - n
    }

    pub fn push(&mut self, s: &str)
        requires
            old(self).wf(),
            str_bytes(old(self)@) + encode_utf8(s@).len() <= u32::MAX,
        ensures
            final(self).wf(),
            final(self)@ == old(self)@.push(s@),
    {
        let ghost b0 = self.buf@;
        let ghost o0 = self.offsets@;
        proof {
            self.lemma_layout();
        }
        let bytes = s.as_bytes();
        self.buf.extend_from_slice(bytes);
        assert(self.buf@ =~= b0 + bytes@);
        self.offsets.push(self.buf.len() as u32);
        proof {
            let b1 = self.buf@;
            let o1 = self.offsets@;
            assert forall|i: int| 0 <= i < o1.len() - 1 implies valid_utf8(
                #[trigger] piece(b1, o1, i),
            ) && decode_utf8(piece(b1, o1, i)) == old(self)@.push(s@)[i] by {
                if i < o0.len() - 1 {
                    assert(valid_utf8(piece(b0, o0, i)));
                    assert(o0[i + 1] <= o0.last());
                    assert(piece(b1, o1, i) =~= piece(b0, o0, i));
                } else {
                    assert(piece(b1, o1, i) =~= bytes@);
                    encode_utf8_valid_utf8(s@);
                    encode_utf8_decode_utf8(s@);
                }
            }
            assert(self@ =~= old(self)@.push(s@));
        }
    }

    pub fn len(&self) -> (r: usize)
        requires
            self.wf(),
        ensures
            r == self@.len(),
    {
        self.offsets.len() - 1
    }

    pub fn is_empty(&self) -> (r: bool)
        requires
            self.wf(),
        ensures
            r == (self@.len() == 0),
    {
        self.len() == 0
    }

    /// The UTF-8 bytes of string `i`.
    pub fn get_bytes(&self, i: usize) -> (r: &[u8])
        requires
            self.wf(),
            i < self@.len(),
        ensures
            r@ == encode_utf8(self@[i as int]),
            r@ == piece(self.layout().0, self.layout().1, i as int),
            valid_utf8(r@),
    {
        let n: usize = self.offsets.len();
        assert(i < n - 1);
        let s: usize = self.offsets[i] as usize;
        let e: usize = self.offsets[i + 1] as usize;
        assert(e <= self.offsets@.last());
        assert(valid_utf8(piece(self.buf@, self.offsets@, i as int)));
        proof {
            decode_utf8_encode_utf8(piece(self.buf@, self.offsets@, i as int));
        }
        vstd::slice::slice_subrange(self.buf.as_slice(), s, e)
    }

    pub fn get(&self, i: usize) -> (r: &str)
        requires
            self.wf(),
            i < self@.len(),
        ensures
            r@ == self@[i as int],
    {
        let b = self.get_bytes(i);
        match utf8(b) {
            Ok(s) => {
                proof {
                    encode_utf8_decode_utf8(s@);
                }
                s
            },
            Err(_) => {
                assert(false);
                ""
            },
        }
    }

    /// All the strings, in order.
    pub fn iter(&self) -> (r: Vec<&str>)
        requires
            self.wf(),
        ensures
            r.len() == self@.len(),
            forall|i: int| 0 <= i < r.len() ==> (#[trigger] r[i])@ == self@[i],
    {
        let mut out: Vec<&str> = Vec::new();
        let mut i: usize = 0;
        while i < self.len()
            invariant
                self.wf(),
                i <= self@.len(),
                out.len() == i,
                forall|k: int| 0 <= k < i ==> (#[trigger] out[k])@ == self@[k],
            decreases self@.len() - i,
        {
            out.push(self.get(i));
            i += 1;
        }
        out
    }

    /// The memory that the strings take: their bytes, and four for each offset.
    pub fn bytes_used(&self) -> (r: usize)
        requires
            self.wf(),
        ensures
            r == capped(str_bytes(self@) as int + (self@.len() + 1) * 4),
    {
        proof {
            self.lemma_layout();
        }
        add_sizes(self.buf.len(), times_size(self.offsets.len(), 4))
    }

    pub(crate) fn parts(&self) -> (r: (&Vec<u8>, &Vec<u32>))
        ensures
            r.0@ == self.layout().0,
            r.1@ == self.layout().1,
    {
        (&self.buf, &self.offsets)
    }

    /// A column from its bytes and offsets, where the offsets cut the bytes into
    /// strings.
    pub fn from_parts(buf: Vec<u8>, offsets: Vec<u32>) -> (r: Result<StrColumn, Error>)
        ensures
            match r {
                Ok(c) => parts_error(buf@, offsets@) is None && c.wf() && c.layout() == (
                    buf@,
                    offsets@,
                ) && c@ == pieces(buf@, offsets@),
                Err(e) => parts_error(buf@, offsets@) == Some(e@),
            },
    {
        if offsets.len() == 0 || offsets[0] != 0 || offsets[offsets.len() - 1] as usize
            != buf.len() {
            return Err(err("StrColumn: офсеты не согласованы с буфером".to_owned()));
        }
        let mut i: usize = 0;
        while i + 1 < offsets.len()
            invariant
                i < offsets.len(),
                forall|a: int, b: int| 0 <= a <= b <= i ==> offsets@[a] <= offsets@[b],
                offsets@.len() > 0,
                offsets@[0] == 0,
                offsets@.last() == buf@.len(),
            decreases offsets.len() - i,
        {
            if offsets[i] > offsets[i + 1] {
                assert(!monotone(offsets@));
                return Err(err("StrColumn: офсеты не монотонны".to_owned()));
            }
            assert forall|a: int, b: int| 0 <= a <= b <= i + 1 implies offsets@[a]
                <= offsets@[b] by {
                if b == i + 1 && a <= i {
                    assert(offsets@[a] <= offsets@[i as int]);
                }
            }
            i += 1;
        }
        match utf8(buf.as_slice()) {
            Err(e) => {
                return Err(err(e));
            },
            Ok(_) => {},
        }
        let mut k: usize = 0;
        while k + 1 < offsets.len()
            invariant
                k < offsets.len(),
                monotone(offsets@),
                offsets@[0] == 0,
                offsets@.last() == buf@.len(),
                valid_utf8(buf@),
                forall|a: int| 0 <= a < k ==> valid_utf8(#[trigger] piece(buf@, offsets@, a)),
            decreases offsets.len() - k,
        {
            assert(offsets@[k + 1] <= offsets@.last());
            let part = vstd::slice::slice_subrange(
                buf.as_slice(),
                offsets[k] as usize,
                offsets[k + 1] as usize,
            );
            assert(part@ == piece(buf@, offsets@, k as int));
            if utf8(part).is_err() {
                return Err(err("StrColumn: офсет внутри символа".to_owned()));
            }
            k += 1;
        }
        Ok(StrColumn { buf, offsets })
    }
}

pub open spec fn monotone(offsets: Seq<u32>) -> bool {
    forall|i: int, j: int| 0 <= i <= j < offsets.len() ==> offsets[i] <= offsets[j]
}

/// Why bytes and offsets are no column of strings, if they are not.
pub open spec fn parts_error(buf: Seq<u8>, offsets: Seq<u32>) -> Option<Seq<char>> {
    if offsets.len() == 0 || offsets[0] != 0 || offsets.last() != buf.len() {
        Some("StrColumn: офсеты не согласованы с буфером"@)
    } else if !monotone(offsets) {
        Some("StrColumn: офсеты не монотонны"@)
    } else if !valid_utf8(buf) {
        Some(utf8_error(buf))
    } else if !cuts(buf, offsets) {
        Some("StrColumn: офсет внутри символа"@)
    } else {
        None
    }
}

// --- columns --------------------------------------------------------------------

/// A sequence of values of one type.
#[verifier::ext_equal]
pub enum Cells {
    I64(Seq<i64>),
    F64(Seq<u64>),
    /// One byte for each value; zero is false.
    Bool(Seq<u8>),
    Str(Seq<Seq<char>>),
    Vector { dim: usize, rows: Seq<Seq<u32>> },
}

impl Cells {
    pub open spec fn len(self) -> nat {
        match self {
            Cells::I64(v) => v.len(),
            Cells::F64(v) => v.len(),
            Cells::Bool(v) => v.len(),
            Cells::Str(v) => v.len(),
            Cells::Vector { rows, .. } => rows.len(),
        }
    }

    pub open spec fn data_type(self) -> DataType {
        match self {
            Cells::I64(_) => DataType::I64,
            Cells::F64(_) => DataType::F64,
            Cells::Bool(_) => DataType::Bool,
            Cells::Str(_) => DataType::Str,
            Cells::Vector { dim, .. } => DataType::Vector(dim),
        }
    }

    pub open spec fn at(self, i: int) -> Cell {
        match self {
            Cells::I64(v) => Cell::I64(v[i]),
            Cells::F64(v) => Cell::F64(v[i]),
            Cells::Bool(v) => Cell::Bool(v[i] != 0),
            Cells::Str(v) => Cell::Str(v[i]),
            Cells::Vector { rows, .. } => Cell::Vector(rows[i]),
        }
    }

    /// What tells the values apart that are keys: of truth values the byte.
    pub open spec fn key_at(self, i: int) -> Cell {
        match self {
            Cells::Bool(v) => Cell::I64(v[i] as i64),
            _ => self.at(i),
        }
    }

    pub open spec fn key_type(self) -> DataType {
        match self {
            Cells::Bool(_) => DataType::I64,
            _ => self.data_type(),
        }
    }

    pub open spec fn none(ty: DataType) -> Cells {
        match ty {
            DataType::I64 => Cells::I64(Seq::empty()),
            DataType::F64 => Cells::F64(Seq::empty()),
            DataType::Bool => Cells::Bool(Seq::empty()),
            DataType::Str => Cells::Str(Seq::empty()),
            DataType::Vector(dim) => Cells::Vector { dim, rows: Seq::empty() },
        }
    }
}

/// A truth value as a byte.
pub open spec fn bit(b: bool) -> u8 {
    if b {
        1
    } else {
        0
    }
}

pub open spec fn bits(v: Seq<bool>) -> Seq<u8> {
    Seq::new(v.len(), |i: int| bit(v[i]))
}

/// Bytes as truth values.
pub open spec fn truths(v: Seq<u8>) -> Seq<bool> {
    Seq::new(v.len(), |i: int| v[i] != 0)
}

pub fn bit_of(b: bool) -> (r: u8)
    ensures
        r == bit(b),
{
    if b {
        1
    } else {
        0
    }
}

/// Whether the offsets of a string column can still take a text.
pub open spec fn room_for(s: Seq<Seq<char>>, x: Seq<char>) -> bool {
    str_bytes(s) + encode_utf8(x).len() <= u32::MAX
}

/// What comes of putting a value at the end of a column. An integer goes into a
/// column of doubles as the double nearest to it.
pub open spec fn pushed<F: Floats>(c: Cells, v: Cell, fl: F) -> Result<Cells, Seq<char>> {
    match (c, v) {
        (Cells::I64(s), Cell::I64(x)) => Ok(Cells::I64(s.push(x))),
        (Cells::F64(s), Cell::F64(x)) => Ok(Cells::F64(s.push(x))),
        (Cells::F64(s), Cell::I64(x)) => Ok(Cells::F64(s.push(fl.from_int(x)))),
        (Cells::Bool(s), Cell::Bool(x)) => Ok(Cells::Bool(s.push(bit(x)))),
        (Cells::Str(s), Cell::Str(x)) => if room_for(s, x) {
            Ok(Cells::Str(s.push(x)))
        } else {
            Err(too_long())
        },
        (Cells::Vector { dim, rows }, Cell::Vector(x)) => if x.len() != dim {
            Err("размерность вектора "@ + dec(x.len() as int) + " != "@ + dec(dim as int) + " у колонки"@)
        } else if dim == 0 {
            Ok(c)
        } else {
            Ok(Cells::Vector { dim, rows: rows.push(x) })
        },
        _ => Err(
            "тип значения "@ + name_of_type(cell_type(v)) + " не подходит колонке "@
                + name_of_type(c.data_type()),
        ),
    }
}

pub open spec fn too_long() -> Seq<char> {
    "строки колонки не помещаются в 4 ГиБ"@
}

/// The memory that a column takes.
pub open spec fn cells_bytes(c: Cells) -> int {
    match c {
        Cells::I64(v) => v.len() as int * 8,
        Cells::F64(v) => v.len() as int * 8,
        Cells::Bool(v) => v.len() as int,
        Cells::Str(v) => str_bytes(v) as int + (v.len() + 1) * 4,
        Cells::Vector { dim, rows } => rows.len() as int * dim * 4,
    }
}

#[derive(Debug)]
pub enum Column {
    I64(Vec<i64>),
    /// Doubles by their bits.
    F64(Vec<u64>),
    /// One byte for each value; zero is false.
    Bool(Vec<u8>),
    Str(StrColumn),
    /// Row `i` is `data[i * dim..(i + 1) * dim]`, singles by their bits.
    Vector { dim: usize, data: Vec<u32> },
}

/// The vectors that lie one after another in `data`.
pub open spec fn vectors(dim: usize, data: Seq<u32>) -> Seq<Seq<u32>> {
    Seq::new(
        if dim == 0 {
            0
        } else {
            data.len() / dim as nat
        },
        |i: int| data.subrange(i * dim, (i + 1) * dim),
    )
}

impl View for Column {
    type V = Cells;

    open spec fn view(&self) -> Cells {
        match *self {
            Column::I64(v) => Cells::I64(v@),
            Column::F64(v) => Cells::F64(v@),
            Column::Bool(v) => Cells::Bool(v@),
            Column::Str(v) => Cells::Str(v@),
            Column::Vector { dim, data } => Cells::Vector { dim, rows: vectors(dim, data@) },
        }
    }
}

proof fn lemma_vectors(dim: usize, data: Seq<u32>, i: int)
    requires
        dim > 0,
        0 <= i < vectors(dim, data).len(),
    ensures
        0 <= i * dim <= (i + 1) * dim <= data.len(),
        (i + 1) * dim - i * dim == dim,
{
    let n = data.len() as int;
    let d = dim as int;
    assert(0 <= i * d && (i + 1) * d == i * d + d && (i + 1) * d <= (n / d) * d && (n / d) * d
        <= n) by (nonlinear_arith)
        requires
            0 <= i < n / d,
            d > 0,
            n >= 0,
    ;
}

pub proof fn lemma_vectors_push(dim: usize, data: Seq<u32>, x: Seq<u32>)
    requires
        dim > 0,
        data.len() % dim as nat == 0,
        x.len() == dim,
    ensures
        (data + x).len() % dim as nat == 0,
        vectors(dim, data + x) == vectors(dim, data).push(x),
{
    let n = data.len() as int;
    let d = dim as int;
    let k = n / d;
    vstd::arithmetic::div_mod::lemma_fundamental_div_mod(n, d);
    assert(n == k * d && n + d == (k + 1) * d + 0) by (nonlinear_arith)
        requires
            n == d * k,
    ;
    vstd::arithmetic::div_mod::lemma_fundamental_div_mod_converse(n + d, d, k + 1, 0);
    let a = vectors(dim, data + x);
    let b = vectors(dim, data).push(x);
    assert(a.len() == b.len());
    assert forall|i: int| 0 <= i < a.len() implies a[i] == b[i] by {
        if i < k {
            lemma_vectors(dim, data, i);
            assert((data + x).subrange(i * dim, (i + 1) * dim) =~= data.subrange(
                i * dim,
                (i + 1) * dim,
            ));
        } else {
            assert((i + 1) * d == n + d) by (nonlinear_arith)
                requires
                    i == k,
                    n == k * d,
            ;
            assert((data + x).subrange(i * dim, (i + 1) * dim) =~= x);
        }
    }
    assert(a =~= b);
}

/// Some vectors, one after another.
pub open spec fn flat(rows: Seq<Seq<u32>>) -> Seq<u32>
    decreases rows.len(),
{
    if rows.len() == 0 {
        Seq::empty()
    } else {
        flat(rows.drop_last()) + rows.last()
    }
}

/// Vectors of one length that are laid out one after another are found again.
pub proof fn lemma_flat_vectors(dim: usize, rows: Seq<Seq<u32>>)
    requires
        dim > 0,
        forall|i: int| 0 <= i < rows.len() ==> (#[trigger] rows[i]).len() == dim,
    ensures
        flat(rows).len() % dim as nat == 0,
        vectors(dim, flat(rows)) == rows,
    decreases rows.len(),
{
    if rows.len() > 0 {
        let before = rows.drop_last();
        lemma_flat_vectors(dim, before);
        lemma_vectors_push(dim, flat(before), rows.last());
        assert(before.push(rows.last()) =~= rows);
    } else {
        assert(vectors(dim, flat(rows)) =~= rows);
    }
}

/// Data that vectors fill are those vectors, one after another.
pub proof fn lemma_vectors_flat(dim: usize, data: Seq<u32>)
    requires
        dim > 0,
        data.len() % dim as nat == 0,
    ensures
        flat(vectors(dim, data)) == data,
        forall|i: int| 0 <= i < vectors(dim, data).len() ==> (#[trigger] vectors(dim, data)[i]).len()
            == dim,
    decreases data.len(),
{
    let d = dim as int;
    let n = data.len() as int;
    let v = vectors(dim, data);
    assert forall|i: int| 0 <= i < v.len() implies (#[trigger] v[i]).len() == dim by {
        lemma_vectors(dim, data, i);
    }
    vstd::arithmetic::div_mod::lemma_fundamental_div_mod(n, d);
    if n > 0 {
        let k = n / d;
        assert(k > 0 && n - d == (k - 1) * d + 0 && n >= d) by (nonlinear_arith)
            requires
                n == d * k,
                n > 0,
                d > 0,
        ;
        vstd::arithmetic::div_mod::lemma_fundamental_div_mod_converse(n - d, d, k - 1, 0);
        let head = data.take(n - d);
        let tail = data.skip(n - d);
        lemma_vectors_flat(dim, head);
        lemma_vectors_push(dim, head, tail);
        assert(head + tail =~= data);
        assert(v.drop_last() =~= vectors(dim, head));
    } else {
        assert(v.len() == 0) by (nonlinear_arith)
            requires
                n == d * (n / d),
                n == 0,
                d > 0,
                v.len() == n / d,
        ;
        assert(data =~= Seq::<u32>::empty());
    }
}

impl Column {
    /// Strings are cut where the offsets say, and vectors fill their data.
    pub open spec fn wf(&self) -> bool {
        match *self {
            Column::Str(s) => s.wf(),
            Column::Vector { dim, data } => if dim == 0 {
                data@.len() == 0
            } else {
                data@.len() % dim as nat == 0
            },
            _ => true,
        }
    }

    pub fn empty(ty: DataType) -> (r: Column)
        ensures
            r.wf(),
            r@ == Cells::none(ty),
    {
        let r = match ty {
            DataType::I64 => Column::I64(Vec::new()),
            DataType::F64 => Column::F64(Vec::new()),
            DataType::Bool => Column::Bool(Vec::new()),
            DataType::Str => Column::Str(StrColumn::new()),
            DataType::Vector(dim) => Column::Vector { dim, data: Vec::new() },
        };
        assert(r@ =~= Cells::none(ty));
        r
    }

    pub fn data_type(&self) -> (r: DataType)
        ensures
            r == self@.data_type(),
    {
        match self {
            Column::I64(_) => DataType::I64,
            Column::F64(_) => DataType::F64,
            Column::Bool(_) => DataType::Bool,
            Column::Str(_) => DataType::Str,
            Column::Vector { dim, .. } => DataType::Vector(*dim),
        }
    }

    pub fn len(&self) -> (r: usize)
        requires
            self.wf(),
        ensures
            r == self@.len(),
    {
        match self {
            Column::I64(v) => v.len(),
            Column::F64(v) => v.len(),
            Column::Bool(v) => v.len(),
            Column::Str(v) => v.len(),
            Column::Vector { dim, data } => if *dim == 0 {
                0
            } else {
                data.len() / *dim
            },
        }
    }

    pub fn is_empty(&self) -> (r: bool)
        requires
            self.wf(),
        ensures
            r == (self@.len() == 0),
    {
        self.len() == 0
    }

    /// Makes room for `extra` more rows; the contents stay.
    pub fn reserve(&mut self, extra: usize)
        ensures
            final(self)@ == old(self)@,
            old(self).wf() ==> final(self).wf(),
    {
        match self {
            Column::I64(v) => v.reserve(extra),
            Column::F64(v) => v.reserve(extra),
            Column::Bool(v) => v.reserve(extra),
            Column::Str(_) => {},
            Column::Vector { dim, data } => data.reserve(times_size(extra, *dim)),
        }
    }

    /// Appends a value; the column is unchanged where the value does not fit it.
    pub fn push<F: Floats>(&mut self, v: &Value, fl: &F) -> (r: Result<(), Error>)
        requires
            old(self).wf(),
            fl.exact(),
        ensures
            final(self).wf(),
            match r {
                Ok(_) => pushed(old(self)@, v@, *fl) == Ok::<Cells, Seq<char>>(final(self)@),
                Err(e) => pushed(old(self)@, v@, *fl) == Err::<Cells, Seq<char>>(e@) && final(self)@
                    == old(self)@,
            },
    {
        match (self, v) {
            (Column::I64(c), Value::I64(x)) => {
                c.push(*x);
            },
            (Column::F64(c), Value::F64(x)) => {
                c.push(*x);
            },
            (Column::F64(c), Value::I64(x)) => {
                c.push(fl.of_int(*x));
            },
            (Column::Bool(c), Value::Bool(x)) => {
                c.push(bit_of(*x));
            },
            (Column::Str(c), Value::Str(x)) => {
                if !c.has_room(x.as_str()) {
                    return Err(err("строки колонки не помещаются в 4 ГиБ".to_owned()));
                }
                c.push(x.as_str());
            },
            (Column::Vector { dim, data }, Value::Vector(x)) => {
                if x.len() != *dim {
                    return Err(
                        err(
                            text5(
                                "размерность вектора ",
                                dec_usize(x.len()).as_str(),
                                " != ",
                                dec_usize(*dim).as_str(),
                                " у колонки",
                            ),
                        ),
                    );
                }
                let ghost d0 = data@;
                data.extend_from_slice(x.as_slice());
                proof {
                    assert(data@ =~= d0 + x@);
                    if *dim > 0 {
                        lemma_vectors_push(*dim, d0, x@);
                    } else {
                        assert(vectors(*dim, data@) =~= vectors(*dim, d0));
                    }
                }
            },
            (col, val) => {
                return Err(
                    err(
                        text4(
                            "тип значения ",
                            val.type_of().name().as_str(),
                            " не подходит колонке ",
                            col.data_type().name().as_str(),
                        ),
                    ),
                );
            },
        }
        Ok(())
    }

    /// The value in row `i`.
    pub fn get(&self, i: usize) -> (r: Value)
        requires
            self.wf(),
            i < self@.len(),
        ensures
            r@ == self@.at(i as int),
    {
        match self {
            Column::I64(c) => Value::I64(c[i]),
            Column::F64(c) => Value::F64(c[i]),
            Column::Bool(c) => Value::Bool(c[i] != 0),
            Column::Str(c) => Value::Str(c.get(i).to_owned()),
            Column::Vector { dim, data } => {
                let s = vector_slice(*dim, data, i);
                let mut out: Vec<u32> = Vec::new();
                out.extend_from_slice(s);
                assert(out@ =~= s@);
                Value::Vector(out)
            },
        }
    }

    /// The vector in row `i` without copying; `None` where the column holds no
    /// vectors.
    pub fn vector_at(&self, i: usize) -> (r: Option<&[u32]>)
        requires
            self.wf(),
            i < self@.len(),
        ensures
            match self@ {
                Cells::Vector { dim, rows } => r matches Some(s) && s@ == rows[i as int] && s@.len()
                    == dim,
                _ => r is None,
            },
    {
        match self {
            Column::Vector { dim, data } => Some(vector_slice(*dim, data, i)),
            _ => None,
        }
    }

    /// The memory that the values take.
    pub fn bytes_used(&self) -> (r: usize)
        requires
            self.wf(),
        ensures
            r == capped(cells_bytes(self@)),
    {
        match self {
            Column::I64(v) => times_size(v.len(), 8),
            Column::F64(v) => times_size(v.len(), 8),
            Column::Bool(v) => v.len(),
            Column::Str(v) => v.bytes_used(),
            Column::Vector { dim, data } => {
                proof {
                    let rows = vectors(*dim, data@).len() as int;
                    if *dim > 0 {
                        vstd::arithmetic::div_mod::lemma_fundamental_div_mod(
                            data@.len() as int,
                            *dim as int,
                        );
                    }
                    assert(rows * *dim == data@.len()) by (nonlinear_arith)
                        requires
                            *dim > 0 ==> data@.len() == *dim * rows,
                            *dim == 0 ==> rows == 0 && data@.len() == 0,
                    ;
                }
                times_size(data.len(), 4)
            },
        }
    }
}

fn vector_slice(dim: usize, data: &Vec<u32>, i: usize) -> (r: &[u32])
    requires
        i < vectors(dim, data@).len(),
    ensures
        r@ == vectors(dim, data@)[i as int],
        r@.len() == dim,
{
    let n: usize = data.len();
    proof {
        lemma_vectors(dim, data@, i as int);
        assert(i < n) by (nonlinear_arith)
            requires
                (i + 1) * dim <= n,
                dim > 0,
        ;
    }
    vstd::slice::slice_subrange(data.as_slice(), i * dim, (i + 1) * dim)
}

} // verus!
