//! What bytes stand for: in records, in the log and in snapshots.
use crate::codec::{
    attr_bytes, attrs_body, column_bytes, crc_of, crc_rest, crc_step, crc_steps, longs_body,
    row_bytes, schema_bytes, text_bytes, type_bytes, unsigned, value_bytes, words_body,
};
use crate::column::{flat, joined_bytes, text_offsets, Cell, Cells, DataType};
use crate::storage::{
    change_bytes, columns_body, frame_bytes, next_number, rows_bytes, snapshot_of, table_bytes,
    tables_body, wal_header, Change,
};
use crate::table::{Attr, Relation};
use vstd::bytes::{spec_u32_to_le_bytes, spec_u64_to_le_bytes};
use vstd::prelude::*;
use vstd::utf8::encode_utf8;

verus! {

// --- checksums -------------------------------------------------------------------------------

/// The four bytes of a number, the one that counts least first.
pub open spec fn four_bytes(c: u32) -> Seq<u8> {
    seq![
        (c & 0xff) as u8,
        ((c >> 8) & 0xff) as u8,
        ((c >> 16) & 0xff) as u8,
        ((c >> 24) & 0xff) as u8,
    ]
}

proof fn lemma_eight(x: u32)
    ensures
        crc_steps(x, 8) == (x >> 8) ^ crc_steps(x & 0xff, 8),
{
    reveal_with_fuel(crc_steps, 9);
    let x0: u32 = x;
    let x1: u32 = crc_step(x0);
    let x2: u32 = crc_step(x1);
    let x3: u32 = crc_step(x2);
    let x4: u32 = crc_step(x3);
    let x5: u32 = crc_step(x4);
    let x6: u32 = crc_step(x5);
    let x7: u32 = crc_step(x6);
    let x8: u32 = crc_step(x7);
    let y0: u32 = x & 0xff;
    let y1: u32 = crc_step(y0);
    let y2: u32 = crc_step(y1);
    let y3: u32 = crc_step(y2);
    let y4: u32 = crc_step(y3);
    let y5: u32 = crc_step(y4);
    let y6: u32 = crc_step(y5);
    let y7: u32 = crc_step(y6);
    let y8: u32 = crc_step(y7);
    assert(x8 == (x0 >> 8) ^ y8) by (bit_vector)
        requires
            y0 == x0 & 0xff,
            x1 == (if x0 & 1 == 1 {
                (x0 >> 1) ^ 0xEDB8_8320u32
            } else {
                x0 >> 1
            }),
            x2 == (if x1 & 1 == 1 {
                (x1 >> 1) ^ 0xEDB8_8320u32
            } else {
                x1 >> 1
            }),
            x3 == (if x2 & 1 == 1 {
                (x2 >> 1) ^ 0xEDB8_8320u32
            } else {
                x2 >> 1
            }),
            x4 == (if x3 & 1 == 1 {
                (x3 >> 1) ^ 0xEDB8_8320u32
            } else {
                x3 >> 1
            }),
            x5 == (if x4 & 1 == 1 {
                (x4 >> 1) ^ 0xEDB8_8320u32
            } else {
                x4 >> 1
            }),
            x6 == (if x5 & 1 == 1 {
                (x5 >> 1) ^ 0xEDB8_8320u32
            } else {
                x5 >> 1
            }),
            x7 == (if x6 & 1 == 1 {
                (x6 >> 1) ^ 0xEDB8_8320u32
            } else {
                x6 >> 1
            }),
            x8 == (if x7 & 1 == 1 {
                (x7 >> 1) ^ 0xEDB8_8320u32
            } else {
                x7 >> 1
            }),
            y1 == (if y0 & 1 == 1 {
                (y0 >> 1) ^ 0xEDB8_8320u32
            } else {
                y0 >> 1
            }),
            y2 == (if y1 & 1 == 1 {
                (y1 >> 1) ^ 0xEDB8_8320u32
            } else {
                y1 >> 1
            }),
            y3 == (if y2 & 1 == 1 {
                (y2 >> 1) ^ 0xEDB8_8320u32
            } else {
                y2 >> 1
            }),
            y4 == (if y3 & 1 == 1 {
                (y3 >> 1) ^ 0xEDB8_8320u32
            } else {
                y3 >> 1
            }),
            y5 == (if y4 & 1 == 1 {
                (y4 >> 1) ^ 0xEDB8_8320u32
            } else {
                y4 >> 1
            }),
            y6 == (if y5 & 1 == 1 {
                (y5 >> 1) ^ 0xEDB8_8320u32
            } else {
                y5 >> 1
            }),
            y7 == (if y6 & 1 == 1 {
                (y6 >> 1) ^ 0xEDB8_8320u32
            } else {
                y6 >> 1
            }),
            y8 == (if y7 & 1 == 1 {
                (y7 >> 1) ^ 0xEDB8_8320u32
            } else {
                y7 >> 1
            }),
    ;
}

proof fn lemma_table()
    ensures
        crc_steps(0xff, 8) == 0x2D02_EF8Du32,
        crc_steps(0x72, 8) == 0xBE0B_1010u32,
        crc_steps(0, 8) == 0,
        crc_steps(0xed, 8) == 0xDEBB_9EC5u32,
{
    reveal_with_fuel(crc_steps, 9);
    let a0: u32 = 0xff;
    let a1: u32 = crc_step(a0);
    let a2: u32 = crc_step(a1);
    let a3: u32 = crc_step(a2);
    let a4: u32 = crc_step(a3);
    let a5: u32 = crc_step(a4);
    let a6: u32 = crc_step(a5);
    let a7: u32 = crc_step(a6);
    let a8: u32 = crc_step(a7);
    assert(a8 == 0x2D02_EF8Du32) by (bit_vector)
        requires
            a0 == 0xff,
            a1 == (if a0 & 1 == 1 {
                (a0 >> 1) ^ 0xEDB8_8320u32
            } else {
                a0 >> 1
            }),
            a2 == (if a1 & 1 == 1 {
                (a1 >> 1) ^ 0xEDB8_8320u32
            } else {
                a1 >> 1
            }),
            a3 == (if a2 & 1 == 1 {
                (a2 >> 1) ^ 0xEDB8_8320u32
            } else {
                a2 >> 1
            }),
            a4 == (if a3 & 1 == 1 {
                (a3 >> 1) ^ 0xEDB8_8320u32
            } else {
                a3 >> 1
            }),
            a5 == (if a4 & 1 == 1 {
                (a4 >> 1) ^ 0xEDB8_8320u32
            } else {
                a4 >> 1
            }),
            a6 == (if a5 & 1 == 1 {
                (a5 >> 1) ^ 0xEDB8_8320u32
            } else {
                a5 >> 1
            }),
            a7 == (if a6 & 1 == 1 {
                (a6 >> 1) ^ 0xEDB8_8320u32
            } else {
                a6 >> 1
            }),
            a8 == (if a7 & 1 == 1 {
                (a7 >> 1) ^ 0xEDB8_8320u32
            } else {
                a7 >> 1
            }),
    ;
    let b0: u32 = 0x72;
    let b1: u32 = crc_step(b0);
    let b2: u32 = crc_step(b1);
    let b3: u32 = crc_step(b2);
    let b4: u32 = crc_step(b3);
    let b5: u32 = crc_step(b4);
    let b6: u32 = crc_step(b5);
    let b7: u32 = crc_step(b6);
    let b8: u32 = crc_step(b7);
    assert(b8 == 0xBE0B_1010u32) by (bit_vector)
        requires
            b0 == 0x72,
            b1 == (if b0 & 1 == 1 {
                (b0 >> 1) ^ 0xEDB8_8320u32
            } else {
                b0 >> 1
            }),
            b2 == (if b1 & 1 == 1 {
                (b1 >> 1) ^ 0xEDB8_8320u32
            } else {
                b1 >> 1
            }),
            b3 == (if b2 & 1 == 1 {
                (b2 >> 1) ^ 0xEDB8_8320u32
            } else {
                b2 >> 1
            }),
            b4 == (if b3 & 1 == 1 {
                (b3 >> 1) ^ 0xEDB8_8320u32
            } else {
                b3 >> 1
            }),
            b5 == (if b4 & 1 == 1 {
                (b4 >> 1) ^ 0xEDB8_8320u32
            } else {
                b4 >> 1
            }),
            b6 == (if b5 & 1 == 1 {
                (b5 >> 1) ^ 0xEDB8_8320u32
            } else {
                b5 >> 1
            }),
            b7 == (if b6 & 1 == 1 {
                (b6 >> 1) ^ 0xEDB8_8320u32
            } else {
                b6 >> 1
            }),
            b8 == (if b7 & 1 == 1 {
                (b7 >> 1) ^ 0xEDB8_8320u32
            } else {
                b7 >> 1
            }),
    ;
    let c0: u32 = 0;
    let c1: u32 = crc_step(c0);
    let c2: u32 = crc_step(c1);
    let c3: u32 = crc_step(c2);
    let c4: u32 = crc_step(c3);
    let c5: u32 = crc_step(c4);
    let c6: u32 = crc_step(c5);
    let c7: u32 = crc_step(c6);
    let c8: u32 = crc_step(c7);
    assert(c8 == 0u32) by (bit_vector)
        requires
            c0 == 0,
            c1 == (if c0 & 1 == 1 {
                (c0 >> 1) ^ 0xEDB8_8320u32
            } else {
                c0 >> 1
            }),
            c2 == (if c1 & 1 == 1 {
                (c1 >> 1) ^ 0xEDB8_8320u32
            } else {
                c1 >> 1
            }),
            c3 == (if c2 & 1 == 1 {
                (c2 >> 1) ^ 0xEDB8_8320u32
            } else {
                c2 >> 1
            }),
            c4 == (if c3 & 1 == 1 {
                (c3 >> 1) ^ 0xEDB8_8320u32
            } else {
                c3 >> 1
            }),
            c5 == (if c4 & 1 == 1 {
                (c4 >> 1) ^ 0xEDB8_8320u32
            } else {
                c4 >> 1
            }),
            c6 == (if c5 & 1 == 1 {
                (c5 >> 1) ^ 0xEDB8_8320u32
            } else {
                c5 >> 1
            }),
            c7 == (if c6 & 1 == 1 {
                (c6 >> 1) ^ 0xEDB8_8320u32
            } else {
                c6 >> 1
            }),
            c8 == (if c7 & 1 == 1 {
                (c7 >> 1) ^ 0xEDB8_8320u32
            } else {
                c7 >> 1
            }),
    ;
    let d0: u32 = 0xed;
    let d1: u32 = crc_step(d0);
    let d2: u32 = crc_step(d1);
    let d3: u32 = crc_step(d2);
    let d4: u32 = crc_step(d3);
    let d5: u32 = crc_step(d4);
    let d6: u32 = crc_step(d5);
    let d7: u32 = crc_step(d6);
    let d8: u32 = crc_step(d7);
    assert(d8 == 0xDEBB_9EC5u32) by (bit_vector)
        requires
            d0 == 0xed,
            d1 == (if d0 & 1 == 1 {
                (d0 >> 1) ^ 0xEDB8_8320u32
            } else {
                d0 >> 1
            }),
            d2 == (if d1 & 1 == 1 {
                (d1 >> 1) ^ 0xEDB8_8320u32
            } else {
                d1 >> 1
            }),
            d3 == (if d2 & 1 == 1 {
                (d2 >> 1) ^ 0xEDB8_8320u32
            } else {
                d2 >> 1
            }),
            d4 == (if d3 & 1 == 1 {
                (d3 >> 1) ^ 0xEDB8_8320u32
            } else {
                d3 >> 1
            }),
            d5 == (if d4 & 1 == 1 {
                (d4 >> 1) ^ 0xEDB8_8320u32
            } else {
                d4 >> 1
            }),
            d6 == (if d5 & 1 == 1 {
                (d5 >> 1) ^ 0xEDB8_8320u32
            } else {
                d5 >> 1
            }),
            d7 == (if d6 & 1 == 1 {
                (d6 >> 1) ^ 0xEDB8_8320u32
            } else {
                d6 >> 1
            }),
            d8 == (if d7 & 1 == 1 {
                (d7 >> 1) ^ 0xEDB8_8320u32
            } else {
                d7 >> 1
            }),
    ;
}

/// A checksum behind what it is of tells that nothing changed: all such bytes have one and the
/// same checksum, that of the polynomial 0xEDB88320.
pub proof fn lemma_checksum(b: Seq<u8>)
    ensures
        crc_of(b + four_bytes(crc_of(b))) == 0x2144_DF1Cu32,
        crc_of(Seq::empty()) == 0,
{
    let s = crc_rest(b);
    let c = crc_of(b);
    let v = four_bytes(c);
    let b1 = b.push(v[0]);
    let b2 = b1.push(v[1]);
    let b3 = b2.push(v[2]);
    let b4 = b3.push(v[3]);
    assert(b + v =~= b4);
    assert(b1.drop_last() =~= b && b2.drop_last() =~= b1 && b3.drop_last() =~= b2 && b4.drop_last()
        =~= b3);
    lemma_table();
    let x0: u32 = s ^ (v[0] as u32);
    let s1: u32 = crc_rest(b1);
    let x1: u32 = s1 ^ (v[1] as u32);
    let s2: u32 = crc_rest(b2);
    let x2: u32 = s2 ^ (v[2] as u32);
    let s3: u32 = crc_rest(b3);
    let x3: u32 = s3 ^ (v[3] as u32);
    let s4: u32 = crc_rest(b4);
    lemma_eight(x0);
    assert(x0 & 0xff == 0xff && x0 >> 8 == s >> 8) by (bit_vector)
        requires
            x0 == s ^ ((((!s) & 0xff) as u8) as u32),
    ;
    lemma_eight(x1);
    assert(x1 & 0xff == 0x72 && x1 >> 8 == (s >> 16) ^ 0x2D_02EFu32) by (bit_vector)
        requires
            s1 == (s >> 8) ^ 0x2D02_EF8Du32,
            x1 == s1 ^ (((((!s) >> 8) & 0xff) as u8) as u32),
    ;
    lemma_eight(x2);
    assert(x2 & 0xff == 0 && x2 >> 8 == (s >> 24) ^ 0xBE_2612u32) by (bit_vector)
        requires
            s2 == (s >> 16) ^ 0x2D_02EFu32 ^ 0xBE0B_1010u32,
            x2 == s2 ^ (((((!s) >> 16) & 0xff) as u8) as u32),
    ;
    assert((s >> 24) ^ 0xBE_2612u32 ^ 0u32 == (s >> 24) ^ 0xBE_2612u32) by (bit_vector);
    lemma_eight(x3);
    assert(x3 & 0xff == 0xed && x3 >> 8 == 0xBE26u32) by (bit_vector)
        requires
            s3 == (s >> 24) ^ 0xBE_2612u32,
            x3 == s3 ^ (((((!s) >> 24) & 0xff) as u8) as u32),
    ;
    assert(!(0xBE26u32 ^ 0xDEBB_9EC5u32) == 0x2144_DF1Cu32) by (bit_vector);
    assert(!0xFFFF_FFFFu32 == 0u32) by (bit_vector);
}

// --- records ---------------------------------------------------------------------------------

/// A length in eight bytes, then what has that length.
pub open spec fn counted(n: nat, body: Seq<u8>) -> Seq<u8> {
    spec_u64_to_le_bytes(n as u64) + body
}

/// Each element in four bytes.
pub open spec fn in_fours(v: Seq<u32>) -> Seq<u8> {
    v.fold_left(Seq::empty(), |b: Seq<u8>, x: u32| b + spec_u32_to_le_bytes(x))
}

proof fn lemma_words(v: Seq<u32>)
    ensures
        words_body(v) == in_fours(v),
    decreases v.len(),
{
    if v.len() > 0 {
        lemma_words(v.drop_last());
    }
}

/// Numbers stand in records with the byte that counts least first: integers and doubles in
/// eight bytes, truth values in one; texts and vectors behind their length.
pub proof fn lemma_values(c: Cell)
    ensures
        value_bytes(c) == match c {
            Cell::I64(x) => spec_u64_to_le_bytes(x as u64),
            Cell::F64(x) => spec_u64_to_le_bytes(x),
            Cell::Bool(b) => seq![
                if b {
                    1u8
                } else {
                    0u8
                },
            ],
            Cell::Str(s) => counted(encode_utf8(s).len(), encode_utf8(s)),
            Cell::Vector(v) => counted(v.len(), in_fours(v)),
        },
{
    if let Cell::Vector(v) = c {
        lemma_words(v);
    }
}

/// Each element in eight bytes.
pub open spec fn in_eights(v: Seq<u64>) -> Seq<u8> {
    v.fold_left(Seq::empty(), |b: Seq<u8>, x: u64| b + spec_u64_to_le_bytes(x))
}

proof fn lemma_longs(v: Seq<u64>)
    ensures
        longs_body(v) == in_eights(v),
    decreases v.len(),
{
    if v.len() > 0 {
        lemma_longs(v.drop_last());
    }
}

proof fn lemma_flat(rows: Seq<Seq<u32>>)
    ensures
        flat(rows) == rows.fold_left(Seq::empty(), |b: Seq<u32>, x: Seq<u32>| b + x),
    decreases rows.len(),
{
    if rows.len() > 0 {
        lemma_flat(rows.drop_last());
    }
}

proof fn lemma_texts_joined(v: Seq<Seq<char>>)
    ensures
        joined_bytes(v) == v.fold_left(Seq::empty(), |b: Seq<u8>, x: Seq<char>| b + encode_utf8(x)),
    decreases v.len(),
{
    if v.len() > 0 {
        lemma_texts_joined(v.drop_last());
    }
}

/// A column is the number of its values and those: numbers in eight bytes, truth values in
/// one. Of texts it is where each begins and the last ends, and then their bytes, of vectors
/// their length and all their elements.
pub proof fn lemma_stored_columns(c: Cells)
    ensures
        column_bytes(c) == match c {
            Cells::I64(v) => counted(v.len(), in_eights(Seq::new(v.len(), |i: int| v[i] as u64))),
            Cells::F64(v) => counted(v.len(), in_eights(v)),
            Cells::Bool(v) => counted(v.len(), v),
            Cells::Str(v) => {
                let all = v.fold_left(
                    Seq::empty(),
                    |b: Seq<u8>, x: Seq<char>| b + encode_utf8(x),
                );
                counted(text_offsets(v).len(), in_fours(text_offsets(v))) + counted(all.len(), all)
            },
            Cells::Vector { dim, rows } => {
                let all = rows.fold_left(Seq::empty(), |b: Seq<u32>, x: Seq<u32>| b + x);
                spec_u64_to_le_bytes(dim as u64) + counted(all.len(), in_fours(all))
            },
        },
{
    match c {
        Cells::I64(v) => {
            let w = Seq::new(v.len(), |i: int| v[i] as u64);
            assert(w =~= unsigned(v));
            lemma_longs(w);
        },
        Cells::F64(v) => {
            lemma_longs(v);
        },
        Cells::Bool(_) => {},
        Cells::Str(v) => {
            lemma_words(text_offsets(v));
            lemma_texts_joined(v);
        },
        Cells::Vector { dim: _, rows } => {
            lemma_flat(rows);
            lemma_words(flat(rows));
        },
    }
}

/// The types have numbers, a vector its length behind its own; a column is its name and its
/// type; a schema is the number of its columns and those, in their order.
pub proof fn lemma_schemas(ty: DataType, s: Seq<Attr>, a: Attr)
    ensures
        type_bytes(ty) == match ty {
            DataType::I64 => seq![1u8],
            DataType::F64 => seq![2u8],
            DataType::Bool => seq![3u8],
            DataType::Str => seq![4u8],
            DataType::Vector(d) => seq![5u8] + spec_u64_to_le_bytes(d as u64),
        },
        attr_bytes(a) == counted(encode_utf8(a.name).len(), encode_utf8(a.name)) + type_bytes(a.ty),
        schema_bytes(s) == counted(
            s.len(),
            s.fold_left(Seq::empty(), |b: Seq<u8>, x: Attr| b + attr_bytes(x)),
        ),
{
    lemma_attrs(s);
}

proof fn lemma_attrs(s: Seq<Attr>)
    ensures
        attrs_body(s) == s.fold_left(Seq::empty(), |b: Seq<u8>, x: Attr| b + attr_bytes(x)),
    decreases s.len(),
{
    if s.len() > 0 {
        lemma_attrs(s.drop_last());
    }
}

/// Rows stand one after another, and in each its values.
pub proof fn lemma_rows(rows: Seq<Seq<Cell>>, row: Seq<Cell>)
    ensures
        row_bytes(row) == row.fold_left(Seq::empty(), |b: Seq<u8>, x: Cell| b + value_bytes(x)),
        rows_bytes(rows) == rows.fold_left(
            Seq::empty(),
            |b: Seq<u8>, x: Seq<Cell>| b + row_bytes(x),
        ),
    decreases rows.len() + row.len(),
{
    if row.len() > 0 {
        lemma_rows(Seq::empty(), row.drop_last());
    }
    if rows.len() > 0 {
        lemma_rows(rows.drop_last(), Seq::empty());
    }
}

/// A change is its kind, the name of its table, and behind that the schema or the rows.
pub proof fn lemma_changes(c: Change)
    ensures
        change_bytes(c) == match c {
            Change::CreateTable { name, schema } => seq![1u8] + text_bytes(name) + schema_bytes(
                schema,
            ),
            Change::DropTable { name } => seq![2u8] + text_bytes(name),
            Change::Insert { table, rows } => seq![3u8] + text_bytes(table) + counted(
                rows.len(),
                rows_bytes(rows),
            ),
        },
{
    if let Change::Insert { table, rows } = c {
        assert(change_bytes(c) =~= seq![3u8] + text_bytes(table) + counted(
            rows.len(),
            rows_bytes(rows),
        ));
    }
}

/// The log begins with `VELDBWAL` and the number of its format. A record is the length of what
/// it holds and a checksum, then its number and that; the checksum is of those two.
pub proof fn lemma_log(lsn: u64, payload: Seq<u8>)
    ensures
        wal_header() == seq![86u8, 69, 76, 68, 66, 87, 65, 76] + spec_u32_to_le_bytes(1),
        ({
            let body = spec_u64_to_le_bytes(lsn) + payload;
            frame_bytes(lsn, payload) == spec_u32_to_le_bytes(payload.len() as u32)
                + spec_u32_to_le_bytes(crc_of(body)) + body
        }),
{
}

/// Records are numbered one by one, from one on.
pub proof fn lemma_next_number(v: Seq<(u64, Seq<u8>)>)
    ensures
        v.len() == 0 ==> next_number(v) == 1,
        v.len() > 0 && v.last().0 < u64::MAX ==> next_number(v) == v.last().0 + 1,
{
}

/// A snapshot begins with `VELDBSNP`, the number of its format, that of the last record in it
/// and the number of its tables; these follow, each with its name, schema, number of rows and
/// columns. It ends with the checksum of all that.
pub proof fn lemma_snapshot(tables: Seq<Relation>, lsn: u64, t: Relation)
    ensures
        ({
            let body = seq![86u8, 69, 76, 68, 66, 83, 78, 80] + spec_u32_to_le_bytes(1)
                + spec_u64_to_le_bytes(lsn) + spec_u64_to_le_bytes(tables.len() as u64)
                + tables.fold_left(Seq::empty(), |b: Seq<u8>, x: Relation| b + table_bytes(x));
            snapshot_of(tables, lsn) == body + spec_u32_to_le_bytes(crc_of(body))
        }),
        table_bytes(t) == text_bytes(t.name) + schema_bytes(t.schema) + spec_u64_to_le_bytes(
            t.rows as u64,
        ) + t.columns.fold_left(Seq::empty(), |b: Seq<u8>, x: Cells| b + column_bytes(x)),
{
    lemma_tables(tables);
    lemma_columns(t.columns);
}

proof fn lemma_tables(v: Seq<Relation>)
    ensures
        tables_body(v) == v.fold_left(Seq::empty(), |b: Seq<u8>, x: Relation| b + table_bytes(x)),
    decreases v.len(),
{
    if v.len() > 0 {
        lemma_tables(v.drop_last());
    }
}

proof fn lemma_columns(v: Seq<Cells>)
    ensures
        columns_body(v) == v.fold_left(
            Seq::empty(),
            |b: Seq<u8>, x: Cells| b + column_bytes(x),
        ),
    decreases v.len(),
{
    if v.len() > 0 {
        lemma_columns(v.drop_last());
    }
}

} // verus!
