use veldb::codec::{crc32, ensure_le, order_checked, Reader, Writer};
use veldb::column::eq_rows;
use veldb::exec::calendar::{civil_from_days, extract_part};
use veldb::float::{FloatOp, Floats, Kernel, SingleOp};
use veldb::plan::{Metric, ScalarFunc};
use veldb::storage::{decode_snapshot, encode_snapshot, Durability, Wal, WalRecord};
use veldb::{Column, DataType, Database, Schema, StrColumn, Table, Value};

fn operate_single(op: SingleOp, a: u32, b: u32) -> u32 {
    let (x, y) = (f32::from_bits(a), f32::from_bits(b));
    let r = match op {
        SingleOp::Add => x + y,
        SingleOp::Sub => x - y,
        SingleOp::Mul => x * y,
        SingleOp::Div => x / y,
        SingleOp::Sqrt => x.sqrt(),
    };
    r.to_bits()
}

fn operate(op: FloatOp, a: u64, b: u64) -> u64 {
    let (x, y) = (f64::from_bits(a), f64::from_bits(b));
    let r = match op {
        FloatOp::Add => x + y,
        FloatOp::Sub => x - y,
        FloatOp::Mul => x * y,
        FloatOp::Div => x / y,
        FloatOp::Rem => x % y,
        FloatOp::Min => x.min(y),
        FloatOp::Max => x.max(y),
        FloatOp::Floor => x.floor(),
        FloatOp::Ceil => x.ceil(),
        FloatOp::Sqrt => x.sqrt(),
        FloatOp::Round => {
            let k = 10f64.powi(y as i32);
            (x * k).round() / k
        }
    };
    r.to_bits()
}

/// The arithmetic of the machine.
fn kernel() -> impl Floats {
    Kernel {
        apply: operate,
        of_int: |x: i64| (x as f64).to_bits(),
        as_int: |x: u64| f64::from_bits(x) as i64,
        as_count: |x: u64| f64::from_bits(x) as u64,
        narrow: |x: u64| (f64::from_bits(x) as f32).to_bits(),
        show: |x: u64| f64::from_bits(x).to_string(),
        show_single: |x: u32| f32::from_bits(x).to_string(),
        quote: |x: u64| format!("{:?}", f64::from_bits(x)),
        quote_single: |x: u32| format!("{:?}", f32::from_bits(x)),
        parse: |s: &str| s.parse::<f64>().ok().map(|x| x.to_bits()),
        parse_single: |s: &str| s.parse::<f32>().ok().map(|x| x.to_bits()),
        single: operate_single,
        widen: |x: u32| (f32::from_bits(x) as f64).to_bits(),
    }
}

fn row() -> Vec<Value> {
    vec![
        Value::I64(-5),
        Value::F64((-0.5f64).to_bits()),
        Value::Bool(true),
        Value::Str("ёж".into()),
        Value::Vector(vec![1.5f32.to_bits(), (-2.5f32).to_bits()]),
    ]
}

fn types() -> Vec<(&'static str, DataType)> {
    vec![
        ("i", DataType::I64),
        ("f", DataType::F64),
        ("b", DataType::Bool),
        ("s", DataType::Str),
        ("v", DataType::Vector(2)),
    ]
}

fn table() -> Table {
    let mut t = Table::new("all", Schema::new(types())).unwrap();
    t.insert(&row(), &kernel()).unwrap();
    let other = vec![
        Value::I64(7),
        Value::F64(1e10f64.to_bits()),
        Value::Bool(false),
        Value::Str("".into()),
        Value::Vector(vec![0, 0]),
    ];
    t.insert(&other, &kernel()).unwrap();
    t
}

#[test]
fn checksums_are_those_of_crc32() {
    assert_eq!(crc32(b"123456789"), 0xCBF4_3926);
    assert_eq!(crc32(b""), 0);
}

#[test]
fn numbers_are_written_with_the_low_byte_first() {
    let mut w = Writer::new();
    w.u8(7);
    w.u32(0x0102_0304);
    w.u64(0x0102_0304_0506_0708);
    w.i64(-1);
    w.f64_bits(1.0f64.to_bits());
    w.str("é");
    assert_eq!(
        w.buf,
        [
            7, 4, 3, 2, 1, 8, 7, 6, 5, 4, 3, 2, 1, 255, 255, 255, 255, 255, 255, 255, 255, 0, 0, 0,
            0, 0, 0, 0xf0, 0x3f, 2, 0, 0, 0, 0, 0, 0, 0, 0xc3, 0xa9
        ]
    );
    let mut r = Reader::new(&w.buf);
    assert_eq!(r.u8().unwrap(), 7);
    assert_eq!(r.u32().unwrap(), 0x0102_0304);
    assert_eq!(r.u64().unwrap(), 0x0102_0304_0506_0708);
    assert_eq!(r.i64().unwrap(), -1);
    assert_eq!(r.f64_bits().unwrap(), 1.0f64.to_bits());
    assert_eq!(r.str().unwrap(), "é");
    assert!(r.is_done());
    assert!(r.u8().is_err());
}

#[test]
fn values_and_schemas_are_read_back() {
    let mut w = Writer::new();
    w.schema(&Schema::new(types()));
    for v in &row() {
        w.value(v);
    }
    let mut r = Reader::new(&w.buf);
    let schema = r.schema().unwrap();
    assert_eq!(schema.len(), 5);
    let back: Vec<Value> = schema
        .fields
        .iter()
        .map(|f| r.value(f.ty).unwrap())
        .collect();
    assert!(eq_rows(&back, &row()));
    assert!(r.is_done());
}

#[test]
fn a_schema_that_is_cut_short_is_refused() {
    let mut w = Writer::new();
    w.schema(&Schema::new(types()));
    for n in 0..w.buf.len() {
        assert!(Reader::new(&w.buf[..n]).schema().is_err(), "cut {n}");
    }
    let mut r = Reader::new(&w.buf);
    assert_eq!(r.schema().unwrap().len(), 5);
    assert!(r.is_done());
    assert_eq!(r.pos(), w.buf.len());
}

#[test]
fn a_row_is_put_in_whole_or_not_at_all() {
    let mut t = table();
    let mut short = row();
    short.pop();
    assert!(t.insert(&short, &kernel()).is_err());
    // Only the last value does not fit: those before it are not put in either.
    let mut wrong = row();
    wrong[4] = Value::Vector(vec![0]);
    assert!(t.insert(&wrong, &kernel()).is_err());
    assert_eq!(t.nrows(), 2);
    for c in t.columns() {
        assert_eq!(c.len(), 2);
    }
    let mut widened = row();
    widened[1] = Value::I64(7);
    t.insert(&widened, &kernel()).unwrap();
    widened[1] = Value::F64(7f64.to_bits());
    assert_eq!(t.nrows(), 3);
    assert!(eq_rows(&t.row(0), &row()));
    assert!(eq_rows(&t.row(2), &widened));
}

#[test]
fn a_column_is_read_back() {
    for c in table().columns() {
        let mut w = Writer::new();
        w.column(c);
        let mut r = Reader::new(&w.buf);
        let back = r.column(c.data_type()).unwrap();
        assert!(r.is_done());
        assert_eq!(format!("{back:?}"), format!("{c:?}"));
    }
}

#[test]
fn bytes_that_are_no_values_are_refused() {
    let mut w = Writer::new();
    w.bytes(&[0xff, 0xfe]);
    assert!(Reader::new(&w.buf).str().is_err());
    assert!(Reader::new(&[9]).data_type().is_err());
    assert!(Reader::new(&[255; 8]).bytes().is_err());
    assert!(Reader::new(&[255; 8]).raw_u64().is_err());
    assert!(StrColumn::from_parts(vec![0xc3, 0xa9], vec![0, 1, 2]).is_err());
    assert!(StrColumn::from_parts(vec![0x61], vec![0, 2]).is_err());
    assert!(StrColumn::from_parts(vec![], vec![]).is_err());
    let c = StrColumn::from_parts(vec![0x61, 0xc3, 0xa9], vec![0, 1, 3]).unwrap();
    assert_eq!(c.iter(), ["a", "é"]);
    assert!(ensure_le().is_ok());
    assert!(order_checked(&[0, 0, 0, 1]).is_err());
}

#[test]
fn changes_are_read_back_from_their_bytes() {
    let mut db = Database::new();
    let create = WalRecord::CreateTable {
        name: "all".into(),
        schema: Schema::new(types()),
    };
    let bytes = create.encode(&db, &kernel()).unwrap();
    let back = WalRecord::decode(&bytes, &db).unwrap();
    assert_eq!(format!("{back:?}"), format!("{create:?}"));
    db.apply(&back, &kernel()).unwrap();

    let insert = WalRecord::Insert {
        table: "ALL".into(),
        rows: vec![row()],
    };
    let bytes = insert.encode(&db, &kernel()).unwrap();
    let back = WalRecord::decode(&bytes, &db).unwrap();
    assert_eq!(format!("{back:?}"), format!("{insert:?}"));
    assert!(WalRecord::decode(&bytes, &Database::new()).is_err());
    assert!(WalRecord::decode(&bytes[..bytes.len() - 1], &db).is_err());

    // An integer in a column of doubles is written as a double.
    let mut widened = row();
    widened[1] = Value::I64(7);
    let insert = WalRecord::Insert {
        table: "all".into(),
        rows: vec![widened.clone()],
    };
    let bytes = insert.encode(&db, &kernel()).unwrap();
    let back = WalRecord::decode(&bytes, &db).unwrap();
    widened[1] = Value::F64(7f64.to_bits());
    let stored = WalRecord::Insert {
        table: "all".into(),
        rows: vec![widened],
    };
    assert_eq!(format!("{back:?}"), format!("{stored:?}"));
    let narrow = WalRecord::Insert {
        table: "all".into(),
        rows: vec![vec![Value::I64(1)]],
    };
    assert!(narrow.encode(&db, &kernel()).is_err());

    let drop = WalRecord::DropTable { name: "all".into() };
    let back = WalRecord::decode(&drop.encode(&db, &kernel()).unwrap(), &db).unwrap();
    assert_eq!(format!("{back:?}"), format!("{drop:?}"));
    assert!(WalRecord::decode(&[], &db).is_err());
}

#[test]
fn a_log_gives_back_what_was_appended() {
    let (mut wal, records) = Wal::open("wal.log", &[], Durability::Fsync).unwrap();
    assert!(records.is_empty());
    assert_eq!(wal.next_lsn(), 1);
    assert_eq!(wal.append(b"one").unwrap(), 1);
    assert_eq!(wal.append(b"").unwrap(), 2);
    assert_eq!(wal.append(b"three").unwrap(), 3);
    let raw = wal.take_tail();
    assert!(wal.take_tail().is_empty());

    let (again, records) = Wal::open("wal.log", &raw, Durability::Fsync).unwrap();
    assert_eq!(
        records,
        [
            (1, b"one".to_vec()),
            (2, Vec::new()),
            (3, b"three".to_vec())
        ]
    );
    assert_eq!(again.next_lsn(), 4);
    assert_eq!(
        Wal::records_after("wal.log", &raw, 1).unwrap(),
        [(2, Vec::new()), (3, b"three".to_vec())]
    );

    // Every cut of the log keeps the records before it.
    for cut in 12..raw.len() {
        let (wal, records) = Wal::open("wal.log", &raw[..cut], Durability::Fsync).unwrap();
        assert!(records.len() < 3, "cut {cut}");
        assert_eq!(wal.next_lsn(), records.len() as u64 + 1);
    }
    // A damaged byte ends the log at its record.
    for at in 12..raw.len() {
        let mut bad = raw.clone();
        bad[at] ^= 0x55;
        let records = Wal::open("wal.log", &bad, Durability::Fsync).unwrap().1;
        assert!(records.len() < 3, "byte {at}");
    }
    let mut other = raw.clone();
    other[0] ^= 1;
    assert!(Wal::open("wal.log", &other, Durability::Fsync).is_err());
}

#[test]
fn a_snapshot_gives_back_its_tables() {
    let t = table();
    let empty = Table::new("empty", Schema::new(vec![("x", DataType::I64)])).unwrap();
    let bytes = encode_snapshot(&vec![&t, &empty], 42);
    let (back, lsn) = decode_snapshot(&bytes).unwrap();
    assert_eq!(lsn, 42);
    assert_eq!(back.len(), 2);
    assert_eq!(back[0].name, "all");
    assert_eq!(back[0].nrows(), 2);
    for i in 0..2 {
        assert!(eq_rows(&back[0].row(i), &t.row(i)));
    }
    assert_eq!(back[1].nrows(), 0);
    for at in 0..bytes.len() {
        let mut bad = bytes.clone();
        bad[at] ^= 0x10;
        assert!(decode_snapshot(&bad).is_err(), "byte {at}");
        assert!(decode_snapshot(&bytes[..at]).is_err(), "cut {at}");
    }
}

#[test]
fn the_bytes_of_truth_values_are_kept() {
    let schema = Schema::new(vec![("id", DataType::I64), ("b", DataType::Bool)]);
    let columns = vec![Column::I64(vec![1, 2, 3]), Column::Bool(vec![1, 7, 0])];
    let t = Table::from_columns("t", schema, columns).unwrap();
    let bytes = encode_snapshot(&vec![&t], 1);
    let (back, _) = decode_snapshot(&bytes).unwrap();
    assert!(matches!(&back[0].columns()[1], Column::Bool(v) if v[..] == [1, 7, 0]));

    let mut db = Database::new();
    db.load_snapshot_bytes(&bytes).unwrap();
    let mut ask = |sql: &str| db.execute(sql, &kernel()).unwrap().rows;
    assert!(eq_rows(&ask("SELECT sum(b) FROM t")[0], &vec![Value::F64(8f64.to_bits())]));
    assert_eq!(ask("SELECT id FROM t WHERE b").len(), 2);
    assert_eq!(ask("SELECT id FROM t WHERE b AND true").len(), 2);
    let order = ask("SELECT id FROM t ORDER BY b");
    let ids: Vec<i64> = order
        .iter()
        .map(|r| match r[0] {
            Value::I64(x) => x,
            _ => panic!("an id"),
        })
        .collect();
    assert_eq!(ids, [3, 1, 2]);
    assert!(eq_rows(&ask("SELECT b FROM t WHERE id = 2")[0], &vec![Value::Bool(true)]));
}

#[test]
fn what_is_made_by_default_is_empty() {
    assert_eq!(Schema::default().len(), 0);
    assert_eq!(StrColumn::default().len(), 0);
    let db = Database::default();
    assert!(!db.is_persistent() && !db.is_read_only());
    assert!(db.table_names().is_empty());
}

#[test]
fn the_same_tables_give_the_same_snapshot() {
    let make = |order: &[&str]| {
        let mut db = Database::new();
        for name in order {
            db.execute(&format!("CREATE TABLE {name} (x INT)"), &kernel())
                .unwrap();
        }
        db.snapshot_bytes()
    };
    assert_eq!(make(&["a", "b", "c"]), make(&["c", "a", "b"]));
}

#[test]
fn parts_of_tables_must_fit_together() {
    let schema = || Schema::new(vec![("a", DataType::I64), ("b", DataType::Bool)]);
    let ok = Table::from_columns(
        "t",
        schema(),
        vec![Column::I64(vec![1, 2]), Column::Bool(vec![1, 0])],
    );
    assert_eq!(ok.unwrap().nrows(), 2);
    let ragged = Table::from_columns(
        "t",
        schema(),
        vec![Column::I64(vec![1, 2]), Column::Bool(vec![1])],
    );
    assert!(ragged.is_err());
    assert!(Table::from_columns("t", schema(), vec![Column::I64(vec![1])]).is_err());
    let wrong = Table::from_columns(
        "t",
        schema(),
        vec![Column::Bool(vec![1]), Column::Bool(vec![1])],
    );
    assert!(wrong.is_err());
}

#[test]
fn days_are_those_of_the_calendar() {
    let date = |n: i64| {
        let d = civil_from_days(n);
        (d.year, d.month, d.day)
    };
    assert_eq!(date(0), (1970, 1, 1));
    assert_eq!(date(-1), (1969, 12, 31));
    assert_eq!(date(59), (1970, 3, 1));
    assert_eq!(date(11_016), (2000, 2, 29));
    assert_eq!(date(19_675), (2023, 11, 14));
    assert_eq!(date(-719_468), (0, 3, 1));
    // As far as 64 bits go.
    assert_eq!(date(i64::MAX - 719_468), (25_252_734_927_766_554, 9, 25));
    assert_eq!(date(i64::MIN), (-25_252_734_927_764_585, 6, 7));
    assert_eq!(extract_part(ScalarFunc::ExtractMinute, -1), 59);
    assert_eq!(extract_part(ScalarFunc::ExtractHour, -1), 23);
}

#[test]
fn functions_and_metrics_by_name() {
    assert!(matches!(
        Metric::from_name("L2_Distance"),
        Some(Metric::L2)
    ));
    assert!(matches!(Metric::from_name("cosine"), Some(Metric::Cosine)));
    assert!(Metric::from_name("length").is_none());
    assert!(matches!(
        ScalarFunc::from_name("LENGTH"),
        Some(ScalarFunc::Length)
    ));
    assert!(ScalarFunc::from_name("frobnicate").is_none());
}
