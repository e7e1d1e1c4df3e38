use veldb::column::eq_rows;
use veldb::float::{FloatOp, Floats, Kernel, SingleOp};
use veldb::{Column, DataType, Schema, StrColumn, Table, Value};

fn operate_single(op: SingleOp, a: u32, b: u32) -> u32 {
    let (x, y) = (f32::from_bits(a), f32::from_bits(b));
    let r = match op {
        SingleOp::Add => x + y,
        SingleOp::Sub => x - y,
        SingleOp::Mul => x * y,
        SingleOp::Div => x / y,
        SingleOp::Sqrt => x.sqrt(),
    };
    r.to_bits()
}

fn operate(op: FloatOp, a: u64, b: u64) -> u64 {
    let (x, y) = (f64::from_bits(a), f64::from_bits(b));
    let r = match op {
        FloatOp::Add => x + y,
        FloatOp::Sub => x - y,
        FloatOp::Mul => x * y,
        FloatOp::Div => x / y,
        FloatOp::Rem => x % y,
        FloatOp::Min => x.min(y),
        FloatOp::Max => x.max(y),
        FloatOp::Floor => x.floor(),
        FloatOp::Ceil => x.ceil(),
        FloatOp::Sqrt => x.sqrt(),
        FloatOp::Round => {
            let k = 10f64.powi(y as i32);
            (x * k).round() / k
        }
    };
    r.to_bits()
}

/// The arithmetic of the machine.
fn kernel() -> impl Floats {
    Kernel {
        apply: operate,
        of_int: |x: i64| (x as f64).to_bits(),
        as_int: |x: u64| f64::from_bits(x) as i64,
        as_count: |x: u64| f64::from_bits(x) as u64,
        narrow: |x: u64| (f64::from_bits(x) as f32).to_bits(),
        show: |x: u64| f64::from_bits(x).to_string(),
        show_single: |x: u32| f32::from_bits(x).to_string(),
        quote: |x: u64| format!("{:?}", f64::from_bits(x)),
        quote_single: |x: u32| format!("{:?}", f32::from_bits(x)),
        parse: |s: &str| s.parse::<f64>().ok().map(|x| x.to_bits()),
        parse_single: |s: &str| s.parse::<f32>().ok().map(|x| x.to_bits()),
        single: operate_single,
        widen: |x: u32| (f32::from_bits(x) as f64).to_bits(),
    }
}

fn words(v: &[f32]) -> Vec<u32> {
    v.iter().map(|x| x.to_bits()).collect()
}

fn schema() -> Schema {
    Schema::new(vec![
        ("id", DataType::I64),
        ("price", DataType::F64),
        ("active", DataType::Bool),
        ("title", DataType::Str),
        ("emb", DataType::Vector(3)),
    ])
}

fn row(id: i64) -> Vec<Value> {
    vec![
        Value::I64(id),
        Value::F64((id as f64 * 1.5).to_bits()),
        Value::Bool(id % 2 == 0),
        Value::Str(format!("товар {id}")),
        Value::Vector(words(&[id as f32, 0.0, -1.0])),
    ]
}

#[test]
fn round_trip_all_types() {
    let mut t = Table::new("t", schema()).unwrap();
    for i in 0..100 {
        t.insert(&row(i), &kernel()).unwrap();
    }
    assert_eq!(t.nrows(), 100);
    for i in 0..100 {
        assert!(eq_rows(&t.row(i), &row(i as i64)), "строка {i} не совпала");
    }
}

#[test]
fn insert_rejects_wrong_type_without_partial_write() {
    let mut t = Table::new("t", schema()).unwrap();
    t.insert(&row(1), &kernel()).unwrap();
    let mut bad = row(2);
    bad[3] = Value::I64(7); // в TEXT-колонку летит число
    assert!(t.insert(&bad, &kernel()).is_err());
    // Ключевое: отвергнутая строка не оставила «хвостов» в первых колонках.
    assert_eq!(t.nrows(), 1);
    for c in t.columns() {
        assert_eq!(c.len(), 1);
    }
}

#[test]
fn insert_rejects_wrong_arity_and_vector_dim() {
    let mut t = Table::new("t", schema()).unwrap();
    let mut short = row(1);
    short.truncate(3);
    assert!(t.insert(&short, &kernel()).is_err());
    let mut bad = row(1);
    bad[4] = Value::Vector(words(&[1.0, 2.0]));
    assert!(t.insert(&bad, &kernel()).is_err());
    assert_eq!(t.nrows(), 0);
}

#[test]
fn int_literal_widens_into_float_column() {
    let mut t = Table::new("t", Schema::new(vec![("x", DataType::F64)])).unwrap();
    t.insert(&vec![Value::I64(7)], &kernel()).unwrap();
    assert!(eq_rows(&t.row(0), &vec![Value::F64(7.0f64.to_bits())]));
}

#[test]
fn schema_rejects_broken_definitions() {
    assert!(Table::new("t", Schema::new(vec![])).is_err());
    assert!(Table::new(
        "t",
        Schema::new(vec![("a", DataType::I64), ("A", DataType::F64)])
    )
    .is_err());
    assert!(Table::new("t", Schema::new(vec![("v", DataType::Vector(0))])).is_err());
}

#[test]
fn column_lookup_is_case_insensitive() {
    let t = Table::new("t", schema()).unwrap();
    assert!(t.column("PRICE").is_some());
    assert!(t.column("Price").is_some());
    assert!(t.column("nope").is_none());
}

#[test]
fn str_column_handles_empty_and_unicode() {
    let mut c = StrColumn::new();
    for s in ["", "привет", "a", "", "🐢🐢"] {
        c.push(s);
    }
    assert_eq!(c.len(), 5);
    assert_eq!(c.get(0), "");
    assert_eq!(c.get(1), "привет");
    assert_eq!(c.get(4), "🐢🐢");
    assert_eq!(
        c.iter(),
        vec!["", "привет", "a", "", "🐢🐢"]
    );
}

#[test]
fn vector_slice_is_zero_copy_and_aligned_to_rows() {
    let mut c = Column::empty(DataType::Vector(4));
    c.push(&Value::Vector(words(&[1.0, 2.0, 3.0, 4.0])), &kernel())
        .unwrap();
    c.push(&Value::Vector(words(&[5.0, 6.0, 7.0, 8.0])), &kernel())
        .unwrap();
    assert_eq!(c.len(), 2);
    assert_eq!(c.vector_at(1).unwrap(), words(&[5.0, 6.0, 7.0, 8.0]));
    assert!(Column::empty(DataType::I64).vector_at(0).is_none());
}

#[test]
fn bytes_used_tracks_actual_payload() {
    let mut t = Table::new("t", Schema::new(vec![("x", DataType::I64)])).unwrap();
    let before = t.bytes_used();
    let rows: Vec<Vec<Value>> = (0..1000).map(|i| vec![Value::I64(i)]).collect();
    t.insert_many(&rows, &kernel()).unwrap();
    assert_eq!(t.bytes_used() - before, 8000);
}
