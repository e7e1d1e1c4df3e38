use serde_json::Value as Json;
use veldb::float::{FloatOp, Floats, Kernel, SingleOp};
use veldb::http::{health, hex, insert, unhex, WalQuery};
use veldb::{DataType, Database, Value};

fn operate_single(op: SingleOp, a: u32, b: u32) -> u32 {
    let (x, y) = (f32::from_bits(a), f32::from_bits(b));
    let r = match op {
        SingleOp::Add => x + y,
        SingleOp::Sub => x - y,
        SingleOp::Mul => x * y,
        SingleOp::Div => x / y,
        SingleOp::Sqrt => x.sqrt(),
    };
    r.to_bits()
}

fn operate(op: FloatOp, a: u64, b: u64) -> u64 {
    let (x, y) = (f64::from_bits(a), f64::from_bits(b));
    let r = match op {
        FloatOp::Add => x + y,
        FloatOp::Sub => x - y,
        FloatOp::Mul => x * y,
        FloatOp::Div => x / y,
        FloatOp::Rem => x % y,
        FloatOp::Min => x.min(y),
        FloatOp::Max => x.max(y),
        FloatOp::Floor => x.floor(),
        FloatOp::Ceil => x.ceil(),
        FloatOp::Sqrt => x.sqrt(),
        FloatOp::Round => {
            let k = 10f64.powi(y as i32);
            (x * k).round() / k
        }
    };
    r.to_bits()
}

/// The arithmetic of the machine.
fn kernel() -> impl Floats {
    Kernel {
        apply: operate,
        of_int: |x: i64| (x as f64).to_bits(),
        as_int: |x: u64| f64::from_bits(x) as i64,
        as_count: |x: u64| f64::from_bits(x) as u64,
        narrow: |x: u64| (f64::from_bits(x) as f32).to_bits(),
        show: |x: u64| f64::from_bits(x).to_string(),
        show_single: |x: u32| f32::from_bits(x).to_string(),
        quote: |x: u64| format!("{:?}", f64::from_bits(x)),
        quote_single: |x: u32| format!("{:?}", f32::from_bits(x)),
        parse: |s: &str| s.parse::<f64>().ok().map(|x| x.to_bits()),
        parse_single: |s: &str| s.parse::<f32>().ok().map(|x| x.to_bits()),
        single: operate_single,
        widen: |x: u32| (f32::from_bits(x) as f64).to_bits(),
    }
}

fn run(db: &mut Database, sql: &str) -> veldb::exec::QueryResult {
    db.execute(sql, &kernel()).unwrap()
}

fn seeded() -> Database {
    let mut db = Database::new();
    run(
        &mut db,
        "CREATE TABLE t (id INT, name TEXT, w DOUBLE, ok BOOL, e VECTOR(2))",
    );
    run(
        &mut db,
        "INSERT INTO t VALUES (1,'один',1.5,true,'[1,2]'),(2,'два',2.5,false,'[3,4]')",
    );
    db
}

fn rows(text: &str) -> Vec<Vec<Json>> {
    let v: Json = serde_json::from_str(text).unwrap();
    v.as_array()
        .unwrap()
        .iter()
        .map(|r| r.as_array().unwrap().clone())
        .collect()
}

fn count(db: &mut Database) -> i64 {
    match run(db, "SELECT count(*) FROM t").rows[0][0] {
        Value::I64(n) => n,
        _ => panic!("count не целое"),
    }
}

fn read(text: &str, ty: DataType) -> Result<Value, String> {
    let v: Json = serde_json::from_str(text).unwrap();
    Value::from_json(&v, ty, &kernel()).map_err(|e| e.message())
}

#[test]
fn health_reports_real_numbers() {
    let db = seeded();
    let h = health(&db);
    assert_eq!(h.tables, 1);
    assert_eq!(h.rows, 2);
    assert!(!db.is_persistent());
    assert_eq!(h.bytes_used, db.bytes_used());
    assert!(h.bytes_used > 0);
}

#[test]
fn schema_lists_columns_with_readable_types() {
    let db = seeded();
    let t = db.table("t").unwrap();
    let names: Vec<&str> = t.schema.fields.iter().map(|f| f.name.as_str()).collect();
    let types: Vec<String> = t.schema.fields.iter().map(|f| f.ty.name()).collect();
    assert_eq!(names, ["id", "name", "w", "ok", "e"]);
    assert_eq!(types, ["INT", "TEXT", "DOUBLE", "BOOL", "VECTOR(2)"]);
}

#[test]
fn non_finite_floats_stay_valid_json() {
    let mut db = seeded();
    let mut one = |sql: &str| run(&mut db, sql).rows.remove(0).remove(0).worded(&kernel());
    assert!(matches!(one("SELECT w / 0 FROM t LIMIT 1"), Value::Str(s) if s == "inf"));
    assert!(matches!(one("SELECT (0 - w) / 0 FROM t LIMIT 1"), Value::Str(s) if s == "-inf"));
    assert!(matches!(one("SELECT 0 / 0 FROM t LIMIT 1"), Value::Str(s) if s == "NaN"));
    assert!(matches!(one("SELECT w FROM t LIMIT 1"), Value::F64(x) if x == 1.5f64.to_bits()));
    assert!(matches!(one("SELECT id FROM t LIMIT 1"), Value::I64(1)));
}

#[test]
fn insert_endpoint_accepts_typed_json_rows() {
    let mut db = seeded();
    let three = rows(r#"[[3, "три", 3.5, true, [5.0, 6.0]]]"#);
    assert_eq!(insert(&mut db, "t", &three, &kernel()).unwrap(), 1);
    assert_eq!(count(&mut db), 3);
}

#[test]
fn insert_rejects_wrong_types_and_names_the_column() {
    let mut db = seeded();
    let bad = rows(r#"[[3, "три", 3.5, true, [5.0, 6.0]], [1, "x", 1.0, true, [1.0]]]"#);
    let msg = insert(&mut db, "t", &bad, &kernel()).unwrap_err().message();
    assert_eq!(
        msg,
        "строка 1, колонка 'e': вектор длины 1 в колонку VECTOR(2)"
    );
    // Плохая пачка не должна применяться частично.
    assert_eq!(count(&mut db), 2);
    let short = rows("[[1]]");
    assert_eq!(
        insert(&mut db, "t", &short, &kernel())
            .unwrap_err()
            .message(),
        "строка 0: 1 значений при 5 колонках"
    );
}

#[test]
fn insert_into_missing_table_is_client_error() {
    let mut db = seeded();
    let e = insert(&mut db, "nope", &Vec::new(), &kernel()).unwrap_err();
    assert_eq!(e.message(), "таблица 'nope' не найдена");
}

#[test]
fn json_values_are_read_by_the_type_of_the_column() {
    assert!(matches!(read("-7", DataType::I64), Ok(Value::I64(-7))));
    assert_eq!(read("1.5", DataType::I64).unwrap_err(), "1.5 не целое");
    assert!(matches!(read("2", DataType::F64), Ok(Value::F64(x)) if x == 2.0f64.to_bits()));
    assert!(matches!(read("true", DataType::Bool), Ok(Value::Bool(true))));
    assert!(matches!(read("\"да\"", DataType::Str), Ok(Value::Str(s)) if s == "да"));
    assert!(matches!(read("[1, 0.5]", DataType::Vector(2)),
        Ok(Value::Vector(v)) if v == [1.0f32.to_bits(), 0.5f32.to_bits()]));
    assert_eq!(
        read("[1, \"x\"]", DataType::Vector(2)).unwrap_err(),
        "элемент вектора не число"
    );
    assert_eq!(
        read("null", DataType::I64).unwrap_err(),
        "значение null не подходит колонке INT"
    );
    assert_eq!(
        read("{\"a\":[1]}", DataType::Str).unwrap_err(),
        "значение {\"a\":[1]} не подходит колонке TEXT"
    );
}

#[test]
fn hex_goes_there_and_back() {
    let all: Vec<u8> = (0..=255).collect();
    assert_eq!(hex(&[0x00, 0x0f, 0xa0, 0xff]), "000fa0ff");
    assert_eq!(unhex(&hex(&all)).unwrap(), all);
    assert_eq!(unhex("0FA0").unwrap(), [0x0f, 0xa0]);
    assert!(unhex("").unwrap().is_empty());
    assert_eq!(
        unhex("abc").unwrap_err().message(),
        "нечётная длина hex-строки"
    );
    assert_eq!(
        unhex("zz").unwrap_err().message(),
        "hex: invalid digit found in string"
    );
    assert!(unhex("яё").is_err());
    assert_eq!(unhex("+f0a").unwrap(), [15, 10]);
    assert!(unhex("f+").is_err());
    assert!(unhex("-f").is_err());
    assert_eq!(WalQuery::default().after, 0);
}
