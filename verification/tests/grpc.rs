use veldb::float::{FloatOp, Floats, Kernel, SingleOp};
use veldb::grpc::{from_pb, insert, to_pb, Refusal, Wire};
use veldb::{DataType, Database, Value};

fn operate_single(op: SingleOp, a: u32, b: u32) -> u32 {
    let (x, y) = (f32::from_bits(a), f32::from_bits(b));
    let r = match op {
        SingleOp::Add => x + y,
        SingleOp::Sub => x - y,
        SingleOp::Mul => x * y,
        SingleOp::Div => x / y,
        SingleOp::Sqrt => x.sqrt(),
    };
    r.to_bits()
}

fn operate(op: FloatOp, a: u64, b: u64) -> u64 {
    let (x, y) = (f64::from_bits(a), f64::from_bits(b));
    let r = match op {
        FloatOp::Add => x + y,
        FloatOp::Sub => x - y,
        FloatOp::Mul => x * y,
        FloatOp::Div => x / y,
        FloatOp::Rem => x % y,
        FloatOp::Min => x.min(y),
        FloatOp::Max => x.max(y),
        FloatOp::Floor => x.floor(),
        FloatOp::Ceil => x.ceil(),
        FloatOp::Sqrt => x.sqrt(),
        FloatOp::Round => {
            let k = 10f64.powi(y as i32);
            (x * k).round() / k
        }
    };
    r.to_bits()
}

/// The arithmetic of the machine.
fn kernel() -> impl Floats {
    Kernel {
        apply: operate,
        of_int: |x: i64| (x as f64).to_bits(),
        as_int: |x: u64| f64::from_bits(x) as i64,
        as_count: |x: u64| f64::from_bits(x) as u64,
        narrow: |x: u64| (f64::from_bits(x) as f32).to_bits(),
        show: |x: u64| f64::from_bits(x).to_string(),
        show_single: |x: u32| f32::from_bits(x).to_string(),
        quote: |x: u64| format!("{:?}", f64::from_bits(x)),
        quote_single: |x: u32| format!("{:?}", f32::from_bits(x)),
        parse: |s: &str| s.parse::<f64>().ok().map(|x| x.to_bits()),
        parse_single: |s: &str| s.parse::<f32>().ok().map(|x| x.to_bits()),
        single: operate_single,
        widen: |x: u32| (f32::from_bits(x) as f64).to_bits(),
    }
}

fn run(db: &mut Database, sql: &str) -> Vec<Vec<Value>> {
    db.execute(sql, &kernel()).unwrap().rows
}

fn seeded() -> Database {
    let mut db = Database::new();
    run(
        &mut db,
        "CREATE TABLE t (id INT, name TEXT, w DOUBLE, ok BOOL, e VECTOR(2))",
    );
    run(
        &mut db,
        "INSERT INTO t VALUES (1,'один',1.5,true,'[1,2]'),(2,'два',2.5,false,'[3,4]')",
    );
    db
}

fn i(v: i64) -> Wire {
    Wire::I(v)
}

fn f(v: f64) -> Wire {
    Wire::F(v.to_bits())
}

fn s(v: &str) -> Wire {
    Wire::S(v.into())
}

fn b(v: bool) -> Wire {
    Wire::B(v)
}

fn vec(v: &[f32]) -> Wire {
    Wire::V(v.iter().map(|x| x.to_bits()).collect())
}

fn told(e: Refusal) -> String {
    match e {
        Refusal::NotFound(e) => format!("not found: {}", e.message()),
        Refusal::Invalid(e) => format!("invalid: {}", e.message()),
    }
}

#[test]
fn query_round_trips_every_value_kind() {
    let mut db = seeded();
    let r = db
        .execute(
            "SELECT id, name, w, ok, e FROM t WHERE id = 2",
            &kernel(),
        )
        .unwrap();
    assert_eq!(r.columns, ["id", "name", "w", "ok", "e"]);
    let types: Vec<String> = r.types.iter().map(|t| t.name()).collect();
    assert_eq!(types, ["INT", "TEXT", "DOUBLE", "BOOL", "VECTOR(2)"]);
    assert_eq!(r.rows.len(), 1);
    let sent: Vec<String> = r.rows[0].iter().map(|v| format!("{:?}", to_pb(v))).collect();
    let want: Vec<String> = [i(2), s("два"), f(2.5), b(false), vec(&[3.0, 4.0])]
        .iter()
        .map(|w| format!("{w:?}"))
        .collect();
    assert_eq!(sent, want);
}

#[test]
fn insert_then_query_sees_the_rows() {
    let mut db = seeded();
    let rows = vec![
        vec![i(3), s("три"), f(3.5), b(true), vec(&[5.0, 6.0])],
        vec![i(4), s("четыре"), f(4.5), b(true), vec(&[7.0, 8.0])],
    ];
    assert_eq!(insert(&mut db, "t", &rows, &kernel()).unwrap(), 2);
    assert!(matches!(
        run(&mut db, "SELECT count(*) FROM t")[0][0],
        Value::I64(4)
    ));
}

#[test]
fn integer_literal_widens_into_double_column() {
    let mut db = seeded();
    // Клиенту не обязано быть известно, что 3 — это DOUBLE: тип берётся из схемы.
    let rows = vec![vec![i(9), s("девять"), i(3), b(true), vec(&[0.0, 0.0])]];
    insert(&mut db, "t", &rows, &kernel()).unwrap();
    assert!(matches!(
        run(&mut db, "SELECT w FROM t WHERE id = 9")[0][0],
        Value::F64(x) if x == 3.0f64.to_bits()
    ));
}

#[test]
fn insert_into_missing_table_is_not_found() {
    let mut db = seeded();
    let e = insert(&mut db, "nope", &Vec::new(), &kernel()).unwrap_err();
    assert_eq!(told(e), "not found: таблица 'nope' не найдена");
}

#[test]
fn wrong_vector_dimension_is_rejected_with_column_name() {
    let mut db = seeded();
    let rows = vec![vec![i(5), s("x"), f(1.0), b(true), vec(&[1.0])]];
    let e = told(insert(&mut db, "t", &rows, &kernel()).unwrap_err());
    assert!(e.starts_with("invalid: строка 0, колонка 'e': "), "{e}");
}

#[test]
fn what_is_sent_is_read_back() {
    let values = [
        (Value::I64(-3), DataType::I64),
        (Value::F64(0.1f64.to_bits()), DataType::F64),
        (Value::Bool(true), DataType::Bool),
        (Value::Str("ё".into()), DataType::Str),
        (Value::Vector(vec![1.5f32.to_bits()]), DataType::Vector(1)),
    ];
    for (v, ty) in &values {
        let back = from_pb(&to_pb(v), *ty, &kernel()).unwrap();
        assert_eq!(format!("{back:?}"), format!("{v:?}"));
    }
    let refused = |w: &Wire, ty: DataType| from_pb(w, ty, &kernel()).unwrap_err().message();
    assert_eq!(refused(&Wire::Missing, DataType::I64), "пустое значение");
    assert_eq!(
        refused(&s("x"), DataType::I64),
        "значение не подходит колонке INT"
    );
}
