use std::cell::RefCell;
use veldb::exec::scalar::scalar_func;
use veldb::exec::{render, Arr, QueryResult};
use veldb::float::{FloatOp, Floats, Kernel, SingleOp};
use veldb::parse::parse_sql;
use veldb::plan::{ScalarFunc, Statement};
use veldb::token::{refusal_of, tokenize};
use veldb::{Database, Value};

fn operate_single(op: SingleOp, a: u32, b: u32) -> u32 {
    let (x, y) = (f32::from_bits(a), f32::from_bits(b));
    let r = match op {
        SingleOp::Add => x + y,
        SingleOp::Sub => x - y,
        SingleOp::Mul => x * y,
        SingleOp::Div => x / y,
        SingleOp::Sqrt => x.sqrt(),
    };
    r.to_bits()
}

fn operate(op: FloatOp, a: u64, b: u64) -> u64 {
    let (x, y) = (f64::from_bits(a), f64::from_bits(b));
    let r = match op {
        FloatOp::Add => x + y,
        FloatOp::Sub => x - y,
        FloatOp::Mul => x * y,
        FloatOp::Div => x / y,
        FloatOp::Rem => x % y,
        FloatOp::Min => x.min(y),
        FloatOp::Max => x.max(y),
        FloatOp::Floor => x.floor(),
        FloatOp::Ceil => x.ceil(),
        FloatOp::Sqrt => x.sqrt(),
        FloatOp::Round => {
            let k = 10f64.powi(y as i32);
            (x * k).round() / k
        }
    };
    r.to_bits()
}

/// The arithmetic of the machine.
fn kernel() -> impl Floats {
    Kernel {
        apply: operate,
        of_int: |x: i64| (x as f64).to_bits(),
        as_int: |x: u64| f64::from_bits(x) as i64,
        as_count: |x: u64| f64::from_bits(x) as u64,
        narrow: |x: u64| (f64::from_bits(x) as f32).to_bits(),
        show: |x: u64| f64::from_bits(x).to_string(),
        show_single: |x: u32| f32::from_bits(x).to_string(),
        quote: |x: u64| format!("{:?}", f64::from_bits(x)),
        quote_single: |x: u32| format!("{:?}", f32::from_bits(x)),
        parse: |s: &str| s.parse::<f64>().ok().map(|x| x.to_bits()),
        parse_single: |s: &str| s.parse::<f32>().ok().map(|x| x.to_bits()),
        single: operate_single,
        widen: |x: u32| (f32::from_bits(x) as f64).to_bits(),
    }
}

/// A database behind a shared handle.
struct Db(RefCell<Database>);

impl Db {
    fn new() -> Db {
        Db(RefCell::new(Database::new()))
    }

    fn execute(&self, sql: &str) -> Result<QueryResult, String> {
        self.0
            .borrow_mut()
            .execute(sql, &kernel())
            .map_err(|e| e.message())
    }
}

fn q(db: &Db, sql: &str) -> Vec<String> {
    let r = db.execute(sql).unwrap_or_else(|e| panic!("{sql}\n  -> {e}"));
    r.rows
        .iter()
        .map(|row| {
            row.iter()
                .map(|v| render(v, &kernel()))
                .collect::<Vec<_>>()
                .join("|")
        })
        .collect()
}

fn err(db: &Db, sql: &str) -> String {
    db.execute(sql).unwrap_err()
}

fn goods() -> Db {
    let db = Db::new();
    db.execute("CREATE TABLE g (id INT, name TEXT, price DOUBLE, ok BOOL, e VECTOR(2))")
        .unwrap();
    db.execute(
        "INSERT INTO g VALUES
         (1, 'чай', 1.5, true, '[1,0]'),
         (2, 'кофе', -2.5, false, ARRAY[0,1]),
         (3, 'Какао', 0.5, true, '[0.5,0.5]')",
    )
    .unwrap();
    db
}

fn one(db: &Db, expr: &str) -> String {
    q(db, &format!("SELECT {expr} FROM g LIMIT 1"))[0].clone()
}

#[test]
fn every_form_of_an_expression() {
    let db = goods();
    assert_eq!(one(&db, "g.id + 1"), "2");
    assert_eq!(one(&db, "-id"), "-1");
    assert_eq!(one(&db, "+id"), "1");
    assert_eq!(one(&db, "-5"), "-5");
    assert_eq!(one(&db, "-1.5"), "-1.5");
    assert_eq!(one(&db, "NOT ok"), "false");
    assert_eq!(one(&db, "(id + 2) * 3 - 1"), "8");
    assert_eq!(one(&db, "7 % 4"), "3");
    assert_eq!(one(&db, "-7 % 4"), "-3");
    assert_eq!(one(&db, "ok AND id = 1 OR id > 5"), "true");
    assert_eq!(one(&db, "id <= 1"), "true");
    assert_eq!(one(&db, "id BETWEEN 2 AND 3"), "false");
    assert_eq!(one(&db, "id NOT BETWEEN 2 AND 3"), "true");
    assert_eq!(one(&db, "id IN (1, 2)"), "true");
    assert_eq!(one(&db, "name ILIKE 'ЧА_'"), "true");
    assert_eq!(one(&db, "CAST(price AS INT)"), "1");
    assert_eq!(one(&db, "CAST(id AS TEXT)"), "1");
    assert_eq!(one(&db, "CAST('12' AS INT)"), "12");
    assert_eq!(one(&db, "CAST('0.5' AS DOUBLE)"), "0.5");
    assert_eq!(one(&db, "substring(name FROM 2)"), "ай");
    assert_eq!(one(&db, "substring(name, 2, 1)"), "а");
    assert_eq!(one(&db, "ceil(price)"), "2");
    assert_eq!(one(&db, "floor(price)"), "1");
    assert_eq!(one(&db, "sqrt(4)"), "2");
    assert_eq!(one(&db, "round(price)"), "2");
    assert_eq!(one(&db, "lower('ЧАЙ')"), "чай");
    assert_eq!(one(&db, "coalesce(name, 'x')"), "чай");
    assert_eq!(one(&db, "CASE WHEN id = 2 THEN 'два' ELSE 'не два' END"), "не два");
    assert_eq!(one(&db, "date_trunc('day', 86401)"), "86400");
    assert_eq!(one(&db, "e"), "[1,0]");
    assert_eq!(one(&db, "inner_product(e, '[2,3]')"), "-2");
    assert_eq!(one(&db, "cosine_distance(e, '[0,0]')"), "1");
    assert_eq!(one(&db, "'it''s'"), "it's");
}

#[test]
fn every_refusal_of_an_expression() {
    let db = goods();
    let refused = |expr: &str| err(&db, &format!("SELECT {expr} FROM g"));
    assert_eq!(refused("g.nope"), "нет колонки 'nope'");
    assert!(refused("id IS NOT NULL").contains("NULL"));
    assert_eq!(
        refused("name LIKE 5"),
        "шаблон LIKE должен быть строкой, получено I64(5)"
    );
    assert_eq!(
        refused("EXTRACT(WEEK FROM id)"),
        "EXTRACT(WEEK) не поддерживается"
    );
    assert_eq!(refused("id || name"), "оператор не поддерживается: ||");
    assert_eq!(refused("sum(*)"), "sum(*) не имеет смысла");
    assert_eq!(refused("max(id, id)"), "max принимает один аргумент");
    assert_eq!(
        refused("count(*) OVER ()"),
        "оконные функции не поддерживаются"
    );
    assert_eq!(
        refused("l2_distance(e)"),
        "l2_distance принимает (векторная_колонка, вектор_запроса)"
    );
    assert_eq!(
        refused("l2_distance(1, '[1,2]')"),
        "первый аргумент l2_distance должен быть векторной колонкой"
    );
    assert_eq!(
        refused("l2_distance(id, '[1,2]')"),
        "колонка 'id' имеет тип INT, а не VECTOR"
    );
    assert_eq!(
        refused("l2_distance(e, 5)"),
        "вектор задаётся как '[1,2,3]', получено 5"
    );
    assert_eq!(
        refused("l2_distance(e, id)"),
        "вектор задаётся как '[1,2,3]' или ARRAY[1,2,3], получено 'id'"
    );
    assert_eq!(refused("l2_distance(e, '[]')"), "пустой вектор");
    assert_eq!(
        refused("l2_distance(e, '[1, x]')"),
        "элемент вектора ' x': invalid float literal"
    );
    assert_eq!(refused("abs(1, 2)"), "abs: неверное число аргументов (2)");
    assert_eq!(
        refused("id IN (id)"),
        "здесь ожидался литерал, а не 'id'"
    );
    assert_eq!(refused("CAST(id AS DATE)"), "тип не поддерживается: DATE");
    assert!(refused("id AND ok").contains("логическ"));
}

#[test]
fn every_refusal_of_a_query() {
    let db = goods();
    assert_eq!(err(&db, ""), "пустой запрос");
    assert!(err(&db, "SELEC 1").starts_with("разбор SQL: "));
    assert_eq!(
        err(&db, "WITH x AS (SELECT 1) SELECT id FROM g"),
        "CTE (WITH) не поддерживаются"
    );
    assert_eq!(
        err(&db, "SELECT id FROM g UNION SELECT id FROM g"),
        "поддерживается только простой SELECT (без UNION и подзапросов)"
    );
    assert_eq!(
        err(&db, "SELECT DISTINCT id FROM g"),
        "SELECT DISTINCT не поддерживается; используйте GROUP BY"
    );
    assert_eq!(
        err(&db, "SELECT g.* FROM g"),
        "элемент SELECT не поддерживается: g.*"
    );
    assert_eq!(
        err(&db, "SELECT id FROM g GROUP BY ALL"),
        "GROUP BY ALL не поддерживается"
    );
    assert_eq!(
        err(&db, "SELECT count(*) FROM g GROUP BY count(*)"),
        "агрегат в GROUP BY"
    );
    assert_eq!(
        err(&db, "SELECT id FROM g ORDER BY 2"),
        "ORDER BY: ссылка на колонку 2: в SELECT их 1"
    );
    assert_eq!(
        err(&db, "SELECT id FROM g WHERE nope = 1"),
        "WHERE: нет колонки 'nope'"
    );
    assert_eq!(
        err(&db, "SELECT id FROM g LIMIT -1"),
        "LIMIT/OFFSET должен быть неотрицательным целым, получено I64(-1)"
    );
    assert!(err(&db, "SELECT * FROM (SELECT 1)").contains("не поддерживается"));
    assert_eq!(
        err(&db, "SELECT id FROM g LIMIT 1.0"),
        "LIMIT/OFFSET должен быть неотрицательным целым, получено F64(1.0)"
    );
    assert_eq!(
        err(&db, "SELECT id FROM g LIMIT 'a\"b'"),
        "LIMIT/OFFSET должен быть неотрицательным целым, получено Str(\"a\\\"b\")"
    );
    assert_eq!(err(&db, "DROP VIEW g"), "DROP поддерживается только для TABLE");
    assert!(err(&db, "UPDATE g SET id = 1").starts_with("оператор не поддерживается: "));
    assert_eq!(
        err(&db, "CREATE TABLE c AS SELECT 1"),
        "CREATE TABLE AS SELECT не поддерживается"
    );
    assert_eq!(
        err(&db, "CREATE TABLE c (a POINT3)"),
        "неизвестный тип 'POINT3'"
    );
    assert_eq!(
        err(&db, "CREATE TABLE c (a VECTOR)"),
        "VECTOR требует размерность: VECTOR(768)"
    );
    assert_eq!(
        err(&db, "INSERT INTO g SELECT 1"),
        "INSERT ... SELECT не поддерживается"
    );
    assert_eq!(
        err(&db, "INSERT INTO g (nope) VALUES (1)"),
        "в таблице 'g' нет колонки 'nope'"
    );
    assert_eq!(
        err(&db, "INSERT INTO g VALUES (1)"),
        "в строке 1 значений, ожидалось 5"
    );
    assert_eq!(
        err(&db, "INSERT INTO nope VALUES (1)"),
        "таблица 'nope' не найдена"
    );
    assert_eq!(
        err(&db, "CREATE TABLE g (a INT)"),
        "таблица 'g' уже существует"
    );
    assert_eq!(err(&db, "DESCRIBE nope"), "таблица 'nope' не найдена");
    db.execute("CREATE TABLE IF NOT EXISTS g (a INT)").unwrap();
    assert_eq!(q(&db, "SELECT count(*) FROM g"), ["3"]);
}

#[test]
fn rows_before_a_wrong_one_stay() {
    let db = goods();
    let e = err(
        &db,
        "INSERT INTO g VALUES (4, 'ok', 1, true, '[1,1]'), (5, 6, 1, true, '[1,1]')",
    );
    assert_eq!(e, "колонка 'name': ожидался TEXT, получен INT");
    assert_eq!(q(&db, "SELECT id FROM g"), ["1", "2", "3", "4"]);
}

#[test]
fn limits_of_a_query() {
    let db = goods();
    assert_eq!(q(&db, "SELECT id FROM g LIMIT 1, 2"), ["2", "3"]);
    assert_eq!(
        q(&db, "SELECT id FROM g ORDER BY price LIMIT 2"),
        ["2", "3"]
    );
    assert_eq!(
        q(&db, "SELECT id FROM g LIMIT 9223372036854775807 OFFSET 1"),
        ["2", "3"]
    );
}

#[test]
fn order_puts_every_value_in_its_place() {
    let db = goods();
    // Capital letters come before small ones, as their code points do.
    assert_eq!(
        q(&db, "SELECT name FROM g ORDER BY name"),
        ["Какао", "кофе", "чай"]
    );
    assert_eq!(
        q(&db, "SELECT id FROM g ORDER BY ok DESC, id DESC"),
        ["3", "1", "2"]
    );
    assert_eq!(
        q(&db, "SELECT id AS price FROM g ORDER BY price"),
        ["2", "3", "1"],
        "колонка важнее алиаса"
    );
}

#[test]
fn groups_come_in_the_order_of_their_first_rows() {
    let db = goods();
    assert_eq!(
        q(&db, "SELECT ok, count(*), min(id), max(name) FROM g GROUP BY ok"),
        ["true|2|1|чай", "false|1|2|кофе"]
    );
    assert_eq!(
        q(
            &db,
            "SELECT ok, sum(price) FROM g GROUP BY ok HAVING sum(price) > 0"
        ),
        ["true|2"]
    );
}

#[test]
fn sums_of_integers_stop_at_their_ends() {
    let db = Db::new();
    db.execute("CREATE TABLE n (x INT)").unwrap();
    db.execute("INSERT INTO n VALUES (9223372036854775807), (1), (-1)")
        .unwrap();
    assert_eq!(q(&db, "SELECT sum(x) FROM n"), ["9223372036854775806"]);
    assert_eq!(
        q(&db, "SELECT -x FROM n WHERE x = 1"),
        ["-1"]
    );
}

#[test]
fn names_of_tables_and_columns_ignore_case() {
    let db = goods();
    assert_eq!(q(&db, "SELECT ID FROM G WHERE NAME = 'чай'"), ["1"]);
    db.execute("DROP TABLE G").unwrap();
    assert!(q(&db, "SHOW TABLES").is_empty());
}

#[test]
fn a_question_changes_nothing() {
    let db = goods();
    let before = db.0.borrow().snapshot_bytes();
    q(&db, "SELECT * FROM g");
    q(&db, "SHOW TABLES");
    q(&db, "DESCRIBE g");
    err(&db, "SELECT nope FROM g");
    assert_eq!(db.0.borrow().snapshot_bytes(), before);
}

#[test]
fn titles_of_columns_are_the_texts_of_their_expressions() {
    let db = goods();
    let r = db
        .execute("SELECT id, qty.id + 1, count(*) AS n FROM g GROUP BY id, qty.id + 1 LIMIT 1")
        .unwrap();
    assert_eq!(r.columns, ["id", "qty.id + 1", "n"]);
    let types: Vec<String> = r.types.iter().map(|t| t.name()).collect();
    assert_eq!(types, ["INT", "INT", "INT"]);
}

#[test]
fn results_carry_their_message() {
    let db = Db::new();
    let told = |sql: &str| q(&db, sql)[0].clone();
    assert_eq!(told("CREATE TABLE m (x INT)"), "таблица 'm' создана");
    assert_eq!(
        told("CREATE TABLE IF NOT EXISTS m (x INT)"),
        "таблица 'm' уже есть"
    );
    assert_eq!(
        told("INSERT INTO m VALUES (1), (2)"),
        "вставлено строк: 2"
    );
    assert_eq!(told("DROP TABLE m"), "таблица 'm' удалена");
}

#[test]
fn over_no_rows_an_aggregate_is_neutral() {
    let db = goods();
    assert_eq!(
        q(
            &db,
            "SELECT count(*), sum(id), avg(price), min(id), max(name), uniq(id), sum(price)
             FROM g WHERE id > 9"
        ),
        ["0|0|0|0||0|0"]
    );
}

#[test]
fn counts_of_groups_add_up_to_the_rows() {
    let db = goods();
    assert_eq!(
        q(&db, "SELECT count(*) FROM g GROUP BY id % 2 ORDER BY 1"),
        ["1", "2"]
    );
    assert_eq!(q(&db, "SELECT uniq(ok), count(DISTINCT id) FROM g"), ["2|3"]);
}

#[test]
fn no_row_left_out_is_closer() {
    let db = goods();
    assert_eq!(
        q(&db, "SELECT id FROM g ORDER BY l2_distance(e, '[0,1]') LIMIT 2"),
        ["2", "3"]
    );
    assert_eq!(
        q(&db, "SELECT id FROM g ORDER BY l2_distance(e, '[0,0]') LIMIT 9"),
        ["3", "1", "2"]
    );
}

#[test]
fn case_without_else_is_neutral_by_the_type_of_its_values() {
    let db = goods();
    let case = |expr: &str| q(&db, &format!("SELECT {expr} FROM g"));
    assert_eq!(case("CASE WHEN id > 1 THEN 1 END"), ["0", "1", "1"]);
    assert_eq!(case("CASE WHEN id > 1 THEN price END"), ["0", "-2.5", "0.5"]);
    assert_eq!(case("CASE WHEN id > 1 THEN name END"), ["", "кофе", "Какао"]);
    assert_eq!(
        case("CASE id WHEN 1 THEN 10 WHEN 2 THEN 20 END"),
        ["10", "20", "0"]
    );
    assert_eq!(
        case("CASE id WHEN 1 THEN 'a' WHEN 2 THEN 'b' END"),
        ["a", "b", ""]
    );
    // Only CASE goes without the last value.
    assert_eq!(
        err(&db, "SELECT if(ok, 1) FROM g"),
        "if: неверное число аргументов (2)"
    );
}

#[test]
fn only_count_takes_distinct() {
    let db = goods();
    for f in ["sum", "avg", "min", "max"] {
        assert_eq!(
            err(&db, &format!("SELECT {f}(DISTINCT id) FROM g")),
            "DISTINCT допустим только в count"
        );
    }
}

#[test]
fn only_keys_and_aggregates_are_asked_of_groups() {
    let db = goods();
    assert_eq!(
        err(&db, "SELECT name FROM g GROUP BY ok"),
        "'name' не агрегат и не входит в GROUP BY"
    );
    assert_eq!(
        err(&db, "SELECT ok, count(*) FROM g GROUP BY ok ORDER BY name"),
        "ORDER BY: выражение не агрегат и не входит в GROUP BY"
    );
    assert_eq!(
        err(&db, "SELECT ok, count(*) FROM g GROUP BY ok HAVING id > 1"),
        "HAVING: выражение не агрегат и не входит в GROUP BY"
    );
    assert_eq!(
        q(&db, "SELECT ok FROM g GROUP BY ok HAVING max(id) > 2 ORDER BY sum(price) + 1"),
        ["true"]
    );
}

#[test]
fn arguments_that_a_function_does_not_need_are_passed_over() {
    let texts = |v: &[&str]| Arr::Str(v.iter().map(|s| s.to_string()).collect());
    let call = |func: ScalarFunc, args: Vec<Arr>| scalar_func(func, args, &kernel());
    let r = call(ScalarFunc::Length, vec![texts(&["чай"]), texts(&["x"])]).unwrap();
    assert!(matches!(r, Arr::I64(v) if v[..] == [3]));
    let args = vec![
        texts(&["абвг"]),
        Arr::I64(vec![2]),
        Arr::I64(vec![2]),
        Arr::Bool(vec![1]),
    ];
    let r = call(ScalarFunc::Substring, args).unwrap();
    assert!(matches!(r, Arr::Str(v) if v[..] == ["бв"]));
    let e = call(ScalarFunc::Substring, vec![texts(&["абвг"])]).unwrap_err();
    assert_eq!(e.message(), "неверное число аргументов: 1");
}

#[test]
fn values_behind_the_named_columns_are_left_out() {
    let db = Db::new();
    db.execute("CREATE TABLE t (a INT, b TEXT)").unwrap();
    let insert = |rows: Vec<Vec<Value>>| {
        let stmt = Statement::Insert {
            table: "t".into(),
            columns: Some(vec!["b".into(), "a".into()]),
            rows,
        };
        db.0.borrow_mut().run(stmt, &kernel())
    };
    let x = Value::Str("x".into());
    insert(vec![vec![x, Value::I64(1), Value::I64(5)]]).unwrap();
    assert_eq!(q(&db, "SELECT a, b FROM t"), ["1|x"]);
    assert!(insert(vec![vec![Value::Str("y".into())]]).is_err());
    // A text with such a row is refused before that.
    assert_eq!(
        err(&db, "INSERT INTO t (b, a) VALUES ('x', 1, 5)"),
        "в строке 3 значений, ожидалось 2"
    );
}

#[test]
fn a_channel_without_a_name_is_an_error() {
    let db = goods();
    let told = "разбор SQL: FLUSH RELAY LOGS FOR CHANNEL: нет имени канала";
    for sql in [
        "FLUSH RELAY LOGS FOR CHANNEL",
        "flush relay logs for channel 5",
        "FLUSH LOCAL RELAY /* c */ LOGS FOR CHANNEL;",
        "FLUSH NO_WRITE_TO_BINLOG RELAY LOGS -- c\n FOR CHANNEL (",
        "FLUSH RELAY LOGS FOR CHANNEL a.",
        "FLUSH RELAY LOGS FOR CHANNEL a.'b'.*",
        "EXPLAIN FLUSH RELAY LOGS FOR CHANNEL",
        "SELECT 1; FLUSH RELAY LOGS FOR CHANNEL",
        "/*! FLUSH */ RELAY LOGS FOR CHANNEL",
    ] {
        assert_eq!(err(&db, sql), told, "{sql}");
        assert!(parse_sql(sql).is_err());
        assert!(refusal_of(&tokenize(sql).unwrap()).is_some());
    }
    // With a name the parser takes it, and it is refused as a statement.
    for sql in [
        "FLUSH RELAY LOGS FOR CHANNEL a",
        "FLUSH RELAY LOGS FOR CHANNEL a.'b'.\"c\"",
        "FLUSH LOCAL RELAY LOGS FOR CHANNEL 'a'",
        "FLUSH RELAY LOGS",
    ] {
        assert_eq!(parse_sql(sql).unwrap().len(), 1, "{sql}");
        assert!(err(&db, sql).contains("не поддерживается"), "{sql}");
    }
    // Words inside quotes are no keywords.
    assert_eq!(
        q(&db, "SELECT 'FLUSH RELAY LOGS FOR CHANNEL' FROM g LIMIT 1"),
        ["FLUSH RELAY LOGS FOR CHANNEL"]
    );
    assert!(tokenize("'open").is_err());
    assert!(err(&db, "SELECT 'open").starts_with("разбор SQL: "));
}

#[test]
fn limit_by_is_refused_wherever_it_stands() {
    let db = goods();
    for sql in [
        "SELECT id FROM g LIMIT ALL BY id",
        "SELECT (id) FROM g LIMIT 1 BY id",
    ] {
        assert_eq!(err(&db, sql), "LIMIT BY не поддерживается");
        assert!(refusal_of(&tokenize(sql).unwrap()).is_none());
    }
    for sql in [
        "SELECT (SELECT 1 FROM g LIMIT ALL BY id) FROM g",
        "SELECT id FROM (SELECT 1 FROM g limit /* c */ all by id)",
        "EXPLAIN SELECT 1 FROM g LIMIT ALL BY id",
        "SELECT 1; EXPLAIN SELECT 1 FROM g LIMIT ALL BY id",
    ] {
        assert_eq!(
            err(&db, sql),
            "разбор SQL: LIMIT ALL BY не поддерживается",
            "{sql}"
        );
    }
    assert_eq!(q(&db, "SELECT 'LIMIT ALL BY' FROM g LIMIT 1"), ["LIMIT ALL BY"]);
    assert_eq!(q(&db, "SELECT id FROM g LIMIT ALL"), ["1", "2", "3"]);
}
