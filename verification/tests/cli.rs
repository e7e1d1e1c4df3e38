use veldb::cli::{
    complete, format_table, is_complete, is_ddl, keywords, meta, needs_more, read_answer, read_line,
    read_reply, render, split_statements, word_at, Catalog, Input, Meta,
};
use veldb::client::{normalize, refusal, refusal_in};
use veldb::float::{FloatOp, Floats, Kernel, SingleOp};
use veldb::Database;

fn operate_single(op: SingleOp, a: u32, b: u32) -> u32 {
    let (x, y) = (f32::from_bits(a), f32::from_bits(b));
    let r = match op {
        SingleOp::Add => x + y,
        SingleOp::Sub => x - y,
        SingleOp::Mul => x * y,
        SingleOp::Div => x / y,
        SingleOp::Sqrt => x.sqrt(),
    };
    r.to_bits()
}

fn operate(op: FloatOp, a: u64, b: u64) -> u64 {
    let (x, y) = (f64::from_bits(a), f64::from_bits(b));
    let r = match op {
        FloatOp::Add => x + y,
        FloatOp::Sub => x - y,
        FloatOp::Mul => x * y,
        FloatOp::Div => x / y,
        FloatOp::Rem => x % y,
        FloatOp::Min => x.min(y),
        FloatOp::Max => x.max(y),
        FloatOp::Floor => x.floor(),
        FloatOp::Ceil => x.ceil(),
        FloatOp::Sqrt => x.sqrt(),
        FloatOp::Round => {
            let k = 10f64.powi(y as i32);
            (x * k).round() / k
        }
    };
    r.to_bits()
}

/// The arithmetic of the machine.
fn kernel() -> impl Floats {
    Kernel {
        apply: operate,
        of_int: |x: i64| (x as f64).to_bits(),
        as_int: |x: u64| f64::from_bits(x) as i64,
        as_count: |x: u64| f64::from_bits(x) as u64,
        narrow: |x: u64| (f64::from_bits(x) as f32).to_bits(),
        show: |x: u64| f64::from_bits(x).to_string(),
        show_single: |x: u32| f32::from_bits(x).to_string(),
        quote: |x: u64| format!("{:?}", f64::from_bits(x)),
        quote_single: |x: u32| format!("{:?}", f32::from_bits(x)),
        parse: |s: &str| s.parse::<f64>().ok().map(|x| x.to_bits()),
        parse_single: |s: &str| s.parse::<f32>().ok().map(|x| x.to_bits()),
        single: operate_single,
        widen: |x: u32| (f32::from_bits(x) as f64).to_bits(),
    }
}

fn catalog() -> Catalog {
    let schema = r#"{
        "tables": [
            { "name": "sales", "columns": [{"name":"id"},{"name":"city"},{"name":"price"}] },
            { "name": "docs",  "columns": [{"name":"id"},{"name":"embedding"}] }
        ]
    }"#;
    Catalog::from_schema_json(&serde_json::from_str(schema).unwrap())
}

fn names(line: &str) -> Vec<String> {
    complete(line, line.len(), &catalog()).1
}

#[test]
fn after_from_only_tables_are_offered() {
    assert_eq!(names("SELECT * FROM "), ["docs", "sales"]);
    assert_eq!(names("SELECT * FROM s"), ["sales"]);
    assert_eq!(names("INSERT INTO d"), ["docs"]);
    // Позиция дополнения — начало слова, а не курсор.
    assert_eq!(complete("SELECT * FROM sa", 16, &catalog()).0, 14);
}

#[test]
fn elsewhere_columns_and_keywords_are_offered() {
    let c = names("SELECT ci");
    assert!(c.contains(&"city".to_string()));
    let k = names("SELECT * FROM sales WHE");
    assert!(k.contains(&"WHERE".to_string()));
    let f = names("SELECT l2_");
    assert_eq!(f, ["l2_distance("]);
    assert!(names("SELECT emb").contains(&"embedding".to_string()));
}

#[test]
fn completion_is_case_insensitive_and_deduplicated() {
    assert!(names("select CI").contains(&"city".to_string()));
    // `id` есть в обеих таблицах, но в списке должен быть один раз.
    let ids: Vec<_> = names("SELECT i")
        .into_iter()
        .filter(|s| s == "id")
        .collect();
    assert_eq!(ids.len(), 1);
}

#[test]
fn meta_commands_complete_too() {
    assert_eq!(names("\\d"), ["\\d", "\\dt"]);
    assert_eq!(names("\\t"), ["\\timing"]);
}

#[test]
fn empty_prefix_offers_everything_without_panicking() {
    assert!(!names("").is_empty());
    assert!(!names("SELECT ").is_empty());
    assert_eq!(complete("", 0, &Catalog::default()).0, 0);
}

#[test]
fn statement_is_complete_only_on_a_semicolon_outside_quotes() {
    assert!(is_complete("SELECT 1;"));
    assert!(is_complete("SELECT 1; \n"));
    assert!(!is_complete("SELECT 1"));
    assert!(!is_complete("SELECT 'a;b'"));
    assert!(is_complete("SELECT 'a;b';"));
    // Экранированная кавычка внутри литерала не закрывает строку.
    assert!(!is_complete("SELECT 'it''s; here'"));
    assert!(is_complete("SELECT 'it''s; here';"));
    assert!(!is_complete("SELECT 1; SELECT 2"));
}

#[test]
fn table_output_aligns_by_characters_not_bytes() {
    let out = format_table(
        &vec!["город".into(), "n".into()],
        &vec![
            vec!["Чита".into(), "3".into()],
            vec!["Москва".into(), "12".into()],
        ],
    );
    let lines: Vec<&str> = out.lines().collect();
    // Все строки рамки одной ширины в символах — иначе кириллица её ломает.
    let width = lines[0].chars().count();
    assert!(lines.iter().all(|l| l.chars().count() == width), "{out}");
    assert!(out.contains("Москва"));
}

#[test]
fn table_output_handles_no_rows() {
    let out = format_table(&vec!["a".into()], &vec![]);
    assert_eq!(out.lines().count(), 4);
}

#[test]
fn the_catalog_holds_what_the_server_told() {
    let cat = catalog();
    assert_eq!(cat.tables, ["docs", "sales"]);
    assert_eq!(cat.columns["sales"], ["id", "city", "price"]);
    assert_eq!(cat.columns["docs"], ["id", "embedding"]);
    let empty = Catalog::from_schema_json(&serde_json::from_str("[1]").unwrap());
    assert!(empty.tables.is_empty() && empty.columns.is_empty());
}

#[test]
fn a_word_starts_where_letters_and_digits_begin() {
    let word = |line: &str| word_at(line, line.len());
    assert_eq!(word("SELECT l2_d"), (7, "l2_d".to_string()));
    assert_eq!(word("SELECT (я"), (8, "я".to_string()));
    assert_eq!(word("SELECT "), (7, String::new()));
    assert_eq!(word_at("SELECT id", 8), (7, "i".to_string()));
    assert!(keywords().contains(&"SELECT"));
}

#[test]
fn commands_are_told_apart_by_their_first_word() {
    let told = |line: &str| format!("{:?}", meta(line));
    assert!(matches!(meta("\\q"), Meta::Quit));
    assert!(matches!(meta("\\quit now"), Meta::Quit));
    assert_eq!(told("\\dt"), "Query(\"SHOW TABLES\")");
    assert_eq!(told("\\d"), "Query(\"SHOW TABLES\")");
    assert_eq!(told("\\d  docs"), "Query(\"DESCRIBE docs\")");
    assert!(matches!(meta("\\timing"), Meta::Timing));
    assert!(matches!(meta("\\refresh"), Meta::Refresh));
    assert!(matches!(meta("\\snapshot"), Meta::Snapshot));
    assert!(matches!(meta("\\help"), Meta::Help));
    assert_eq!(told("\\nope x"), "Unknown(\"\\\\nope\")");
}

#[test]
fn lines_are_read_until_a_statement_is_whole() {
    let mut buf = String::new();
    let mut step = |line: &str| format!("{:?}", read_line(&mut buf, line));
    assert_eq!(step("   "), "Nothing");
    assert_eq!(step("  \\dt "), "Command(\"\\\\dt\")");
    assert_eq!(step("SELECT 1;"), "Run(\"SELECT 1\")");
    assert_eq!(step("SELECT 'a;b' AS s;"), "Run(\"SELECT 'a;b' AS s\")");
    assert_eq!(step("SELECT id,"), "More");
    assert_eq!(step("title;"), "Run(\"SELECT id,\\ntitle\")");
    assert_eq!(step("SELECT f("), "More");
    assert_eq!(step(""), "More");
    assert_eq!(step("1);;"), "Run(\"SELECT f(\\n\\n1)\")");
    assert_eq!(step("SELECT 1"), "More");
    assert_eq!(step(""), "Run(\"SELECT 1\")");
    assert_eq!(step(";"), "Nothing");
}

#[test]
fn cli_repl_handles_meta_commands_and_multiline_input() {
    let mut buf = String::new();
    let mut step = |line: &str| format!("{:?}", read_line(&mut buf, line));
    assert_eq!(step("\\dt"), "Command(\"\\\\dt\")");
    assert_eq!(step("SELECT id, title"), "More");
    assert_eq!(step("FROM docs"), "More");
    assert_eq!(
        step("WHERE title = 'чай';"),
        "Run(\"SELECT id, title\\nFROM docs\\nWHERE title = 'чай'\")"
    );
    assert_eq!(step("\\q"), "Command(\"\\\\q\")");
}

#[test]
fn answers_are_read_as_they_come_over_the_wire() {
    let body = r#"{"columns": ["id"], "rows": [[1]], "elapsed_ms": 0.5}"#;
    let r = read_reply(body.as_bytes()).unwrap();
    assert_eq!(r.columns, ["id"]);
    assert_eq!(r.rows, [["1"]]);
    assert_eq!(r.elapsed, Some(0.5f64.to_bits()));
    let r = read_reply(b"{\"lsn\": 3}").unwrap();
    assert!(r.columns.is_empty() && r.elapsed.is_none());
    assert_eq!(r.text, "{\"lsn\":3}");
    assert!(read_reply(b"<html>").is_err());

    let body = r#"{"tables": [{"name": "b"}, {"name": "A", "columns": [{"name": "x"}]}]}"#;
    let cat = Catalog::from_schema_bytes(body.as_bytes()).unwrap();
    assert_eq!(cat.tables, ["A", "b"]);
    assert_eq!(cat.columns["a"], ["x"]);
    assert!(Catalog::from_schema_bytes(b"").is_err());

    let said = |body: &[u8]| refusal_in("h", "/query", body).message();
    assert_eq!(said("{\"error\": \"нет\"}".as_bytes()), "h/query: нет");
    assert_eq!(said(b"{\"error\": 5}"), "h/query: {\"error\": 5}");
    assert_eq!(said("тело".as_bytes()), "h/query: тело");
    assert_eq!(said(b"a\xff"), "h/query: a\u{fffd}");
}

#[test]
fn input_goes_on_in_an_open_bracket_or_string() {
    assert!(needs_more("SELECT f(1"));
    assert!(!needs_more("SELECT f(1)"));
    assert!(needs_more("SELECT 'a"));
    assert!(!needs_more("SELECT 'a)'"));
    assert!(is_ddl("  CREATE TABLE t (a INT)"));
    assert!(is_ddl("drop table t"));
    assert!(!is_ddl("SELECT 1"));
}

#[test]
fn a_script_is_cut_at_semicolons_outside_strings() {
    assert_eq!(
        split_statements("SELECT 'a;b' ;\n\n SHOW TABLES;; SELECT 1 "),
        ["SELECT 'a;b'", "SHOW TABLES", "SELECT 1"]
    );
    assert!(split_statements(" ;\n").is_empty());
}

#[test]
fn an_answer_is_shown_as_a_table() {
    let v = serde_json::from_str(
        r#"{"columns": ["id", 7], "rows": [[1, "чай"], [null, 2.5], [[1.0,2.0], true]]}"#,
    )
    .unwrap();
    let (columns, rows) = read_answer(&v);
    assert_eq!(columns, ["id", "?"]);
    assert_eq!(rows, [["1", "чай"], ["", "2.5"], ["[1.0,2.0]", "true"]]);
    let empty = read_answer(&serde_json::from_str("{}").unwrap());
    assert!(empty.0.is_empty() && empty.1.is_empty());
    assert_eq!(render(&serde_json::from_str("{\"a\": 1}").unwrap()), "{\"a\":1}");
    assert_eq!(
        format_table(&vec!["a".into()], &vec![vec!["12".into()]]),
        "┌────┐\n│ a  │\n├────┤\n│ 12 │\n└────┘"
    );
}

#[test]
fn addresses_and_refusals_of_a_server() {
    assert_eq!(normalize(" http://host:8080/ "), "host:8080");
    assert_eq!(normalize("https://host//"), "host");
    assert_eq!(normalize("host:1"), "host:1");
    for url in ["h:1", "h:1/", "http://h:1", "http://h:1/", "https://h:1", "https://h:1/"] {
        for space in ["", " ", "\t\u{3000}\n"] {
            let host = normalize(&format!("{space}{url}{space}"));
            assert_eq!(host, "h:1");
            assert_eq!(normalize(&host), host);
        }
    }
    assert_eq!(
        refusal("h", "/query", Some("нет".into()), "тело").message(),
        "h/query: нет"
    );
    assert_eq!(refusal("h", "/query", None, "тело").message(), "h/query: тело");
}

#[test]
fn describe_used_by_backslash_d_is_supported() {
    let mut db = Database::new();
    db.execute("CREATE TABLE t (id INT, e VECTOR(4))", &kernel())
        .unwrap();
    let r = db.execute("DESCRIBE t", &kernel()).unwrap();
    assert_eq!(r.columns, ["column", "type"]);
    assert_eq!(r.rows.len(), 2);
}
