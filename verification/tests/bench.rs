use veldb::bench::{
    generate, median, number_list, parse_field, render_report, short, split_sql, tsv_row,
    unescape_tsv, Lcg, Loader, Row, Summary, BATCH,
};
use veldb::float::{FloatOp, Floats, Kernel, SingleOp};
use veldb::size::{durability_named, parse_size, size_parts};
use veldb::storage::Durability;
use veldb::{DataType, Database, Value};

fn operate_single(op: SingleOp, a: u32, b: u32) -> u32 {
    let (x, y) = (f32::from_bits(a), f32::from_bits(b));
    let r = match op {
        SingleOp::Add => x + y,
        SingleOp::Sub => x - y,
        SingleOp::Mul => x * y,
        SingleOp::Div => x / y,
        SingleOp::Sqrt => x.sqrt(),
    };
    r.to_bits()
}

fn operate(op: FloatOp, a: u64, b: u64) -> u64 {
    let (x, y) = (f64::from_bits(a), f64::from_bits(b));
    let r = match op {
        FloatOp::Add => x + y,
        FloatOp::Sub => x - y,
        FloatOp::Mul => x * y,
        FloatOp::Div => x / y,
        FloatOp::Rem => x % y,
        FloatOp::Min => x.min(y),
        FloatOp::Max => x.max(y),
        FloatOp::Floor => x.floor(),
        FloatOp::Ceil => x.ceil(),
        FloatOp::Sqrt => x.sqrt(),
        FloatOp::Round => {
            let k = 10f64.powi(y as i32);
            (x * k).round() / k
        }
    };
    r.to_bits()
}

/// The arithmetic of the machine.
fn kernel() -> impl Floats {
    Kernel {
        apply: operate,
        of_int: |x: i64| (x as f64).to_bits(),
        as_int: |x: u64| f64::from_bits(x) as i64,
        as_count: |x: u64| f64::from_bits(x) as u64,
        narrow: |x: u64| (f64::from_bits(x) as f32).to_bits(),
        show: |x: u64| f64::from_bits(x).to_string(),
        show_single: |x: u32| f32::from_bits(x).to_string(),
        quote: |x: u64| format!("{:?}", f64::from_bits(x)),
        quote_single: |x: u32| format!("{:?}", f32::from_bits(x)),
        parse: |s: &str| s.parse::<f64>().ok().map(|x| x.to_bits()),
        parse_single: |s: &str| s.parse::<f32>().ok().map(|x| x.to_bits()),
        single: operate_single,
        widen: |x: u32| (f32::from_bits(x) as f64).to_bits(),
    }
}

fn hits() -> Database {
    let mut db = Database::new();
    db.execute(
        "CREATE TABLE hits (UserID INT, URL TEXT, Price DOUBLE, IsMobile BOOL)",
        &kernel(),
    )
    .unwrap();
    db
}

fn count(db: &mut Database) -> i64 {
    match db.execute("SELECT count(*) FROM hits", &kernel()).unwrap().rows[0][0] {
        Value::I64(n) => n,
        _ => panic!("count не целое"),
    }
}

#[test]
fn sizes_are_in_units_of_1024() {
    let size = |s: &str| parse_size(s, &kernel()).unwrap();
    assert_eq!(size("1073741824"), 1_073_741_824);
    assert_eq!(size("512MiB"), 512 << 20);
    assert_eq!(size(" 3GB "), 3 << 30);
    assert_eq!(size("1.5k"), 1536);
    assert_eq!(size("4KiB"), 4096);
    assert_eq!(size("2g"), 2 << 30);
    assert_eq!(size_parts("512MiB"), ("512".to_string(), 1 << 20));
    let refused = |s: &str| parse_size(s, &kernel()).unwrap_err().message();
    assert_eq!(refused("-1"), "размер '-1' отрицательный");
    assert_eq!(refused("много"), "размер 'много': invalid float literal");
    assert_eq!(
        refused("GiB"),
        "размер 'GiB': cannot parse float from empty string"
    );
}

#[test]
fn server_rejects_a_bad_durability_value_instead_of_guessing() {
    assert!(matches!(durability_named("fsync"), Ok(Durability::Fsync)));
    assert!(matches!(
        durability_named("buffered"),
        Ok(Durability::Buffered)
    ));
    assert_eq!(
        durability_named("иногда").unwrap_err().message(),
        "--durability: ожидалось fsync|buffered, получено 'иногда'"
    );
}

#[test]
fn comments_are_no_part_of_a_statement() {
    assert_eq!(
        split_sql("-- первый\nSELECT 1;\n  -- второй\nSELECT\n 2;\n"),
        ["SELECT 1", "SELECT\n 2"]
    );
    assert_eq!(short("SELECT   1\n FROM  t"), "SELECT 1 FROM t");
    let long = "я".repeat(200);
    assert_eq!(short(&long), format!("{}…", "я".repeat(110)));
    assert_eq!(number_list("1, 3,x,7"), [1, 3, 7]);
}

#[test]
fn fields_of_a_file_with_tabs() {
    assert_eq!(unescape_tsv("a\\tb\\nc\\\\d\\xe\\"), "a\tb\nc\\dxe\\");
    let field = |f: &str, ty: DataType| format!("{:?}", parse_field(f, ty, &kernel()).unwrap());
    assert_eq!(field("", DataType::I64), "I64(0)");
    assert_eq!(field("12", DataType::I64), "I64(12)");
    assert_eq!(field("нет", DataType::I64), "I64(0)");
    assert_eq!(field("x", DataType::F64), "F64(0)");
    assert_eq!(
        field("0.5", DataType::F64),
        format!("F64({})", 0.5f64.to_bits())
    );
    assert_eq!(field("1", DataType::Bool), "Bool(true)");
    assert_eq!(field("TRUE", DataType::Bool), "Bool(true)");
    assert_eq!(field("yes", DataType::Bool), "Bool(false)");
    assert_eq!(field("a\\tb", DataType::Str), "Str(\"a\\tb\")");
    assert_eq!(
        parse_field("", DataType::Vector(2), &kernel())
            .unwrap_err()
            .message(),
        "векторных колонок в hits.tsv нет"
    );
    let types = vec![DataType::I64, DataType::Str];
    assert!(tsv_row("\r\n", &types, 1, &kernel()).unwrap().is_none());
    let row = tsv_row("5\tчай\r\n", &types, 1, &kernel()).unwrap().unwrap();
    assert_eq!(format!("{row:?}"), "[I64(5), Str(\"чай\")]");
    assert_eq!(
        tsv_row("5", &types, 3, &kernel()).unwrap_err().message(),
        "строка 3: полей 1, в схеме 2"
    );
}

#[test]
fn a_file_is_loaded_a_batch_at_a_time() {
    let mut db = hits();
    let mut loader = Loader::new(&db, None).unwrap();
    for i in 0..BATCH - 1 {
        let line = format!("{i}\tu{i}\t0.5\t1\n");
        assert!(!loader.line(&mut db, &line, &kernel()).unwrap());
    }
    assert_eq!(count(&mut db), 0);
    assert!(!loader.line(&mut db, "\n", &kernel()).unwrap());
    assert!(!loader.line(&mut db, "7\tlast\t1\t0", &kernel()).unwrap());
    assert_eq!(count(&mut db), BATCH as i64);
    assert_eq!(
        loader.line(&mut db, "1\t2", &kernel()).unwrap_err().message(),
        "строка 65537: полей 2, в схеме 4"
    );
    assert!(!loader.line(&mut db, "8\tmore\t1\t0", &kernel()).unwrap());
    assert_eq!(loader.finish(&mut db, &kernel()).unwrap(), BATCH + 1);
    assert_eq!(count(&mut db), BATCH as i64 + 1);
    assert_eq!(
        Loader::new(&Database::new(), None).unwrap_err().message(),
        "таблица hits не создана"
    );
}

#[test]
fn no_more_rows_are_loaded_than_asked_for() {
    for n in [0, 1, 5] {
        let mut db = hits();
        let mut loader = Loader::new(&db, Some(n)).unwrap();
        for i in 0..8 {
            let line = format!("{i}\tu{i}\t0.5\t1\n");
            assert_eq!(loader.line(&mut db, &line, &kernel()).unwrap(), i + 1 >= n);
        }
        assert_eq!(loader.finish(&mut db, &kernel()).unwrap(), n);
        assert_eq!(count(&mut db), n as i64);
        let ids = db
            .execute("SELECT UserID FROM hits", &kernel())
            .unwrap()
            .rows;
        for (i, row) in ids.iter().enumerate() {
            assert!(matches!(row[0], Value::I64(x) if x == i as i64));
        }
    }
    // A file with fewer rows is loaded whole; the limit can lie past a batch.
    let mut db = hits();
    let mut loader = Loader::new(&db, Some(BATCH + 2)).unwrap();
    let mut lines = 0;
    while !loader.line(&mut db, "1\tu\t0.5\t1", &kernel()).unwrap() {
        lines += 1;
    }
    assert_eq!(lines, BATCH + 1);
    assert_eq!(loader.finish(&mut db, &kernel()).unwrap(), BATCH + 2);
    let mut short = hits();
    let mut loader = Loader::new(&short, Some(9)).unwrap();
    assert!(!loader.line(&mut short, "1\tu\t0.5\t1", &kernel()).unwrap());
    assert_eq!(loader.finish(&mut short, &kernel()).unwrap(), 1);
}

#[test]
fn made_up_rows_are_the_same_every_time() {
    let (mut a, mut b) = (hits(), hits());
    assert_eq!(generate(&mut a, 1000, &kernel()).unwrap(), 1000);
    assert_eq!(generate(&mut b, 1000, &kernel()).unwrap(), 1000);
    assert_eq!(count(&mut a), 1000);
    let all = |db: &mut Database| {
        format!("{:?}", db.execute("SELECT * FROM hits", &kernel()).unwrap().rows)
    };
    assert_eq!(all(&mut a), all(&mut b));
    assert_eq!(
        generate(&mut Database::new(), 1, &kernel())
            .unwrap_err()
            .message(),
        "таблица hits не создана"
    );
    let mut rng = Lcg(1);
    let step = 6_364_136_223_846_793_005u64.wrapping_add(1_442_695_040_888_963_407);
    assert_eq!(rng.next(), step >> 1);
    assert_eq!(rng.0, step);
    assert_eq!(rng.next_below(0), 0);
    assert!(rng.next_below(5) < 5);
}

#[test]
fn the_median_is_the_later_of_two_in_the_middle() {
    let times = |v: &[f64]| {
        let bits: Vec<u64> = v.iter().map(|x| x.to_bits()).collect();
        median(&bits).map(f64::from_bits)
    };
    assert_eq!(times(&[]), None);
    assert_eq!(times(&[3.0]), Some(3.0));
    assert_eq!(times(&[3.0, 1.0]), Some(3.0));
    assert_eq!(times(&[5.0, 1.5, 4.0]), Some(4.0));
    assert_eq!(times(&[0.0, -1.0, -2.0]), Some(-1.0));
}

#[test]
fn the_report_lists_every_query() {
    let rows = vec![
        Row {
            n: 1,
            sql: "SELECT  1".into(),
            median: Some("0.5".into()),
            rows: 1,
            status: "ok".into(),
        },
        Row {
            n: 2,
            sql: "SELECT x".into(),
            median: None,
            rows: 0,
            status: "нет колонки 'x'".into(),
        },
    ];
    let summary = Summary {
        rows: 100,
        gib: "0.01".into(),
        bytes_per_row: "80".into(),
        seconds: "1.5".into(),
        rate: "66".into(),
        runs: 3,
        total: "0.1".into(),
    };
    assert_eq!(
        render_report(&rows, &summary),
        "# ClickBench на veldb\n\n\
         - строк: **100**\n- в памяти: **0.01 ГиБ** (80 байт/строку)\n\
         - загрузка: **1.5 с** (66 тыс. строк/с)\n\
         - прогонов на запрос: 3, в таблице медиана\n\
         - выполнено: **1/2**, суммарно **0.1 с**\n\n\
         1 запрос(ов) не выполнились — они перечислены ниже со статусом.\n\n\
         | # | мс | строк | запрос |\n|---:|---:|---:|:---|\n\
         | 1 | 0.5 | 1 | `SELECT 1` |\n\
         | 2 | — (нет колонки 'x') | 0 | `SELECT x` |\n"
    );
}
