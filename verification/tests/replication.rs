use serde_json::Value as Json;
use veldb::exec::render;
use veldb::float::{FloatOp, Floats, Kernel, SingleOp};
use veldb::http::{decode_record, hex};
use veldb::replication::{pull_bytes, pull_once, Follower, Next};
use veldb::storage::{Durability, WalRecord};
use veldb::Database;

fn operate_single(op: SingleOp, a: u32, b: u32) -> u32 {
    let (x, y) = (f32::from_bits(a), f32::from_bits(b));
    let r = match op {
        SingleOp::Add => x + y,
        SingleOp::Sub => x - y,
        SingleOp::Mul => x * y,
        SingleOp::Div => x / y,
        SingleOp::Sqrt => x.sqrt(),
    };
    r.to_bits()
}

fn operate(op: FloatOp, a: u64, b: u64) -> u64 {
    let (x, y) = (f64::from_bits(a), f64::from_bits(b));
    let r = match op {
        FloatOp::Add => x + y,
        FloatOp::Sub => x - y,
        FloatOp::Mul => x * y,
        FloatOp::Div => x / y,
        FloatOp::Rem => x % y,
        FloatOp::Min => x.min(y),
        FloatOp::Max => x.max(y),
        FloatOp::Floor => x.floor(),
        FloatOp::Ceil => x.ceil(),
        FloatOp::Sqrt => x.sqrt(),
        FloatOp::Round => {
            let k = 10f64.powi(y as i32);
            (x * k).round() / k
        }
    };
    r.to_bits()
}

/// The arithmetic of the machine.
fn kernel() -> impl Floats {
    Kernel {
        apply: operate,
        of_int: |x: i64| (x as f64).to_bits(),
        as_int: |x: u64| f64::from_bits(x) as i64,
        as_count: |x: u64| f64::from_bits(x) as u64,
        narrow: |x: u64| (f64::from_bits(x) as f32).to_bits(),
        show: |x: u64| f64::from_bits(x).to_string(),
        show_single: |x: u32| f32::from_bits(x).to_string(),
        quote: |x: u64| format!("{:?}", f64::from_bits(x)),
        quote_single: |x: u32| format!("{:?}", f32::from_bits(x)),
        parse: |s: &str| s.parse::<f64>().ok().map(|x| x.to_bits()),
        parse_single: |s: &str| s.parse::<f32>().ok().map(|x| x.to_bits()),
        single: operate_single,
        widen: |x: u32| (f32::from_bits(x) as f64).to_bits(),
    }
}

/// A primary node: a database and the bytes of its log.
struct Primary {
    db: Database,
    wal: Vec<u8>,
}

impl Primary {
    fn new() -> Primary {
        let (db, _) = Database::open(None, "wal.log", &[], Durability::Buffered, &kernel()).unwrap();
        Primary {
            db,
            wal: Vec::new(),
        }
    }

    fn execute(&mut self, sql: &str) {
        self.db.execute(sql, &kernel()).unwrap();
        self.wal.extend(self.db.take_log());
    }

    fn snapshot(&mut self) {
        self.db.snapshot().unwrap();
        self.wal = self.db.reset_log();
    }

    /// The answer to a replica that has come as far as `after`.
    fn answer(&self, after: u64) -> Json {
        let records = self.db.wal_since("wal.log", &self.wal, after).unwrap();
        let items: Vec<String> = records
            .iter()
            .map(|(lsn, b)| format!("{{\"lsn\": {lsn}, \"payload\": \"{}\"}}", hex(b)))
            .collect();
        let text = format!(
            "{{\"next_lsn\": {}, \"records\": [{}]}}",
            self.db.next_lsn(),
            items.join(",")
        );
        json(&text)
    }
}

fn json(text: &str) -> Json {
    serde_json::from_str(text).unwrap()
}

fn q(db: &mut Database, sql: &str) -> Vec<String> {
    db.execute(sql, &kernel())
        .unwrap()
        .rows
        .iter()
        .map(|r| {
            r.iter()
                .map(|v| render(v, &kernel()))
                .collect::<Vec<_>>()
                .join("|")
        })
        .collect()
}

fn seed(p: &mut Primary) {
    p.execute("CREATE TABLE t (id INT, name TEXT, e VECTOR(2))");
    p.execute("INSERT INTO t VALUES (1,'один','[1,2]'),(2,'два','[3,4]')");
}

fn bootstrap(r: &mut Database, p: &Primary) -> u64 {
    r.load_snapshot_bytes(&p.db.snapshot_bytes()).unwrap()
}

#[test]
fn bootstrap_copies_full_state() {
    let mut p = Primary::new();
    seed(&mut p);

    let mut r = Database::new();
    let lsn = bootstrap(&mut r, &p);
    assert_eq!(lsn, p.db.next_lsn() - 1);
    assert_eq!(
        q(&mut r, "SELECT * FROM t"),
        q(&mut p.db, "SELECT * FROM t")
    );
}

#[test]
fn incremental_pull_applies_new_writes() {
    let mut p = Primary::new();
    seed(&mut p);

    let mut r = Database::new();
    let lsn = bootstrap(&mut r, &p);

    p.execute("INSERT INTO t VALUES (3,'три','[5,6]')");
    p.execute("CREATE TABLE more (a INT)");
    p.execute("INSERT INTO more VALUES (42)");

    let got = pull_once(&mut r, &p.answer(lsn), lsn, &kernel());
    assert!(got.error.is_none());
    assert_eq!(got.count, 3, "три изменения — три записи WAL");
    assert_eq!(q(&mut r, "SELECT id FROM t"), ["1", "2", "3"]);
    assert_eq!(q(&mut r, "SELECT a FROM more"), ["42"]);

    // Повторный опрос без изменений ничего не делает и не двигает LSN.
    let same = pull_once(&mut r, &p.answer(got.lsn), got.lsn, &kernel());
    assert_eq!((same.lsn, same.count), (got.lsn, 0));
}

#[test]
fn ddl_including_drop_is_replicated() {
    let mut p = Primary::new();
    seed(&mut p);
    let mut r = Database::new();
    let lsn = bootstrap(&mut r, &p);

    p.execute("CREATE TABLE gone (a INT)");
    p.execute("DROP TABLE gone");
    p.execute("DROP TABLE t");

    let got = pull_once(&mut r, &p.answer(lsn), lsn, &kernel());
    assert_eq!(got.count, 3);
    assert!(
        r.table_names().is_empty(),
        "осталось: {:?}",
        r.table_names()
    );
}

#[test]
fn wal_gap_after_primary_snapshot_forces_resync() {
    let mut p = Primary::new();
    seed(&mut p);
    let mut r = Database::new();
    let lsn = bootstrap(&mut r, &p);

    // Первичный узел ушёл вперёд и обрезал WAL — догонять по нему уже нельзя.
    p.execute("INSERT INTO t VALUES (3,'три','[5,6]')");
    p.snapshot();
    p.execute("INSERT INTO t VALUES (4,'четыре','[7,8]')");

    let got = pull_once(&mut r, &p.answer(lsn), lsn, &kernel());
    let e = got.error.unwrap().message();
    assert!(e.contains("разрыв в WAL"), "получили: {e}");
    assert_eq!(e, "разрыв в WAL: ожидался lsn=3, пришёл 4");

    // Лечится полной пересинхронизацией — и после неё состояния совпадают.
    let lsn = bootstrap(&mut r, &p);
    pull_once(&mut r, &p.answer(lsn), lsn, &kernel());
    assert_eq!(
        q(&mut r, "SELECT id FROM t"),
        q(&mut p.db, "SELECT id FROM t")
    );
}

#[test]
fn follow_loop_converges_and_makes_replica_read_only() {
    let mut p = Primary::new();
    seed(&mut p);

    let mut r = Database::new();
    r.set_read_only(true);
    let mut f = Follower::new();
    for step in 0..4 {
        if step == 2 {
            p.execute("INSERT INTO t VALUES (3,'три','[5,6]')");
        }
        match f.next() {
            Next::Bootstrap => {
                let lsn = bootstrap(&mut r, &p);
                f.loaded(lsn);
            }
            Next::Pull(from) => {
                let got = pull_once(&mut r, &p.answer(from), from, &kernel());
                f.pulled(&got);
            }
        }
    }
    assert!(f.applied == Some(p.db.next_lsn() - 1));

    // Реплика не должна принимать записи от клиентов.
    let refused = |r: &mut Database, sql: &str| r.execute(sql, &kernel()).unwrap_err().message();
    let e = refused(&mut r, "INSERT INTO t VALUES (9,'x','[0,0]')");
    assert!(e.contains("реплика"), "получили: {e}");
    assert!(refused(&mut r, "CREATE TABLE z (a INT)").contains("реплика"));
    assert!(refused(&mut r, "DROP TABLE t").contains("реплика"));
    // Чтение при этом работает.
    assert_eq!(q(&mut r, "SELECT id FROM t"), ["1", "2", "3"]);
}

#[test]
fn only_a_gap_sends_a_replica_back_to_a_snapshot() {
    let mut f = Follower { applied: Some(7) };
    let e = Database::new()
        .execute("SELECT * FROM nope", &kernel())
        .unwrap_err();
    f.failed(&e);
    assert!(matches!(f.next(), Next::Pull(7)));

    let mut r = Database::new();
    let got = pull_once(
        &mut r,
        &json("{\"records\": [{\"lsn\": 9, \"payload\": \"\"}]}"),
        7,
        &kernel(),
    );
    f.pulled(&got);
    assert!(matches!(f.next(), Next::Bootstrap));
}

#[test]
fn answers_that_cannot_be_read_name_what_is_missing() {
    let mut r = Database::new();
    let mut told = |text: &str| {
        let got = pull_once(&mut r, &json(text), 0, &kernel());
        assert_eq!((got.lsn, got.count), (0, 0));
        got.error.unwrap().message()
    };
    assert_eq!(told("{}"), "в ответе нет 'records'");
    assert_eq!(told("{\"records\": [{}]}"), "запись без lsn");
    assert_eq!(told("{\"records\": [{\"lsn\": 1}]}"), "запись без payload");
    assert_eq!(
        told("{\"records\": [{\"lsn\": 1, \"payload\": \"abc\"}]}"),
        "нечётная длина hex-строки"
    );
    assert!(told("{\"records\": [{\"lsn\": 1, \"payload\": \"ff\"}]}")
        .starts_with("разбор записи lsn=1: "));
}

#[test]
fn what_was_applied_before_an_error_counts() {
    let mut p = Primary::new();
    p.execute("CREATE TABLE a (x INT)");
    p.execute("INSERT INTO a VALUES (1)");
    let mut answer = p.answer(0);
    answer["records"][1]["payload"] = Json::String("ff".into());
    let mut r = Database::new();
    let got = pull_once(&mut r, &answer, 0, &kernel());
    assert_eq!((got.lsn, got.count), (1, 1));
    assert!(got.error.is_some());
    let got = pull_once(&mut r, &p.answer(got.lsn), got.lsn, &kernel());
    assert_eq!((got.lsn, got.count), (2, 1));
    assert_eq!(q(&mut r, "SELECT x FROM a"), ["1"]);
}

#[test]
fn a_record_decodes_to_the_change_that_was_logged() {
    let mut p = Primary::new();
    p.execute("CREATE TABLE a (x INT, s TEXT)");
    p.execute("INSERT INTO a (s, x) VALUES ('да', 5)");
    p.execute("DROP TABLE a");
    let records = p.db.wal_since("wal.log", &p.wal, 0).unwrap();
    let mut r = Database::new();
    for (i, (lsn, payload)) in records.iter().enumerate() {
        assert_eq!(*lsn, i as u64 + 1);
        let change = decode_record(payload, &r).unwrap();
        match (i, &change) {
            (0, WalRecord::CreateTable { name, schema }) => {
                assert_eq!(name, "a");
                assert_eq!(schema.len(), 2);
            }
            (1, WalRecord::Insert { table, rows }) => {
                assert_eq!(table, "a");
                assert_eq!(rows.len(), 1);
                assert_eq!(render(&rows[0][0], &kernel()), "5");
                assert_eq!(render(&rows[0][1], &kernel()), "да");
            }
            (2, WalRecord::DropTable { name }) => assert_eq!(name, "a"),
            (i, change) => panic!("{i}: {change:?}"),
        }
        r.apply(&change, &kernel()).unwrap();
    }
    assert_eq!(records.len(), 3);
    assert!(p.db.wal_since("wal.log", &p.wal, 3).unwrap().is_empty());
}

#[test]
fn a_database_without_a_log_has_nothing_to_follow() {
    assert!(Database::new().wal_since("wal.log", &[], 0).unwrap().is_empty());
    assert_eq!(Database::new().next_lsn(), 0);
}

#[test]
fn a_log_that_was_cut_whole_is_a_gap_too() {
    let mut p = Primary::new();
    seed(&mut p);
    let mut r = Database::new();
    let lsn = bootstrap(&mut r, &p);
    p.execute("INSERT INTO t VALUES (3,'три','[5,6]')");
    p.snapshot();

    // Records there are none, but the primary node is ahead.
    let got = pull_once(&mut r, &p.answer(lsn), lsn, &kernel());
    assert_eq!((got.lsn, got.count), (lsn, 0));
    assert_eq!(
        got.error.as_ref().unwrap().message(),
        "разрыв в WAL: ожидался lsn=3, пришёл 4"
    );
    assert_eq!(q(&mut r, "SELECT id FROM t"), ["1", "2"]);
    let mut f = Follower { applied: Some(lsn) };
    f.pulled(&got);
    assert!(matches!(f.next(), Next::Bootstrap));
}

#[test]
fn answers_are_applied_as_they_come_over_the_wire() {
    let mut p = Primary::new();
    seed(&mut p);
    let body = p.answer(0).to_string();
    let mut r = Database::new();
    let got = pull_bytes(&mut r, body.as_bytes(), 0, &kernel());
    assert!(got.error.is_none());
    assert_eq!((got.lsn, got.count), (2, 2));
    assert_eq!(q(&mut r, "SELECT id FROM t"), ["1", "2"]);
    let got = pull_bytes(&mut r, b"<html>", 2, &kernel());
    assert_eq!((got.lsn, got.count), (2, 0));
    assert!(got
        .error
        .unwrap()
        .message()
        .starts_with("ответ /replication/wal: "));
}
