use std::cell::{Cell, RefCell};
use veldb::exec::{render, QueryResult};
use veldb::float::{FloatOp, Floats, Kernel, SingleOp};
use veldb::storage::Durability;
use veldb::Database;

fn operate_single(op: SingleOp, a: u32, b: u32) -> u32 {
    let (x, y) = (f32::from_bits(a), f32::from_bits(b));
    let r = match op {
        SingleOp::Add => x + y,
        SingleOp::Sub => x - y,
        SingleOp::Mul => x * y,
        SingleOp::Div => x / y,
        SingleOp::Sqrt => x.sqrt(),
    };
    r.to_bits()
}

fn operate(op: FloatOp, a: u64, b: u64) -> u64 {
    let (x, y) = (f64::from_bits(a), f64::from_bits(b));
    let r = match op {
        FloatOp::Add => x + y,
        FloatOp::Sub => x - y,
        FloatOp::Mul => x * y,
        FloatOp::Div => x / y,
        FloatOp::Rem => x % y,
        FloatOp::Min => x.min(y),
        FloatOp::Max => x.max(y),
        FloatOp::Floor => x.floor(),
        FloatOp::Ceil => x.ceil(),
        FloatOp::Sqrt => x.sqrt(),
        FloatOp::Round => {
            let k = 10f64.powi(y as i32);
            (x * k).round() / k
        }
    };
    r.to_bits()
}

/// The arithmetic of the machine.
fn kernel() -> impl Floats {
    Kernel {
        apply: operate,
        of_int: |x: i64| (x as f64).to_bits(),
        as_int: |x: u64| f64::from_bits(x) as i64,
        as_count: |x: u64| f64::from_bits(x) as u64,
        narrow: |x: u64| (f64::from_bits(x) as f32).to_bits(),
        show: |x: u64| f64::from_bits(x).to_string(),
        show_single: |x: u32| f32::from_bits(x).to_string(),
        quote: |x: u64| format!("{:?}", f64::from_bits(x)),
        quote_single: |x: u32| format!("{:?}", f32::from_bits(x)),
        parse: |s: &str| s.parse::<f64>().ok().map(|x| x.to_bits()),
        parse_single: |s: &str| s.parse::<f32>().ok().map(|x| x.to_bits()),
        single: operate_single,
        widen: |x: u32| (f32::from_bits(x) as f64).to_bits(),
    }
}

/// A data directory: the bytes of the log and of the snapshot.
struct Dir {
    wal: RefCell<Vec<u8>>,
    snapshot: RefCell<Option<Vec<u8>>>,
    replayed: Cell<usize>,
}

impl Dir {
    fn new() -> Dir {
        Dir {
            wal: RefCell::new(Vec::new()),
            snapshot: RefCell::new(None),
            replayed: Cell::new(0),
        }
    }

    fn open(&self, durability: Durability) -> Result<Db<'_>, String> {
        let snapshot = self.snapshot.borrow();
        let snapshot = snapshot.as_ref().map(|b| ("snapshot.vdb", &b[..]));
        let mut wal = self.wal.borrow_mut();
        let (db, n) = Database::open(snapshot, "wal.log", &wal, durability, &kernel())
            .map_err(|e| e.message())?;
        wal.truncate(db.log_file().unwrap().0);
        self.replayed.set(n);
        Ok(Db {
            db: RefCell::new(db),
            dir: Some(self),
        })
    }
}

/// A database whose log goes to its directory after every statement.
struct Db<'a> {
    db: RefCell<Database>,
    dir: Option<&'a Dir>,
}

impl Db<'_> {
    fn new() -> Db<'static> {
        Db {
            db: RefCell::new(Database::new()),
            dir: None,
        }
    }

    fn execute(&self, sql: &str) -> Result<QueryResult, String> {
        let mut db = self.db.borrow_mut();
        let r = db.execute(sql, &kernel()).map_err(|e| e.message());
        if let Some(dir) = self.dir {
            dir.wal.borrow_mut().extend(db.take_log());
        }
        r
    }

    fn snapshot(&self) -> Result<u64, String> {
        let mut db = self.db.borrow_mut();
        let (bytes, lsn) = db.snapshot().map_err(|e| e.message())?;
        let dir = self.dir.unwrap();
        *dir.snapshot.borrow_mut() = Some(bytes);
        *dir.wal.borrow_mut() = db.reset_log();
        Ok(lsn)
    }
}

fn q(db: &Db, sql: &str) -> Vec<String> {
    db.execute(sql)
        .unwrap_or_else(|e| panic!("{sql}\n  -> {e}"))
        .rows
        .iter()
        .map(|r| {
            r.iter()
                .map(|v| render(v, &kernel()))
                .collect::<Vec<_>>()
                .join("|")
        })
        .collect()
}

fn seed(db: &Db) {
    db.execute("CREATE TABLE t (id INT, name TEXT, w DOUBLE, ok BOOL, e VECTOR(2))")
        .unwrap();
    db.execute("INSERT INTO t VALUES (1,'один',1.5,true,'[1,2]'),(2,'два',2.5,false,'[3,4]')")
        .unwrap();
}

#[test]
fn wal_replay_restores_state_without_snapshot() {
    let dir = Dir::new();
    {
        let db = dir.open(Durability::Fsync).unwrap();
        seed(&db);
    } // «падение»: снапшот не делали
    let db = dir.open(Durability::Fsync).unwrap();
    assert_eq!(
        q(&db, "SELECT * FROM t"),
        ["1|один|1.5|true|[1,2]", "2|два|2.5|false|[3,4]"]
    );
}

#[test]
fn snapshot_then_more_writes_then_restart() {
    let dir = Dir::new();
    {
        let db = dir.open(Durability::Fsync).unwrap();
        seed(&db);
        db.snapshot().unwrap();
        db.execute("INSERT INTO t VALUES (3,'три',3.5,true,'[5,6]')")
            .unwrap();
    }
    let db = dir.open(Durability::Fsync).unwrap();
    // Ни одной потерянной и ни одной задвоенной строки: снапшот покрыл первые две,
    // WAL — третью.
    assert_eq!(q(&db, "SELECT id FROM t"), ["1", "2", "3"]);
}

#[test]
fn repeated_restart_does_not_duplicate_rows() {
    let dir = Dir::new();
    {
        let db = dir.open(Durability::Fsync).unwrap();
        seed(&db);
    }
    for _ in 0..3 {
        let db = dir.open(Durability::Fsync).unwrap();
        assert_eq!(q(&db, "SELECT count(*) FROM t"), ["2"]);
        db.snapshot().unwrap();
    }
    let db = dir.open(Durability::Fsync).unwrap();
    assert_eq!(q(&db, "SELECT count(*) FROM t"), ["2"]);
}

#[test]
fn torn_wal_tail_is_dropped_not_fatal() {
    let dir = Dir::new();
    {
        let db = dir.open(Durability::Fsync).unwrap();
        seed(&db);
        db.execute("INSERT INTO t VALUES (3,'три',3.5,true,'[5,6]')")
            .unwrap();
    }
    // Имитируем kill -9 в момент записи: обрываем последний кадр посередине.
    let len = dir.wal.borrow().len();
    dir.wal.borrow_mut().truncate(len - 12);

    let db = dir.open(Durability::Fsync).unwrap();
    assert_eq!(
        q(&db, "SELECT id FROM t"),
        ["1", "2"],
        "обрезанная запись должна быть отброшена"
    );
    // База пригодна к работе дальше, а не только к чтению.
    db.execute("INSERT INTO t VALUES (9,'девять',9.0,true,'[7,8]')")
        .unwrap();
    assert_eq!(q(&db, "SELECT id FROM t"), ["1", "2", "9"]);
}

#[test]
fn bit_flip_in_wal_stops_replay_at_damage() {
    let dir = Dir::new();
    {
        let db = dir.open(Durability::Fsync).unwrap();
        seed(&db);
        db.execute("INSERT INTO t VALUES (3,'три',3.5,true,'[5,6]')")
            .unwrap();
    }
    let len = dir.wal.borrow().len();
    dir.wal.borrow_mut()[len - 4] = 0xAA;

    let db = dir.open(Durability::Fsync).unwrap();
    assert_eq!(
        q(&db, "SELECT id FROM t"),
        ["1", "2"],
        "битую запись CRC обязан поймать"
    );
}

#[test]
fn corrupt_snapshot_refuses_to_open_rather_than_lie() {
    let dir = Dir::new();
    {
        let db = dir.open(Durability::Fsync).unwrap();
        seed(&db);
        db.snapshot().unwrap();
    }
    let mut bytes = dir.snapshot.borrow_mut().take().unwrap();
    let n = bytes.len();
    bytes[n / 2] ^= 0xFF;
    *dir.snapshot.borrow_mut() = Some(bytes);

    let e = match dir.open(Durability::Fsync) {
        Ok(_) => panic!("битый снапшот открылся как исправный"),
        Err(e) => e,
    };
    assert!(e.contains("CRC"), "получили: {e}");
}

#[test]
fn ddl_is_persisted_too() {
    let dir = Dir::new();
    {
        let db = dir.open(Durability::Fsync).unwrap();
        seed(&db);
        db.execute("CREATE TABLE gone (a INT)").unwrap();
        db.execute("DROP TABLE gone").unwrap();
        db.execute("CREATE TABLE kept (a INT)").unwrap();
    }
    let db = dir.open(Durability::Fsync).unwrap();
    assert_eq!(q(&db, "SHOW TABLES"), ["kept|0", "t|2"]);
}

#[test]
fn all_column_types_survive_snapshot_byte_for_byte() {
    let dir = Dir::new();
    let expected;
    {
        let db = dir.open(Durability::Buffered).unwrap();
        db.execute("CREATE TABLE t (i INT, f DOUBLE, b BOOL, s TEXT, v VECTOR(3))")
            .unwrap();
        db.execute(
            "INSERT INTO t VALUES
             (-9007199254740993, -0.5, true, '', '[0,0,0]'),
             (0, 1e10, false, 'строка с юникодом 🐢', '[1.5,-2.5,3.5]')",
        )
        .unwrap();
        expected = q(&db, "SELECT * FROM t");
        db.snapshot().unwrap();
    }
    let db = dir.open(Durability::Buffered).unwrap();
    assert_eq!(q(&db, "SELECT * FROM t"), expected);
}

#[test]
fn in_memory_database_refuses_snapshot_clearly() {
    let db = Db::new();
    assert!(db.snapshot().unwrap_err().contains("каталога данных"));
}

#[test]
fn memory_limit_refuses_writes_instead_of_letting_the_process_die() {
    let db = Db::new();
    db.execute("CREATE TABLE t (x INT)").unwrap();
    let rows: Vec<String> = (0..1000).map(|i| format!("({i})")).collect();
    db.execute(&format!("INSERT INTO t VALUES {}", rows.join(",")))
        .unwrap();
    assert_eq!(db.db.borrow().bytes_used(), 8000);

    db.db.borrow_mut().set_memory_limit(8000);
    let e = db.execute("INSERT INTO t VALUES (1)").unwrap_err();
    assert!(e.contains("предел памяти"), "получили: {e}");
    // Уже записанное осталось читаемым — это отказ в записи, а не потеря данных.
    assert_eq!(q(&db, "SELECT count(*) FROM t"), ["1000"]);

    db.db.borrow_mut().set_memory_limit(0);
    db.execute("INSERT INTO t VALUES (1)").unwrap();
    assert_eq!(q(&db, "SELECT count(*) FROM t"), ["1001"]);
}

#[test]
fn a_restart_replays_only_what_the_snapshot_lacks() {
    let dir = Dir::new();
    {
        let db = dir.open(Durability::Fsync).unwrap();
        assert_eq!(dir.replayed.get(), 0);
        seed(&db);
        assert_eq!(db.snapshot().unwrap(), 2);
        db.execute("INSERT INTO t VALUES (3,'три',3.5,true,'[5,6]')")
            .unwrap();
        assert_eq!(db.db.borrow().next_lsn(), 4);
    }
    let db = dir.open(Durability::Fsync).unwrap();
    assert_eq!(dir.replayed.get(), 1);
    assert_eq!(db.db.borrow().next_lsn(), 4);
    assert_eq!(db.snapshot().unwrap(), 3);
    let db = dir.open(Durability::Fsync).unwrap();
    assert_eq!(dir.replayed.get(), 0);
    // The numbers go on where they were, though the log is empty.
    assert_eq!(db.db.borrow().next_lsn(), 4);
}

#[test]
fn an_integer_in_a_column_of_doubles_is_logged_as_a_double() {
    let dir = Dir::new();
    {
        let db = dir.open(Durability::Buffered).unwrap();
        db.execute("CREATE TABLE d (x DOUBLE)").unwrap();
        let rows = vec![vec![veldb::Value::I64(7)]];
        let n = db.db.borrow_mut().insert_rows("d", &rows, &kernel());
        assert_eq!(n.unwrap(), 1);
        let tail = db.db.borrow_mut().take_log();
        dir.wal.borrow_mut().extend(tail);
    }
    let db = dir.open(Durability::Buffered).unwrap();
    assert_eq!(q(&db, "SELECT x FROM d"), ["7"]);
}

#[test]
fn whatever_a_node_went_through_the_next_start_finds_its_tables() {
    let dir = Dir::new();
    let all = "SELECT id, name FROM t ORDER BY id";
    let mut want = vec!["1|один".to_string(), "2|два".to_string()];
    seed(&dir.open(Durability::Fsync).unwrap());
    for n in 3..9 {
        let db = dir.open(Durability::Fsync).unwrap();
        assert_eq!(q(&db, all), want);
        db.execute(&format!("INSERT INTO t VALUES ({n},'x',0.5,true,'[5,6]')"))
            .unwrap();
        want.push(format!("{n}|x"));
        let next = db.db.borrow().next_lsn();
        if n % 3 == 0 {
            assert_eq!(db.snapshot().unwrap() + 1, next);
        }
        if n == 7 {
            // A stop between the snapshot and the emptying of the log.
            let (bytes, _) = db.db.borrow().snapshot().unwrap();
            *dir.snapshot.borrow_mut() = Some(bytes);
        }
        let again = dir.open(Durability::Buffered).unwrap();
        assert_eq!(again.db.borrow().next_lsn(), next);
        assert_eq!(q(&again, all), want);
    }
}
