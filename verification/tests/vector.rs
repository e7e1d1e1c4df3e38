use rand::rngs::StdRng;
use rand::{Rng, SeedableRng};
use std::cell::RefCell;
use veldb::exec::{render, QueryResult};
use veldb::float::{FloatOp, Floats, Kernel, SingleOp};
use veldb::simd;
use veldb::Database;

fn operate_single(op: SingleOp, a: u32, b: u32) -> u32 {
    let (x, y) = (f32::from_bits(a), f32::from_bits(b));
    let r = match op {
        SingleOp::Add => x + y,
        SingleOp::Sub => x - y,
        SingleOp::Mul => x * y,
        SingleOp::Div => x / y,
        SingleOp::Sqrt => x.sqrt(),
    };
    r.to_bits()
}

fn operate(op: FloatOp, a: u64, b: u64) -> u64 {
    let (x, y) = (f64::from_bits(a), f64::from_bits(b));
    let r = match op {
        FloatOp::Add => x + y,
        FloatOp::Sub => x - y,
        FloatOp::Mul => x * y,
        FloatOp::Div => x / y,
        FloatOp::Rem => x % y,
        FloatOp::Min => x.min(y),
        FloatOp::Max => x.max(y),
        FloatOp::Floor => x.floor(),
        FloatOp::Ceil => x.ceil(),
        FloatOp::Sqrt => x.sqrt(),
        FloatOp::Round => {
            let k = 10f64.powi(y as i32);
            (x * k).round() / k
        }
    };
    r.to_bits()
}

/// The arithmetic of the machine.
fn kernel() -> impl Floats {
    Kernel {
        apply: operate,
        of_int: |x: i64| (x as f64).to_bits(),
        as_int: |x: u64| f64::from_bits(x) as i64,
        as_count: |x: u64| f64::from_bits(x) as u64,
        narrow: |x: u64| (f64::from_bits(x) as f32).to_bits(),
        show: |x: u64| f64::from_bits(x).to_string(),
        show_single: |x: u32| f32::from_bits(x).to_string(),
        quote: |x: u64| format!("{:?}", f64::from_bits(x)),
        quote_single: |x: u32| format!("{:?}", f32::from_bits(x)),
        parse: |s: &str| s.parse::<f64>().ok().map(|x| x.to_bits()),
        parse_single: |s: &str| s.parse::<f32>().ok().map(|x| x.to_bits()),
        single: operate_single,
        widen: |x: u32| (f32::from_bits(x) as f64).to_bits(),
    }
}

/// A database behind a shared handle.
struct Db(RefCell<Database>);

impl Db {
    fn new() -> Db {
        Db(RefCell::new(Database::new()))
    }

    fn execute(&self, sql: &str) -> Result<QueryResult, String> {
        self.0
            .borrow_mut()
            .execute(sql, &kernel())
            .map_err(|e| e.message())
    }
}

fn q(db: &Db, sql: &str) -> Vec<String> {
    let r = db.execute(sql).unwrap_or_else(|e| panic!("{sql}\n  -> {e}"));
    r.rows
        .iter()
        .map(|row| {
            row.iter()
                .map(|v| render(v, &kernel()))
                .collect::<Vec<_>>()
                .join("|")
        })
        .collect()
}

fn err(db: &Db, sql: &str) -> String {
    db.execute(sql).unwrap_err()
}

fn words(v: &[f32]) -> Vec<u32> {
    v.iter().map(|x| x.to_bits()).collect()
}

fn l2_sq_scalar(a: &[f32], b: &[f32]) -> f32 {
    f32::from_bits(simd::l2_sq_scalar(&words(a), &words(b), &kernel()))
}

fn normalize(a: &mut [f32]) {
    let mut w = words(a);
    simd::normalize(&mut w, &kernel());
    for (x, y) in a.iter_mut().zip(w) {
        *x = f32::from_bits(y);
    }
}

fn vec_str(v: &[f32]) -> String {
    format!(
        "[{}]",
        v.iter()
            .map(|x| x.to_string())
            .collect::<Vec<_>>()
            .join(",")
    )
}

/// База из `n` случайных векторов размерности `dim` с идентификаторами 0..n.
fn corpus(n: usize, dim: usize, seed: u64) -> (Db, Vec<Vec<f32>>) {
    let mut rng = StdRng::seed_from_u64(seed);
    let db = Db::new();
    db.execute(&format!("CREATE TABLE docs (id INT, e VECTOR({dim}))"))
        .unwrap();
    let mut vectors = Vec::with_capacity(n);
    let mut rows = Vec::with_capacity(n);
    for i in 0..n {
        let v: Vec<f32> = (0..dim).map(|_| rng.random_range(-1.0f32..1.0)).collect();
        rows.push(format!("({i}, '{}')", vec_str(&v)));
        vectors.push(v);
    }
    db.execute(&format!("INSERT INTO docs VALUES {}", rows.join(",")))
        .unwrap();
    (db, vectors)
}

#[test]
fn knn_returns_exact_nearest_neighbours() {
    let (db, vectors) = corpus(2000, 32, 1);
    let query = vectors[7].iter().map(|x| x + 0.01).collect::<Vec<_>>();

    let got: Vec<i64> = q(
        &db,
        &format!(
            "SELECT id FROM docs ORDER BY l2_distance(e, '{}') LIMIT 10",
            vec_str(&query)
        ),
    )
    .iter()
    .map(|s| s.parse().unwrap())
    .collect();

    // Эталон — честный перебор на стороне теста.
    let mut brute: Vec<(f32, i64)> = vectors
        .iter()
        .enumerate()
        .map(|(i, v)| (l2_sq_scalar(v, &query), i as i64))
        .collect();
    brute.sort_by(|a, b| a.0.total_cmp(&b.0).then(a.1.cmp(&b.1)));
    let want: Vec<i64> = brute.iter().take(10).map(|x| x.1).collect();

    assert_eq!(
        got, want,
        "плоский поиск обязан совпадать с перебором точно"
    );
    assert_eq!(got[0], 7, "ближайшим должен быть исходный вектор");
}

#[test]
fn all_three_metrics_work_and_rank_consistently() {
    let db = Db::new();
    db.execute("CREATE TABLE v (id INT, e VECTOR(3))").unwrap();
    db.execute("INSERT INTO v VALUES (1,'[1,0,0]'), (2,'[2,0,0]'), (3,'[0,1,0]'), (4,'[-1,0,0]')")
        .unwrap();
    let query = "'[1,0,0]'";

    // L2: коллинеарная длина имеет значение.
    assert_eq!(
        q(
            &db,
            &format!("SELECT id FROM v ORDER BY l2_distance(e, {query}) LIMIT 2")
        ),
        ["1", "2"]
    );
    // Косинус: важно только направление, поэтому 1 и 2 равны и разводятся по id.
    assert_eq!(
        q(
            &db,
            &format!("SELECT id FROM v ORDER BY cosine_distance(e, {query}) LIMIT 2")
        ),
        ["1", "2"]
    );
    // Скалярное произведение: чем длиннее сонаправленный вектор, тем ближе.
    assert_eq!(
        q(
            &db,
            &format!("SELECT id FROM v ORDER BY inner_product(e, {query}) LIMIT 2")
        ),
        ["2", "1"]
    );
    // Самый далёкий по косинусу — противоположно направленный.
    assert_eq!(
        q(
            &db,
            &format!("SELECT id FROM v ORDER BY cosine_distance(e, {query}) DESC LIMIT 1")
        ),
        ["4"]
    );
}

#[test]
fn knn_combines_with_where_filter() {
    let (db, vectors) = corpus(500, 16, 2);
    let query = vec_str(&vectors[3]);
    let got = q(
        &db,
        &format!("SELECT id FROM docs WHERE id > 100 ORDER BY l2_distance(e, '{query}') LIMIT 5"),
    );
    assert_eq!(got.len(), 5);
    assert!(
        got.iter().all(|s| s.parse::<i64>().unwrap() > 100),
        "фильтр обязан отработать до KNN"
    );
}

#[test]
fn distance_is_selectable_as_a_column() {
    let db = Db::new();
    db.execute("CREATE TABLE v (id INT, e VECTOR(2))").unwrap();
    db.execute("INSERT INTO v VALUES (1,'[3,4]')").unwrap();
    // l2_distance возвращает квадрат расстояния — корень не нужен для ранжирования.
    assert_eq!(q(&db, "SELECT l2_distance(e, '[0,0]') FROM v"), ["25"]);
    assert_eq!(q(&db, "SELECT sqrt(l2_distance(e, '[0,0]')) FROM v"), ["5"]);
}

#[test]
fn dimension_mismatch_is_rejected_everywhere() {
    let db = Db::new();
    db.execute("CREATE TABLE v (id INT, e VECTOR(3))").unwrap();
    let e = |sql: &str| err(&db, sql);
    assert!(e("INSERT INTO v VALUES (1, '[1,2]')").contains("VECTOR(3)"));
    db.execute("INSERT INTO v VALUES (1,'[1,2,3]')").unwrap();
    assert!(e("SELECT id FROM v ORDER BY l2_distance(e, '[1,2]')").contains("VECTOR(3)"));
    assert!(e("SELECT l2_distance(id, '[1,2,3]') FROM v").contains("VECTOR"));
    assert!(e("CREATE TABLE bad (e VECTOR(0))").contains("VECTOR(0)"));
}

#[test]
fn normalized_vectors_make_cosine_and_l2_agree() {
    let (db, vectors) = corpus(300, 24, 3);
    let mut query: Vec<f32> = vectors[11].clone();
    normalize(&mut query);
    // На ненормализованном корпусе метрики расходятся — это ожидаемо и проверяется
    // тем, что косинусный порядок отличается от L2-порядка.
    let by_l2 = q(
        &db,
        &format!(
            "SELECT id FROM docs ORDER BY l2_distance(e, '{}') LIMIT 5",
            vec_str(&query)
        ),
    );
    let by_cos = q(
        &db,
        &format!(
            "SELECT id FROM docs ORDER BY cosine_distance(e, '{}') LIMIT 5",
            vec_str(&query)
        ),
    );
    assert_eq!(by_cos[0], "11", "косинус должен найти исходное направление");
    assert!(by_l2.contains(&"11".to_string()));
}

#[test]
fn parallel_path_matches_serial_path() {
    // Порог распараллеливания — 4096 строк; проверяем обе стороны границы.
    for n in [100usize, 5000] {
        let (db, vectors) = corpus(n, 8, 42);
        let query = vec_str(&vectors[0]);
        let got = q(
            &db,
            &format!("SELECT id FROM docs ORDER BY l2_distance(e, '{query}') LIMIT 1"),
        );
        assert_eq!(got, ["0"], "n={n}");
    }
}

#[test]
fn vectors_group_by_is_refused_not_silently_wrong() {
    let (db, _) = corpus(10, 4, 5);
    let e = err(&db, "SELECT count(*) FROM docs GROUP BY e");
    assert!(e.contains("векторной"), "получили: {e}");
}
