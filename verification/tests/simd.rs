use rand::rngs::StdRng;
use rand::{Rng, SeedableRng};
use veldb::float::{FloatOp, Floats, Kernel, SingleOp};
use veldb::simd;

fn operate_single(op: SingleOp, a: u32, b: u32) -> u32 {
    let (x, y) = (f32::from_bits(a), f32::from_bits(b));
    let r = match op {
        SingleOp::Add => x + y,
        SingleOp::Sub => x - y,
        SingleOp::Mul => x * y,
        SingleOp::Div => x / y,
        SingleOp::Sqrt => x.sqrt(),
    };
    r.to_bits()
}

fn operate(op: FloatOp, a: u64, b: u64) -> u64 {
    let (x, y) = (f64::from_bits(a), f64::from_bits(b));
    let r = match op {
        FloatOp::Add => x + y,
        FloatOp::Sub => x - y,
        FloatOp::Mul => x * y,
        FloatOp::Div => x / y,
        FloatOp::Rem => x % y,
        FloatOp::Min => x.min(y),
        FloatOp::Max => x.max(y),
        FloatOp::Floor => x.floor(),
        FloatOp::Ceil => x.ceil(),
        FloatOp::Sqrt => x.sqrt(),
        FloatOp::Round => {
            let k = 10f64.powi(y as i32);
            (x * k).round() / k
        }
    };
    r.to_bits()
}

/// The arithmetic of the machine.
fn kernel() -> impl Floats {
    Kernel {
        apply: operate,
        of_int: |x: i64| (x as f64).to_bits(),
        as_int: |x: u64| f64::from_bits(x) as i64,
        as_count: |x: u64| f64::from_bits(x) as u64,
        narrow: |x: u64| (f64::from_bits(x) as f32).to_bits(),
        show: |x: u64| f64::from_bits(x).to_string(),
        show_single: |x: u32| f32::from_bits(x).to_string(),
        quote: |x: u64| format!("{:?}", f64::from_bits(x)),
        quote_single: |x: u32| format!("{:?}", f32::from_bits(x)),
        parse: |s: &str| s.parse::<f64>().ok().map(|x| x.to_bits()),
        parse_single: |s: &str| s.parse::<f32>().ok().map(|x| x.to_bits()),
        single: operate_single,
        widen: |x: u32| (f32::from_bits(x) as f64).to_bits(),
    }
}

fn bits(v: &[f64]) -> Vec<u64> {
    v.iter().map(|x| x.to_bits()).collect()
}

fn words(v: &[f32]) -> Vec<u32> {
    v.iter().map(|x| x.to_bits()).collect()
}

fn dot(a: &[f32], b: &[f32]) -> f32 {
    f32::from_bits(simd::dot(&words(a), &words(b), &kernel()))
}

fn dot_scalar(a: &[f32], b: &[f32]) -> f32 {
    f32::from_bits(simd::dot_scalar(&words(a), &words(b), &kernel()))
}

fn l2_sq(a: &[f32], b: &[f32]) -> f32 {
    f32::from_bits(simd::l2_sq(&words(a), &words(b), &kernel()))
}

fn l2_sq_scalar(a: &[f32], b: &[f32]) -> f32 {
    f32::from_bits(simd::l2_sq_scalar(&words(a), &words(b), &kernel()))
}

fn cosine_distance(a: &[f32], b: &[f32]) -> f32 {
    f32::from_bits(simd::cosine_distance(&words(a), &words(b), &kernel()))
}

fn norm(a: &[f32]) -> f32 {
    f32::from_bits(simd::norm(&words(a), &kernel()))
}

fn normalize(a: &mut [f32]) {
    let mut w = words(a);
    simd::normalize(&mut w, &kernel());
    for (x, y) in a.iter_mut().zip(w) {
        *x = f32::from_bits(y);
    }
}

fn rand_vec(rng: &mut impl Rng, n: usize) -> Vec<f32> {
    (0..n).map(|_| rng.random_range(-1.0f32..1.0)).collect()
}

/// f32-сложение не ассоциативно, поэтому суммы в разном порядке совпадают не побитово.
/// Проверяем относительную ошибку — она должна быть на уровне единиц ULP.
fn assert_close(a: f32, b: f32, ctx: &str) {
    let scale = a.abs().max(b.abs()).max(1.0);
    assert!((a - b).abs() / scale < 1e-5, "{ctx}: {a} vs {b}");
}

#[test]
fn neon_matches_scalar_on_all_tail_lengths() {
    let mut rng = StdRng::seed_from_u64(42);
    // Ядро идёт по 16 полос; ломается обычно именно хвост, поэтому берём все длины 0..80.
    for n in 0..80 {
        let (a, b) = (rand_vec(&mut rng, n), rand_vec(&mut rng, n));
        assert_close(
            dot(&a, &b),
            dot_scalar(&a, &b),
            &format!("dot n={n}"),
        );
        assert_close(
            l2_sq(&a, &b),
            l2_sq_scalar(&a, &b),
            &format!("l2 n={n}"),
        );
    }
}

#[test]
fn neon_matches_scalar_on_realistic_dims() {
    let mut rng = StdRng::seed_from_u64(7);
    for dim in [128, 384, 768, 1024, 1536] {
        let (a, b) = (rand_vec(&mut rng, dim), rand_vec(&mut rng, dim));
        assert_close(
            dot(&a, &b),
            dot_scalar(&a, &b),
            &format!("dot dim={dim}"),
        );
        assert_close(
            l2_sq(&a, &b),
            l2_sq_scalar(&a, &b),
            &format!("l2 dim={dim}"),
        );
    }
}

#[test]
fn dot_and_l2_known_values() {
    let a = [1.0, 2.0, 3.0];
    let b = [4.0, 5.0, 6.0];
    assert_eq!(dot(&a, &b), 32.0);
    assert_eq!(l2_sq(&a, &b), 27.0);
    assert_eq!(l2_sq(&a, &a), 0.0);
}

#[test]
fn cosine_distance_edges() {
    let a = [1.0, 0.0, 0.0];
    assert_close(cosine_distance(&a, &a), 0.0, "сам с собой");
    assert_close(
        cosine_distance(&a, &[2.0, 0.0, 0.0]),
        0.0,
        "коллинеарные",
    );
    assert_close(
        cosine_distance(&a, &[0.0, 1.0, 0.0]),
        1.0,
        "ортогональные",
    );
    assert_close(
        cosine_distance(&a, &[-1.0, 0.0, 0.0]),
        2.0,
        "противоположные",
    );
    // Нулевой вектор не должен притворяться идеальным совпадением.
    assert_eq!(cosine_distance(&a, &[0.0, 0.0, 0.0]), 1.0);
}

#[test]
fn normalize_is_idempotent_and_safe_on_zero() {
    let mut v = vec![3.0, 4.0, 0.0];
    normalize(&mut v);
    assert_close(norm(&v), 1.0, "норма после нормализации");
    normalize(&mut v);
    assert_close(norm(&v), 1.0, "повторная нормализация");

    let mut z = vec![0.0, 0.0];
    normalize(&mut z);
    assert_eq!(z, vec![0.0, 0.0]);
}

#[test]
fn sum_i64_saturates_instead_of_wrapping() {
    assert_eq!(simd::sum_i64(&[1, 2, 3]), 6);
    assert_eq!(simd::sum_i64(&[]), 0);
    assert_eq!(simd::sum_i64(&[i64::MAX, i64::MAX]), i64::MAX);
    assert_eq!(simd::sum_i64(&[i64::MIN, i64::MIN]), i64::MIN);
}

#[test]
fn min_max_ignores_nan_and_handles_empty() {
    let min_max = |v: &[f64]| {
        simd::min_max_f64(&bits(v), &kernel()).map(|(lo, hi)| (f64::from_bits(lo), f64::from_bits(hi)))
    };
    assert_eq!(simd::min_max_i64(&[]), None);
    assert_eq!(simd::min_max_i64(&[5, -2, 9]), Some((-2, 9)));
    assert_eq!(min_max(&[f64::NAN, 1.0, -1.0]), Some((-1.0, 1.0)));
    assert_eq!(min_max(&[f64::NAN]), None);
}

#[test]
fn sums_of_doubles() {
    let sum = |v: &[f64]| f64::from_bits(simd::sum_f64(&bits(v), &kernel()));
    assert_eq!(sum(&[0.5, 1.25, -3.0]), -1.25);
    assert_eq!(sum(&[]), 0.0);
    // A sum starts from negative zero.
    assert!(sum(&[]).is_sign_negative());
    assert!(sum(&[-0.0, -0.0]).is_sign_negative());
    assert!(sum(&[-0.0, 0.0]).is_sign_positive());
    assert!(dot_scalar(&[], &[]).is_sign_negative());
    assert!(l2_sq_scalar(&[], &[]).is_sign_negative());
    assert!(dot_scalar(&[-1.0], &[0.0]).is_sign_negative());
}

#[test]
fn saturation_holds_at_every_step() {
    assert_eq!(simd::sum_i64(&[i64::MAX, 1, -1]), i64::MAX - 1);
    assert_eq!(simd::sum_i64(&[i64::MAX - 5, 5]), i64::MAX);
}
