use ndarray::{pairwise_sum, pure_pairwise_sum, unrolled_dot, unrolled_eq, unrolled_fold};

fn wrapping_total(xs: &[i64]) -> i64 {
    xs.iter().fold(0i64, |acc, x| acc.wrapping_add(*x))
}

#[test]
fn unrolled_fold_sums_and_multiplies() {
    let xs: Vec<i64> = (1..=20).collect();
    assert_eq!(unrolled_fold(&xs, || 0i64, |a, b| a + b), 210);
    let ys: Vec<i64> = (1..=10).collect();
    assert_eq!(unrolled_fold(&ys, || 1i64, |a, b| a * b), 3628800);
    let empty: Vec<i64> = vec![];
    assert_eq!(unrolled_fold(&empty, || 0i64, |a, b| a + b), 0);
}

#[test]
fn unrolled_fold_combines_lanes_as_a_tree() {
    // Recording the shape of the combination: the eight lane accumulators
    // over the full blocks, then the tail.
    let xs: Vec<u64> = (0..19).collect();
    let s = unrolled_fold(&xs, || 0u64, |a, b| a.wrapping_mul(31).wrapping_add(b));
    let lane = |k: u64| -> u64 { (k.wrapping_mul(31)).wrapping_add(k + 8) };
    let g = |a: u64, b: u64| a.wrapping_mul(31).wrapping_add(b);
    let p: Vec<u64> = (0..8).map(lane).collect();
    let q0 = g(p[0], p[4]);
    let q1 = g(p[1], p[5]);
    let q2 = g(p[2], p[6]);
    let q3 = g(p[3], p[7]);
    let unrolled = g(g(q0, q2), g(q1, q3));
    let tail = g(g(g(0, 16), 17), 18);
    assert_eq!(s, g(unrolled, tail));
}

#[test]
fn unrolled_fold_on_floats() {
    let xs = vec![0.5f64; 17];
    assert_eq!(unrolled_fold(&xs, || 0.0, |a, b| a + b), 8.5);
}

#[test]
fn unrolled_eq_compares_all_positions() {
    let xs: Vec<i32> = (0..21).collect();
    let mut ys = xs.clone();
    assert!(unrolled_eq(&xs, &ys));
    ys[3] = -1;
    assert!(!unrolled_eq(&xs, &ys));
    ys[3] = 3;
    ys[20] = 0;
    assert!(!unrolled_eq(&xs, &ys));
    assert!(unrolled_eq::<i32>(&[], &[]));
}

#[test]
fn unrolled_dot_products() {
    let xs: Vec<i64> = (1..=11).collect();
    let ys: Vec<i64> = (1..=11).map(|x| 2 * x).collect();
    assert_eq!(unrolled_dot(&xs, &ys), 2 * 506);
    assert_eq!(unrolled_dot(&xs[..3], &ys), 2 * (1 + 4 + 9));
    assert_eq!(unrolled_dot(&[i64::MAX], &[2]), -2);
}

#[test]
fn pairwise_sums_match_wrapping_total() {
    for n in [0usize, 1, 2, 3, 63, 64, 65, 511, 512, 513, 2000] {
        let xs: Vec<i64> = (0..n as i64).map(|i| i * 7919 - 3000).collect();
        assert_eq!(pairwise_sum(&xs), wrapping_total(&xs));
        assert_eq!(pure_pairwise_sum(&xs), wrapping_total(&xs));
    }
    let big = vec![i64::MAX; 600];
    assert_eq!(pairwise_sum(&big), wrapping_total(&big));
}
