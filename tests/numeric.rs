use ndarray::{iterator_pairwise_sum, Array, ArrayView, ErrorKind};

fn lcg(seed: u64, n: usize) -> Vec<i64> {
    let mut x = seed;
    let mut out = Vec::with_capacity(n);
    for _ in 0..n {
        x = x.wrapping_mul(6364136223846793005).wrapping_add(1442695040888963407);
        out.push((x >> 11) as i64 - (1i64 << 52));
    }
    out
}

fn wrapping_total(xs: &[i64]) -> i64 {
    xs.iter().fold(0i64, |acc, x| acc.wrapping_add(*x))
}

// Given a vector with axis_length^3 elements, it returns three arrays,
// built using the vector elements, such that (mathematically):
// a.sum_axis(0) == b.sum_axis(1) == c.sum_axis(2)
fn equivalent_arrays(xs: Vec<i64>, n: usize) -> (Array<i64>, Array<i64>, Array<i64>) {
    assert!(xs.len() == n * n * n);
    let at = |i: usize, j: usize, k: usize| xs[(i * n + j) * n + k];
    let mut b = vec![0i64; n * n * n];
    let mut c = vec![0i64; n * n * n];
    for i in 0..n {
        for j in 0..n {
            for k in 0..n {
                b[(i * n + j) * n + k] = at(j, i, k);
                c[(i * n + j) * n + k] = at(k, i, j);
            }
        }
    }
    let a = Array::from_shape_vec(vec![n, n, n], xs.clone()).unwrap();
    let b = Array::from_shape_vec(vec![n, n, n], b).unwrap();
    let c = Array::from_shape_vec(vec![n, n, n], c).unwrap();
    assert!(a.view().is_standard_layout());
    (a, b, c)
}

#[test]
fn test_sum_value_does_not_depend_on_axis() {
    for (seed, n) in [(1u64, 1usize), (2, 2), (3, 5), (4, 9), (5, 65), (6, 70)] {
        let xs = lcg(seed, n * n * n);
        let (a, b, c) = equivalent_arrays(xs, n);
        let sum1 = a.view().sum_axis(0);
        let sum2 = b.view().sum_axis(1);
        let sum3 = c.view().sum_axis(2);
        assert_eq!(sum1.as_slice(), sum2.as_slice());
        assert_eq!(sum1.as_slice(), sum3.as_slice());
        assert_eq!(sum2.as_slice(), sum3.as_slice());
    }
}

#[test]
fn test_sum_value_does_not_depend_on_axis_with_discontinuous_array() {
    for (seed, n) in [(7u64, 1usize), (8, 2), (9, 6), (10, 11), (11, 130)] {
        let xs = lcg(seed, n * n * n);
        let (a, b, c) = equivalent_arrays(xs, n);
        let sum1 = a.view().slice_axis(0, 0, n, 2).unwrap().sum_axis(0);
        let sum2 = b.view().slice_axis(1, 0, n, 2).unwrap().sum_axis(1);
        let sum3 = c.view().slice_axis(2, 0, n, 2).unwrap().sum_axis(2);
        assert_eq!(sum1.as_slice(), sum2.as_slice());
        assert_eq!(sum1.as_slice(), sum3.as_slice());
        assert_eq!(sum2.as_slice(), sum3.as_slice());
    }
}

#[test]
fn sum_axis_of_rows_and_columns() {
    let data = vec![1i64, 2, 3, 4, 5, 6];
    let a = ArrayView::from_shape(vec![2, 3], vec![3, 1], &data).unwrap();
    let s0 = a.sum_axis(0);
    assert_eq!(s0.shape(), &[3]);
    assert_eq!(s0.as_slice(), &[5, 7, 9]);
    let s1 = a.sum_axis(1);
    assert_eq!(s1.as_slice(), &[6, 15]);
    assert_eq!(s0.view().sum_axis(0).as_slice(), &[21]);
}

#[test]
fn sum_mean_integers() {
    let data = vec![1i64, 2, 3, 4];
    let a = ArrayView::from_shape(vec![2, 2], vec![2, 1], &data).unwrap();
    assert_eq!(a.sum_axis(0).as_slice(), &[4, 6]);
    assert_eq!(a.sum_axis(1).as_slice(), &[3, 7]);
    assert_eq!(a.mean_axis(0).as_slice(), &[2, 3]);
    // integer division rounds toward zero
    assert_eq!(a.mean_axis(1).as_slice(), &[1, 3]);
    assert_eq!(a.sum_axis(1).view().sum_axis(0).as_slice(), &[10]);
}

#[test]
fn mean_axis_rows_and_columns() {
    let data = vec![1i64, 2, 3, 4, 5, 6];
    let a = ArrayView::from_shape(vec![2, 3], vec![3, 1], &data).unwrap();
    assert_eq!(a.mean_axis(1).as_slice(), &[2, 5]);
    assert_eq!(a.mean_axis(0).as_slice(), &[2, 3, 4]);
    let neg = vec![-7i64, -8, 1, 2];
    let b = ArrayView::from_shape(vec![2, 2], vec![2, 1], &neg).unwrap();
    // (-7 + 1) / 2 == -3, (-8 + 2) / 2 == -3; -15 / 2 rounds toward zero
    assert_eq!(b.mean_axis(0).as_slice(), &[-3, -3]);
    assert_eq!(b.mean_axis(1).as_slice(), &[-7, 1]);
}

#[test]
fn sum_axis_of_empty_axis_is_zero() {
    let empty: Vec<i64> = vec![];
    let a = ArrayView::from_shape(vec![3, 0], vec![0, 1], &empty).unwrap();
    assert_eq!(a.sum_axis(1).as_slice(), &[0, 0, 0]);
    assert_eq!(a.sum_axis(0).as_slice(), &[] as &[i64]);
}

#[test]
fn sum_of_contiguous_and_strided() {
    let data: Vec<i64> = (1..=12).collect();
    let a = ArrayView::from_shape(vec![3, 4], vec![4, 1], &data).unwrap();
    assert_eq!(a.sum(), 78);
    assert_eq!(a.scalar_sum(), 78);
    let t = ArrayView::from_shape(vec![4, 3], vec![1, 4], &data).unwrap();
    assert_eq!(t.sum(), 78);
    let stepped = a.slice_axis(1, 0, 4, 2).unwrap();
    assert_eq!(stepped.sum(), 1 + 3 + 5 + 7 + 9 + 11);
}

#[test]
fn sum_wraps_on_overflow() {
    let data = vec![i64::MAX, 1, 5];
    let a = ArrayView::from_shape(vec![3], vec![1], &data).unwrap();
    assert_eq!(a.sum(), i64::MIN.wrapping_add(5));
    let rev = a.slice_axis(0, 0, 3, -1).unwrap();
    assert_eq!(rev.sum(), i64::MIN.wrapping_add(5));
}

#[test]
fn sum_of_large_arrays_matches_wrapping_total() {
    for n in [0usize, 1, 7, 8, 9, 511, 512, 513, 1000, 4099] {
        let xs = lcg(n as u64 + 40, n);
        let a = ArrayView::from_shape(vec![n], vec![1], &xs).unwrap();
        assert_eq!(a.sum(), wrapping_total(&xs));
        let back = a.slice_axis(0, 0, n, -1).unwrap();
        assert_eq!(back.sum(), wrapping_total(&xs));
        assert_eq!(iterator_pairwise_sum(back.iter()), wrapping_total(&xs));
    }
}

#[test]
fn product_of_elements() {
    let data = vec![1i64, 2, 3, 4];
    let a = ArrayView::from_shape(vec![2, 2], vec![2, 1], &data).unwrap();
    assert_eq!(a.product(), 24);
    let t = ArrayView::from_shape(vec![2, 2], vec![1, 2], &data).unwrap();
    assert_eq!(t.product(), 24);
    let empty: Vec<i64> = vec![];
    let e = ArrayView::from_shape(vec![0, 3], vec![3, 1], &empty).unwrap();
    assert_eq!(e.product(), 1);
    let big = vec![1i64 << 62, 4];
    let b = ArrayView::from_shape(vec![2], vec![1], &big).unwrap();
    assert_eq!(b.product(), 0);
}

#[test]
fn all_close_detects_one_far_element() {
    let x = vec![1i64, 2, 3, 4, 5, 6];
    let mut y = x.clone();
    y[4] = 9;
    let a = ArrayView::from_shape(vec![2, 3], vec![3, 1], &x).unwrap();
    let b = ArrayView::from_shape(vec![2, 3], vec![3, 1], &y).unwrap();
    assert!(!a.all_close(&b, 3));
    assert!(a.all_close(&b, 4));
    assert!(a.all_close(&a, 0));
    let same = x.clone();
    let c = ArrayView::from_shape(vec![2, 3], vec![3, 1], &same).unwrap();
    assert!(a.all_close(&c, 0));
}

#[test]
fn all_close_broadcasts_rhs() {
    let x = vec![1i64, 2, 3, 1, 2, 4];
    let row = vec![1i64, 2, 3];
    let a = ArrayView::from_shape(vec![2, 3], vec![3, 1], &x).unwrap();
    let r = ArrayView::from_shape(vec![3], vec![1], &row).unwrap();
    assert!(a.all_close(&r, 1));
    assert!(!a.all_close(&r, 0));
    let ext = vec![i64::MIN, i64::MAX];
    let e = ArrayView::from_shape(vec![2], vec![1], &ext).unwrap();
    let z = vec![i64::MAX, i64::MIN];
    let f = ArrayView::from_shape(vec![2], vec![1], &z).unwrap();
    assert!(!e.all_close(&f, i64::MAX));
}

#[test]
fn from_shape_vec_checks_length() {
    let a = Array::from_shape_vec(vec![2, 3], vec![0i64; 6]).unwrap();
    assert_eq!(a.shape(), &[2, 3]);
    assert_eq!(a.into_raw_vec().len(), 6);
    let e = Array::from_shape_vec(vec![2, 3], vec![0i64; 5]).err().unwrap();
    assert_eq!(e.kind(), ErrorKind::IncompatibleShape);
    let e = Array::from_shape_vec(vec![usize::MAX, 2, 0], Vec::<i64>::new()).err().unwrap();
    assert_eq!(e.kind(), ErrorKind::Overflow);
}
