use ndarray::{select_nth, Array, ArrayView, Interpolate};

fn sorted(mut v: Vec<i64>) -> Vec<i64> {
    v.sort();
    v
}

#[test]
fn select_nth_places_the_order_statistic() {
    let orig = vec![9i64, -3, 7, 7, 0, 12, -3, 5, 1, 4, 8];
    for k in 0..orig.len() {
        let mut v = orig.clone();
        let x = select_nth(&mut v, k);
        assert_eq!(x, sorted(orig.clone())[k]);
        assert_eq!(v[k], x);
        assert!(v[..k].iter().all(|y| *y <= x));
        assert!(v[k + 1..].iter().all(|y| *y >= x));
        assert_eq!(sorted(v), sorted(orig.clone()));
    }
}

#[test]
fn percentile_boundaries_are_min_and_max() {
    let data = vec![3i64, 1, 4, 1, 5, 9, 2, 6, 5, 3, 5, 8];
    let a = ArrayView::from_shape(vec![2, 6], vec![6, 1], &data).unwrap();
    for how in [
        Interpolate::Lower,
        Interpolate::Higher,
        Interpolate::Nearest,
        Interpolate::Midpoint,
        Interpolate::Linear,
    ] {
        assert_eq!(a.percentile_axis(1, 0, 1, how).as_slice(), &[1, 2]);
        assert_eq!(a.percentile_axis(1, 1, 1, how).as_slice(), &[9, 8]);
        assert_eq!(a.percentile_axis(0, 0, 4, how).as_slice(), &[2, 1, 4, 1, 5, 8]);
        assert_eq!(a.percentile_axis(0, 7, 7, how).as_slice(), &[3, 6, 5, 3, 5, 9]);
    }
    // the view itself is left as it was
    assert_eq!(a.into_slice().unwrap(), &data[..]);
}

#[test]
fn percentile_half_on_even_lane_averages_the_middle() {
    let data = vec![10i64, 1];
    let a = ArrayView::from_shape(vec![2], vec![1], &data).unwrap();
    assert_eq!(a.percentile_axis(0, 1, 2, Interpolate::Linear).as_slice(), &[5]);
    let data = vec![3i64, 1, 4, 1, 5, 9, 2, 6, 5, 3, 5, 8];
    let b = ArrayView::from_shape(vec![2, 6], vec![6, 1], &data).unwrap();
    // sorted lanes: [1, 1, 3, 4, 5, 9] and [2, 3, 5, 5, 6, 8]
    assert_eq!(b.percentile_axis(1, 1, 2, Interpolate::Linear).as_slice(), &[3, 5]);
    assert_eq!(b.percentile_axis(1, 1, 2, Interpolate::Midpoint).as_slice(), &[3, 5]);
    assert_eq!(b.percentile_axis(1, 1, 2, Interpolate::Lower).as_slice(), &[3, 5]);
    assert_eq!(b.percentile_axis(1, 1, 2, Interpolate::Higher).as_slice(), &[4, 5]);
    assert_eq!(b.percentile_axis(1, 1, 2, Interpolate::Nearest).as_slice(), &[4, 5]);
    // q = 1/3: position 5/3, between sorted positions 1 and 2, two thirds along
    assert_eq!(b.percentile_axis(1, 1, 3, Interpolate::Linear).as_slice(), &[2, 4]);
    assert_eq!(b.percentile_axis(1, 1, 3, Interpolate::Nearest).as_slice(), &[3, 5]);
}

#[test]
fn percentile_of_strided_lanes() {
    let data: Vec<i64> = vec![5, 0, 4, 0, 3, 0, 2, 0, 1, 0];
    let a = ArrayView::from_shape(vec![5], vec![2], &data).unwrap();
    assert_eq!(a.percentile_axis(0, 1, 2, Interpolate::Lower).as_slice(), &[3]);
    let rev = a.slice_axis(0, 0, 5, -1).unwrap();
    assert_eq!(rev.percentile_axis(0, 1, 4, Interpolate::Linear).as_slice(), &[2]);
}

#[test]
fn percentile_axis_mut_reorders_lanes_in_place() {
    let data = vec![3i64, 1, 4, 1, 5, 9, 2, 6, 5, 3, 5, 8];
    let mut a = Array::from_shape_vec(vec![2, 6], data.clone()).unwrap();
    let lo = a.percentile_axis_mut(1, 0, 1, Interpolate::Lower);
    assert_eq!(lo.as_slice(), &[1, 2]);
    let hi = a.percentile_axis_mut(1, 1, 1, Interpolate::Higher);
    assert_eq!(hi.as_slice(), &[9, 8]);
    let mid = a.percentile_axis_mut(1, 1, 2, Interpolate::Linear);
    assert_eq!(mid.as_slice(), &[3, 5]);
    // each row still holds its own elements
    let rows = a.as_slice();
    assert_eq!(sorted(rows[..6].to_vec()), vec![1, 1, 3, 4, 5, 9]);
    assert_eq!(sorted(rows[6..].to_vec()), vec![2, 3, 5, 5, 6, 8]);

    let mut b = Array::from_shape_vec(vec![2, 6], data.clone()).unwrap();
    let cols = b.percentile_axis_mut(0, 1, 1, Interpolate::Nearest);
    assert_eq!(cols.as_slice(), &[3, 6, 5, 3, 5, 9]);
    let after = b.into_raw_vec();
    for j in 0..6 {
        assert_eq!(sorted(vec![after[j], after[6 + j]]), sorted(vec![data[j], data[6 + j]]));
    }
}
