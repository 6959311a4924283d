use ndarray::{ArrayView, Iter};

fn collect<A: Copy>(mut it: Iter<'_, A>) -> Vec<A> {
    let mut out = Vec::new();
    while let Some(x) = it.next() {
        out.push(*x);
    }
    out
}

fn values<A: Copy>(v: &ArrayView<'_, A>) -> Vec<A> {
    collect(v.iter())
}

#[test]
fn test_slice() {
    let data: Vec<usize> = (0..12).collect();
    let a = ArrayView::from_shape(vec![3, 4], vec![4, 1], &data).unwrap();
    let vi = a.slice_axis(0, 1, 3, 1).unwrap().slice_axis(1, 0, 4, 2).unwrap();
    assert_eq!(vi.shape(), &[2, 2]);
    let vi = a.slice_axis(0, 0, 3, 1).unwrap().slice_axis(1, 0, 4, 1).unwrap();
    assert_eq!(vi.shape(), a.shape());
    assert!(values(&vi).iter().zip(values(&a).iter()).all(|(x, y)| x == y));
}

#[test]
fn test_index() {
    let data: Vec<usize> = (0..6).collect();
    let a = ArrayView::from_shape(vec![2, 3], vec![3, 1], &data).unwrap();
    let elems = values(&a);
    let mut k = 0;
    for i in 0..2 {
        for j in 0..3 {
            assert_eq!(elems[k], *a.get(&[i, j]).unwrap());
            k += 1;
        }
    }

    let vi = a.slice_axis(0, 1, 2, 1).unwrap().slice_axis(1, 0, 3, 2).unwrap();
    let mut it = vi.iter();
    for i in 0..1 {
        for j in 0..2 {
            let x = it.next().unwrap();
            assert_eq!(*x, *vi.get(&[i, j]).unwrap());
        }
    }
    assert!(it.next().is_none());
}

#[test]
fn test_negative_stride_rcarray() {
    let data: Vec<f32> = (0..16).map(|i| i as f32).collect();
    let mat = ArrayView::from_shape(vec![2, 4, 2], vec![8, 2, 1], &data).unwrap();
    {
        let vi = mat.slice_axis(1, 0, 4, -1).unwrap().slice_axis(2, 0, 2, -1).unwrap();
        assert_eq!(vi.shape(), &[2, 4, 2]);
        // Test against sequential iterator
        let seq = [7f32, 6., 5., 4., 3., 2., 1., 0., 15., 14., 13., 12., 11., 10., 9., 8.];
        for (a, b) in values(&vi).iter().zip(seq.iter()) {
            assert_eq!(*a, *b);
        }
    }
    {
        let vi = mat.slice_axis(1, 0, 4, -5).unwrap();
        let seq = [6_f32, 7., 14., 15.];
        for (a, b) in values(&vi).iter().zip(seq.iter()) {
            assert_eq!(*a, *b);
        }
    }
}

#[test]
fn test_sub() {
    let data: Vec<f32> = (0..16).map(|i| i as f32).collect();
    let mat = ArrayView::from_shape(vec![2, 4, 2], vec![8, 2, 1], &data).unwrap();
    let s1 = mat.index_axis(0, 0);
    let s2 = mat.index_axis(0, 1);
    assert_eq!(s1.shape(), &[4, 2]);
    assert_eq!(s2.shape(), &[4, 2]);
    let ndata: Vec<f32> = (8..16).map(|i| i as f32).collect();
    let n = ArrayView::from_shape(vec![4, 2], vec![2, 1], &ndata).unwrap();
    assert_eq!(values(&n), values(&s2));
    let mdata = vec![2f32, 3., 10., 11.];
    let m = ArrayView::from_shape(vec![2, 2], vec![2, 1], &mdata).unwrap();
    assert_eq!(values(&m), values(&mat.index_axis(1, 1)));
    assert_eq!(m.shape(), mat.index_axis(1, 1).shape());
}

#[test]
fn standard_layout() {
    let data = vec![1., 2., 3., 4.0];
    let a = ArrayView::from_shape(vec![2, 2], vec![2, 1], &data).unwrap();
    assert!(a.is_standard_layout());
    let t = ArrayView::from_shape(vec![2, 2], vec![1, 2], &data).unwrap();
    assert!(!t.is_standard_layout());
    assert!(a.is_standard_layout());
    let x1 = a.index_axis(0, 0);
    assert!(x1.is_standard_layout());
    let x2 = a.index_axis(1, 0);
    assert!(!x2.is_standard_layout());
}

#[test]
fn iter_size_hint() {
    let data = vec![1., 2., 3., 4.];
    let a = ArrayView::from_shape(vec![2, 2], vec![2, 1], &data).unwrap();
    {
        let mut it = a.iter();
        assert_eq!(it.size_hint(), (4, Some(4)));
        it.next();
        assert_eq!(it.size_hint().0, 3);
        it.next();
        assert_eq!(it.size_hint().0, 2);
        it.next();
        assert_eq!(it.size_hint().0, 1);
        it.next();
        assert_eq!(it.size_hint().0, 0);
        assert!(it.next().is_none());
        assert_eq!(it.size_hint().0, 0);
    }

    // the same elements with the axes swapped
    let a = ArrayView::from_shape(vec![2, 2], vec![1, 2], &data).unwrap();
    {
        let mut it = a.iter();
        assert_eq!(it.size_hint(), (4, Some(4)));
        it.next();
        assert_eq!(it.size_hint().0, 3);
        it.next();
        assert_eq!(it.size_hint().0, 2);
        it.next();
        assert_eq!(it.size_hint().0, 1);
        it.next();
        assert_eq!(it.size_hint().0, 0);
        assert!(it.next().is_none());
        assert_eq!(it.size_hint().0, 0);
    }
}

#[test]
fn zero_axes() {
    let empty: Vec<f32> = vec![];
    let a = ArrayView::from_shape(vec![0], vec![1], &empty).unwrap();
    let mut it = a.iter();
    while let Some(_) = it.next() {
        assert!(false);
    }
    let b = ArrayView::from_shape(vec![4, 0], vec![0, 1], &empty).unwrap();
    assert_eq!(b.shape(), &[4, 0]);

    // we can even get a subarray of b
    let bsub = b.index_axis(0, 2);
    assert_eq!(bsub.shape(), &[0]);
}
