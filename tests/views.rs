use ndarray::{ArrayView, ArrayViewMut, ErrorKind, Iter, Zip};

fn collect<A: Copy>(mut it: Iter<'_, A>) -> Vec<A> {
    let mut out = Vec::new();
    while let Some(x) = it.next() {
        out.push(*x);
    }
    out
}

fn values<A: Copy>(v: &ArrayView<'_, A>) -> Vec<A> {
    collect(v.iter())
}

#[test]
fn from_shape_with_custom_strides() {
    let s = [0, 1, 2, 3, 4, 5, 6, 7, 8, 9, 10, 11, 12];
    let a = ArrayView::from_shape(vec![2, 3, 2], vec![1, 4, 2], &s).unwrap();
    assert_eq!(values(&a), vec![0, 2, 4, 6, 8, 10, 1, 3, 5, 7, 9, 11]);
    assert_eq!(a.strides(), &[1, 4, 2]);
    assert_eq!(a.len(), 12);
    assert_eq!(a.ndim(), 3);
    assert_eq!(*a.get(&[1, 2, 1]).unwrap(), 11);
    assert!(a.get(&[2, 0, 0]).is_none());
    assert!(a.get(&[0, 0]).is_none());
}

#[test]
fn from_shape_rejects_bad_layouts() {
    let s = [0u8; 6];
    let e = ArrayView::from_shape(vec![2, 4], vec![4, 1], &s).err().unwrap();
    assert_eq!(e.kind(), ErrorKind::OutOfBounds);
    let e = ArrayView::from_shape(vec![2, 3], vec![-3, 1], &s).err().unwrap();
    assert_eq!(e.kind(), ErrorKind::OutOfBounds);
    let e = ArrayView::from_shape(vec![usize::MAX, 4], vec![0, 0], &s).err().unwrap();
    assert_eq!(e.kind(), ErrorKind::Overflow);
    // an empty array fits anywhere
    assert!(ArrayView::from_shape(vec![0, 100], vec![100, 1], &s).is_ok());
    // a zero stride repeats one element
    let r = ArrayView::from_shape(vec![3], vec![0], &s[..1]).unwrap();
    assert_eq!(values(&r), vec![0, 0, 0]);
}

#[test]
fn split_at_covers_the_axis() {
    let data: Vec<u32> = (0..75).collect();
    let a = ArrayView::from_shape(vec![3, 5, 5], vec![25, 5, 1], &data).unwrap();
    let (l, r) = a.view().split_at(2, 2);
    assert_eq!(l.shape(), &[3, 5, 2]);
    assert_eq!(r.shape(), &[3, 5, 3]);
    for i in 0..3 {
        for j in 0..5 {
            for k in 0..5 {
                let x = *a.get(&[i, j, k]).unwrap();
                if k < 2 {
                    assert_eq!(*l.get(&[i, j, k]).unwrap(), x);
                } else {
                    assert_eq!(*r.get(&[i, j, k - 2]).unwrap(), x);
                }
            }
        }
    }
    let (l, r) = a.view().split_at(0, 3);
    assert_eq!(l.shape(), &[3, 5, 5]);
    assert_eq!(r.shape(), &[0, 5, 5]);
    assert_eq!(values(&l), data);
    assert!(values(&r).is_empty());
    let (l, r) = a.split_at(1, 0);
    assert_eq!(l.shape(), &[3, 0, 5]);
    assert_eq!(values(&r), data);
}

#[test]
fn into_slice_only_for_standard_layout() {
    let data: Vec<i32> = (0..6).collect();
    let a = ArrayView::from_shape(vec![2, 3], vec![3, 1], &data).unwrap();
    assert_eq!(a.into_slice().unwrap(), &data[..]);
    let t = ArrayView::from_shape(vec![3, 2], vec![1, 3], &data).unwrap();
    assert!(t.into_slice().is_none());
    let row = a.index_axis(0, 1);
    assert_eq!(row.into_slice().unwrap(), &[3, 4, 5]);
    let col = a.index_axis(1, 1);
    assert!(col.into_slice().is_none());
    assert_eq!(values(&col), vec![1, 4]);
}

#[test]
fn broadcast_replicates_axes() {
    let data = vec![1, 2, 3];
    let a = ArrayView::from_shape(vec![1, 3], vec![3, 1], &data).unwrap();
    let b = a.broadcast(&vec![2, 2, 3]).unwrap();
    assert_eq!(b.shape(), &[2, 2, 3]);
    assert_eq!(b.strides(), &[0, 0, 1]);
    assert_eq!(values(&b), vec![1, 2, 3, 1, 2, 3, 1, 2, 3, 1, 2, 3]);
    for i in 0..2 {
        for j in 0..2 {
            for k in 0..3 {
                assert_eq!(*b.get(&[i, j, k]).unwrap(), *a.get(&[0, k]).unwrap());
            }
        }
    }
    let col = ArrayView::from_shape(vec![2, 1], vec![1, 1], &data[..2]).unwrap();
    let c = col.broadcast(&vec![2, 3]).unwrap();
    assert_eq!(values(&c), vec![1, 1, 1, 2, 2, 2]);
}

#[test]
fn broadcast_rejects_incompatible_shapes() {
    let data = vec![1, 2, 3];
    let a = ArrayView::from_shape(vec![3], vec![1], &data).unwrap();
    assert_eq!(a.broadcast(&vec![2, 4]).err().unwrap().kind(), ErrorKind::IncompatibleShape);
    assert_eq!(a.broadcast(&vec![]).err().unwrap().kind(), ErrorKind::IncompatibleShape);
    assert_eq!(
        a.broadcast(&vec![usize::MAX, 4, 3]).err().unwrap().kind(),
        ErrorKind::Overflow
    );
}

#[test]
fn slice_axis_bounds_and_lengths() {
    let data: Vec<i64> = (0..10).collect();
    let a = ArrayView::from_shape(vec![10], vec![1], &data).unwrap();
    assert_eq!(values(&a.slice_axis(0, 1, 8, 3).unwrap()), vec![1, 4, 7]);
    assert_eq!(values(&a.slice_axis(0, 1, 8, -3).unwrap()), vec![7, 4, 1]);
    assert_eq!(values(&a.slice_axis(0, 2, 9, -2).unwrap()), vec![8, 6, 4, 2]);
    assert_eq!(a.slice_axis(0, 4, 4, 1).unwrap().shape(), &[0]);
    assert_eq!(a.slice_axis(0, 0, 11, 1).err().unwrap().kind(), ErrorKind::OutOfBounds);
    assert_eq!(a.slice_axis(0, 5, 4, 1).err().unwrap().kind(), ErrorKind::OutOfBounds);
    assert_eq!(a.slice_axis(0, 0, 4, 0).err().unwrap().kind(), ErrorKind::OutOfBounds);
    let one = a.slice_axis(0, 9, 10, isize::MIN).unwrap();
    assert_eq!(values(&one), vec![9]);
}

#[test]
fn outer_iter_walks_axis_zero() {
    let data: Vec<i64> = (0..6).collect();
    let a = ArrayView::from_shape(vec![3, 2], vec![2, 1], &data).unwrap();
    let mut it = a.into_outer_iter();
    let mut rows = Vec::new();
    while let Some(r) = it.next() {
        rows.push(values(&r));
    }
    assert_eq!(rows, vec![vec![0, 1], vec![2, 3], vec![4, 5]]);
}

#[test]
fn zip_walks_two_layouts_in_lock_step() {
    let data: Vec<i64> = (0..6).collect();
    let a = ArrayView::from_shape(vec![2, 3], vec![3, 1], &data).unwrap();
    let t = ArrayView::from_shape(vec![2, 3], vec![1, 2], &data).unwrap();
    let mut z = Zip::from(&a, &t);
    let mut pairs = Vec::new();
    while let Some((x, y)) = z.next() {
        pairs.push((*x, *y));
    }
    assert_eq!(pairs, vec![(0, 0), (1, 2), (2, 4), (3, 1), (4, 3), (5, 5)]);
    assert!(z.next().is_none());
}

#[test]
fn view_mut_writes_through_strides() {
    let mut s = [0, 1, 2, 3, 4, 5, 6, 7, 8, 9, 10, 11, 12];
    let mut a = ArrayViewMut::from_shape(vec![2, 3, 2], vec![1, 4, 2], &mut s).unwrap();
    assert!(a.set(&[0, 0, 0], 1));
    assert!(!a.set(&[2, 0, 0], 7));
    assert_eq!(*a.get(&[1, 2, 1]).unwrap(), 11);
    let v = a.into_view();
    assert_eq!(values(&v), vec![1, 2, 4, 6, 8, 10, 1, 3, 5, 7, 9, 11]);
    assert_eq!(v.strides(), &[1, 4, 2]);
}

#[test]
fn view_mut_into_slice_only_for_standard_layout() {
    let mut data: Vec<i32> = (0..6).collect();
    {
        let t = ArrayViewMut::from_shape(vec![3, 2], vec![1, 3], &mut data).unwrap();
        assert!(t.into_slice().is_none());
    }
    {
        let a = ArrayViewMut::from_shape(vec![2, 3], vec![3, 1], &mut data).unwrap();
        let s = a.into_slice().unwrap();
        s[4] = 40;
    }
    assert_eq!(data, vec![0, 1, 2, 3, 40, 5]);
    let e = ArrayViewMut::from_shape(vec![7], vec![1], &mut data).err().unwrap();
    assert_eq!(e.kind(), ErrorKind::OutOfBounds);
}
