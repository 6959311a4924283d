//! Read-only array views: a shape/stride/offset triple over a borrowed
//! element buffer.
use vstd::prelude::*;

use crate::dimension::{
    broadcast_compatible, broadcast_index, broadcast_strides, can_index_slice, in_bounds, is_index, is_standard, layout_ok, lemma_layout_in_bounds,
    lemma_size_nonneg, lemma_standard_offset, lemma_unravel_is_index, nonzero_size, offset, size,
    unravel,
};
use crate::error::{ErrorKind, ShapeError};
use crate::iterators::Baseiter;

verus! {

/// A read-only view of an n-dimensional array: `dim[j]` is the length of
/// axis `j`, `strides[j]` the distance in elements between neighbours along
/// it, and `ptr` the position in `data` of the element at index zero.
pub struct ArrayView<'a, A> {
    data: &'a [A],
    ptr: usize,
    dim: Vec<usize>,
    strides: Vec<isize>,
}

/// Copy of a vector of plain values.
pub fn copy_vec<T: Copy>(v: &Vec<T>) -> (r: Vec<T>)
    ensures
        r@ == v@,
{
    let mut r: Vec<T> = Vec::new();
    let mut i: usize = 0;
    while i < v.len()
        invariant
            i <= v@.len(),
            r@ == v@.subrange(0, i as int),
        decreases v@.len() - i,
    {
        r.push(v[i]);
        i = i + 1;
        proof {
            assert(r@ =~= v@.subrange(0, i as int));
        }
    }
    proof {
        assert(r@ =~= v@);
    }
    r
}

/// Buffer position of `index` in the region `(ptr, dim, strides)`, or
/// `None` if `index` is not a valid index.
fn position(ptr: usize, dim: &Vec<usize>, strides: &Vec<isize>, index: &[usize], Ghost(len): Ghost<int>) -> (r: Option<usize>)
    requires
        dim@.len() == strides@.len(),
        len <= isize::MAX,
        0 <= ptr <= len,
        in_bounds(len, ptr as int, dim@, strides@),
    ensures
        r is Some <==> is_index(index@, dim@),
        r is Some ==> r->Some_0 == ptr + offset(index@, strides@) && r->Some_0 < len,
{
    let n = dim.len();
    if index.len() != n {
        return None;
    }
    let mut i: usize = 0;
    while i < n
        invariant
            n == dim@.len() == index@.len(),
            i <= n,
            forall|j: int| 0 <= j < i ==> #[trigger] index@[j] < dim@[j],
        decreases n - i,
    {
        if index[i] >= dim[i] {
            return None;
        }
        i = i + 1;
    }
    let ghost mut cur: Seq<usize> = crate::iterators::zeros(n as int);
    proof {
        crate::iterators::lemma_offset_zeros(cur, strides@);
    }
    let mut off: i128 = ptr as i128;
    let mut k: usize = 0;
    while k < n
        invariant
            n == dim@.len() == strides@.len() == index@.len() == cur.len(),
            k <= n,
            in_bounds(len, ptr as int, dim@, strides@),
            len <= isize::MAX,
            is_index(index@, dim@),
            forall|j: int| 0 <= j < k ==> #[trigger] cur[j] == index@[j],
            forall|j: int| k <= j < n ==> #[trigger] cur[j] == 0,
            off == ptr + offset(cur, strides@),
        decreases n - k,
    {
        let ix = index[k];
        let s = strides[k];
        proof {
            crate::dimension::lemma_offset_update(cur, strides@, k as int, ix);
            cur = cur.update(k as int, ix);
            assert forall|j: int| 0 <= j < n implies #[trigger] cur[j] < dim@[j] by {
                assert(index@[j] < dim@[j]);
            }
            assert(is_index(cur, dim@));
            assert(i128::MIN <= ix * s <= i128::MAX) by (nonlinear_arith)
                requires 0 <= ix <= usize::MAX, isize::MIN <= s <= isize::MAX;
        }
        off = off + (ix as i128) * (s as i128);
        k = k + 1;
    }
    proof {
        assert(cur =~= index@);
    }
    Some(off as usize)
}




impl<'a, A> ArrayView<'a, A> {
    /// The borrowed buffer.
    pub closed spec fn spec_data(&self) -> Seq<A> {
        self.data@
    }

    /// Position in the buffer of the element at index zero.
    pub closed spec fn spec_ptr(&self) -> int {
        self.ptr as int
    }

    /// The shape.
    pub closed spec fn spec_dim(&self) -> Seq<usize> {
        self.dim@
    }

    /// The strides, in elements.
    pub closed spec fn spec_strides(&self) -> Seq<isize> {
        self.strides@
    }

    /// Ranks agree, counts fit in `isize`, and every valid index lands in the buffer.
    pub open spec fn wf(&self) -> bool {
        &&& self.spec_dim().len() == self.spec_strides().len()
        &&& size(self.spec_dim()) <= isize::MAX
        &&& self.spec_data().len() <= isize::MAX
        &&& 0 <= self.spec_ptr() <= self.spec_data().len()
        &&& in_bounds(
            self.spec_data().len() as int,
            self.spec_ptr(),
            self.spec_dim(),
            self.spec_strides(),
        )
    }

    /// The element at multi-index `idx`.
    pub open spec fn elem(&self, idx: Seq<usize>) -> A {
        self.spec_data()[self.spec_ptr() + offset(idx, self.spec_strides())]
    }

    /// All elements in row-major logical order.
    pub open spec fn values(&self) -> Seq<A> {
        Seq::new(size(self.spec_dim()) as nat, |k: int| self.elem(unravel(k, self.spec_dim())))
    }

    /// Create a read-only array view of shape `dim` and strides `strides`
    /// borrowing its data from a slice, with index zero at the front.
    ///
    /// Checks whether the shape and strides are compatible with the slice's
    /// length, returning an `Err` if not compatible: `Overflow` when the
    /// element count does not fit in `isize`, `OutOfBounds` when an index
    /// would land outside the slice.
    pub fn from_shape(dim: Vec<usize>, strides: Vec<isize>, xs: &'a [A]) -> (r: Result<Self, ShapeError>)
        requires
            dim@.len() == strides@.len(),
        ensures
            r is Ok <==> (layout_ok(xs@.len() as int, 0, dim@, strides@) && nonzero_size(dim@)
                <= isize::MAX),
            r is Ok ==> {
                let v = r->Ok_0;
                &&& v.wf()
                &&& v.spec_data() == xs@
                &&& v.spec_ptr() == 0
                &&& v.spec_dim() == dim@
                &&& v.spec_strides() == strides@
            },
            r is Err ==> r->Err_0.spec_kind() == if nonzero_size(dim@) > isize::MAX || xs@.len()
                > isize::MAX {
                ErrorKind::Overflow
            } else {
                ErrorKind::OutOfBounds
            },
    {
        match can_index_slice(xs.len(), &dim, &strides) {
            Ok(()) => {
                proof {
                    lemma_layout_in_bounds(xs@.len() as int, 0, dim@, strides@);
                }
                Ok(ArrayView { data: xs, ptr: 0, dim, strides })
            },
            Err(e) => Err(e),
        }
    }

    /// Build a view from its parts.
    pub(crate) fn from_parts(data: &'a [A], ptr: usize, dim: Vec<usize>, strides: Vec<isize>) -> (r: ArrayView<'a, A>)
        ensures
            r.spec_data() == data@,
            r.spec_ptr() == ptr,
            r.spec_dim() == dim@,
            r.spec_strides() == strides@,
    {
        ArrayView { data, ptr, dim, strides }
    }

    /// The borrowed buffer.
    pub(crate) fn data_slice(&self) -> (r: &'a [A])
        ensures
            r@ == self.spec_data(),
    {
        self.data
    }

    /// Position in the buffer of the element at index zero.
    pub(crate) fn ptr_of(&self) -> (r: usize)
        ensures
            r == self.spec_ptr(),
    {
        self.ptr
    }

    /// Another view of the same elements.
    pub fn view(&self) -> (r: ArrayView<'a, A>)
        ensures
            r.spec_data() == self.spec_data(),
            r.spec_ptr() == self.spec_ptr(),
            r.spec_dim() == self.spec_dim(),
            r.spec_strides() == self.spec_strides(),
    {
        ArrayView { data: self.data, ptr: self.ptr, dim: copy_vec(&self.dim), strides: copy_vec(&self.strides) }
    }

    /// The shape of the view.
    pub fn shape(&self) -> (r: &[usize])
        ensures
            r@ == self.spec_dim(),
    {
        self.dim.as_slice()
    }

    /// The strides of the view.
    pub fn strides(&self) -> (r: &[isize])
        ensures
            r@ == self.spec_strides(),
    {
        self.strides.as_slice()
    }

    /// Number of axes.
    pub fn ndim(&self) -> (r: usize)
        ensures
            r == self.spec_dim().len(),
    {
        self.dim.len()
    }

    /// Number of elements.
    pub fn len(&self) -> (r: usize)
        requires
            self.wf(),
        ensures
            r == size(self.spec_dim()),
    {
        let n = self.dim.len();
        let mut i: usize = 0;
        while i < n
            invariant
                n == self.dim@.len(),
                i <= n,
                forall|j: int| 0 <= j < i ==> #[trigger] self.dim@[j] > 0,
            decreases n - i,
        {
            if self.dim[i] == 0 {
                proof {
                    lemma_size_nonneg(self.dim@);
                    if size(self.dim@) > 0 {
                        crate::dimension::lemma_size_positive(self.dim@);
                        assert(self.dim@[i as int] > 0);
                    }
                }
                return 0;
            }
            i = i + 1;
        }
        crate::iterators::size_of(&self.dim)
    }

    /// Length of axis `axis`.
    pub fn len_of(&self, axis: usize) -> (r: usize)
        requires
            axis < self.spec_dim().len(),
        ensures
            r == self.spec_dim()[axis as int],
    {
        self.dim[axis]
    }

    /// Stride of axis `axis`.
    pub fn stride_of(&self, axis: usize) -> (r: isize)
        requires
            axis < self.spec_strides().len(),
        ensures
            r == self.spec_strides()[axis as int],
    {
        self.strides[axis]
    }

    /// Return `true` if the view is laid out contiguously in row-major order.
    pub fn is_standard_layout(&self) -> (r: bool)
        requires
            self.wf(),
        ensures
            r == is_standard(self.spec_dim(), self.spec_strides()),
    {
        crate::dimension::is_standard_layout(&self.dim, &self.strides)
    }

    /// The element at `index`, or `None` if `index` is not a valid index.
    pub fn get(&self, index: &[usize]) -> (r: Option<&'a A>)
        requires
            self.wf(),
        ensures
            r is Some <==> is_index(index@, self.spec_dim()),
            r is Some ==> *r->Some_0 == self.elem(index@),
    {
        match position(self.ptr, &self.dim, &self.strides, index, Ghost(self.data@.len() as int)) {
            Some(p) => Some(&self.data[p]),
            None => None,
        }
    }

    /// Split the array view along `axis` and return one view strictly before
    /// the split and one view after the split.
    ///
    /// The left view covers indices `0..index` of `axis`, the right view
    /// `index..len`; together they hold every element of `self` once.
    ///
    /// **Panics** if `axis` or `index` is out of bounds (excluded by `requires`).
    pub fn split_at(self, axis: usize, index: usize) -> (r: (Self, Self))
        requires
            self.wf(),
            axis < self.spec_dim().len(),
            index <= self.spec_dim()[axis as int],
        ensures
            r.0.wf(),
            r.1.wf(),
            r.0.spec_dim() == self.spec_dim().update(axis as int, index),
            r.1.spec_dim() == self.spec_dim().update(
                axis as int,
                (self.spec_dim()[axis as int] - index) as usize,
            ),
            r.0.spec_strides() == self.spec_strides(),
            r.1.spec_strides() == self.spec_strides(),
            forall|i: Seq<usize>| #[trigger] is_index(i, r.0.spec_dim()) ==> r.0.elem(i) == self.elem(i),
            forall|i: Seq<usize>|
                #[trigger] is_index(i, r.1.spec_dim()) ==> r.1.elem(i) == self.elem(
                    i.update(axis as int, (i[axis as int] + index) as usize),
                ),
            forall|i: Seq<usize>|
                #[trigger] is_index(i, self.spec_dim()) ==> if i[axis as int] < index {
                    is_index(i, r.0.spec_dim()) && r.0.elem(i) == self.elem(i)
                } else {
                    let j = i.update(axis as int, (i[axis as int] - index) as usize);
                    is_index(j, r.1.spec_dim()) && r.1.elem(j) == self.elem(i)
                },
    {
        let ghost old_dim = self.dim@;
        let len = self.dim[axis];
        let mut dim_left = copy_vec(&self.dim);
        dim_left.set(axis, index);
        let mut dim_right = copy_vec(&self.dim);
        dim_right.set(axis, len - index);
        proof {
            assert forall|i: Seq<usize>| #[trigger] is_index(i, dim_left@) implies is_index(i, old_dim) by {
                assert forall|j: int| 0 <= j < i.len() implies #[trigger] i[j] < old_dim[j] by {
                    assert(i[j] < dim_left@[j]);
                }
            }
            assert forall|i: Seq<usize>| #[trigger] is_index(i, dim_right@) implies is_index(
                i.update(axis as int, (i[axis as int] + index) as usize),
                old_dim,
            ) by {
                let u = i.update(axis as int, (i[axis as int] + index) as usize);
                assert forall|j: int| 0 <= j < u.len() implies #[trigger] u[j] < old_dim[j] by {
                    assert(i[j] < dim_right@[j]);
                }
            }
            crate::dimension::lemma_size_le_update(old_dim, axis as int, index);
            crate::dimension::lemma_size_le_update(old_dim, axis as int, (len - index) as usize);
        }
        let right_ptr = match crate::dimension::size_of_shape_checked(&dim_right) {
            Ok(n) if n > 0 => {
                proof {
                    let z = crate::iterators::zeros(old_dim.len() as int);
                    crate::dimension::lemma_size_positive(dim_right@);
                    assert(is_index(z, dim_right@));
                    let u = z.update(axis as int, (z[axis as int] + index) as usize);
                    assert(u == z.update(axis as int, index));
                    crate::iterators::lemma_offset_zeros(z, self.strides@);
                    crate::dimension::lemma_offset_update(z, self.strides@, axis as int, index);
                    assert(0 <= self.ptr + offset(u, self.strides@) < self.data@.len());
                    assert(i128::MIN <= index * self.strides@[axis as int] <= i128::MAX) by (nonlinear_arith)
                        requires 0 <= index <= usize::MAX, isize::MIN <= self.strides@[axis as int] <= isize::MAX;
                }
                ((self.ptr as i128) + (index as i128) * (self.strides[axis] as i128)) as usize
            },
            _ => self.ptr,
        };
        let left = ArrayView { data: self.data, ptr: self.ptr, dim: dim_left, strides: copy_vec(&self.strides) };
        let right = ArrayView { data: self.data, ptr: right_ptr, dim: dim_right, strides: copy_vec(&self.strides) };
        proof {
            assert forall|i: Seq<usize>| #[trigger] is_index(i, right.dim@) implies right.elem(i) == self.elem(
                i.update(axis as int, (i[axis as int] + index) as usize),
            ) && 0 <= right.ptr + offset(i, right.strides@) < self.data@.len() by {
                let u = i.update(axis as int, (i[axis as int] + index) as usize);
                assert(is_index(u, old_dim));
                crate::dimension::lemma_offset_update(i, self.strides@, axis as int, (i[axis as int] + index) as usize);
                lemma_size_nonneg(dim_right@);
                crate::dimension::lemma_nonzero_size(dim_right@);
                if size(dim_right@) == 0 {
                    assert forall|j: int| 0 <= j < dim_right@.len() implies #[trigger] dim_right@[j] > 0 by {
                        assert(i[j] < dim_right@[j]);
                    }
                    crate::dimension::lemma_size_positive_converse(dim_right@);
                }
            }
            assert forall|i: Seq<usize>| #[trigger] is_index(i, old_dim) implies if i[axis as int] < index {
                is_index(i, left.dim@) && left.elem(i) == self.elem(i)
            } else {
                let j = i.update(axis as int, (i[axis as int] - index) as usize);
                is_index(j, right.dim@) && right.elem(j) == self.elem(i)
            } by {
                if i[axis as int] < index {
                    assert forall|t: int| 0 <= t < i.len() implies #[trigger] i[t] < left.dim@[t] by {
                        assert(i[t] < old_dim[t]);
                    }
                    assert(is_index(i, left.dim@));
                } else {
                    let j = i.update(axis as int, (i[axis as int] - index) as usize);
                    assert forall|t: int| 0 <= t < j.len() implies #[trigger] j[t] < right.dim@[t] by {
                        assert(i[t] < old_dim[t]);
                    }
                    assert(is_index(j, right.dim@));
                    assert(j.update(axis as int, (j[axis as int] + index) as usize) =~= i);
                }
            }
        }
        (left, right)
    }

    /// Return the array's data as a slice, if it is contiguous and in
    /// standard order; `None` otherwise.
    pub fn into_slice(&self) -> (r: Option<&'a [A]>)
        requires
            self.wf(),
        ensures
            r is Some <==> is_standard(self.spec_dim(), self.spec_strides()),
            r is Some ==> r->Some_0@ == self.values(),
    {
        if self.is_standard_layout() {
            let n = self.len();
            proof {
                if n > 0 {
                    lemma_unravel_is_index(n - 1, self.dim@);
                    lemma_standard_offset(n - 1, self.dim@, self.strides@);
                }
            }
            let s = vstd::slice::slice_subrange(self.data, self.ptr, self.ptr + n);
            proof {
                assert forall|k: int| 0 <= k < n implies s@[k] == #[trigger] self.values()[k] by {
                    lemma_standard_offset(k, self.dim@, self.strides@);
                }
                assert(s@ =~= self.values());
            }
            Some(s)
        } else {
            None
        }
    }

    /// The view of the subarray at `index` along `axis`, with that axis removed.
    ///
    /// **Panics** if `axis` or `index` is out of bounds (excluded by `requires`).
    pub fn index_axis(&self, axis: usize, index: usize) -> (r: ArrayView<'a, A>)
        requires
            self.wf(),
            axis < self.spec_dim().len(),
            index < self.spec_dim()[axis as int],
        ensures
            r.wf(),
            r.spec_dim() == self.spec_dim().remove(axis as int),
            r.spec_strides() == self.spec_strides().remove(axis as int),
            forall|i: Seq<usize>|
                #[trigger] is_index(i, r.spec_dim()) ==> r.elem(i) == self.elem(
                    i.insert(axis as int, index),
                ),
    {
        let mut dim = copy_vec(&self.dim);
        let mut strides = copy_vec(&self.strides);
        let s = self.strides[axis];
        dim.remove(axis);
        strides.remove(axis);
        let ghost old_dim = self.dim@;
        proof {
            assert forall|i: Seq<usize>| #[trigger] is_index(i, dim@) implies is_index(
                i.insert(axis as int, index),
                old_dim,
            ) by {
                let u = i.insert(axis as int, index);
                assert forall|j: int| 0 <= j < u.len() implies #[trigger] u[j] < old_dim[j] by {
                    if j < axis {
                        assert(i[j] < dim@[j]);
                    } else if j > axis {
                        assert(i[j - 1] < dim@[j - 1]);
                    }
                }
            }
            crate::dimension::lemma_size_remove(old_dim, axis as int);
        }
        let new_ptr = match crate::dimension::size_of_shape_checked(&dim) {
            Ok(n) if n > 0 => {
                proof {
                    let z = crate::iterators::zeros(dim@.len() as int);
                    crate::dimension::lemma_size_positive(dim@);
                    assert(is_index(z, dim@));
                    crate::dimension::lemma_offset_insert(z, self.strides@, axis as int, index);
                    crate::iterators::lemma_offset_zeros(z, strides@);
                    assert(is_index(z.insert(axis as int, index), old_dim));
                    assert(0 <= self.ptr + offset(z.insert(axis as int, index), self.strides@) < self.data@.len());
                    assert(i128::MIN <= index * s <= i128::MAX) by (nonlinear_arith)
                        requires 0 <= index <= usize::MAX, isize::MIN <= s <= isize::MAX;
                }
                ((self.ptr as i128) + (index as i128) * (s as i128)) as usize
            },
            _ => self.ptr,
        };
        let r = ArrayView { data: self.data, ptr: new_ptr, dim, strides };
        proof {
            assert forall|i: Seq<usize>| #[trigger] is_index(i, r.dim@) implies r.elem(i) == self.elem(
                i.insert(axis as int, index),
            ) && 0 <= r.ptr + offset(i, r.strides@) < self.data@.len() by {
                crate::dimension::lemma_offset_insert(i, self.strides@, axis as int, index);
                assert(is_index(i.insert(axis as int, index), old_dim));
                lemma_size_nonneg(r.dim@);
                crate::dimension::lemma_nonzero_size(r.dim@);
                if size(r.dim@) == 0 {
                    assert forall|j: int| 0 <= j < r.dim@.len() implies #[trigger] r.dim@[j] > 0 by {
                        assert(i[j] < r.dim@[j]);
                    }
                    crate::dimension::lemma_size_positive_converse(r.dim@);
                }
            }
        }
        r
    }


    /// Act like a larger view of shape `shape` by replicating axes of
    /// length one and prepending missing leading axes, without copying.
    ///
    /// Fails with `Overflow` when the element count of `shape` does not fit
    /// in `isize`, and with `IncompatibleShape` when the shapes do not
    /// broadcast.
    pub fn broadcast(&self, shape: &Vec<usize>) -> (r: Result<ArrayView<'a, A>, ShapeError>)
        requires
            self.wf(),
        ensures
            r is Ok <==> (broadcast_compatible(self.spec_dim(), shape@) && nonzero_size(shape@)
                <= isize::MAX),
            r is Ok ==> {
                let v = r->Ok_0;
                &&& v.wf()
                &&& v.spec_dim() == shape@
                &&& v.spec_strides() == broadcast_strides(self.spec_dim(), self.spec_strides(), shape@)
                &&& forall|i: Seq<usize>| #[trigger] is_index(i, shape@) ==> {
                    &&& is_index(broadcast_index(i, self.spec_dim(), shape@), self.spec_dim())
                    &&& v.elem(i) == self.elem(broadcast_index(i, self.spec_dim(), shape@))
                }
            },
            r is Err ==> r->Err_0.spec_kind() == if nonzero_size(shape@) > isize::MAX {
                ErrorKind::Overflow
            } else {
                ErrorKind::IncompatibleShape
            },
    {
        if let Err(e) = crate::dimension::size_of_shape_checked(shape) {
            return Err(e);
        }
        let tn = shape.len();
        let sn = self.dim.len();
        if sn > tn {
            return Err(ShapeError::from_kind(ErrorKind::IncompatibleShape));
        }
        let k = tn - sn;
        let mut strides: Vec<isize> = Vec::new();
        let mut j: usize = 0;
        while j < tn
            invariant
                tn == shape@.len(),
                sn == self.dim@.len() == self.strides@.len(),
                k == tn - sn,
                j <= tn,
                nonzero_size(shape@) <= isize::MAX,
                strides@ == broadcast_strides(self.dim@, self.strides@, shape@).subrange(0, j as int),
                forall|t: int|
                    0 <= t < sn && t + k < j ==> #[trigger] self.dim@[t] == shape@[t + k]
                        || self.dim@[t] == 1,
            decreases tn - j,
        {
            if j < k {
                strides.push(0);
            } else {
                let d = self.dim[j - k];
                if d == shape[j] {
                    strides.push(self.strides[j - k]);
                } else if d == 1 {
                    strides.push(0);
                } else {
                    return Err(ShapeError::from_kind(ErrorKind::IncompatibleShape));
                }
            }
            j = j + 1;
            proof {
                assert(strides@ =~= broadcast_strides(self.dim@, self.strides@, shape@).subrange(
                    0,
                    j as int,
                ));
            }
        }
        proof {
            assert(strides@ =~= broadcast_strides(self.dim@, self.strides@, shape@));
            crate::dimension::lemma_nonzero_size(shape@);
        }
        let v = ArrayView { data: self.data, ptr: self.ptr, dim: copy_vec(shape), strides };
        proof {
            assert forall|i: Seq<usize>| #[trigger] is_index(i, shape@) implies {
                &&& is_index(broadcast_index(i, self.dim@, shape@), self.dim@)
                &&& 0 <= v.ptr + offset(i, v.strides@) < self.data@.len()
                &&& v.elem(i) == self.elem(broadcast_index(i, self.dim@, shape@))
            } by {
                crate::dimension::lemma_broadcast_offset(i, self.dim@, self.strides@, shape@);
            }
        }
        Ok(v)
    }

    /// Slice axis `axis` to the positions `start..end` taken with step
    /// `step`; a negative step walks them from the back.
    ///
    /// The new length is `ceil((end - start) / |step|)`. Position `t` of the
    /// new axis is `start + t * step` for a positive step and
    /// `end - 1 + t * step` for a negative one.
    ///
    /// Fails with `OutOfBounds` unless `start <= end <= len` and `step != 0`.
    pub fn slice_axis(&self, axis: usize, start: usize, end: usize, step: isize) -> (r: Result<
        ArrayView<'a, A>,
        ShapeError,
    >)
        requires
            self.wf(),
            axis < self.spec_dim().len(),
        ensures
            r is Ok <==> (start <= end <= self.spec_dim()[axis as int] && step != 0),
            r is Ok ==> {
                let v = r->Ok_0;
                &&& v.wf()
                &&& v.spec_dim() == self.spec_dim().update(
                    axis as int,
                    slice_len(start as int, end as int, step as int) as usize,
                )
                &&& forall|i: Seq<usize>| #[trigger] is_index(i, v.spec_dim()) ==> {
                    &&& is_index(
                        i.update(axis as int, slice_pos(start as int, end as int, step as int, i[axis as int] as int) as usize),
                        self.spec_dim(),
                    )
                    &&& v.elem(i) == self.elem(
                        i.update(axis as int, slice_pos(start as int, end as int, step as int, i[axis as int] as int) as usize),
                    )
                }
            },
            r is Err ==> r->Err_0.spec_kind() == ErrorKind::OutOfBounds,
    {
        let len = self.dim[axis];
        if !(start <= end && end <= len && step != 0) {
            return Err(ShapeError::from_kind(ErrorKind::OutOfBounds));
        }
        let abs: usize = if step < 0 {
            (-(step as i128)) as usize
        } else {
            step as usize
        };
        let m: usize = if end == start {
            0
        } else {
            (end - start - 1) / abs + 1
        };
        let s = self.stride_of(axis);
        let first: usize = if step > 0 {
            start
        } else if end > 0 {
            end - 1
        } else {
            0
        };
        let mut dim = copy_vec(&self.dim);
        dim.set(axis, m);
        let ghost old_dim = self.dim@;
        let ghost st = start as int;
        let ghost en = end as int;
        let ghost sp = step as int;
        proof {
            assert(m == slice_len(st, en, sp));
            assert forall|i: Seq<usize>| #[trigger] is_index(i, dim@) implies is_index(
                i.update(axis as int, slice_pos(st, en, sp, i[axis as int] as int) as usize),
                old_dim,
            ) by {
                lemma_slice_pos_in_range(st, en, sp, i[axis as int] as int);
                let u = i.update(axis as int, slice_pos(st, en, sp, i[axis as int] as int) as usize);
                assert forall|j: int| 0 <= j < u.len() implies #[trigger] u[j] < old_dim[j] by {
                    assert(i[j] < dim@[j]);
                }
            }
            lemma_slice_len_le(st, en, sp);
            crate::dimension::lemma_size_le_update(old_dim, axis as int, m);
            crate::dimension::lemma_nonzero_size(dim@);
            lemma_size_nonneg(dim@);
        }
        let total = match crate::dimension::size_of_shape_checked(&dim) {
            Ok(n) => n,
            Err(_) => 0,
        };
        proof {
            assert(i128::MIN <= s * sp <= i128::MAX) by (nonlinear_arith)
                requires isize::MIN <= s <= isize::MAX, isize::MIN <= sp <= isize::MAX;
        }
        let prod: i128 = (s as i128) * (step as i128);
        let new_s: isize = if total > 0 && m > 1 {
            proof {
                crate::dimension::lemma_size_positive(dim@);
                let z = crate::iterators::zeros(dim@.len() as int);
                let z1 = z.update(axis as int, 1);
                assert(is_index(z, dim@));
                assert(is_index(z1, dim@));
                let u0 = z.update(axis as int, slice_pos(st, en, sp, 0) as usize);
                let u1 = z1.update(axis as int, slice_pos(st, en, sp, 1) as usize);
                assert(z1[axis as int] == 1);
                lemma_slice_pos_in_range(st, en, sp, 0);
                lemma_slice_pos_in_range(st, en, sp, 1);
                assert(is_index(u0, old_dim));
                assert(is_index(u1, old_dim));
                assert(u1 == u0.update(axis as int, slice_pos(st, en, sp, 1) as usize));
                crate::iterators::lemma_offset_zeros(z, self.strides@);
                crate::dimension::lemma_offset_update(z, self.strides@, axis as int, slice_pos(st, en, sp, 0) as usize);
                crate::dimension::lemma_offset_update(u0, self.strides@, axis as int, slice_pos(st, en, sp, 1) as usize);
                assert(0 <= self.ptr + offset(u0, self.strides@) < self.data@.len());
                assert(0 <= self.ptr + offset(u1, self.strides@) < self.data@.len());
                assert((slice_pos(st, en, sp, 1) - slice_pos(st, en, sp, 0)) * s == sp * s) by (nonlinear_arith)
                    requires slice_pos(st, en, sp, 1) - slice_pos(st, en, sp, 0) == sp;
                assert(sp * s == prod) by (nonlinear_arith)
                    requires prod == s * sp;
                assert(isize::MIN <= prod <= isize::MAX);
            }
            let ns = prod as isize;
            proof {
                assert(ns == s * sp);
            }
            ns
        } else {
            if isize::MIN as i128 <= prod && prod <= isize::MAX as i128 {
                prod as isize
            } else {
                0
            }
        };
        let mut strides = copy_vec(&self.strides);
        strides.set(axis, new_s);
        let new_ptr: usize = if total > 0 {
            proof {
                crate::dimension::lemma_size_positive(dim@);
                let z = crate::iterators::zeros(dim@.len() as int);
                assert(is_index(z, dim@));
                let u0 = z.update(axis as int, slice_pos(st, en, sp, 0) as usize);
                assert(is_index(u0, old_dim));
                crate::iterators::lemma_offset_zeros(z, self.strides@);
                crate::dimension::lemma_offset_update(z, self.strides@, axis as int, slice_pos(st, en, sp, 0) as usize);
                assert(slice_pos(st, en, sp, 0) == first);
                assert(0 <= self.ptr + offset(u0, self.strides@) < self.data@.len());
                assert(i128::MIN <= first * s <= i128::MAX) by (nonlinear_arith)
                    requires 0 <= first <= usize::MAX, isize::MIN <= s <= isize::MAX;
            }
            let np = ((self.ptr as i128) + (first as i128) * (s as i128)) as usize;
            proof {
                assert(np == self.ptr + first * s);
            }
            np
        } else {
            self.ptr
        };
        let v = ArrayView { data: self.data, ptr: new_ptr, dim, strides };
        proof {
            assert forall|i: Seq<usize>| #[trigger] is_index(i, v.dim@) implies {
                &&& 0 <= v.ptr + offset(i, v.strides@) < self.data@.len()
                &&& v.elem(i) == self.elem(
                    i.update(axis as int, slice_pos(st, en, sp, i[axis as int] as int) as usize),
                )
            } by {
                let t = i[axis as int] as int;
                let p = slice_pos(st, en, sp, t);
                let u = i.update(axis as int, p as usize);
                lemma_slice_pos_in_range(st, en, sp, t);
                assert(is_index(u, old_dim));
                crate::dimension::lemma_offset_update(i, self.strides@, axis as int, p as usize);
                crate::dimension::lemma_offset_stride_update(i, self.strides@, axis as int, new_s);
                assert(v.strides@ == self.strides@.update(axis as int, new_s));
                lemma_size_nonneg(v.dim@);
                if size(v.dim@) == 0 {
                    assert forall|j: int| 0 <= j < v.dim@.len() implies #[trigger] v.dim@[j] > 0 by {
                        assert(i[j] < v.dim@[j]);
                    }
                    crate::dimension::lemma_size_positive_converse(v.dim@);
                }
                assert(total == size(v.dim@));
                if m > 1 {
                    assert(new_s == s * sp);
                } else {
                    assert(t == 0);
                }
                assert(p == first + t * sp);
                assert(total > 0);
                assert(new_ptr == self.ptr + first * s);
                assert(u[axis as int] == p);
                assert(offset(u, self.strides@) == offset(i, self.strides@) + (p - t) * s);
                assert(offset(i, v.strides@) == offset(i, self.strides@) + t * (new_s - s));
                assert(new_ptr + t * (new_s - s) == self.ptr + (p - t) * s) by (nonlinear_arith)
                    requires
                        new_ptr == self.ptr + first * s,
                        p == first + t * sp,
                        t == 0 || new_s == s * sp;
                assert(v.ptr + offset(i, v.strides@) == self.ptr + offset(u, self.strides@));
            }
        }
        Ok(v)
    }

    /// Return an outer iterator for this view: the subviews at each index of
    /// axis 0, with that axis removed.
    pub fn into_outer_iter(self) -> (r: AxisIter<'a, A>)
        requires
            self.wf(),
            self.spec_dim().len() > 0,
        ensures
            r.wf(),
            r.spec_view() == self,
            r.spec_index() == 0,
    {
        AxisIter { view: self, index: 0 }
    }

    /// An iterator over the elements in row-major logical order.
    pub fn iter(&self) -> (r: Iter<'a, A>)
        requires
            self.wf(),
        ensures
            r.wf(),
            r.rest() == self.values(),
    {
        let it = Baseiter::new(
            self.ptr,
            copy_vec(&self.dim),
            copy_vec(&self.strides),
            Ghost(self.data@.len() as int),
        );
        let r = Iter { data: self.data, inner: it };
        proof {
            assert(r.rest() =~= self.values());
        }
        r
    }
}

/// Length of the axis `start..end` taken with step `step`: `ceil((end - start) / |step|)`.
pub open spec fn slice_len(start: int, end: int, step: int) -> int {
    let a = if step < 0 { -step } else { step };
    if end <= start { 0 } else { (end - start - 1) / a + 1 }
}

/// Position in the unsliced axis of position `t` of the sliced axis.
pub open spec fn slice_pos(start: int, end: int, step: int, t: int) -> int {
    if step > 0 { start + t * step } else { end - 1 + t * step }
}

proof fn lemma_slice_len_le(start: int, end: int, step: int)
    requires
        0 <= start <= end,
        step != 0,
    ensures
        0 <= slice_len(start, end, step) <= end - start,
{
    let a = if step < 0 { -step } else { step };
    if end > start {
        vstd::arithmetic::div_mod::lemma_div_is_ordered_by_denominator(end - start - 1, 1, a);
        vstd::arithmetic::div_mod::lemma_fundamental_div_mod_converse(end - start - 1, 1, end - start - 1, 0);
        vstd::arithmetic::div_mod::lemma_div_pos_is_pos(end - start - 1, a);
    }
}

proof fn lemma_slice_pos_in_range(start: int, end: int, step: int, t: int)
    requires
        0 <= start <= end,
        step != 0,
        0 <= t < slice_len(start, end, step),
    ensures
        start <= slice_pos(start, end, step, t) < end,
        slice_pos(start, end, step, 1) - slice_pos(start, end, step, 0) == step,
{
    let a = if step < 0 { -step } else { step };
    let q = (end - start - 1) / a;
    vstd::arithmetic::div_mod::lemma_fundamental_div_mod(end - start - 1, a);
    vstd::arithmetic::mul::lemma_mul_inequality(t, q, a);
    assert(t * a <= q * a);
    assert(a * q == q * a) by (nonlinear_arith);
    assert((end - start - 1) % a >= 0);
    assert(t * a >= 0) by (nonlinear_arith)
        requires t >= 0, a > 0;
    if step > 0 {
        assert(t * step == t * a);
    } else {
        assert(t * step == -(t * a)) by (nonlinear_arith)
            requires step == -a;
    }
}

/// A read-write view of an n-dimensional array, laid out as `ArrayView`.
pub struct ArrayViewMut<'a, A> {
    data: &'a mut [A],
    ptr: usize,
    dim: Vec<usize>,
    strides: Vec<isize>,
}

impl<'a, A> ArrayViewMut<'a, A> {
    /// The borrowed buffer.
    pub closed spec fn spec_data(&self) -> Seq<A> {
        self.data@
    }

    /// Position in the buffer of the element at index zero.
    pub closed spec fn spec_ptr(&self) -> int {
        self.ptr as int
    }

    /// The shape.
    pub closed spec fn spec_dim(&self) -> Seq<usize> {
        self.dim@
    }

    /// The strides, in elements.
    pub closed spec fn spec_strides(&self) -> Seq<isize> {
        self.strides@
    }

    /// Ranks agree, counts fit in `isize`, and every valid index lands in the buffer.
    pub open spec fn wf(&self) -> bool {
        &&& self.spec_dim().len() == self.spec_strides().len()
        &&& size(self.spec_dim()) <= isize::MAX
        &&& self.spec_data().len() <= isize::MAX
        &&& 0 <= self.spec_ptr() <= self.spec_data().len()
        &&& in_bounds(
            self.spec_data().len() as int,
            self.spec_ptr(),
            self.spec_dim(),
            self.spec_strides(),
        )
    }

    /// The element at multi-index `idx`.
    pub open spec fn elem(&self, idx: Seq<usize>) -> A {
        self.spec_data()[self.spec_ptr() + offset(idx, self.spec_strides())]
    }

    /// All elements in row-major logical order.
    pub open spec fn values(&self) -> Seq<A> {
        Seq::new(size(self.spec_dim()) as nat, |k: int| self.elem(unravel(k, self.spec_dim())))
    }

    /// Create a read-write array view of shape `dim` and strides `strides`
    /// borrowing its data from a slice, with index zero at the front.
    ///
    /// Checks whether the shape and strides are compatible with the slice's
    /// length, as `ArrayView::from_shape` does.
    pub fn from_shape(dim: Vec<usize>, strides: Vec<isize>, xs: &'a mut [A]) -> (r: Result<Self, ShapeError>)
        requires
            dim@.len() == strides@.len(),
        ensures
            r is Ok <==> (layout_ok(old(xs)@.len() as int, 0, dim@, strides@) && nonzero_size(dim@)
                <= isize::MAX),
            r is Ok ==> {
                let v = r->Ok_0;
                &&& v.wf()
                &&& v.spec_data() == old(xs)@
                &&& v.spec_ptr() == 0
                &&& v.spec_dim() == dim@
                &&& v.spec_strides() == strides@
            },
            r is Err ==> r->Err_0.spec_kind() == if nonzero_size(dim@) > isize::MAX || old(xs)@.len()
                > isize::MAX {
                ErrorKind::Overflow
            } else {
                ErrorKind::OutOfBounds
            },
    {
        match can_index_slice(xs.len(), &dim, &strides) {
            Ok(()) => {
                proof {
                    lemma_layout_in_bounds(xs@.len() as int, 0, dim@, strides@);
                }
                Ok(ArrayViewMut { data: xs, ptr: 0, dim, strides })
            },
            Err(e) => Err(e),
        }
    }

    /// The shape of the view.
    pub fn shape(&self) -> (r: &[usize])
        ensures
            r@ == self.spec_dim(),
    {
        self.dim.as_slice()
    }

    /// The element at `index`, or `None` if `index` is not a valid index.
    pub fn get(&self, index: &[usize]) -> (r: Option<&A>)
        requires
            self.wf(),
        ensures
            r is Some <==> is_index(index@, self.spec_dim()),
            r is Some ==> *r->Some_0 == self.elem(index@),
    {
        match position(self.ptr, &self.dim, &self.strides, index, Ghost(self.data@.len() as int)) {
            Some(p) => Some(&self.data[p]),
            None => None,
        }
    }

    /// Store `x` at `index` and return `true`, or return `false` and change
    /// nothing if `index` is not a valid index. Views with aliasing strides
    /// (a zero stride) see the new value at every index sharing the slot.
    pub fn set(&mut self, index: &[usize], x: A) -> (r: bool)
        requires
            old(self).wf(),
        ensures
            final(self).wf(),
            final(self).spec_ptr() == old(self).spec_ptr(),
            final(self).spec_dim() == old(self).spec_dim(),
            final(self).spec_strides() == old(self).spec_strides(),
            r == is_index(index@, old(self).spec_dim()),
            r ==> final(self).spec_data() == old(self).spec_data().update(
                old(self).spec_ptr() + offset(index@, old(self).spec_strides()),
                x,
            ),
            !r ==> final(self).spec_data() == old(self).spec_data(),
    {
        match position(self.ptr, &self.dim, &self.strides, index, Ghost(self.data@.len() as int)) {
            Some(p) => {
                self.data[p] = x;
                true
            },
            None => false,
        }
    }

    /// Convert into a read-only view of the same elements.
    pub fn into_view(self) -> (r: ArrayView<'a, A>)
        ensures
            r.spec_data() == self.spec_data(),
            r.spec_ptr() == self.spec_ptr(),
            r.spec_dim() == self.spec_dim(),
            r.spec_strides() == self.spec_strides(),
    {
        let ArrayViewMut { data, ptr, dim, strides } = self;
        ArrayView { data, ptr, dim, strides }
    }

    /// Return the array's data as a mutable slice, if it is contiguous and in
    /// standard order; `None` otherwise.
    pub fn into_slice(self) -> (r: Option<&'a mut [A]>)
        requires
            self.wf(),
        ensures
            r is Some <==> is_standard(self.spec_dim(), self.spec_strides()),
            r is Some ==> r->Some_0@ == self.values(),
    {
        let ghost vals = self.values();
        let ghost sd = self.spec_dim();
        let ghost ss = self.spec_strides();
        let ghost sdata = self.spec_data();
        let ArrayViewMut { data, ptr, dim, strides } = self;
        if crate::dimension::is_standard_layout(&dim, &strides) {
            let view = ArrayView { data: &*data, ptr, dim: copy_vec(&dim), strides: copy_vec(&strides) };
            let n = view.len();
            proof {
                if n > 0 {
                    lemma_unravel_is_index(n - 1, dim@);
                    lemma_standard_offset(n - 1, dim@, strides@);
                }
            }
            let (_, rest) = data.split_at_mut(ptr);
            let (mid, _) = rest.split_at_mut(n);
            proof {
                assert forall|k: int| 0 <= k < n implies mid@[k] == #[trigger] vals[k] by {
                    lemma_standard_offset(k, dim@, strides@);
                }
                assert(mid@ =~= vals);
            }
            Some(mid)
        } else {
            None
        }
    }
}

/// Iterator over the subviews along axis 0 of a view.
pub struct AxisIter<'a, A> {
    view: ArrayView<'a, A>,
    index: usize,
}

impl<'a, A> AxisIter<'a, A> {
    /// The view being walked.
    pub closed spec fn spec_view(&self) -> ArrayView<'a, A> {
        self.view
    }

    /// The index along axis 0 of the next subview.
    pub closed spec fn spec_index(&self) -> int {
        self.index as int
    }

    pub open spec fn wf(&self) -> bool {
        &&& self.spec_view().wf()
        &&& self.spec_view().spec_dim().len() > 0
        &&& 0 <= self.spec_index() <= self.spec_view().spec_dim()[0]
    }

    /// The next subview, or `None` after the last one.
    pub fn next(&mut self) -> (r: Option<ArrayView<'a, A>>)
        requires
            old(self).wf(),
        ensures
            final(self).wf(),
            final(self).spec_view() == old(self).spec_view(),
            old(self).spec_index() < old(self).spec_view().spec_dim()[0] ==> {
                &&& final(self).spec_index() == old(self).spec_index() + 1
                &&& r is Some
                &&& r->Some_0.wf()
                &&& r->Some_0.spec_dim() == old(self).spec_view().spec_dim().remove(0)
                &&& forall|i: Seq<usize>| #[trigger] is_index(i, r->Some_0.spec_dim()) ==> r->Some_0.elem(i)
                    == old(self).spec_view().elem(i.insert(0, old(self).spec_index() as usize))
            },
            old(self).spec_index() >= old(self).spec_view().spec_dim()[0] ==> r is None
                && final(self).spec_index() == old(self).spec_index(),
    {
        if self.index >= self.view.len_of(0) {
            return None;
        }
        let v = self.view.index_axis(0, self.index);
        self.index = self.index + 1;
        Some(v)
    }
}

/// Lock-step iterator over two views of the same shape: hands out the pair
/// of elements at each index, in row-major logical order.
pub struct Zip<'a, 'b, A, B> {
    a: Iter<'a, A>,
    b: Iter<'b, B>,
}

impl<'a, 'b, A, B> Zip<'a, 'b, A, B> {
    pub closed spec fn wf(&self) -> bool {
        &&& self.a.wf()
        &&& self.b.wf()
        &&& self.a.rest().len() == self.b.rest().len()
    }

    /// Pairs still to come, in order.
    pub closed spec fn rest(&self) -> Seq<(A, B)> {
        Seq::new(self.a.rest().len(), |t: int| (self.a.rest()[t], self.b.rest()[t]))
    }

    /// Zip two views of the same shape.
    ///
    /// **Panics** if the shapes differ (excluded by `requires`).
    pub fn from(a: &ArrayView<'a, A>, b: &ArrayView<'b, B>) -> (r: Zip<'a, 'b, A, B>)
        requires
            a.wf(),
            b.wf(),
            a.spec_dim() == b.spec_dim(),
        ensures
            r.wf(),
            r.rest() == Seq::new(a.values().len(), |t: int| (a.values()[t], b.values()[t])),
    {
        let r = Zip { a: a.iter(), b: b.iter() };
        proof {
            assert(r.rest() =~= Seq::new(a.values().len(), |t: int| (a.values()[t], b.values()[t])));
        }
        r
    }

    /// The next pair, or `None` when all have been handed out.
    pub fn next(&mut self) -> (r: Option<(&'a A, &'b B)>)
        requires
            old(self).wf(),
        ensures
            final(self).wf(),
            old(self).rest().len() == 0 ==> r is None && final(self).rest() == old(self).rest(),
            old(self).rest().len() > 0 ==> r is Some && (*r->Some_0.0, *r->Some_0.1) == old(self).rest()[0],
            old(self).rest().len() > 0 ==> final(self).rest() == old(self).rest().drop_first(),
    {
        let x = self.a.next();
        let y = self.b.next();
        proof {
            assert(self.rest() =~= if old(self).rest().len() > 0 {
                old(self).rest().drop_first()
            } else {
                old(self).rest()
            });
        }
        match (x, y) {
            (Some(x), Some(y)) => Some((x, y)),
            _ => None,
        }
    }
}

/// Iterator over the elements of a view, in row-major logical order.
pub struct Iter<'a, A> {
    data: &'a [A],
    inner: Baseiter,
}

impl<'a, A> Iter<'a, A> {
    pub closed spec fn wf(&self) -> bool {
        self.inner.wf(self.data@.len() as int)
    }

    /// Elements still to come, in order.
    pub closed spec fn rest(&self) -> Seq<A> {
        self.inner.rest().map_values(|o: int| self.data@[o])
    }

    /// The next element, or `None` when all have been handed out.
    pub fn next(&mut self) -> (r: Option<&'a A>)
        requires
            old(self).wf(),
        ensures
            final(self).wf(),
            old(self).rest().len() == 0 ==> r is None && final(self).rest() == old(self).rest(),
            old(self).rest().len() > 0 ==> r is Some && *r->Some_0 == old(self).rest()[0],
            old(self).rest().len() > 0 ==> final(self).rest() == old(self).rest().drop_first(),
    {
        let ghost before = self.inner.rest();
        match self.inner.next(Ghost(self.data@.len() as int)) {
            Some(o) => {
                proof {
                    assert(old(self).rest()[0] == old(self).data@[before[0]]);
                    assert(self.rest() =~= old(self).rest().drop_first());
                }
                Some(&self.data[o])
            },
            None => {
                proof {
                    assert(self.rest() =~= old(self).rest());
                }
                None
            },
        }
    }

    /// The exact number of remaining elements, as lower and upper bound.
    pub fn size_hint(&self) -> (r: (usize, Option<usize>))
        requires
            self.wf(),
        ensures
            r.0 == self.rest().len(),
            r.1 == Some(r.0),
    {
        let n = self.inner.remaining(Ghost(self.data@.len() as int));
        (n, Some(n))
    }
}

} // verus!
