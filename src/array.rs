//! Owned arrays: an element vector in row-major order with its shape.
use vstd::prelude::*;

use crate::dimension::{
    default_strides, is_index, rank, lemma_size_nonneg, lemma_standard_offset,
    lemma_standard_offset_bounds, nonzero_size, size, size_of_shape_checked,
};
use crate::error::{ErrorKind, ShapeError};
use crate::impl_views::{copy_vec, ArrayView};

verus! {

/// An array that owns its elements, stored contiguously in row-major order.
pub struct Array<A> {
    data: Vec<A>,
    dim: Vec<usize>,
}

impl<A> Array<A> {
    /// The elements, in row-major order.
    pub closed spec fn spec_data(&self) -> Seq<A> {
        self.data@
    }

    /// The shape.
    pub closed spec fn spec_dim(&self) -> Seq<usize> {
        self.dim@
    }

    /// The element count matches the shape and fits in `isize`.
    pub open spec fn wf(&self) -> bool {
        &&& self.spec_data().len() == size(self.spec_dim())
        &&& size(self.spec_dim()) <= isize::MAX
    }

    /// All elements in row-major logical order.
    pub open spec fn values(&self) -> Seq<A> {
        self.spec_data()
    }

    /// The element at multi-index `idx`.
    pub open spec fn elem(&self, idx: Seq<usize>) -> A {
        self.spec_data()[rank(idx, self.spec_dim())]
    }

    /// Replace the element stored at row-major position `i`.
    pub(crate) fn set(&mut self, i: usize, x: A)
        requires
            i < old(self).spec_data().len(),
        ensures
            final(self).spec_data() == old(self).spec_data().update(i as int, x),
            final(self).spec_dim() == old(self).spec_dim(),
    {
        self.data.set(i, x);
    }

    /// Create an array of shape `dim` from the elements `v` in row-major order.
    ///
    /// Fails with `Overflow` when the element count of `dim` does not fit in
    /// `isize`, and with `IncompatibleShape` when it differs from `v.len()`.
    pub fn from_shape_vec(dim: Vec<usize>, v: Vec<A>) -> (r: Result<Array<A>, ShapeError>)
        ensures
            r is Ok <==> (nonzero_size(dim@) <= isize::MAX && size(dim@) == v@.len()),
            r is Ok ==> r->Ok_0.wf() && r->Ok_0.spec_dim() == dim@ && r->Ok_0.values() == v@,
            r is Err ==> r->Err_0.spec_kind() == if nonzero_size(dim@) > isize::MAX {
                ErrorKind::Overflow
            } else {
                ErrorKind::IncompatibleShape
            },
    {
        match size_of_shape_checked(&dim) {
            Ok(n) => {
                if n == v.len() {
                    proof {
                        crate::dimension::lemma_nonzero_size(dim@);
                    }
                    Ok(Array { data: v, dim })
                } else {
                    Err(ShapeError::from_kind(ErrorKind::IncompatibleShape))
                }
            },
            Err(e) => Err(e),
        }
    }

    /// Build an array from row-major elements and a matching shape.
    pub(crate) fn from_parts(data: Vec<A>, dim: Vec<usize>) -> (r: Array<A>)
        ensures
            r.spec_data() == data@,
            r.spec_dim() == dim@,
    {
        Array { data, dim }
    }

    /// The shape of the array.
    pub fn shape(&self) -> (r: &[usize])
        ensures
            r@ == self.spec_dim(),
    {
        self.dim.as_slice()
    }

    /// The elements in row-major order.
    pub fn as_slice(&self) -> (r: &[A])
        ensures
            r@ == self.values(),
    {
        self.data.as_slice()
    }

    /// Consume the array and return its elements in row-major order.
    pub fn into_raw_vec(self) -> (r: Vec<A>)
        ensures
            r@ == self.values(),
    {
        self.data
    }

    /// A read-only view of the whole array, in standard layout.
    pub fn view(&self) -> (r: ArrayView<'_, A>)
        requires
            self.wf(),
        ensures
            r.wf(),
            r.spec_dim() == self.spec_dim(),
            r.values() == self.values(),
            forall|idx: Seq<usize>| #[trigger] is_index(idx, self.spec_dim()) ==> r.elem(idx) == self.elem(idx),
    {
        let strides = default_strides(&self.dim);
        let r = ArrayView::from_parts(self.data.as_slice(), 0, copy_vec(&self.dim), strides);
        proof {
            let dim = self.dim@;
            lemma_size_nonneg(dim);
            assert forall|idx: Seq<usize>| #[trigger] is_index(idx, dim) implies 0 <= 0 + crate::dimension::offset(
                idx,
                strides@,
            ) < self.data@.len() by {
                if size(dim) == 0 {
                    assert forall|j: int| 0 <= j < dim.len() implies #[trigger] dim[j] > 0 by {
                        assert(idx[j] < dim[j]);
                    }
                    crate::dimension::lemma_size_positive_converse(dim);
                }
                lemma_standard_offset_bounds(idx, dim, strides@, 1);
            }
            assert forall|k: int| 0 <= k < size(dim) implies #[trigger] r.values()[k] == self.values()[k] by {
                lemma_standard_offset(k, dim, strides@);
            }
            assert(r.values() =~= self.values());
            assert forall|idx: Seq<usize>| #[trigger] is_index(idx, dim) implies r.elem(idx) == self.elem(idx) by {
                assert forall|j: int| 0 <= j < dim.len() implies #[trigger] dim[j] > 0 by {
                    assert(idx[j] < dim[j]);
                }
                crate::dimension::lemma_size_positive_converse(dim);
                assert forall|j: int| 0 <= j < dim.len() && dim[j] != 1 implies strides@[j] == 1
                    * #[trigger] crate::dimension::default_strides_spec(dim)[j] by {}
                crate::dimension::lemma_standard_offset_rank(idx, dim, strides@, 1);
            }
        }
        r
    }
}

} // verus!
