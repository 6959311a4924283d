//! The base iterator: a rank-generic odometer over a strided region that
//! keeps the memory offset of the current index up to date incrementally.
use vstd::prelude::*;

use crate::dimension::{
    in_bounds, is_index, lemma_next_index_unravel, lemma_offset_update, lemma_unravel_is_index,
    lemma_unravel_zero, next_index, offset, size, unravel,
};

verus! {

/// Walks every index of a strided region once, in row-major order, and hands
/// out the buffer offset of each.
pub struct Baseiter {
    ptr: usize,
    dim: Vec<usize>,
    strides: Vec<isize>,
    index: Vec<usize>,
    offset: usize,
    pos: usize,
    len: usize,
}

/// `n` zeros.
pub open spec fn zeros(n: int) -> Seq<usize> {
    Seq::new(n as nat, |j: int| 0usize)
}

impl Baseiter {
    pub closed spec fn spec_ptr(&self) -> int {
        self.ptr as int
    }

    pub closed spec fn spec_dim(&self) -> Seq<usize> {
        self.dim@
    }

    pub closed spec fn spec_strides(&self) -> Seq<isize> {
        self.strides@
    }

    /// Number of indices already visited.
    pub closed spec fn spec_pos(&self) -> int {
        self.pos as int
    }

    /// The iterator is consistent and every offset it can hand out lies in
    /// a buffer of `data_len` elements.
    pub closed spec fn wf(&self, data_len: int) -> bool {
        &&& self.dim@.len() == self.strides@.len() == self.index@.len()
        &&& self.len == size(self.dim@)
        &&& self.len <= isize::MAX
        &&& data_len <= isize::MAX
        &&& self.pos <= self.len
        &&& in_bounds(data_len, self.ptr as int, self.dim@, self.strides@)
        &&& self.pos < self.len ==> {
            &&& self.index@ == unravel(self.pos as int, self.dim@)
            &&& self.offset == self.ptr + offset(self.index@, self.strides@)
        }
    }

    /// Offsets still to come, in order.
    pub open spec fn rest(&self) -> Seq<int> {
        Seq::new(
            (size(self.spec_dim()) - self.spec_pos()) as nat,
            |t: int|
                self.spec_ptr() + offset(
                    unravel(self.spec_pos() + t, self.spec_dim()),
                    self.spec_strides(),
                ),
        )
    }

    /// Start at the first index of `(ptr, dim, strides)`.
    pub(crate) fn new(ptr: usize, dim: Vec<usize>, strides: Vec<isize>, Ghost(data_len): Ghost<int>) -> (r: Baseiter)
        requires
            dim@.len() == strides@.len(),
            size(dim@) <= isize::MAX,
            data_len <= isize::MAX,
            0 <= ptr <= data_len,
            in_bounds(data_len, ptr as int, dim@, strides@),
        ensures
            r.wf(data_len),
            r.spec_ptr() == ptr,
            r.spec_dim() == dim@,
            r.spec_strides() == strides@,
            r.spec_pos() == 0,
    {
        let n = dim.len();
        let mut index: Vec<usize> = Vec::new();
        let mut any_zero = false;
        let mut len: usize = 1;
        let mut i: usize = 0;
        while i < n
            invariant
                n == dim@.len(),
                i <= n,
                index@ == zeros(i as int),
                any_zero == exists|j: int| 0 <= j < i && dim@[j] == 0,
            decreases n - i,
        {
            index.push(0);
            if dim[i] == 0 {
                any_zero = true;
            }
            i = i + 1;
            proof {
                assert(index@ =~= zeros(i as int));
            }
        }
        proof {
            crate::dimension::lemma_size_nonneg(dim@);
            if any_zero {
                let j = choose|j: int| 0 <= j < n && dim@[j] == 0;
                if size(dim@) > 0 {
                    crate::dimension::lemma_size_positive(dim@);
                    assert(dim@[j] > 0);
                }
            }
        }
        let total: usize = if any_zero {
            0
        } else {
            proof {
                crate::dimension::lemma_size_positive_converse(dim@);
            }
            size_of(&dim)
        };
        proof {
            if total > 0 {
                lemma_unravel_zero(dim@);
                assert(index@ =~= unravel(0, dim@));
                assert(offset(index@, strides@) == 0) by {
                    lemma_offset_zeros(index@, strides@);
                }
            }
        }
        Baseiter { ptr, dim, strides, index, offset: ptr, pos: 0, len: total }
    }

    /// Number of indices left.
    pub(crate) fn remaining(&self, Ghost(data_len): Ghost<int>) -> (r: usize)
        requires
            self.wf(data_len),
        ensures
            r == self.rest().len(),
    {
        self.len - self.pos
    }

    /// Hand out the offset of the current index, then step the odometer.
    pub(crate) fn next(&mut self, Ghost(data_len): Ghost<int>) -> (r: Option<usize>)
        requires
            old(self).wf(data_len),
        ensures
            final(self).wf(data_len),
            final(self).spec_ptr() == old(self).spec_ptr(),
            final(self).spec_dim() == old(self).spec_dim(),
            final(self).spec_strides() == old(self).spec_strides(),
            old(self).rest().len() == 0 ==> r is None && final(self).rest() == old(self).rest(),
            old(self).rest().len() > 0 ==> r is Some && r->Some_0 as int == old(self).rest()[0],
            old(self).rest().len() > 0 ==> final(self).rest() == old(self).rest().drop_first(),
            r is Some ==> 0 <= r->Some_0 < data_len,
            old(self).rest().len() > 0 ==> 0 <= old(self).rest()[0] < data_len,
    {
        if self.pos >= self.len {
            return None;
        }
        let cur = self.offset;
        proof {
            lemma_unravel_is_index(self.pos as int, self.dim@);
            assert(is_index(self.index@, self.dim@));
        }
        if self.len - self.pos > 1 {
            let ghost idx0 = self.index@;
            let ghost dim = self.dim@;
            let ghost strides = self.strides@;
            let ghost ptr0 = self.ptr;
            let ghost len0 = self.len;
            let ghost pos0 = self.pos;
            let ghost offset0 = self.offset;
            let n = self.dim.len();
            let mut ax = n;
            let mut done = false;
            let mut off: i128 = self.offset as i128;
            proof {
                assert(idx0.subrange(0, n as int) =~= idx0);
                assert(dim.subrange(0, n as int) =~= dim);
                assert(idx0 =~= idx0.subrange(0, n as int) + zeros(0));
                assert(next_index(idx0, dim) =~= next_index(
                    idx0.subrange(0, n as int),
                    dim.subrange(0, n as int),
                ) + zeros(0));
            }
            while !done && ax > 0
                invariant
                    n == dim.len() == strides.len() == idx0.len(),
                    self.dim@ == dim,
                    self.strides@ == strides,
                    self.ptr == ptr0,
                    self.len == len0,
                    self.pos == pos0,
                    self.offset == offset0,
                    pos0 + 1 < len0,
                    len0 == size(dim),
                    self.index@.len() == n,
                    ax <= n,
                    is_index(idx0, dim),
                    is_index(self.index@, dim),
                    data_len <= isize::MAX,
                    in_bounds(data_len, self.ptr as int, dim, strides),
                    off == self.ptr + offset(self.index@, strides),
                    !done ==> self.index@ == idx0.subrange(0, ax as int) + zeros(n - ax),
                    !done ==> next_index(idx0, dim) == next_index(
                        idx0.subrange(0, ax as int),
                        dim.subrange(0, ax as int),
                    ) + zeros(n - ax),
                    done ==> self.index@ == next_index(idx0, dim),
                decreases ax,
            {
                ax = ax - 1;
                let i = self.index[ax];
                let s = self.strides[ax];
                let ghost before = self.index@;
                proof {
                    assert(before[ax as int] == idx0[ax as int]);
                    let a = ax as int;
                    let pre = idx0.subrange(0, a + 1);
                    let dpre = dim.subrange(0, a + 1);
                    assert(pre.drop_last() =~= idx0.subrange(0, a));
                    assert(dpre.drop_last() =~= dim.subrange(0, a));
                    assert(0 <= self.ptr + offset(before, strides) < data_len);
                }
                if i + 1 < self.dim[ax] {
                    self.index.set(ax, i + 1);
                    proof {
                        lemma_offset_update(before, strides, ax as int, (i + 1) as usize);
                        let a = ax as int;
                        assert(next_index(idx0, dim) =~= self.index@);
                        assert(is_index(self.index@, dim));
                        assert(0 <= self.ptr + offset(self.index@, strides) < data_len);
                    }
                    off = off + s as i128;
                    done = true;
                } else {
                    self.index.set(ax, 0);
                    proof {
                        lemma_offset_update(before, strides, ax as int, 0);
                        let a = ax as int;
                        assert(self.index@ =~= idx0.subrange(0, a) + zeros(n - a));
                        assert(next_index(idx0, dim) =~= next_index(
                            idx0.subrange(0, a),
                            dim.subrange(0, a),
                        ) + zeros(n - a));
                        assert(is_index(self.index@, dim));
                        assert(0 <= self.ptr + offset(self.index@, strides) < data_len);
                        assert((0 - i) * s == -(i * s)) by (nonlinear_arith);
                        assert(i128::MIN <= i * s <= i128::MAX) by (nonlinear_arith)
                            requires 0 <= i <= usize::MAX, isize::MIN <= s <= isize::MAX;
                    }
                    off = off - (i as i128) * (s as i128);
                }
            }
            proof {
                if !done {
                    assert(idx0.subrange(0, 0) =~= Seq::<usize>::empty());
                    assert(dim.subrange(0, 0) =~= Seq::<usize>::empty());
                    assert(self.index@ =~= next_index(idx0, dim));
                }
                lemma_next_index_unravel(self.pos as int, dim);
            }
            self.offset = off as usize;
        }
        self.pos = self.pos + 1;
        proof {
            let o = old(self).rest();
            let f = self.rest();
            assert(f =~= o.drop_first());
        }
        Some(cur)
    }
}

/// A region whose index is all zeros has offset zero.
pub proof fn lemma_offset_zeros(idx: Seq<usize>, strides: Seq<isize>)
    requires
        forall|j: int| 0 <= j < idx.len() ==> idx[j] == 0,
    ensures
        offset(idx, strides) == 0,
    decreases idx.len(),
{
    if idx.len() > 0 && strides.len() > 0 {
        lemma_offset_zeros(idx.drop_last(), strides.drop_last());
    }
}

/// Number of elements of a shape with no empty axis whose count fits in `isize`.
pub fn size_of(dim: &Vec<usize>) -> (r: usize)
    requires
        size(dim@) <= isize::MAX,
        forall|j: int| 0 <= j < dim@.len() ==> #[trigger] dim@[j] > 0,
    ensures
        r == size(dim@),
{
    let n = dim.len();
    let mut acc: usize = 1;
    let mut i: usize = 0;
    while i < n
        invariant
            n == dim@.len(),
            i <= n,
            size(dim@) <= isize::MAX,
            forall|j: int| 0 <= j < dim@.len() ==> #[trigger] dim@[j] > 0,
            acc == size(dim@.subrange(0, i as int)),
        decreases n - i,
    {
        proof {
            let pre = dim@.subrange(0, i + 1);
            assert(pre.drop_last() =~= dim@.subrange(0, i as int));
            assert(dim@ =~= pre + dim@.subrange(i + 1, n as int));
            crate::dimension::lemma_size_concat(pre, dim@.subrange(i + 1, n as int));
            let post = dim@.subrange(i + 1, n as int);
            assert forall|j: int| 0 <= j < post.len() implies #[trigger] post[j] > 0 by {
                assert(post[j] == dim@[i + 1 + j]);
            }
            crate::dimension::lemma_size_positive_converse(post);
            crate::dimension::lemma_size_nonneg(pre);
            vstd::arithmetic::mul::lemma_mul_inequality(1, size(post), size(pre));
            assert(size(post) * size(pre) == size(pre) * size(post)) by (nonlinear_arith);
        }
        acc = acc * dim[i];
        i = i + 1;
    }
    proof {
        assert(dim@.subrange(0, n as int) =~= dim@);
    }
    acc
}

} // verus!

