//! Numerical methods for arrays of `i64`: sums, products, axis reductions
//! and tolerance comparison. Arithmetic on elements wraps (two's complement).
use vstd::prelude::*;

use crate::array::Array;
use crate::dimension::{
    broadcast_compatible, broadcast_index, is_index, lemma_offset_insert, lemma_unravel_is_index,
    nonzero_size, offset, size, unravel,
};
use crate::impl_views::{copy_vec, ArrayView, Iter, Zip};
use crate::iterators::Baseiter;
use crate::numeric_util::{pairwise_sum, pure_pairwise_sum, NAIVE_SUM_THRESHOLD};
use crate::wrapping::{
    lemma_seq_sum_append, lemma_wrap_add_right, lemma_wrap_small, lemma_wrapping_add_wraps,
    lemma_wrapping_mul_wraps, seq_prod, seq_sum, wrap,
};

verus! {

/// An implementation of pairwise summation for an iterator: the elements
/// are summed naively in blocks of `NAIVE_SUM_THRESHOLD`, and the block sums
/// are then summed pairwise.
pub fn iterator_pairwise_sum<'a>(iter: Iter<'a, i64>) -> (r: i64)
    requires
        iter.wf(),
    ensures
        r == wrap(seq_sum(iter.rest())),
{
    let mut iter = iter;
    let ghost all = iter.rest();
    let (n, _) = iter.size_hint();
    let mut partial_sums: Vec<i64> = Vec::new();
    let mut count: usize = 0;
    let mut partial_sum: i64 = 0;
    let mut i: usize = 0;
    proof {
        lemma_wrap_small(0);
        assert(all.subrange(0, 0) =~= Seq::<i64>::empty());
    }
    while i < n
        invariant
            iter.wf(),
            n == all.len(),
            i <= n,
            iter.rest() == all.subrange(i as int, n as int),
            wrap(seq_sum(partial_sums@) + partial_sum) == wrap(seq_sum(all.subrange(0, i as int))),
        decreases n - i,
    {
        let x: i64 = match iter.next() {
            Some(x) => *x,
            None => 0,
        };
        proof {
            assert(x == all[i as int]);
            assert(all.subrange(0, i + 1).drop_last() =~= all.subrange(0, i as int));
            assert(iter.rest() =~= all.subrange(i + 1, n as int));
        }
        if count < NAIVE_SUM_THRESHOLD {
            proof {
                let ps = seq_sum(partial_sums@);
                crate::wrapping::lemma_wrapping_add(partial_sum, x);
                lemma_wrap_add_right(ps, partial_sum + x);
                crate::wrapping::lemma_wrap_shift(
                    ps + partial_sum,
                    seq_sum(all.subrange(0, i as int)),
                    x as int,
                );
                assert(ps + (partial_sum + x) == ps + partial_sum + x);
            }
            count = count + 1;
            partial_sum = partial_sum.wrapping_add(x);
        } else {
            proof {
                assert(partial_sums@.push(partial_sum).drop_last() =~= partial_sums@);
                crate::wrapping::lemma_wrap_shift(
                    seq_sum(partial_sums@) + partial_sum,
                    seq_sum(all.subrange(0, i as int)),
                    x as int,
                );
            }
            partial_sums.push(partial_sum);
            count = 1;
            partial_sum = x;
        }
        i = i + 1;
    }
    proof {
        assert(partial_sums@.push(partial_sum).drop_last() =~= partial_sums@);
        assert(all.subrange(0, n as int) =~= all);
    }
    partial_sums.push(partial_sum);
    pure_pairwise_sum(partial_sums.as_slice())
}

/// Quotient of `a` by `d > 0`, rounded toward zero.
pub open spec fn div_trunc(a: int, d: int) -> int {
    if a >= 0 {
        a / d
    } else {
        -((-a) / d)
    }
}

/// Distance between two integers.
pub open spec fn abs_diff(x: i64, y: i64) -> int {
    if x >= y {
        x - y
    } else {
        y - x
    }
}

/// The three-axis index `[i, j, k]`.
pub open spec fn index3(i: usize, j: usize, k: usize) -> Seq<usize> {
    seq![i, j, k]
}

/// Summing along an axis depends only on the logical elements, not on the
/// memory layout: for cubes `a`, `b`, `c` of side `n` holding the same data
/// with axes permuted (`b[i, j, k] == a[j, i, k]`, `c[i, j, k] == a[k, i, j]`),
/// `b` summed along axis 1 and `c` summed along axis 2 agree exactly with `a`
/// summed along axis 0, whatever the strides of the three views.
pub proof fn lemma_sum_axis_layout_invariant(
    a: ArrayView<'_, i64>,
    b: ArrayView<'_, i64>,
    c: ArrayView<'_, i64>,
    n: usize,
)
    requires
        a.spec_dim() == seq![n, n, n],
        b.spec_dim() == seq![n, n, n],
        c.spec_dim() == seq![n, n, n],
        forall|i: usize, j: usize, k: usize|
            i < n && j < n && k < n ==> #[trigger] b.elem(index3(i, j, k)) == a.elem(index3(j, i, k)),
        forall|i: usize, j: usize, k: usize|
            i < n && j < n && k < n ==> #[trigger] c.elem(index3(i, j, k)) == a.elem(index3(k, i, j)),
    ensures
        forall|t: int|
            0 <= t < n * n ==> #[trigger] b.axis_sum(1, t) == a.axis_sum(0, t) && c.axis_sum(2, t)
                == a.axis_sum(0, t),
{
    let d2 = seq![n, n];
    assert(a.spec_dim().remove(0) =~= d2);
    assert(b.spec_dim().remove(1) =~= d2);
    assert(c.spec_dim().remove(2) =~= d2);
    assert(size(d2) == n * n) by {
        reveal_with_fuel(size, 3);
    }
    assert forall|t: int| 0 <= t < n * n implies #[trigger] b.axis_sum(1, t) == a.axis_sum(0, t)
        && c.axis_sum(2, t) == a.axis_sum(0, t) by {
        let u = unravel(t, d2);
        lemma_unravel_is_index(t, d2);
        let la = a.lane(0, t);
        let lb = b.lane(1, t);
        let lc = c.lane(2, t);
        assert forall|m: int| 0 <= m < n implies #[trigger] lb[m] == la[m] && lc[m] == la[m] by {
            let mu = m as usize;
            assert(u[0] < n && u[1] < n);
            assert(u.insert(0, mu) =~= index3(mu, u[0], u[1]));
            assert(u.insert(1, mu) =~= index3(u[0], mu, u[1]));
            assert(u.insert(2, mu) =~= index3(u[0], u[1], mu));
            assert(b.elem(index3(u[0], mu, u[1])) == a.elem(index3(mu, u[0], u[1])));
            assert(c.elem(index3(u[0], u[1], mu)) == a.elem(index3(mu, u[0], u[1])));
        }
        assert(lb =~= la);
        assert(lc =~= la);
    }
}

impl<'a> ArrayView<'a, i64> {
    /// The elements of the lane along `axis` at position `k` (row-major) of
    /// the remaining axes.
    pub open spec fn lane(&self, axis: int, k: int) -> Seq<i64> {
        Seq::new(
            self.spec_dim()[axis] as nat,
            |m: int| self.elem(unravel(k, self.spec_dim().remove(axis)).insert(axis, m as usize)),
        )
    }

    /// The wrapped sum of a lane.
    pub open spec fn axis_sum(&self, axis: int, k: int) -> i64 {
        wrap(seq_sum(self.lane(axis, k)))
    }

    /// Return the sum of all elements in the array.
    pub fn sum(&self) -> (r: i64)
        requires
            self.wf(),
        ensures
            r == wrap(seq_sum(self.values())),
    {
        if let Some(slc) = self.into_slice() {
            return pairwise_sum(slc);
        }
        iterator_pairwise_sum(self.iter())
    }

    /// Return the sum of all elements in the array (the former name of `sum`).
    pub fn scalar_sum(&self) -> (r: i64)
        requires
            self.wf(),
        ensures
            r == wrap(seq_sum(self.values())),
    {
        self.sum()
    }

    /// Sum of each lane along `axis`, lane by lane: contiguous lanes with
    /// pairwise summation, others naively.
    fn lane_sums(&self, axis: usize) -> (r: Array<i64>)
        requires
            self.wf(),
            axis < self.spec_dim().len(),
            size(self.spec_dim().remove(axis as int)) <= isize::MAX,
        ensures
            r.wf(),
            r.spec_dim() == self.spec_dim().remove(axis as int),
            forall|k: int|
                0 <= k < size(self.spec_dim().remove(axis as int)) ==> #[trigger] r.values()[k]
                    == self.axis_sum(axis as int, k),
    {
        let n = self.len_of(axis);
        let s = self.stride_of(axis);
        let ghost dim = self.spec_dim();
        let ghost strides = self.spec_strides();
        let ghost a = axis as int;
        let mut rdim = vstd::slice::slice_to_vec(self.shape());
        rdim.remove(axis);
        let mut rstr = vstd::slice::slice_to_vec(self.strides());
        rstr.remove(axis);
        proof {
            crate::dimension::lemma_nonzero_size(rdim@);
            crate::dimension::lemma_size_nonneg(rdim@);
        }
        let total: usize = match crate::dimension::size_of_shape_checked(&rdim) {
            Ok(t) => t,
            Err(_) => 0,
        };
        let mut out: Vec<i64> = Vec::new();
        if n == 0 {
            let mut k: usize = 0;
            while k < total
                invariant
                    k <= total,
                    total == size(rdim@),
                    0 <= a < dim.len(),
                    dim == self.spec_dim(),
                    rdim@ == dim.remove(a),
                    dim[a] == 0,
                    out@.len() == k,
                    forall|t: int| 0 <= t < k ==> #[trigger] out@[t] == self.axis_sum(a, t),
                decreases total - k,
            {
                proof {
                    assert(self.lane(a, k as int) =~= Seq::<i64>::empty());
                    lemma_wrap_small(0);
                }
                out.push(0);
                k = k + 1;
            }
            return Array::from_parts(out, rdim);
        }
        let data = self.data_slice();
        let ptr = self.ptr_of();
        let ghost len = data@.len() as int;
        proof {
            assert forall|u: Seq<usize>| #[trigger] is_index(u, rdim@) implies 0 <= ptr + offset(u, rstr@) < len by {
                lemma_offset_insert(u, strides, a, 0);
                assert(strides.remove(a) == rstr@);
                let w = u.insert(a, 0);
                assert forall|j: int| 0 <= j < w.len() implies #[trigger] w[j] < dim[j] by {
                    if j < a {
                        assert(u[j] < rdim@[j]);
                    } else if j > a {
                        assert(u[j - 1] < rdim@[j - 1]);
                    }
                }
                assert(is_index(w, dim));
            }
        }
        let mut it = Baseiter::new(ptr, copy_vec(&rdim), rstr, Ghost(len));
        let ghost offs = it.rest();
        let mut k: usize = 0;
        while k < total
            invariant
                self.wf(),
                data@ == self.spec_data(),
                len == data@.len(),
                ptr == self.spec_ptr(),
                dim == self.spec_dim(),
                strides == self.spec_strides(),
                0 <= a < dim.len(),
                n == dim[a],
                n > 0,
                s == strides[a],
                rdim@ == dim.remove(a),
                total == size(rdim@),
                it.wf(len),
                offs.len() == total,
                forall|t: int| 0 <= t < total ==> #[trigger] offs[t] == ptr + offset(unravel(t, rdim@), strides.remove(a)),
                it.rest() == offs.subrange(k as int, total as int),
                k <= total,
                out@.len() == k,
                forall|t: int| 0 <= t < k ==> #[trigger] out@[t] == self.axis_sum(a, t),
            decreases total - k,
        {
            let o: usize = match it.next(Ghost(len)) {
                Some(o) => o,
                None => 0,
            };
            let ghost u = unravel(k as int, rdim@);
            let ghost lane = self.lane(a, k as int);
            proof {
                assert(o == offs[k as int]);
                assert(it.rest() =~= offs.subrange(k + 1, total as int));
                lemma_unravel_is_index(k as int, rdim@);
                assert forall|m: int| 0 <= m < n implies {
                    &&& #[trigger] lane[m] == data@[o + m * s]
                    &&& 0 <= o + m * s < len
                } by {
                    lemma_offset_insert(u, strides, a, m as usize);
                    let w = u.insert(a, m as usize);
                    assert forall|j: int| 0 <= j < w.len() implies #[trigger] w[j] < dim[j] by {
                        if j < a {
                            assert(u[j] < rdim@[j]);
                        } else if j > a {
                            assert(u[j - 1] < rdim@[j - 1]);
                        }
                    }
                    assert(is_index(w, dim));
                }
            }
            let lane_sum: i64 = if s == 1 {
                proof {
                    assert(lane[n - 1] == data@[o + (n - 1) * s]);
                    assert(0 <= o + (n - 1) * s < len);
                }
                let slc = vstd::slice::slice_subrange(data, o, o + n);
                proof {
                    assert(slc@ =~= lane);
                }
                pairwise_sum(slc)
            } else {
                let mut acc: i64 = 0;
                let mut m: usize = 0;
                proof {
                    lemma_wrap_small(0);
                    assert(lane.subrange(0, 0) =~= Seq::<i64>::empty());
                }
                while m < n
                    invariant
                        m <= n,
                        n == lane.len(),
                        len == data@.len(),
                        len <= isize::MAX,
                        forall|t: int| 0 <= t < n ==> #[trigger] lane[t] == data@[o + t * s] && 0 <= o + t * s < len,
                        acc == wrap(seq_sum(lane.subrange(0, m as int))),
                    decreases n - m,
                {
                    proof {
                        assert(lane[m as int] == data@[o + m * s]);
                        assert(0 <= o + m * s < len);
                        assert(i128::MIN <= m * s <= i128::MAX) by (nonlinear_arith)
                            requires 0 <= m <= usize::MAX, isize::MIN <= s <= isize::MAX;
                        assert(lane.subrange(0, m + 1).drop_last() =~= lane.subrange(0, m as int));
                        lemma_wrap_small(lane[m as int] as int);
                        lemma_wrapping_add_wraps(seq_sum(lane.subrange(0, m as int)), lane[m as int] as int);
                    }
                    let step: i128 = (m as i128) * (s as i128);
                    let pos: i128 = (o as i128) + step;
                    let x = data[pos as usize];
                    acc = acc.wrapping_add(x);
                    m = m + 1;
                }
                proof {
                    assert(lane.subrange(0, n as int) =~= lane);
                }
                acc
            };
            out.push(lane_sum);
            k = k + 1;
        }
        Array::from_parts(out, rdim)
    }

    /// The elements of every lane along `axis`, lanes in row-major order of
    /// the remaining axes.
    pub(crate) fn lanes(&self, axis: usize) -> (r: Vec<Vec<i64>>)
        requires
            self.wf(),
            axis < self.spec_dim().len(),
            self.spec_dim()[axis as int] > 0,
        ensures
            r@.len() == size(self.spec_dim().remove(axis as int)),
            forall|k: int|
                0 <= k < r@.len() ==> (#[trigger] r@[k])@ == self.lane(axis as int, k),
    {
        let n = self.len_of(axis);
        let s = self.stride_of(axis);
        let ghost dim = self.spec_dim();
        let ghost strides = self.spec_strides();
        let ghost a = axis as int;
        proof {
            crate::dimension::lemma_size_remove(dim, a);
        }
        let mut rdim = vstd::slice::slice_to_vec(self.shape());
        rdim.remove(axis);
        let mut rstr = vstd::slice::slice_to_vec(self.strides());
        rstr.remove(axis);
        let data = self.data_slice();
        let ptr = self.ptr_of();
        let ghost len = data@.len() as int;
        proof {
            assert forall|u: Seq<usize>| #[trigger] is_index(u, rdim@) implies 0 <= ptr + offset(u, rstr@) < len by {
                lemma_offset_insert(u, strides, a, 0);
                let w = u.insert(a, 0);
                assert forall|j: int| 0 <= j < w.len() implies #[trigger] w[j] < dim[j] by {
                    if j < a {
                        assert(u[j] < rdim@[j]);
                    } else if j > a {
                        assert(u[j - 1] < rdim@[j - 1]);
                    }
                }
                assert(is_index(w, dim));
            }
        }
        let mut it = Baseiter::new(ptr, copy_vec(&rdim), rstr, Ghost(len));
        let total = it.remaining(Ghost(len));
        let ghost offs = it.rest();
        proof {
            crate::dimension::lemma_size_nonneg(rdim@);
        }
        let mut out: Vec<Vec<i64>> = Vec::new();
        let mut k: usize = 0;
        while k < total
            invariant
                self.wf(),
                data@ == self.spec_data(),
                len == data@.len(),
                len <= isize::MAX,
                ptr == self.spec_ptr(),
                dim == self.spec_dim(),
                strides == self.spec_strides(),
                0 <= a < dim.len(),
                n == dim[a],
                s == strides[a],
                rdim@ == dim.remove(a),
                total == size(rdim@),
                it.wf(len),
                offs.len() == total,
                forall|t: int| 0 <= t < total ==> #[trigger] offs[t] == ptr + offset(unravel(t, rdim@), strides.remove(a)),
                it.rest() == offs.subrange(k as int, total as int),
                k <= total,
                out@.len() == k,
                forall|t: int| 0 <= t < k ==> (#[trigger] out@[t])@ == self.lane(a, t),
            decreases total - k,
        {
            let o: usize = match it.next(Ghost(len)) {
                Some(o) => o,
                None => 0,
            };
            let ghost u = unravel(k as int, rdim@);
            let ghost lane = self.lane(a, k as int);
            proof {
                assert(o == offs[k as int]);
                assert(it.rest() =~= offs.subrange(k + 1, total as int));
                lemma_unravel_is_index(k as int, rdim@);
                assert forall|m: int| 0 <= m < n implies {
                    &&& #[trigger] lane[m] == data@[o + m * s]
                    &&& 0 <= o + m * s < len
                } by {
                    lemma_offset_insert(u, strides, a, m as usize);
                    let w = u.insert(a, m as usize);
                    assert forall|j: int| 0 <= j < w.len() implies #[trigger] w[j] < dim[j] by {
                        if j < a {
                            assert(u[j] < rdim@[j]);
                        } else if j > a {
                            assert(u[j - 1] < rdim@[j - 1]);
                        }
                    }
                    assert(is_index(w, dim));
                }
            }
            let mut v: Vec<i64> = Vec::new();
            let mut m: usize = 0;
            while m < n
                invariant
                    m <= n,
                    n == lane.len(),
                    len == data@.len(),
                    len <= isize::MAX,
                    forall|t: int| 0 <= t < n ==> #[trigger] lane[t] == data@[o + t * s] && 0 <= o + t * s < len,
                    v@ == lane.subrange(0, m as int),
                decreases n - m,
            {
                proof {
                    assert(lane[m as int] == data@[o + m * s]);
                    assert(0 <= o + m * s < len);
                    assert(i128::MIN <= m * s <= i128::MAX) by (nonlinear_arith)
                        requires 0 <= m <= usize::MAX, isize::MIN <= s <= isize::MAX;
                }
                let step: i128 = (m as i128) * (s as i128);
                let pos: i128 = (o as i128) + step;
                v.push(data[pos as usize]);
                m = m + 1;
                proof {
                    assert(v@ =~= lane.subrange(0, m as int));
                }
            }
            proof {
                assert(v@ =~= lane);
            }
            out.push(v);
            k = k + 1;
        }
        out
    }

    /// Return sum along `axis`.
    ///
    /// Contiguous lanes and short axes are summed lane by lane; a long
    /// strided axis is split in two halves whose sums are added.
    ///
    /// **Panics** if `axis` is out of bounds (excluded by `requires`).
    pub fn sum_axis(&self, axis: usize) -> (r: Array<i64>)
        requires
            self.wf(),
            axis < self.spec_dim().len(),
            size(self.spec_dim().remove(axis as int)) <= isize::MAX,
        ensures
            r.wf(),
            r.spec_dim() == self.spec_dim().remove(axis as int),
            forall|k: int|
                0 <= k < size(self.spec_dim().remove(axis as int)) ==> #[trigger] r.values()[k]
                    == self.axis_sum(axis as int, k),
        decreases self.spec_dim()[axis as int],
    {
        let n = self.len_of(axis);
        if self.stride_of(axis) == 1 || n <= NAIVE_SUM_THRESHOLD {
            return self.lane_sums(axis);
        }
        let ghost a = axis as int;
        let ghost dim = self.spec_dim();
        let ghost rd = dim.remove(a);
        let half = n / 2;
        let (v1, v2) = self.view().split_at(axis, half);
        proof {
            assert(v1.spec_dim().remove(a) =~= rd);
            assert(v2.spec_dim().remove(a) =~= rd);
        }
        let s1 = v1.sum_axis(axis);
        let s2 = v2.sum_axis(axis);
        let total = s1.as_slice().len();
        let x1 = s1.as_slice();
        let x2 = s2.as_slice();
        proof {
            assert forall|k: int| 0 <= k < size(rd) implies #[trigger] self.axis_sum(a, k) == v1.axis_sum(a, k).wrapping_add(v2.axis_sum(a, k)) by {
                let u = unravel(k, rd);
                lemma_unravel_is_index(k, rd);
                let l = self.lane(a, k);
                let l1 = v1.lane(a, k);
                let l2 = v2.lane(a, k);
                assert forall|m: int| 0 <= m < half implies #[trigger] l1[m] == l[m] by {
                    let w = u.insert(a, m as usize);
                    assert forall|j: int| 0 <= j < w.len() implies #[trigger] w[j] < v1.spec_dim()[j] by {
                        if j < a {
                            assert(u[j] < rd[j]);
                        } else if j > a {
                            assert(u[j - 1] < rd[j - 1]);
                        }
                    }
                    assert(is_index(w, v1.spec_dim()));
                }
                assert forall|m: int| 0 <= m < n - half implies #[trigger] l2[m] == l[m + half] by {
                    let w = u.insert(a, m as usize);
                    assert forall|j: int| 0 <= j < w.len() implies #[trigger] w[j] < v2.spec_dim()[j] by {
                        if j < a {
                            assert(u[j] < rd[j]);
                        } else if j > a {
                            assert(u[j - 1] < rd[j - 1]);
                        }
                    }
                    assert(is_index(w, v2.spec_dim()));
                    assert(w.update(a, (w[a] + half) as usize) =~= u.insert(a, (m + half) as usize));
                }
                assert(l =~= l1 + l2);
                lemma_seq_sum_append(l1, l2);
                lemma_wrapping_add_wraps(seq_sum(l1), seq_sum(l2));
            }
        }
        let mut out: Vec<i64> = Vec::new();
        let mut k: usize = 0;
        while k < total
            invariant
                k <= total,
                total == size(rd),
                x1@.len() == total,
                x2@.len() == total,
                forall|t: int| 0 <= t < total ==> #[trigger] x1@[t] == v1.axis_sum(a, t),
                forall|t: int| 0 <= t < total ==> #[trigger] x2@[t] == v2.axis_sum(a, t),
                forall|t: int| 0 <= t < total ==> #[trigger] self.axis_sum(a, t) == v1.axis_sum(a, t).wrapping_add(v2.axis_sum(a, t)),
                out@.len() == k,
                forall|t: int| 0 <= t < k ==> #[trigger] out@[t] == self.axis_sum(a, t),
            decreases total - k,
        {
            out.push(x1[k].wrapping_add(x2[k]));
            k = k + 1;
        }
        Array::from_parts(out, vstd::slice::slice_to_vec(s1.shape()))
    }

    /// Return mean along `axis`: the wrapped sum of each lane divided by
    /// the axis length, rounding toward zero.
    ///
    /// **Panics** if `axis` is out of bounds, if the axis is empty, or if its
    /// length does not fit in `i64` (excluded by `requires`).
    pub fn mean_axis(&self, axis: usize) -> (r: Array<i64>)
        requires
            self.wf(),
            axis < self.spec_dim().len(),
            0 < self.spec_dim()[axis as int] <= i64::MAX,
        ensures
            r.wf(),
            r.spec_dim() == self.spec_dim().remove(axis as int),
            forall|k: int|
                0 <= k < size(self.spec_dim().remove(axis as int)) ==> #[trigger] r.values()[k]
                    == div_trunc(self.axis_sum(axis as int, k) as int, self.spec_dim()[axis as int] as int),
    {
        proof {
            crate::dimension::lemma_size_remove(self.spec_dim(), axis as int);
        }
        let n = self.len_of(axis) as i64;
        let sums = self.sum_axis(axis);
        let xs = sums.as_slice();
        let total = xs.len();
        let ghost a = axis as int;
        let mut out: Vec<i64> = Vec::new();
        let mut k: usize = 0;
        while k < total
            invariant
                k <= total,
                xs@.len() == total,
                n > 0,
                n == self.spec_dim()[a],
                forall|t: int| 0 <= t < total ==> #[trigger] xs@[t] == self.axis_sum(a, t),
                out@.len() == k,
                forall|t: int| 0 <= t < k ==> #[trigger] out@[t] == div_trunc(self.axis_sum(a, t) as int, n as int),
            decreases total - k,
        {
            let q: i64 = match xs[k].checked_div(n) {
                Some(q) => q,
                None => 0,
            };
            out.push(q);
            k = k + 1;
        }
        Array::from_parts(out, vstd::slice::slice_to_vec(sums.shape()))
    }

    /// Return `true` if the arrays' elementwise differences are all within
    /// the absolute tolerance `tol`, `false` otherwise; stops at the first
    /// pair outside it.
    ///
    /// If their shapes disagree, `rhs` is broadcast to the shape of `self`.
    ///
    /// **Panics** if broadcasting to the same shape isn't possible (excluded
    /// by `requires`).
    pub fn all_close(&self, rhs: &ArrayView<'_, i64>, tol: i64) -> (r: bool)
        requires
            self.wf(),
            rhs.wf(),
            broadcast_compatible(rhs.spec_dim(), self.spec_dim()),
            nonzero_size(self.spec_dim()) <= isize::MAX,
        ensures
            r == forall|k: int|
                0 <= k < size(self.spec_dim()) ==> abs_diff(
                    #[trigger] self.values()[k],
                    rhs.elem(broadcast_index(unravel(k, self.spec_dim()), rhs.spec_dim(), self.spec_dim())),
                ) <= tol,
    {
        let dim = vstd::slice::slice_to_vec(self.shape());
        let b = match rhs.broadcast(&dim) {
            Ok(b) => b,
            Err(_) => {
                return false;
            },
        };
        let ghost bv = Seq::new(
            size(self.spec_dim()) as nat,
            |k: int| rhs.elem(broadcast_index(unravel(k, self.spec_dim()), rhs.spec_dim(), self.spec_dim())),
        );
        proof {
            assert forall|k: int| 0 <= k < size(self.spec_dim()) implies #[trigger] b.values()[k] == bv[k] by {
                lemma_unravel_is_index(k, self.spec_dim());
            }
            crate::dimension::lemma_size_nonneg(self.spec_dim());
            assert(b.values() =~= bv);
        }
        let ghost av = self.values();
        let mut z = Zip::from(self, &b);
        let n = self.len();
        let mut k: usize = 0;
        while k < n
            invariant
                z.wf(),
                n == av.len() == bv.len(),
                n == size(self.spec_dim()),
                av == self.values(),
                bv == Seq::new(
                    size(self.spec_dim()) as nat,
                    |t: int| rhs.elem(broadcast_index(unravel(t, self.spec_dim()), rhs.spec_dim(), self.spec_dim())),
                ),
                k <= n,
                z.rest() == Seq::new(n as nat, |t: int| (av[t], bv[t])).subrange(k as int, n as int),
                forall|t: int| 0 <= t < k ==> abs_diff(#[trigger] av[t], bv[t]) <= tol,
            decreases n - k,
        {
            let (x, y): (i64, i64) = match z.next() {
                Some((x, y)) => (*x, *y),
                None => (0, 0),
            };
            proof {
                assert(x == av[k as int]);
                assert(y == bv[k as int]);
                assert(z.rest() =~= Seq::new(n as nat, |t: int| (av[t], bv[t])).subrange(k + 1, n as int));
            }
            let d: i128 = (x as i128) - (y as i128);
            let ad: i128 = if d < 0 { -d } else { d };
            if ad > tol as i128 {
                proof {
                    assert(!(abs_diff(self.values()[k as int], bv[k as int]) <= tol));
                    assert(bv[k as int] == rhs.elem(broadcast_index(unravel(k as int, self.spec_dim()), rhs.spec_dim(), self.spec_dim())));
                    assert(0 <= k < size(self.spec_dim()));
                }
                return false;
            }
            k = k + 1;
        }
        true
    }

    /// Return the product of all elements in the array.
    pub fn product(&self) -> (r: i64)
        requires
            self.wf(),
        ensures
            r == wrap(seq_prod(self.values())),
    {
        let mut it = self.iter();
        let ghost all = self.values();
        let (n, _) = it.size_hint();
        let mut acc: i64 = 1;
        let mut i: usize = 0;
        proof {
            lemma_wrap_small(1);
            assert(all.subrange(0, 0) =~= Seq::<i64>::empty());
        }
        while i < n
            invariant
                it.wf(),
                n == all.len(),
                i <= n,
                it.rest() == all.subrange(i as int, n as int),
                acc == wrap(seq_prod(all.subrange(0, i as int))),
            decreases n - i,
        {
            let x: i64 = match it.next() {
                Some(x) => *x,
                None => 1,
            };
            proof {
                assert(x == all[i as int]);
                assert(all.subrange(0, i + 1).drop_last() =~= all.subrange(0, i as int));
                assert(it.rest() =~= all.subrange(i + 1, n as int));
                lemma_wrap_small(x as int);
                lemma_wrapping_mul_wraps(seq_prod(all.subrange(0, i as int)), x as int);
            }
            acc = acc.wrapping_mul(x);
            i = i + 1;
        }
        proof {
            assert(all.subrange(0, n as int) =~= all);
        }
        acc
    }
}

} // verus!
