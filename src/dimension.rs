//! The shape/stride model: axis lengths, signed strides, memory offsets of
//! multi-indices, and the row-major (C order) enumeration of an index space.
use vstd::arithmetic::div_mod::{lemma_fundamental_div_mod, lemma_fundamental_div_mod_converse};
use vstd::arithmetic::mul::{lemma_mul_inequality, lemma_mul_nonnegative, lemma_mul_strictly_positive};
use vstd::prelude::*;

use crate::error::{ErrorKind, ShapeError};

verus! {

/// Number of elements of an array of shape `dim`: the product of the lengths.
pub open spec fn size(dim: Seq<usize>) -> int
    decreases dim.len(),
{
    if dim.len() == 0 {
        1
    } else {
        size(dim.drop_last()) * dim.last()
    }
}

/// `idx` is a valid multi-index into shape `dim`.
pub open spec fn is_index(idx: Seq<usize>, dim: Seq<usize>) -> bool {
    &&& idx.len() == dim.len()
    &&& forall|j: int| 0 <= j < idx.len() ==> #[trigger] idx[j] < dim[j]
}

/// Memory offset of `idx` relative to the base: the sum of `idx[j] * strides[j]`.
pub open spec fn offset(idx: Seq<usize>, strides: Seq<isize>) -> int
    decreases idx.len(),
{
    if idx.len() == 0 || strides.len() == 0 {
        0
    } else {
        offset(idx.drop_last(), strides.drop_last()) + idx.last() * strides.last()
    }
}

/// The `k`-th multi-index of shape `dim` in row-major order (last axis fastest).
pub open spec fn unravel(k: int, dim: Seq<usize>) -> Seq<usize>
    decreases dim.len(),
{
    if dim.len() == 0 {
        Seq::empty()
    } else {
        unravel(k / (dim.last() as int), dim.drop_last()).push((k % (dim.last() as int)) as usize)
    }
}

/// The multi-index that follows `idx` in row-major order: an odometer step.
/// After the last index every axis has wrapped around to zero.
pub open spec fn next_index(idx: Seq<usize>, dim: Seq<usize>) -> Seq<usize>
    decreases idx.len(),
{
    if idx.len() == 0 {
        idx
    } else if idx.last() + 1 < dim.last() {
        idx.update(idx.len() - 1, (idx.last() + 1) as usize)
    } else {
        next_index(idx.drop_last(), dim.drop_last()).push(0)
    }
}

/// Largest offset reached by a valid index (for a shape with no empty axis).
pub open spec fn max_offset(dim: Seq<usize>, strides: Seq<isize>) -> int
    decreases dim.len(),
{
    if dim.len() == 0 || strides.len() == 0 {
        0
    } else {
        max_offset(dim.drop_last(), strides.drop_last()) + if strides.last() > 0 {
            (dim.last() - 1) * strides.last()
        } else {
            0
        }
    }
}

/// Smallest offset reached by a valid index (for a shape with no empty axis).
pub open spec fn min_offset(dim: Seq<usize>, strides: Seq<isize>) -> int
    decreases dim.len(),
{
    if dim.len() == 0 || strides.len() == 0 {
        0
    } else {
        min_offset(dim.drop_last(), strides.drop_last()) + if strides.last() < 0 {
            (dim.last() - 1) * strides.last()
        } else {
            0
        }
    }
}

/// A region `(ptr, dim, strides)` lies inside a buffer of `len` elements:
/// ranks agree, the element count fits in `isize`, and every valid index
/// lands in `0..len`.
pub open spec fn layout_ok(len: int, ptr: int, dim: Seq<usize>, strides: Seq<isize>) -> bool {
    &&& dim.len() == strides.len()
    &&& size(dim) <= isize::MAX
    &&& len <= isize::MAX
    &&& 0 <= ptr <= len
    &&& size(dim) > 0 ==> 0 <= ptr + min_offset(dim, strides) && ptr + max_offset(dim, strides) < len
}


/// Every valid index of `(ptr, dim, strides)` lands inside a buffer of `len` elements.
pub open spec fn in_bounds(len: int, ptr: int, dim: Seq<usize>, strides: Seq<isize>) -> bool {
    forall|idx: Seq<usize>| #[trigger] is_index(idx, dim) ==> 0 <= ptr + offset(idx, strides) < len
}

/// A checked layout keeps every valid index inside the buffer.
pub proof fn lemma_layout_in_bounds(len: int, ptr: int, dim: Seq<usize>, strides: Seq<isize>)
    requires
        layout_ok(len, ptr, dim, strides),
    ensures
        in_bounds(len, ptr, dim, strides),
{
    assert forall|idx: Seq<usize>| #[trigger] is_index(idx, dim) implies 0 <= ptr + offset(idx, strides) < len by {
        lemma_offset_bounds(idx, dim, strides);
        lemma_size_nonneg(dim);
        if size(dim) == 0 {
            assert forall|j: int| 0 <= j < dim.len() implies #[trigger] dim[j] > 0 by {
                assert(idx[j] < dim[j]);
            }
            lemma_size_positive_converse(dim);
        }
    }
}

/// Replacing one stride moves each offset by the index on that axis times the change.
pub proof fn lemma_offset_stride_update(idx: Seq<usize>, strides: Seq<isize>, j: int, x: isize)
    requires
        idx.len() == strides.len(),
        0 <= j < idx.len(),
    ensures
        offset(idx, strides.update(j, x)) == offset(idx, strides) + idx[j] * (x - strides[j]),
    decreases idx.len(),
{
    let n = idx.len() - 1;
    let t = strides.update(j, x);
    if j == n {
        assert(t.drop_last() =~= strides.drop_last());
        assert(idx[j] * x - idx[j] * strides[j] == idx[j] * (x - strides[j])) by (nonlinear_arith);
    } else {
        assert(t.drop_last() =~= strides.drop_last().update(j, x));
        lemma_offset_stride_update(idx.drop_last(), strides.drop_last(), j, x);
    }
}


/// Offset of an index with a coordinate put back at `axis`.
pub proof fn lemma_offset_insert(idx: Seq<usize>, strides: Seq<isize>, axis: int, k: usize)
    requires
        strides.len() == idx.len() + 1,
        0 <= axis <= idx.len(),
    ensures
        offset(idx.insert(axis, k), strides) == offset(idx, strides.remove(axis)) + k * strides[axis],
    decreases idx.len(),
{
    let n = idx.len();
    let u = idx.insert(axis, k);
    if axis == n {
        assert(u.drop_last() =~= idx);
        assert(strides.drop_last() =~= strides.remove(axis));
    } else {
        assert(u.drop_last() =~= idx.drop_last().insert(axis, k));
        assert(strides.drop_last().remove(axis) =~= strides.remove(axis).drop_last());
        lemma_offset_insert(idx.drop_last(), strides.drop_last(), axis, k);
        assert(u.last() == idx.last());
        assert(strides.last() == strides.remove(axis).last());
    }
}


/// `from` can be broadcast to `to`: aligned from the last axis, each length
/// of `from` equals the one of `to` or is one; missing leading axes are free.
pub open spec fn broadcast_compatible(from: Seq<usize>, to: Seq<usize>) -> bool {
    &&& from.len() <= to.len()
    &&& forall|j: int|
        0 <= j < from.len() ==> #[trigger] from[j] == to[j + (to.len() - from.len())] || from[j]
            == 1
}

/// The index of the source that the broadcast index `i` reads: leading
/// axes dropped, replicated axes at zero.
pub open spec fn broadcast_index(i: Seq<usize>, from: Seq<usize>, to: Seq<usize>) -> Seq<usize> {
    Seq::new(
        from.len(),
        |j: int|
            if from[j] == 1 {
                0usize
            } else {
                i[j + (to.len() - from.len())]
            },
    )
}

/// Strides of the broadcast view: kept where lengths agree, zero elsewhere.
pub open spec fn broadcast_strides(from: Seq<usize>, strides: Seq<isize>, to: Seq<usize>) -> Seq<isize> {
    Seq::new(
        to.len(),
        |j: int|
            if j < to.len() - from.len() {
                0isize
            } else if from[j - (to.len() - from.len())] == to[j] {
                strides[j - (to.len() - from.len())]
            } else {
                0isize
            },
    )
}

/// Zero strides give offset zero.
pub proof fn lemma_offset_zero_strides(idx: Seq<usize>, strides: Seq<isize>)
    requires
        forall|j: int| 0 <= j < strides.len() ==> strides[j] == 0,
    ensures
        offset(idx, strides) == 0,
    decreases idx.len(),
{
    if idx.len() > 0 && strides.len() > 0 {
        lemma_offset_zero_strides(idx.drop_last(), strides.drop_last());
        assert(idx.last() * 0 == 0) by (nonlinear_arith);
    }
}

/// A broadcast index reads the source element at `broadcast_index`.
pub proof fn lemma_broadcast_offset(i: Seq<usize>, from: Seq<usize>, strides: Seq<isize>, to: Seq<usize>)
    requires
        broadcast_compatible(from, to),
        from.len() == strides.len(),
        is_index(i, to),
    ensures
        is_index(broadcast_index(i, from, to), from),
        offset(i, broadcast_strides(from, strides, to)) == offset(
            broadcast_index(i, from, to),
            strides,
        ),
    decreases to.len(),
{
    let k = to.len() - from.len();
    let bs = broadcast_strides(from, strides, to);
    let bi = broadcast_index(i, from, to);
    assert forall|j: int| 0 <= j < bi.len() implies #[trigger] bi[j] < from[j] by {
        assert(i[j + k] < to[j + k]);
        if from[j] != 1 {
            assert(from[j] == to[j + k]);
        }
    }
    if from.len() == 0 {
        lemma_offset_zero_strides(i, bs);
    } else {
        let f2 = from.drop_last();
        let t2 = to.drop_last();
        let s2 = strides.drop_last();
        let i2 = i.drop_last();
        assert(bs.drop_last() =~= broadcast_strides(f2, s2, t2));
        assert(bi.drop_last() =~= broadcast_index(i2, f2, t2));
        assert(broadcast_compatible(f2, t2)) by {
            assert forall|j: int| 0 <= j < f2.len() implies #[trigger] f2[j] == t2[j + (t2.len()
                - f2.len())] || f2[j] == 1 by {
                assert(from[j] == to[j + k] || from[j] == 1);
            }
        }
        assert(is_index(i2, t2)) by {
            assert forall|j: int| 0 <= j < i2.len() implies #[trigger] i2[j] < t2[j] by {
                assert(i[j] < to[j]);
            }
        }
        lemma_broadcast_offset(i2, f2, s2, t2);
        let n = to.len() - 1;
        let m = from.len() - 1;
        assert(i[n] < to[n]);
        if from[m] == to[n] {
            if from[m] == 1 {
                assert(i[n] == 0);
                assert(i[n] * bs[n] == 0 * strides[m]) by (nonlinear_arith)
                    requires i[n] == 0;
            }
        } else {
            assert(bs[n] == 0);
            assert(bi[m] == 0);
            assert(i[n] * bs[n] == bi[m] * strides[m]) by (nonlinear_arith)
                requires bs[n] == 0, bi[m] == 0;
        }
    }
}

/// Shrinking one axis length does not grow the element count.
pub proof fn lemma_size_le_update(dim: Seq<usize>, axis: int, v: usize)
    requires
        0 <= axis < dim.len(),
        v <= dim[axis],
    ensures
        size(dim.update(axis, v)) <= size(dim),
    decreases dim.len(),
{
    let u = dim.update(axis, v);
    let n = dim.len() - 1;
    lemma_size_nonneg(dim.drop_last());
    if axis == n {
        assert(u.drop_last() =~= dim.drop_last());
        lemma_mul_inequality(v as int, dim[n] as int, size(dim.drop_last()));
        assert(v * size(dim.drop_last()) == size(dim.drop_last()) * v) by (nonlinear_arith);
        assert(dim[n] * size(dim.drop_last()) == size(dim.drop_last()) * dim[n]) by (nonlinear_arith);
    } else {
        assert(u.drop_last() =~= dim.drop_last().update(axis, v));
        lemma_size_le_update(dim.drop_last(), axis, v);
        lemma_mul_inequality(size(u.drop_last()), size(dim.drop_last()), dim[n] as int);
    }
}

/// Removing an axis of non-zero length does not grow the element count.
pub proof fn lemma_size_remove(dim: Seq<usize>, axis: int)
    requires
        0 <= axis < dim.len(),
        dim[axis] > 0,
    ensures
        size(dim.remove(axis)) <= size(dim),
        size(dim) == size(dim.remove(axis)) * dim[axis],
    decreases dim.len(),
{
    let u = dim.remove(axis);
    let n = dim.len() - 1;
    if axis == n {
        assert(u =~= dim.drop_last());
        lemma_size_nonneg(u);
        lemma_mul_inequality(1, dim[n] as int, size(u));
        assert(1 * size(u) == size(u));
        assert(dim[n] * size(u) == size(u) * dim[n]) by (nonlinear_arith);
    } else {
        assert(u.drop_last() =~= dim.drop_last().remove(axis));
        lemma_size_remove(dim.drop_last(), axis);
        lemma_size_nonneg(u.drop_last());
        lemma_size_nonneg(dim.drop_last());
        lemma_mul_inequality(size(u.drop_last()), size(dim.drop_last()), dim[n] as int);
        assert(size(u.drop_last()) * dim[axis] * dim[n] == size(u.drop_last()) * dim[n] * dim[axis]) by (nonlinear_arith);
    }
}

/// Row-major strides of `dim`, in elements: the product of the following lengths.
pub open spec fn default_strides_spec(dim: Seq<usize>) -> Seq<int> {
    Seq::new(dim.len(), |j: int| size(dim.subrange(j + 1, dim.len() as int)))
}

/// The strides describe `dim` laid out contiguously in row-major order; the
/// stride of an axis of length one is free, and an empty array is standard.
pub open spec fn is_standard(dim: Seq<usize>, strides: Seq<isize>) -> bool {
    &&& dim.len() == strides.len()
    &&& (size(dim) == 0 || forall|j: int|
        0 <= j < dim.len() && dim[j] != 1 ==> strides[j] == #[trigger] default_strides_spec(dim)[j])
}

pub proof fn lemma_size_nonneg(dim: Seq<usize>)
    ensures
        size(dim) >= 0,
    decreases dim.len(),
{
    if dim.len() > 0 {
        lemma_size_nonneg(dim.drop_last());
        lemma_mul_nonnegative(size(dim.drop_last()), dim.last() as int);
    }
}

/// A non-empty shape has no empty axis.
pub proof fn lemma_size_positive(dim: Seq<usize>)
    requires
        size(dim) > 0,
    ensures
        forall|j: int| 0 <= j < dim.len() ==> #[trigger] dim[j] > 0,
    decreases dim.len(),
{
    if dim.len() > 0 {
        let p = dim.drop_last();
        lemma_size_nonneg(p);
        if dim.last() == 0 {
            assert(size(p) * 0 == 0) by (nonlinear_arith);
        }
        if size(p) == 0 {
            assert(0 * (dim.last() as int) == 0) by (nonlinear_arith);
        }
        assert(size(p) > 0);
        lemma_size_positive(p);
        assert forall|j: int| 0 <= j < dim.len() implies #[trigger] dim[j] > 0 by {
            if j < dim.len() - 1 {
                assert(p[j] == dim[j]);
            }
        }
    }
}

/// A shape with no empty axis is non-empty.
pub proof fn lemma_size_positive_converse(dim: Seq<usize>)
    requires
        forall|j: int| 0 <= j < dim.len() ==> #[trigger] dim[j] > 0,
    ensures
        size(dim) > 0,
    decreases dim.len(),
{
    if dim.len() > 0 {
        let p = dim.drop_last();
        assert forall|j: int| 0 <= j < p.len() implies #[trigger] p[j] > 0 by {
            assert(p[j] == dim[j]);
        }
        lemma_size_positive_converse(p);
        lemma_mul_strictly_positive(size(p), dim.last() as int);
    }
}

/// The `k`-th row-major index is a valid index.
pub proof fn lemma_unravel_is_index(k: int, dim: Seq<usize>)
    requires
        0 <= k < size(dim),
    ensures
        is_index(unravel(k, dim), dim),
    decreases dim.len(),
{
    if dim.len() > 0 {
        let p = dim.drop_last();
        let d = dim.last() as int;
        lemma_size_positive(dim);
        assert(d > 0);
        lemma_size_nonneg(p);
        lemma_fundamental_div_mod(k, d);
        let q = k / d;
        let r = k % d;
        assert(0 <= q < size(p)) by {
            if q >= size(p) {
                lemma_mul_inequality(size(p), q, d);
                assert(size(p) * d == d * size(p)) by (nonlinear_arith);
                assert(q * d == d * q) by (nonlinear_arith);
            }
        }
        lemma_unravel_is_index(q, p);
        let u = unravel(k, dim);
        assert forall|j: int| 0 <= j < u.len() implies #[trigger] u[j] < dim[j] by {
            if j < u.len() - 1 {
                assert(u[j] == unravel(q, p)[j]);
                assert(p[j] == dim[j]);
            }
        }
    }
}

/// The odometer step moves from the `k`-th row-major index to the next one.
pub proof fn lemma_next_index_unravel(k: int, dim: Seq<usize>)
    requires
        0 <= k,
        k + 1 < size(dim),
    ensures
        next_index(unravel(k, dim), dim) == unravel(k + 1, dim),
    decreases dim.len(),
{
    if dim.len() > 0 {
        let p = dim.drop_last();
        let d = dim.last() as int;
        lemma_size_positive(dim);
        lemma_size_nonneg(p);
        lemma_fundamental_div_mod(k, d);
        let q = k / d;
        let r = k % d;
        let u = unravel(k, dim);
        assert(u.drop_last() =~= unravel(q, p));
        if r + 1 < d {
            lemma_fundamental_div_mod_converse(k + 1, d, q, r + 1);
            assert(next_index(u, dim) =~= unravel(k + 1, dim));
        } else {
            assert((q + 1) * d == d * q + d) by (nonlinear_arith);
            lemma_fundamental_div_mod_converse(k + 1, d, q + 1, 0);
            assert(q + 1 < size(p)) by {
                if q + 1 >= size(p) {
                    lemma_mul_inequality(size(p), q + 1, d);
                    assert(size(p) * d == d * size(p)) by (nonlinear_arith);
                    assert((q + 1) * d == d * q + d) by (nonlinear_arith);
                }
            }
            lemma_next_index_unravel(q, p);
            assert(next_index(u, dim) =~= unravel(k + 1, dim));
        }
    }
}

/// The first row-major index is all zeros.
pub proof fn lemma_unravel_zero(dim: Seq<usize>)
    requires
        size(dim) > 0,
    ensures
        unravel(0, dim) == Seq::new(dim.len(), |j: int| 0usize),
    decreases dim.len(),
{
    if dim.len() > 0 {
        lemma_size_positive(dim);
        lemma_size_nonneg(dim.drop_last());
        let d = dim.last() as int;
        lemma_fundamental_div_mod_converse(0, d, 0, 0);
        assert(size(dim.drop_last()) > 0) by {
            if size(dim.drop_last()) == 0 {
                assert(0 * d == 0) by (nonlinear_arith);
            }
        }
        lemma_unravel_zero(dim.drop_last());
        assert(unravel(0, dim) =~= Seq::new(dim.len(), |j: int| 0usize));
    }
}

/// Changing one coordinate moves the offset by the change times its stride.
pub proof fn lemma_offset_update(idx: Seq<usize>, strides: Seq<isize>, j: int, v: usize)
    requires
        idx.len() == strides.len(),
        0 <= j < idx.len(),
    ensures
        offset(idx.update(j, v), strides) == offset(idx, strides) + (v - idx[j]) * strides[j],
    decreases idx.len(),
{
    let n = idx.len() - 1;
    let u = idx.update(j, v);
    if j == n {
        assert(u.drop_last() =~= idx.drop_last());
        assert(v * strides[j] - idx[j] * strides[j] == (v - idx[j]) * strides[j]) by (nonlinear_arith);
    } else {
        assert(u.drop_last() =~= idx.drop_last().update(j, v));
        lemma_offset_update(idx.drop_last(), strides.drop_last(), j, v);
    }
}

/// Every valid index lands between the smallest and the largest offset.
pub proof fn lemma_offset_bounds(idx: Seq<usize>, dim: Seq<usize>, strides: Seq<isize>)
    requires
        is_index(idx, dim),
        dim.len() == strides.len(),
    ensures
        min_offset(dim, strides) <= offset(idx, strides) <= max_offset(dim, strides),
    decreases idx.len(),
{
    if idx.len() > 0 {
        let n = idx.len() - 1;
        assert(is_index(idx.drop_last(), dim.drop_last())) by {
            assert forall|j: int| 0 <= j < n implies #[trigger] idx.drop_last()[j] < dim.drop_last()[j] by {
                assert(idx[j] < dim[j]);
            }
        }
        lemma_offset_bounds(idx.drop_last(), dim.drop_last(), strides.drop_last());
        let i = idx[n] as int;
        let d = dim[n] as int;
        let s = strides[n] as int;
        assert(i < d);
        if s > 0 {
            assert(0 <= i * s <= (d - 1) * s) by (nonlinear_arith)
                requires 0 <= i < d, s > 0;
        } else if s < 0 {
            assert((d - 1) * s <= i * s <= 0) by (nonlinear_arith)
                requires 0 <= i < d, s < 0;
        } else {
            assert(i * s == 0) by (nonlinear_arith)
                requires s == 0;
        }
    }
}

/// In a standard layout, the `k`-th row-major index has offset `k` (scaled).
proof fn lemma_standard_offset_scaled(k: int, dim: Seq<usize>, strides: Seq<isize>, c: int)
    requires
        0 <= k < size(dim),
        dim.len() == strides.len(),
        c > 0,
        forall|j: int|
            0 <= j < dim.len() && dim[j] != 1 ==> strides[j] == c * #[trigger] default_strides_spec(
                dim,
            )[j],
    ensures
        offset(unravel(k, dim), strides) == c * k,
    decreases dim.len(),
{
    if dim.len() > 0 {
        let n = dim.len() - 1;
        let p = dim.drop_last();
        let d = dim.last() as int;
        lemma_size_positive(dim);
        lemma_size_nonneg(p);
        lemma_fundamental_div_mod(k, d);
        let q = k / d;
        let r = k % d;
        assert(0 <= q < size(p)) by {
            if q >= size(p) {
                lemma_mul_inequality(size(p), q, d);
                assert(size(p) * d == d * size(p)) by (nonlinear_arith);
                assert(q * d == d * q) by (nonlinear_arith);
            }
        }
        assert forall|j: int|
            0 <= j < p.len() && p[j] != 1 implies strides.drop_last()[j] == (c * d)
            * #[trigger] default_strides_spec(p)[j] by {
            let tail = dim.subrange(j + 1, dim.len() as int);
            assert(tail.drop_last() =~= p.subrange(j + 1, p.len() as int));
            assert(default_strides_spec(dim)[j] == size(tail));
            assert(c * (size(p.subrange(j + 1, p.len() as int)) * d) == (c * d) * size(
                p.subrange(j + 1, p.len() as int),
            )) by (nonlinear_arith);
        }
        lemma_mul_strictly_positive(c, d);
        lemma_standard_offset_scaled(q, p, strides.drop_last(), c * d);
        assert(unravel(k, dim).drop_last() == unravel(q, p));
        let s = strides[n] as int;
        assert(unravel(k, dim).last() as int == r);
        assert(offset(unravel(k, dim), strides) == (c * d) * q + r * s);
        if d != 1 {
            assert(default_strides_spec(dim)[n] == size(dim.subrange(n + 1, dim.len() as int)));
            assert(dim.subrange(n + 1, dim.len() as int) =~= Seq::<usize>::empty());
            assert(s == c);
        } else {
            lemma_fundamental_div_mod_converse(k, 1, k, 0);
            assert(r == 0);
            assert(r * s == r * c) by (nonlinear_arith)
                requires r == 0;
        }
        assert((c * d) * q + r * c == c * (d * q + r)) by (nonlinear_arith);
    } else {
        assert(c * k == 0) by (nonlinear_arith)
            requires k == 0;
    }
}

/// In a standard layout every valid index lands in `0..size`.
pub proof fn lemma_standard_offset_bounds(idx: Seq<usize>, dim: Seq<usize>, strides: Seq<isize>, c: int)
    requires
        is_index(idx, dim),
        dim.len() == strides.len(),
        c > 0,
        forall|j: int|
            0 <= j < dim.len() && dim[j] != 1 ==> strides[j] == c * #[trigger] default_strides_spec(
                dim,
            )[j],
    ensures
        0 <= offset(idx, strides) <= c * (size(dim) - 1),
    decreases dim.len(),
{
    if dim.len() > 0 {
        let n = dim.len() - 1;
        let p = dim.drop_last();
        let d = dim.last() as int;
        let i = idx.last() as int;
        let sl = strides[n] as int;
        assert(i < d);
        assert(is_index(idx.drop_last(), p)) by {
            assert forall|j: int| 0 <= j < n implies #[trigger] idx.drop_last()[j] < p[j] by {
                assert(idx[j] < dim[j]);
            }
        }
        assert forall|j: int|
            0 <= j < p.len() && p[j] != 1 implies strides.drop_last()[j] == (c * d)
            * #[trigger] default_strides_spec(p)[j] by {
            let tail = dim.subrange(j + 1, dim.len() as int);
            assert(tail.drop_last() =~= p.subrange(j + 1, p.len() as int));
            assert(default_strides_spec(dim)[j] == size(tail));
            assert(c * (size(p.subrange(j + 1, p.len() as int)) * d) == (c * d) * size(
                p.subrange(j + 1, p.len() as int),
            )) by (nonlinear_arith);
        }
        lemma_mul_strictly_positive(c, d);
        lemma_standard_offset_bounds(idx.drop_last(), p, strides.drop_last(), c * d);
        if d != 1 {
            assert(default_strides_spec(dim)[n] == size(dim.subrange(n + 1, dim.len() as int)));
            assert(dim.subrange(n + 1, dim.len() as int) =~= Seq::<usize>::empty());
            assert(sl == c);
        } else {
            assert(i == 0);
        }
        assert(0 <= i * sl <= c * (d - 1)) by (nonlinear_arith)
            requires 0 <= i < d, c > 0, (d != 1 && sl == c) || i == 0;
        assert((c * d) * (size(p) - 1) + c * (d - 1) == c * (size(p) * d - 1)) by (nonlinear_arith);
    }
}

/// Row-major rank of a multi-index: the inverse of `unravel`.
pub open spec fn rank(idx: Seq<usize>, dim: Seq<usize>) -> int
    decreases idx.len(),
{
    if idx.len() == 0 || dim.len() == 0 {
        0
    } else {
        rank(idx.drop_last(), dim.drop_last()) * dim.last() + idx.last()
    }
}

/// Unravelling the rank of a valid index gives the index back.
pub proof fn lemma_unravel_rank(idx: Seq<usize>, dim: Seq<usize>)
    requires
        is_index(idx, dim),
    ensures
        unravel(rank(idx, dim), dim) == idx,
        0 <= rank(idx, dim),
    decreases idx.len(),
{
    if idx.len() > 0 {
        let p = idx.drop_last();
        let pd = dim.drop_last();
        assert(is_index(p, pd)) by {
            assert forall|j: int| 0 <= j < p.len() implies #[trigger] p[j] < pd[j] by {
                assert(idx[j] < dim[j]);
            }
        }
        lemma_unravel_rank(p, pd);
        let d = dim.last() as int;
        let n = idx.len() - 1;
        assert(idx[n] < dim[n]);
        lemma_fundamental_div_mod_converse(rank(idx, dim), d, rank(p, pd), idx.last() as int);
        assert(unravel(rank(idx, dim), dim) =~= idx);
        assert(rank(p, pd) * d >= 0) by (nonlinear_arith)
            requires rank(p, pd) >= 0, d > 0;
    }
}

/// In a standard layout the offset of a valid index is its rank (scaled).
pub proof fn lemma_standard_offset_rank(idx: Seq<usize>, dim: Seq<usize>, strides: Seq<isize>, c: int)
    requires
        is_index(idx, dim),
        dim.len() == strides.len(),
        c > 0,
        forall|j: int|
            0 <= j < dim.len() && dim[j] != 1 ==> strides[j] == c * #[trigger] default_strides_spec(
                dim,
            )[j],
    ensures
        offset(idx, strides) == c * rank(idx, dim),
    decreases dim.len(),
{
    if dim.len() > 0 {
        let n = dim.len() - 1;
        let p = dim.drop_last();
        let d = dim.last() as int;
        let i = idx.last() as int;
        let sl = strides[n] as int;
        assert(i < d);
        assert(is_index(idx.drop_last(), p)) by {
            assert forall|j: int| 0 <= j < n implies #[trigger] idx.drop_last()[j] < p[j] by {
                assert(idx[j] < dim[j]);
            }
        }
        assert forall|j: int|
            0 <= j < p.len() && p[j] != 1 implies strides.drop_last()[j] == (c * d)
            * #[trigger] default_strides_spec(p)[j] by {
            let tail = dim.subrange(j + 1, dim.len() as int);
            assert(tail.drop_last() =~= p.subrange(j + 1, p.len() as int));
            assert(default_strides_spec(dim)[j] == size(tail));
            assert(c * (size(p.subrange(j + 1, p.len() as int)) * d) == (c * d) * size(
                p.subrange(j + 1, p.len() as int),
            )) by (nonlinear_arith);
        }
        lemma_mul_strictly_positive(c, d);
        lemma_standard_offset_rank(idx.drop_last(), p, strides.drop_last(), c * d);
        if d != 1 {
            assert(default_strides_spec(dim)[n] == size(dim.subrange(n + 1, dim.len() as int)));
            assert(dim.subrange(n + 1, dim.len() as int) =~= Seq::<usize>::empty());
            assert(sl == c);
        } else {
            assert(i == 0);
        }
        assert(i * sl == c * i) by (nonlinear_arith)
            requires (d != 1 && sl == c) || i == 0;
        let rp = rank(idx.drop_last(), p);
        assert((c * d) * rp + c * i == c * (rp * d + i)) by (nonlinear_arith);
    }
}

/// In a standard layout distinct valid indices have distinct offsets.
pub proof fn lemma_standard_offset_injective(i1: Seq<usize>, i2: Seq<usize>, dim: Seq<usize>, strides: Seq<isize>)
    requires
        is_index(i1, dim),
        is_index(i2, dim),
        is_standard(dim, strides),
        offset(i1, strides) == offset(i2, strides),
    ensures
        i1 == i2,
{
    assert(size(dim) > 0) by {
        assert forall|j: int| 0 <= j < dim.len() implies #[trigger] dim[j] > 0 by {
            assert(i1[j] < dim[j]);
        }
        lemma_size_positive_converse(dim);
    }
    assert forall|j: int|
        0 <= j < dim.len() && dim[j] != 1 implies strides[j] == 1 * #[trigger] default_strides_spec(
        dim,
    )[j] by {}
    lemma_standard_offset_rank(i1, dim, strides, 1);
    lemma_standard_offset_rank(i2, dim, strides, 1);
    lemma_unravel_rank(i1, dim);
    lemma_unravel_rank(i2, dim);
}

/// Distinct positions below the element count unravel to distinct indices.
pub proof fn lemma_unravel_injective(k: int, t: int, dim: Seq<usize>)
    requires
        0 <= k < size(dim),
        0 <= t < size(dim),
        unravel(k, dim) == unravel(t, dim),
    ensures
        k == t,
    decreases dim.len(),
{
    if dim.len() > 0 {
        let p = dim.drop_last();
        let d = dim.last() as int;
        lemma_size_positive(dim);
        lemma_size_nonneg(p);
        lemma_fundamental_div_mod(k, d);
        lemma_fundamental_div_mod(t, d);
        assert(unravel(k, dim).drop_last() == unravel(k / d, p));
        assert(unravel(t, dim).drop_last() == unravel(t / d, p));
        assert(unravel(k, dim).last() == unravel(t, dim).last());
        assert(0 <= k / d < size(p)) by {
            if k / d >= size(p) {
                lemma_mul_inequality(size(p), k / d, d);
                assert(size(p) * d == d * size(p)) by (nonlinear_arith);
                assert((k / d) * d == d * (k / d)) by (nonlinear_arith);
            }
        }
        assert(0 <= t / d < size(p)) by {
            if t / d >= size(p) {
                lemma_mul_inequality(size(p), t / d, d);
                assert(size(p) * d == d * size(p)) by (nonlinear_arith);
                assert((t / d) * d == d * (t / d)) by (nonlinear_arith);
            }
        }
        lemma_unravel_injective(k / d, t / d, p);
        assert(0 <= k % d < d && 0 <= t % d < d);
        lemma_unravel_is_index(k / d, p);
        lemma_unravel_is_index(t / d, p);
        assert(unravel(k, dim) == unravel(k / d, p).push((k % d) as usize));
        assert(unravel(t, dim) == unravel(t / d, p).push((t % d) as usize));
        assert(unravel(k, dim)[dim.len() - 1] == (k % d) as usize);
        assert(unravel(t, dim)[dim.len() - 1] == (t % d) as usize);
        assert(k % d == t % d);
        assert(d * (k / d) == d * (t / d));
    } else {
        assert(size(dim) == 1);
    }
}

/// In a standard layout the `k`-th row-major element is stored at offset `k`.
pub proof fn lemma_standard_offset(k: int, dim: Seq<usize>, strides: Seq<isize>)
    requires
        0 <= k < size(dim),
        is_standard(dim, strides),
    ensures
        offset(unravel(k, dim), strides) == k,
{
    assert forall|j: int|
        0 <= j < dim.len() && dim[j] != 1 implies strides[j] == 1 * #[trigger] default_strides_spec(
        dim,
    )[j] by {}
    lemma_standard_offset_scaled(k, dim, strides, 1);
}


/// Product of the non-zero axis lengths.
pub open spec fn nonzero_size(dim: Seq<usize>) -> int
    decreases dim.len(),
{
    if dim.len() == 0 {
        1
    } else if dim.last() == 0 {
        nonzero_size(dim.drop_last())
    } else {
        nonzero_size(dim.drop_last()) * dim.last()
    }
}

pub proof fn lemma_nonzero_size(dim: Seq<usize>)
    ensures
        nonzero_size(dim) >= 1,
        size(dim) == 0 || size(dim) == nonzero_size(dim),
        size(dim) >= 0,
    decreases dim.len(),
{
    if dim.len() > 0 {
        let p = dim.drop_last();
        lemma_nonzero_size(p);
        lemma_size_nonneg(dim);
        if dim.last() != 0 {
            lemma_mul_inequality(1, nonzero_size(p), dim.last() as int);
            if size(p) == 0 {
                assert(0 * (dim.last() as int) == 0) by (nonlinear_arith);
            }
        } else {
            assert(size(p) * 0 == 0) by (nonlinear_arith);
        }
    }
}

/// The element count of a concatenation of shapes is the product of their counts.
pub proof fn lemma_size_concat(a: Seq<usize>, b: Seq<usize>)
    ensures
        size(a + b) == size(a) * size(b),
    decreases b.len(),
{
    if b.len() == 0 {
        assert(a + b =~= a);
    } else {
        assert((a + b).drop_last() =~= a + b.drop_last());
        lemma_size_concat(a, b.drop_last());
        assert(size(a) * size(b.drop_last()) * b.last() == size(a) * (size(b.drop_last())
            * b.last())) by (nonlinear_arith);
    }
}

/// Splitting a shape at `j`: the count of the tail from `j` is the length at
/// `j` times the count of the tail after it, and no tail outgrows a non-empty whole.
pub proof fn lemma_size_suffix(dim: Seq<usize>, j: int)
    requires
        0 <= j < dim.len(),
    ensures
        size(dim.subrange(j, dim.len() as int)) == dim[j] * size(
            dim.subrange(j + 1, dim.len() as int),
        ),
        size(dim) > 0 ==> size(dim.subrange(j, dim.len() as int)) <= size(dim),
{
    let n = dim.len() as int;
    let t = dim.subrange(j + 1, n);
    assert(dim.subrange(j, n) =~= seq![dim[j]] + t);
    lemma_size_concat(seq![dim[j]], t);
    assert(seq![dim[j]].drop_last() =~= Seq::<usize>::empty());
    assert(size(seq![dim[j]]) == dim[j]) by {
        reveal_with_fuel(size, 2);
    }
    assert(dim =~= dim.subrange(0, j) + dim.subrange(j, n));
    lemma_size_concat(dim.subrange(0, j), dim.subrange(j, n));
    if size(dim) > 0 {
        lemma_size_nonneg(dim.subrange(0, j));
        lemma_size_nonneg(dim.subrange(j, n));
        if size(dim.subrange(0, j)) == 0 {
            assert(0 * size(dim.subrange(j, n)) == 0) by (nonlinear_arith);
        }
        lemma_mul_inequality(1, size(dim.subrange(0, j)), size(dim.subrange(j, n)));
    }
}

/// Return the number of elements of `dim`, or an `Overflow` error when the
/// product of its non-zero lengths does not fit in `isize`.
pub fn size_of_shape_checked(dim: &Vec<usize>) -> (r: Result<usize, ShapeError>)
    ensures
        match r {
            Ok(n) => nonzero_size(dim@) <= isize::MAX && n == size(dim@),
            Err(e) => nonzero_size(dim@) > isize::MAX && e.spec_kind() == ErrorKind::Overflow,
        },
{
    let n = dim.len();
    let mut acc: usize = 1;
    let mut any_zero = false;
    let mut i: usize = 0;
    while i < n
        invariant
            n == dim@.len(),
            i <= n,
            acc == nonzero_size(dim@.subrange(0, i as int)),
            any_zero == (size(dim@.subrange(0, i as int)) == 0),
        decreases n - i,
    {
        let d = dim[i];
        proof {
            let pre = dim@.subrange(0, i as int);
            assert(dim@.subrange(0, i + 1).drop_last() =~= pre);
            lemma_nonzero_size(pre);
            lemma_nonzero_size(dim@.subrange(0, i + 1));
            lemma_size_nonneg(pre);
            if d == 0 {
                assert(size(pre) * 0 == 0) by (nonlinear_arith);
            } else if size(pre) == 0 {
                assert(0 * (d as int) == 0) by (nonlinear_arith);
            } else {
                lemma_mul_strictly_positive(size(pre), d as int);
            }
        }
        if d != 0 {
            match acc.checked_mul(d) {
                Some(v) => {
                    acc = v;
                },
                None => {
                    proof {
                        lemma_nonzero_size_prefix_grows(dim@, (i + 1) as int);
                    }
                    return Err(ShapeError::from_kind(ErrorKind::Overflow));
                },
            }
        } else {
            any_zero = true;
        }
        i = i + 1;
    }
    proof {
        assert(dim@.subrange(0, n as int) =~= dim@);
        lemma_nonzero_size(dim@);
    }
    if acc > isize::MAX as usize {
        Err(ShapeError::from_kind(ErrorKind::Overflow))
    } else if any_zero {
        Ok(0)
    } else {
        Ok(acc)
    }
}

/// The product of non-zero lengths never shrinks as axes are added.
proof fn lemma_nonzero_size_prefix_grows(dim: Seq<usize>, i: int)
    requires
        0 <= i <= dim.len(),
    ensures
        nonzero_size(dim.subrange(0, i)) <= nonzero_size(dim),
    decreases dim.len() - i,
{
    if i < dim.len() {
        lemma_nonzero_size_prefix_grows(dim, i + 1);
        assert(dim.subrange(0, i + 1).drop_last() =~= dim.subrange(0, i));
        lemma_nonzero_size(dim.subrange(0, i));
        let d = dim[i] as int;
        if d != 0 {
            lemma_mul_inequality(1, d, nonzero_size(dim.subrange(0, i)));
            assert(d * nonzero_size(dim.subrange(0, i)) == nonzero_size(dim.subrange(0, i)) * d)
                by (nonlinear_arith);
        }
    } else {
        assert(dim.subrange(0, i) =~= dim);
    }
}

/// Row-major (C order) strides for `dim`; all zero when `dim` has no elements.
pub fn default_strides(dim: &Vec<usize>) -> (r: Vec<isize>)
    requires
        size(dim@) <= isize::MAX,
    ensures
        r@.len() == dim@.len(),
        forall|j: int|
            0 <= j < dim@.len() ==> #[trigger] r@[j] == if size(dim@) == 0 {
                0
            } else {
                default_strides_spec(dim@)[j]
            },
{
    let n = dim.len();
    let mut any_zero = false;
    let mut i: usize = 0;
    while i < n
        invariant
            n == dim@.len(),
            i <= n,
            any_zero == exists|j: int| 0 <= j < i && dim@[j] == 0,
        decreases n - i,
    {
        if dim[i] == 0 {
            any_zero = true;
        }
        i = i + 1;
    }
    proof {
        lemma_size_nonneg(dim@);
        if any_zero {
            let j = choose|j: int| 0 <= j < n && dim@[j] == 0;
            if size(dim@) > 0 {
                lemma_size_positive(dim@);
                assert(dim@[j] > 0);
            }
        } else {
            lemma_size_positive_converse(dim@);
        }
    }
    let mut r: Vec<isize> = Vec::new();
    let mut k: usize = 0;
    while k < n
        invariant
            n == dim@.len(),
            k <= n,
            r@.len() == k,
            forall|j: int| 0 <= j < k ==> #[trigger] r@[j] == 0isize,
        decreases n - k,
    {
        r.push(0);
        k = k + 1;
    }
    if any_zero {
        return r;
    }
    let mut acc: usize = 1;
    let mut j: usize = n;
    proof {
        assert(dim@.subrange(n as int, n as int) =~= Seq::<usize>::empty());
    }
    while j > 0
        invariant
            n == dim@.len(),
            j <= n,
            r@.len() == n,
            size(dim@) > 0,
            size(dim@) <= isize::MAX,
            acc == size(dim@.subrange(j as int, n as int)),
            forall|t: int| j <= t < n ==> #[trigger] r@[t] == default_strides_spec(dim@)[t],
        decreases j,
    {
        j = j - 1;
        proof {
            lemma_size_suffix(dim@, j as int);
            let a = acc as int;
            let d = dim@[j as int] as int;
            assert(a * d == d * a) by (nonlinear_arith);
            if j + 1 < n {
                lemma_size_suffix(dim@, j + 1);
            } else {
                assert(dim@.subrange(j + 1, n as int) =~= Seq::<usize>::empty());
            }
        }
        r.set(j, acc as isize);
        acc = acc * dim[j];
    }
    r
}

/// Return `true` if `strides` describe `dim` laid out contiguously in
/// row-major order (axes of length one may have any stride).
pub fn is_standard_layout(dim: &Vec<usize>, strides: &Vec<isize>) -> (r: bool)
    requires
        dim@.len() == strides@.len(),
        size(dim@) <= isize::MAX,
    ensures
        r == is_standard(dim@, strides@),
{
    let n = dim.len();
    let mut k: usize = 0;
    while k < n
        invariant
            n == dim@.len() == strides@.len(),
            k <= n,
            forall|j: int| 0 <= j < k ==> #[trigger] dim@[j] != 0,
        decreases n - k,
    {
        if dim[k] == 0 {
            proof {
                lemma_size_nonneg(dim@);
                if size(dim@) > 0 {
                    lemma_size_positive(dim@);
                    assert(dim@[k as int] > 0);
                }
                assert(size(dim@) == 0);
                assert(dim@.len() == strides@.len());
                assert(is_standard(dim@, strides@));
            }
            return true;
        }
        k = k + 1;
    }
    proof {
        lemma_size_positive_converse(dim@);
    }
    let defaults = default_strides(dim);
    let mut i: usize = 0;
    while i < n
        invariant
            n == dim@.len() == strides@.len() == defaults@.len(),
            i <= n,
            size(dim@) > 0,
            forall|j: int|
                0 <= j < dim@.len() ==> #[trigger] defaults@[j] == default_strides_spec(dim@)[j],
            forall|j: int|
                0 <= j < i && dim@[j] != 1 ==> #[trigger] strides@[j] == defaults@[j],
        decreases n - i,
    {
        if dim[i] != 1 && strides[i] != defaults[i] {
            return false;
        }
        i = i + 1;
    }
    true
}

/// Offset of `index` steps along an axis of stride `stride`.
pub fn stride_offset(index: usize, stride: isize) -> (r: isize)
    requires
        isize::MIN <= index * stride <= isize::MAX,
    ensures
        r == index * stride,
{
    ((index as i128) * (stride as i128)) as isize
}

/// `true` iff `|a| <= |b|`, compared without overflow.
fn abs_le(a: isize, b: isize) -> (r: bool)
    ensures
        r == (abs_stride(a) <= abs_stride(b)),
{
    let x: i128 = if a < 0 { -(a as i128) } else { a as i128 };
    let y: i128 = if b < 0 { -(b as i128) } else { b as i128 };
    x <= y
}

/// Absolute value of a stride, as an integer.
pub open spec fn abs_stride(s: isize) -> int {
    if s < 0 { -s } else { s as int }
}

/// Return the axis with the smallest absolute stride; among equals, the last one.
///
/// **Panics** if the array has no axes (excluded by `requires`).
pub fn min_stride_axis(strides: &Vec<isize>) -> (r: usize)
    requires
        strides@.len() > 0,
    ensures
        r < strides@.len(),
        forall|j: int| 0 <= j < strides@.len() ==> abs_stride(strides@[r as int]) <= abs_stride(#[trigger] strides@[j]),
        forall|j: int| r < j < strides@.len() ==> abs_stride(strides@[r as int]) < abs_stride(#[trigger] strides@[j]),
{
    let n = strides.len();
    let mut best: usize = n - 1;
    let mut j: usize = n - 1;
    while j > 0
        invariant
            n == strides@.len(),
            j <= best < n,
            forall|t: int| j <= t < n ==> abs_stride(strides@[best as int]) <= abs_stride(#[trigger] strides@[t]),
            forall|t: int| best < t < n ==> abs_stride(strides@[best as int]) < abs_stride(#[trigger] strides@[t]),
        decreases j,
    {
        j = j - 1;
        if !abs_le(strides[best], strides[j]) {
            best = j;
        }
    }
    best
}

/// Check that a region of shape `dim` and strides `strides`, starting at the
/// front of a buffer of `len` elements, stays inside the buffer.
pub fn can_index_slice(len: usize, dim: &Vec<usize>, strides: &Vec<isize>) -> (r: Result<(), ShapeError>)
    requires
        dim@.len() == strides@.len(),
    ensures
        r is Ok ==> layout_ok(len as int, 0, dim@, strides@),
        r is Err ==> r->Err_0.spec_kind() == if nonzero_size(dim@) > isize::MAX || len > isize::MAX {
            ErrorKind::Overflow
        } else {
            ErrorKind::OutOfBounds
        },
        r.is_ok() <==> (layout_ok(len as int, 0, dim@, strides@) && nonzero_size(dim@) <= isize::MAX),
{
    let total = match size_of_shape_checked(dim) {
        Ok(t) => t,
        Err(e) => {
            return Err(e);
        },
    };
    proof {
        lemma_nonzero_size(dim@);
    }
    if len > isize::MAX as usize {
        return Err(ShapeError::from_kind(ErrorKind::Overflow));
    }
    if total == 0 {
        return Ok(());
    }
    proof {
        lemma_size_positive(dim@);
        lemma_max_offset_grows(dim@, strides@, 0);
        assert(dim@.subrange(0, 0) =~= Seq::<usize>::empty());
        assert(dim@.subrange(0, dim@.len() as int) =~= dim@);
        assert(strides@.subrange(0, strides@.len() as int) =~= strides@);
    }
    if len == 0 {
        return Err(ShapeError::from_kind(ErrorKind::OutOfBounds));
    }
    let n = dim.len();
    let mut lo: i128 = 0;
    let mut hi: i128 = 0;
    let mut i: usize = 0;
    proof {
        lemma_size_positive(dim@);
    }
    while i < n
        invariant
            n == dim@.len() == strides@.len(),
            i <= n,
            len <= isize::MAX,
            size(dim@) > 0,
            forall|j: int| 0 <= j < n ==> #[trigger] dim@[j] > 0,
            lo == min_offset(dim@.subrange(0, i as int), strides@.subrange(0, i as int)),
            hi == max_offset(dim@.subrange(0, i as int), strides@.subrange(0, i as int)),
            0 <= hi < len,
            lo == 0,
            nonzero_size(dim@) <= isize::MAX,
        decreases n - i,
    {
        let d = dim[i];
        let s = strides[i];
        proof {
            assert(dim@.subrange(0, i + 1).drop_last() =~= dim@.subrange(0, i as int));
            assert(strides@.subrange(0, i + 1).drop_last() =~= strides@.subrange(0, i as int));
            assert(i128::MIN <= (d - 1) * (s as int) <= i128::MAX) by (nonlinear_arith)
                requires 1 <= d <= usize::MAX, isize::MIN <= s <= isize::MAX;
        }
        proof {
            assert(-0x8000_0000_0000_0000 * 0xffff_ffff_ffff_ffff <= (d - 1) * (s as int)
                <= 0x8000_0000_0000_0000 * 0xffff_ffff_ffff_ffff) by (nonlinear_arith)
                requires 1 <= d <= usize::MAX, isize::MIN <= s <= isize::MAX;
        }
        let step: i128 = ((d - 1) as i128) * (s as i128);
        if s > 0 {
            proof {
                assert((d - 1) * (s as int) >= 0) by (nonlinear_arith)
                    requires d >= 1, s > 0;
            }
            hi = hi + step;
            if hi >= len as i128 {
                proof {
                    lemma_max_offset_grows(dim@, strides@, (i + 1) as int);
                    assert(hi == max_offset(dim@.subrange(0, i + 1), strides@.subrange(0, i + 1)));
                    assert(max_offset(dim@, strides@) >= len);
                }
                return Err(ShapeError::from_kind(ErrorKind::OutOfBounds));
            }
        } else if s < 0 {
            proof {
                assert((d - 1) * (s as int) <= 0) by (nonlinear_arith)
                    requires d >= 1, s < 0;
            }
            lo = lo + step;
            if lo < 0 {
                proof {
                    lemma_min_offset_shrinks(dim@, strides@, (i + 1) as int);
                    assert(lo == min_offset(dim@.subrange(0, i + 1), strides@.subrange(0, i + 1)));
                    assert(min_offset(dim@, strides@) < 0);
                }
                return Err(ShapeError::from_kind(ErrorKind::OutOfBounds));
            }
        }
        i = i + 1;
    }
    proof {
        assert(dim@.subrange(0, n as int) =~= dim@);
        assert(strides@.subrange(0, n as int) =~= strides@);
    }
    Ok(())
}

proof fn lemma_max_offset_grows(dim: Seq<usize>, strides: Seq<isize>, i: int)
    requires
        0 <= i <= dim.len() == strides.len(),
        forall|j: int| 0 <= j < dim.len() ==> #[trigger] dim[j] > 0,
    ensures
        max_offset(dim.subrange(0, i), strides.subrange(0, i)) <= max_offset(dim, strides),
    decreases dim.len() - i,
{
    if i < dim.len() {
        lemma_max_offset_grows(dim, strides, i + 1);
        assert(dim.subrange(0, i + 1).drop_last() =~= dim.subrange(0, i));
        assert(strides.subrange(0, i + 1).drop_last() =~= strides.subrange(0, i));
        let d = dim[i] as int;
        let s = strides[i] as int;
        if s > 0 {
            assert((d - 1) * s >= 0) by (nonlinear_arith)
                requires d >= 1, s > 0;
        }
    } else {
        assert(dim.subrange(0, i) =~= dim);
        assert(strides.subrange(0, i) =~= strides);
    }
}

proof fn lemma_min_offset_shrinks(dim: Seq<usize>, strides: Seq<isize>, i: int)
    requires
        0 <= i <= dim.len() == strides.len(),
        forall|j: int| 0 <= j < dim.len() ==> #[trigger] dim[j] > 0,
    ensures
        min_offset(dim.subrange(0, i), strides.subrange(0, i)) >= min_offset(dim, strides),
    decreases dim.len() - i,
{
    if i < dim.len() {
        lemma_min_offset_shrinks(dim, strides, i + 1);
        assert(dim.subrange(0, i + 1).drop_last() =~= dim.subrange(0, i));
        assert(strides.subrange(0, i + 1).drop_last() =~= strides.subrange(0, i));
        let d = dim[i] as int;
        let s = strides[i] as int;
        if s < 0 {
            assert((d - 1) * s <= 0) by (nonlinear_arith)
                requires d >= 1, s < 0;
        }
    } else {
        assert(dim.subrange(0, i) =~= dim);
        assert(strides.subrange(0, i) =~= strides);
    }
}

} // verus!
