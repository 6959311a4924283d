//! Order statistics: in-place selection (quickselect) and per-lane
//! percentiles with a choice of interpolation.
use vstd::prelude::*;

use crate::array::Array;
use crate::dimension::{
    default_strides, is_index, lemma_offset_insert, lemma_unravel_is_index, lemma_unravel_rank,
    offset, rank, size, unravel,
};
use crate::impl_views::{copy_vec, ArrayView};
use crate::iterators::Baseiter;

verus! {

broadcast use vstd::seq_lib::group_to_multiset_ensures, vstd::multiset::group_multiset_axioms;

/// `x` sits at position `k` of `v` as it would in `v` sorted: nothing before
/// it is larger, nothing after it is smaller.
pub open spec fn is_selected(v: Seq<i64>, k: int) -> bool {
    &&& 0 <= k < v.len()
    &&& forall|i: int| 0 <= i < k ==> #[trigger] v[i] <= v[k]
    &&& forall|j: int| k < j < v.len() ==> v[k] <= #[trigger] v[j]
}

fn swap(v: &mut Vec<i64>, a: usize, b: usize)
    requires
        a < old(v)@.len(),
        b < old(v)@.len(),
    ensures
        final(v)@ == old(v)@.update(a as int, old(v)@[b as int]).update(b as int, old(v)@[a as int]),
        final(v)@.to_multiset() == old(v)@.to_multiset(),
{
    let x = v[a];
    let y = v[b];
    let ghost s0 = v@;
    v.set(a, y);
    let ghost s1 = v@;
    v.set(b, x);
    proof {
        assert(s1.to_multiset() == s0.to_multiset().insert(y).remove(x));
        assert(v@.to_multiset() == s1.to_multiset().insert(x).remove(s1[b as int]));
        if a == b {
            assert(s1[b as int] == y);
        } else {
            assert(s1[b as int] == y);
        }
        assert(v@.to_multiset() =~= s0.to_multiset());
    }
}

/// Quickselect on the positions from `start` on, when nothing before
/// `start` is larger than anything from `start` on; positions before `start`
/// are left alone.
fn select_from(v: &mut Vec<i64>, start: usize, k: usize) -> (r: i64)
    requires
        start <= k < old(v)@.len(),
        forall|i: int, j: int|
            0 <= i < start && start <= j < old(v)@.len() ==> #[trigger] old(v)@[i] <= #[trigger] old(v)@[j],
    ensures
        final(v)@.to_multiset() == old(v)@.to_multiset(),
        final(v)@.len() == old(v)@.len(),
        is_selected(final(v)@, k as int),
        r == final(v)@[k as int],
        forall|i: int| 0 <= i < start ==> #[trigger] final(v)@[i] == old(v)@[i],
        forall|i: int, j: int|
            0 <= i < start && start <= j < final(v)@.len() ==> #[trigger] final(v)@[i] <= #[trigger] final(v)@[j],
{
    let n = v.len();
    let mut lo: usize = start;
    let mut hi: usize = n;
    while hi - lo > 1
        invariant
            v@.len() == n,
            v@.to_multiset() == old(v)@.to_multiset(),
            start <= lo <= k < hi <= n,
            forall|i: int| 0 <= i < start ==> #[trigger] v@[i] == old(v)@[i],
            forall|i: int, j: int| 0 <= i < start && start <= j < n ==> #[trigger] v@[i] <= #[trigger] v@[j],
            forall|i: int, j: int| 0 <= i < lo && lo <= j < n ==> #[trigger] v@[i] <= #[trigger] v@[j],
            forall|i: int, j: int| 0 <= i < hi && hi <= j < n ==> #[trigger] v@[i] <= #[trigger] v@[j],
        decreases hi - lo,
    {
        let pivot = v[hi - 1];
        let mut i: usize = lo;
        let mut j: usize = lo;
        while j < hi - 1
            invariant
                v@.len() == n,
                v@.to_multiset() == old(v)@.to_multiset(),
                lo <= i <= j <= hi - 1,
                start <= lo <= k < hi <= n,
                forall|t: int| 0 <= t < start ==> #[trigger] v@[t] == old(v)@[t],
                forall|a: int, b: int| 0 <= a < start && start <= b < n ==> #[trigger] v@[a] <= #[trigger] v@[b],
                v@[hi - 1] == pivot,
                forall|t: int| lo <= t < i ==> #[trigger] v@[t] < pivot,
                forall|t: int| i <= t < j ==> #[trigger] v@[t] >= pivot,
                forall|a: int, b: int| 0 <= a < lo && lo <= b < n ==> #[trigger] v@[a] <= #[trigger] v@[b],
                forall|a: int, b: int| 0 <= a < hi && hi <= b < n ==> #[trigger] v@[a] <= #[trigger] v@[b],
            decreases hi - 1 - j,
        {
            if v[j] < pivot {
                let ghost w = v@;
                swap(v, i, j);
                proof {
                    assert forall|a: int, b: int| 0 <= a < start && start <= b < n implies #[trigger] v@[a] <= #[trigger] v@[b] by {
                        assert(w[a] <= w[b]);
                        assert(w[a] <= w[i as int]);
                        assert(w[a] <= w[j as int]);
                    }
                    assert forall|a: int, b: int| 0 <= a < lo && lo <= b < n implies #[trigger] v@[a] <= #[trigger] v@[b] by {
                        assert(w[a] <= w[b]);
                        assert(w[a] <= w[i as int]);
                        assert(w[a] <= w[j as int]);
                    }
                    assert forall|a: int, b: int| 0 <= a < hi && hi <= b < n implies #[trigger] v@[a] <= #[trigger] v@[b] by {
                        assert(w[a] <= w[b]);
                        assert(w[i as int] <= w[b]);
                        assert(w[j as int] <= w[b]);
                    }
                }
                i = i + 1;
            }
            j = j + 1;
        }
        let ghost w = v@;
        swap(v, i, hi - 1);
        proof {
            assert forall|a: int, b: int| 0 <= a < start && start <= b < n implies #[trigger] v@[a] <= #[trigger] v@[b] by {
                assert(w[a] <= w[b]);
                assert(w[a] <= w[i as int]);
                assert(w[a] <= w[hi - 1]);
            }
            assert forall|a: int, b: int| 0 <= a < lo && lo <= b < n implies #[trigger] v@[a] <= #[trigger] v@[b] by {
                assert(w[a] <= w[b]);
                assert(w[a] <= w[i as int]);
                assert(w[a] <= w[hi - 1]);
            }
            assert forall|a: int, b: int| 0 <= a < hi && hi <= b < n implies #[trigger] v@[a] <= #[trigger] v@[b] by {
                assert(w[a] <= w[b]);
                assert(w[i as int] <= w[b]);
                assert(w[hi - 1] <= w[b]);
            }
            assert(v@[i as int] == pivot);
            assert forall|t: int| lo <= t < i implies #[trigger] v@[t] < pivot by {
                assert(w[t] < pivot);
            }
            assert forall|t: int| i < t < hi implies #[trigger] v@[t] >= pivot by {
                if t < hi - 1 {
                    assert(w[t] >= pivot);
                } else if i < hi - 1 {
                    assert(w[i as int] >= pivot);
                }
            }
        }
        if k < i {
            proof {
                assert forall|a: int, b: int| 0 <= a < i && i <= b < n implies #[trigger] v@[a] <= #[trigger] v@[b] by {
                    if a < lo {
                        assert(v@[a] <= v@[b]);
                    } else if b < hi {
                        assert(v@[a] < pivot);
                    }
                }
            }
            hi = i;
        } else if k > i {
            proof {
                assert forall|a: int, b: int| 0 <= a < i + 1 && i + 1 <= b < n implies #[trigger] v@[a] <= #[trigger] v@[b] by {
                    if a < lo {
                        assert(v@[a] <= v@[b]);
                    } else if b < hi {
                        assert(v@[a] <= pivot);
                    }
                }
            }
            lo = i + 1;
        } else {
            proof {
                assert forall|a: int, b: int| 0 <= a < i && i <= b < n implies #[trigger] v@[a] <= #[trigger] v@[b] by {
                    if a < lo {
                        assert(v@[a] <= v@[b]);
                    } else if b < hi {
                        assert(v@[a] < pivot);
                    }
                }
                assert forall|a: int, b: int| 0 <= a < i + 1 && i + 1 <= b < n implies #[trigger] v@[a] <= #[trigger] v@[b] by {
                    if a < lo {
                        assert(v@[a] <= v@[b]);
                    } else if b < hi {
                        assert(v@[a] <= pivot);
                    }
                }
            }
            lo = i;
            hi = i + 1;
        }
    }
    proof {
        assert forall|t: int| 0 <= t < k implies #[trigger] v@[t] <= v@[k as int] by {
            assert(v@[t] <= v@[k as int]);
        }
        assert forall|t: int| k < t < n implies v@[k as int] <= #[trigger] v@[t] by {
            assert(v@[k as int] <= v@[t]);
        }
    }
    v[k]
}


/// Reorder `v` so that the element at `k` is the one that would stand there
/// if `v` were sorted, with no larger element before it and no smaller one
/// after it; return that element. The elements are only permuted.
///
/// Average time is linear in the length; the worst case is quadratic.
///
/// **Panics** if `k` is out of bounds (excluded by `requires`).
pub fn select_nth(v: &mut Vec<i64>, k: usize) -> (r: i64)
    requires
        k < old(v)@.len(),
    ensures
        final(v)@.to_multiset() == old(v)@.to_multiset(),
        final(v)@.len() == old(v)@.len(),
        is_selected(final(v)@, k as int),
        r == final(v)@[k as int],
{
    select_from(v, 0, k)
}

/// `x` is the element at position `i` of `s` once sorted.
pub open spec fn is_order_stat(s: Seq<i64>, i: int, x: i64) -> bool {
    exists|v: Seq<i64>| #[trigger] v.to_multiset() == s.to_multiset() && is_selected(v, i) && v[i] == x
}

/// The least element of a sequence sits at position zero once sorted.
pub proof fn lemma_order_stat_first_is_min(s: Seq<i64>, x: i64)
    requires
        is_order_stat(s, 0, x),
    ensures
        s.contains(x),
        forall|j: int| 0 <= j < s.len() ==> x <= #[trigger] s[j],
{
    let v = choose|v: Seq<i64>| #[trigger] v.to_multiset() == s.to_multiset() && is_selected(v, 0) && v[0] == x;
    assert(v.contains(x));
    assert forall|j: int| 0 <= j < s.len() implies x <= #[trigger] s[j] by {
        assert(s.contains(s[j]));
        assert(v.to_multiset().count(s[j]) > 0);
        assert(v.contains(s[j]));
        let t = choose|t: int| 0 <= t < v.len() && v[t] == s[j];
        if t > 0 {
            assert(v[0] <= v[t]);
        }
    }
    assert(s.to_multiset().count(x) > 0);
}

/// The greatest element of a sequence sits at the last position once sorted.
pub proof fn lemma_order_stat_last_is_max(s: Seq<i64>, x: i64)
    requires
        s.len() > 0,
        is_order_stat(s, s.len() - 1, x),
    ensures
        s.contains(x),
        forall|j: int| 0 <= j < s.len() ==> #[trigger] s[j] <= x,
{
    let n = s.len() - 1;
    let v = choose|v: Seq<i64>| #[trigger] v.to_multiset() == s.to_multiset() && is_selected(v, n) && v[n] == x;
    assert(v.len() == s.len()) by {
        assert(v.to_multiset().len() == v.len());
        assert(s.to_multiset().len() == s.len());
    }
    assert(v.contains(x));
    assert forall|j: int| 0 <= j < s.len() implies #[trigger] s[j] <= x by {
        assert(s.contains(s[j]));
        assert(v.to_multiset().count(s[j]) > 0);
        assert(v.contains(s[j]));
        let t = choose|t: int| 0 <= t < v.len() && v[t] == s[j];
        if t < n {
            assert(v[t] <= v[n]);
        }
    }
    assert(s.to_multiset().count(x) > 0);
}

/// How a percentile that falls between two order statistics is formed.
#[derive(Clone, Copy, Debug, PartialEq, Eq, Structural)]
pub enum Interpolate {
    /// the lower of the two
    Lower,
    /// the higher of the two
    Higher,
    /// the nearer of the two; halfway goes to the higher
    Nearest,
    /// halfway between the two, rounded down
    Midpoint,
    /// the lower plus the fraction of the gap, rounded down
    Linear,
}

/// Position of the lower order statistic for quantile `q_num / q_den` of `n` elements.
pub open spec fn lower_index(n: int, q_num: int, q_den: int) -> int {
    (q_num * (n - 1)) / q_den
}

/// Numerator of the fraction of the way from the lower to the upper order statistic.
pub open spec fn fraction_num(n: int, q_num: int, q_den: int) -> int {
    (q_num * (n - 1)) % q_den
}

/// Position of the upper order statistic.
pub open spec fn upper_index(n: int, q_num: int, q_den: int) -> int {
    lower_index(n, q_num, q_den) + if fraction_num(n, q_num, q_den) == 0 { 0int } else { 1int }
}

/// The percentile formed from the two order statistics `lo <= hi`.
pub open spec fn interpolate(how: Interpolate, lo: int, hi: int, rem: int, q_den: int) -> int {
    match how {
        Interpolate::Lower => lo,
        Interpolate::Higher => hi,
        Interpolate::Nearest => if 2 * rem < q_den { lo } else { hi },
        Interpolate::Midpoint => lo + (hi - lo) / 2,
        Interpolate::Linear => lo + ((hi - lo) * rem) / q_den,
    }
}

/// The percentile of lane `lane` for quantile `q_num / q_den`.
pub open spec fn lane_percentile(lane: Seq<i64>, q_num: int, q_den: int, how: Interpolate, r: i64) -> bool {
    let n = lane.len() as int;
    exists|lo: i64, hi: i64|
        is_order_stat(lane, lower_index(n, q_num, q_den), lo) && is_order_stat(
            lane,
            upper_index(n, q_num, q_den),
            hi,
        ) && r == interpolate(how, lo as int, hi as int, fraction_num(n, q_num, q_den), q_den)
}

proof fn lemma_indices(n: int, q_num: int, q_den: int)
    requires
        n > 0,
        q_den > 0,
        0 <= q_num <= q_den,
    ensures
        0 <= lower_index(n, q_num, q_den) <= upper_index(n, q_num, q_den) < n,
        0 <= fraction_num(n, q_num, q_den) < q_den,
{
    let p = q_num * (n - 1);
    assert(0 <= p <= q_den * (n - 1)) by (nonlinear_arith)
        requires 0 <= q_num <= q_den, n > 0, p == q_num * (n - 1);
    assert(q_den * n == q_den * (n - 1) + q_den) by (nonlinear_arith);
    vstd::arithmetic::div_mod::lemma_fundamental_div_mod(p, q_den);
    vstd::arithmetic::div_mod::lemma_div_pos_is_pos(p, q_den);
    let l = p / q_den;
    let r = p % q_den;
    assert(l <= n - 1) by {
        if l > n - 1 {
            assert(q_den * l >= q_den * n) by (nonlinear_arith)
                requires l >= n, q_den > 0;
        }
    }
    if r != 0 {
        assert(l < n - 1) by {
            if l >= n - 1 {
                assert(q_den * l >= q_den * (n - 1)) by (nonlinear_arith)
                    requires l >= n - 1, q_den > 0;
            }
        }
    }
}

/// The percentile of a lane: its order statistics are selected in place and
/// combined; the lane is only permuted.
fn percentile_of(w: &mut Vec<i64>, q_num: u64, q_den: u64, how: Interpolate) -> (r: i64)
    requires
        old(w)@.len() > 0,
        q_den > 0,
        q_num <= q_den,
    ensures
        lane_percentile(old(w)@, q_num as int, q_den as int, how, r),
        final(w)@.to_multiset() == old(w)@.to_multiset(),
        final(w)@.len() == old(w)@.len(),
{
    let ghost lane = w@;
    let n = w.len();
    proof {
        lemma_indices(n as int, q_num as int, q_den as int);
        assert(q_num * (n - 1) <= u64::MAX * usize::MAX) by (nonlinear_arith)
            requires q_num <= u64::MAX, n <= usize::MAX;
    }
    let p: u128 = (q_num as u128) * ((n - 1) as u128);
    let lower = (p / (q_den as u128)) as usize;
    let rem = (p % (q_den as u128)) as u64;
    let upper = if rem == 0 { lower } else { lower + 1 };
    let lo = select_nth(w, lower);
    let ghost w1 = w@;
    let hi = if upper == lower {
        lo
    } else {
        select_from(w, lower + 1, upper)
    };
    let ghost w2 = w@;
    proof {
        assert(w1.to_multiset() == lane.to_multiset());
        assert(is_order_stat(lane, lower as int, lo));
        if upper != lower {
            assert(w2.to_multiset() == lane.to_multiset());
            assert(is_order_stat(lane, upper as int, hi));
            assert(w2[lower as int] == lo);
            assert(lo <= hi);
        } else {
            assert(is_order_stat(lane, upper as int, hi));
        }
    }
    let gap: i128 = (hi as i128) - (lo as i128);
    let v: i128 = match how {
        Interpolate::Lower => lo as i128,
        Interpolate::Higher => hi as i128,
        Interpolate::Nearest => if 2 * (rem as i128) < q_den as i128 { lo as i128 } else { hi as i128 },
        Interpolate::Midpoint => lo as i128 + gap / 2,
        Interpolate::Linear => {
            proof {
                assert(0 <= gap * rem <= gap * q_den) by (nonlinear_arith)
                    requires gap >= 0, 0 <= rem < q_den;
                assert(gap * q_den <= 0x1_0000_0000_0000_0000 * 0xffff_ffff_ffff_ffff) by (nonlinear_arith)
                    requires 0 <= gap <= 0x1_0000_0000_0000_0000, 0 < q_den <= u64::MAX;
                let g = gap as int;
                let d = q_den as int;
                assert((g * rem) / d <= g) by {
                    vstd::arithmetic::div_mod::lemma_div_is_ordered(g * rem, g * d, d);
                    vstd::arithmetic::div_mod::lemma_div_multiples_vanish(g, d);
                    assert(g * d == d * g) by (nonlinear_arith);
                }
                vstd::arithmetic::div_mod::lemma_div_pos_is_pos(g * rem, d);
            }
            let t: u128 = ((gap as u128) * (rem as u128)) / (q_den as u128);
            lo as i128 + t as i128
        },
    };
    proof {
        assert(lo <= v <= hi);
        assert(v == interpolate(how, lo as int, hi as int, rem as int, q_den as int));
    }
    v as i64
}

/// The percentile at quantile zero is the least element of the lane, for
/// every interpolation.
pub proof fn lemma_percentile_zero_is_min(lane: Seq<i64>, q_den: int, how: Interpolate, r: i64)
    requires
        lane.len() > 0,
        q_den > 0,
        lane_percentile(lane, 0, q_den, how, r),
    ensures
        lane.contains(r),
        forall|j: int| 0 <= j < lane.len() ==> r <= #[trigger] lane[j],
{
    let n = lane.len() as int;
    assert(0 * (n - 1) == 0);
    vstd::arithmetic::div_mod::lemma_fundamental_div_mod_converse(0, q_den, 0, 0);
    assert(lower_index(n, 0, q_den) == 0);
    assert(upper_index(n, 0, q_den) == 0);
    let (lo, hi) = choose|lo: i64, hi: i64|
        is_order_stat(lane, 0, lo) && is_order_stat(lane, 0, hi) && r == interpolate(
            how,
            lo as int,
            hi as int,
            0,
            q_den,
        );
    lemma_order_stat_first_is_min(lane, lo);
    lemma_order_stat_first_is_min(lane, hi);
    let tl = choose|t: int| 0 <= t < lane.len() && lane[t] == lo;
    let th = choose|t: int| 0 <= t < lane.len() && lane[t] == hi;
    assert(lo <= lane[th] && hi <= lane[tl]);
    assert(lo == hi);
}

/// The percentile at quantile one is the greatest element of the lane, for
/// every interpolation.
pub proof fn lemma_percentile_one_is_max(lane: Seq<i64>, q_den: int, how: Interpolate, r: i64)
    requires
        lane.len() > 0,
        q_den > 0,
        lane_percentile(lane, q_den, q_den, how, r),
    ensures
        lane.contains(r),
        forall|j: int| 0 <= j < lane.len() ==> #[trigger] lane[j] <= r,
{
    let n = lane.len() as int;
    assert(q_den * (n - 1) == (n - 1) * q_den) by (nonlinear_arith);
    vstd::arithmetic::div_mod::lemma_fundamental_div_mod_converse(q_den * (n - 1), q_den, n - 1, 0);
    assert(lower_index(n, q_den, q_den) == n - 1);
    assert(upper_index(n, q_den, q_den) == n - 1);
    let (lo, hi) = choose|lo: i64, hi: i64|
        is_order_stat(lane, n - 1, lo) && is_order_stat(lane, n - 1, hi) && r == interpolate(
            how,
            lo as int,
            hi as int,
            0,
            q_den,
        );
    lemma_order_stat_last_is_max(lane, lo);
    lemma_order_stat_last_is_max(lane, hi);
    let tl = choose|t: int| 0 <= t < lane.len() && lane[t] == lo;
    let th = choose|t: int| 0 <= t < lane.len() && lane[t] == hi;
    assert(lane[th] <= lo && lane[tl] <= hi);
    assert(lo == hi);
}

/// On a lane of even length, the linear percentile at one half is the
/// midpoint (rounded down) of the two central order statistics.
pub proof fn lemma_percentile_half_linear(lane: Seq<i64>, r: i64)
    requires
        lane.len() > 0,
        lane.len() % 2 == 0,
        lane_percentile(lane, 1, 2, Interpolate::Linear, r),
    ensures
        exists|lo: i64, hi: i64|
            #[trigger] is_order_stat(lane, lane.len() / 2 - 1, lo) && #[trigger] is_order_stat(lane, (lane.len() / 2) as int, hi)
                && r == lo + (hi - lo) / 2,
{
    let n = lane.len() as int;
    vstd::arithmetic::div_mod::lemma_fundamental_div_mod_converse(n - 1, 2, n / 2 - 1, 1);
    assert(lower_index(n, 1, 2) == n / 2 - 1);
    assert(fraction_num(n, 1, 2) == 1);
    assert(upper_index(n, 1, 2) == n / 2);
    let (lo, hi) = choose|lo: i64, hi: i64|
        is_order_stat(lane, n / 2 - 1, lo) && is_order_stat(lane, n / 2, hi) && r == interpolate(
            Interpolate::Linear,
            lo as int,
            hi as int,
            1,
            2,
        );
    assert(r == lo + (hi - lo) / 2);
}

impl<'a> ArrayView<'a, i64> {
    /// Return the `q_num / q_den` percentile of each lane along `axis`:
    /// the order statistics at `floor(q * (n - 1))` and `ceil(q * (n - 1))`
    /// of the lane, combined as `how` says.
    ///
    /// Each lane is copied and its copy reordered by selection, so the view's
    /// elements are left as they are.
    ///
    /// **Panics** if `axis` is out of bounds, if the axis is empty, or if the
    /// quantile is not within `[0, 1]` (excluded by `requires`).
    pub fn percentile_axis(&self, axis: usize, q_num: u64, q_den: u64, how: Interpolate) -> (r: Array<i64>)
        requires
            self.wf(),
            axis < self.spec_dim().len(),
            self.spec_dim()[axis as int] > 0,
            q_den > 0,
            q_num <= q_den,
        ensures
            r.wf(),
            r.spec_dim() == self.spec_dim().remove(axis as int),
            forall|k: int|
                0 <= k < size(self.spec_dim().remove(axis as int)) ==> lane_percentile(
                    self.lane(axis as int, k),
                    q_num as int,
                    q_den as int,
                    how,
                    #[trigger] r.values()[k],
                ),
    {
        proof {
            crate::dimension::lemma_size_remove(self.spec_dim(), axis as int);
        }
        let lanes = self.lanes(axis);
        let total = lanes.len();
        let ghost a = axis as int;
        let mut out: Vec<i64> = Vec::new();
        let mut k: usize = 0;
        while k < total
            invariant
                k <= total,
                total == lanes@.len(),
                q_den > 0,
                q_num <= q_den,
                self.spec_dim()[a] > 0,
                forall|t: int| 0 <= t < total ==> (#[trigger] lanes@[t])@ == self.lane(a, t),
                out@.len() == k,
                forall|t: int|
                    0 <= t < k ==> lane_percentile(self.lane(a, t), q_num as int, q_den as int, how, #[trigger] out@[t]),
            decreases total - k,
        {
            let mut w = copy_vec(&lanes[k]);
            let x = percentile_of(&mut w, q_num, q_den, how);
            out.push(x);
            k = k + 1;
        }
        let mut rdim = vstd::slice::slice_to_vec(self.shape());
        rdim.remove(axis);
        Array::from_parts(out, rdim)
    }
}

/// Position in the row-major buffer of element `m` of lane `t` along `axis`.
pub open spec fn lane_pos(dim: Seq<usize>, axis: int, t: int, m: int) -> int {
    rank(unravel(t, dim.remove(axis)).insert(axis, m as usize), dim)
}

/// The elements of lane `t` along `axis` of the row-major buffer `data`.
pub open spec fn lane_of(data: Seq<i64>, dim: Seq<usize>, axis: int, t: int) -> Seq<i64> {
    Seq::new(dim[axis] as nat, |m: int| data[lane_pos(dim, axis, t, m)])
}

/// Distinct lane elements sit at distinct positions, inside the buffer.
proof fn lemma_lane_pos(dim: Seq<usize>, axis: int, t1: int, m1: int, t2: int, m2: int)
    requires
        0 <= axis < dim.len(),
        0 <= t1 < size(dim.remove(axis)),
        0 <= t2 < size(dim.remove(axis)),
        0 <= m1 < dim[axis],
        0 <= m2 < dim[axis],
    ensures
        0 <= lane_pos(dim, axis, t1, m1) < size(dim),
        lane_pos(dim, axis, t1, m1) == lane_pos(dim, axis, t2, m2) ==> t1 == t2 && m1 == m2,
{
    let rd = dim.remove(axis);
    let u1 = unravel(t1, rd);
    let u2 = unravel(t2, rd);
    lemma_unravel_is_index(t1, rd);
    lemma_unravel_is_index(t2, rd);
    let i1 = u1.insert(axis, m1 as usize);
    let i2 = u2.insert(axis, m2 as usize);
    assert forall|j: int| 0 <= j < i1.len() implies #[trigger] i1[j] < dim[j] by {
        if j < axis {
            assert(u1[j] < rd[j]);
        } else if j > axis {
            assert(u1[j - 1] < rd[j - 1]);
        }
    }
    assert forall|j: int| 0 <= j < i2.len() implies #[trigger] i2[j] < dim[j] by {
        if j < axis {
            assert(u2[j] < rd[j]);
        } else if j > axis {
            assert(u2[j - 1] < rd[j - 1]);
        }
    }
    assert(is_index(i1, dim));
    assert(is_index(i2, dim));
    lemma_unravel_rank(i1, dim);
    lemma_unravel_rank(i2, dim);
    assert(size(dim) > 0) by {
        assert forall|j: int| 0 <= j < dim.len() implies #[trigger] dim[j] > 0 by {
            assert(i1[j] < dim[j]);
        }
        crate::dimension::lemma_size_positive_converse(dim);
    }
    lemma_rank_below_size(i1, dim);
    if lane_pos(dim, axis, t1, m1) == lane_pos(dim, axis, t2, m2) {
        assert(i1 == i2);
        assert(i1[axis] == m1 && i2[axis] == m2);
        assert(i1.remove(axis) =~= u1);
        assert(i2.remove(axis) =~= u2);
        crate::dimension::lemma_unravel_injective(t1, t2, rd);
    }
}

/// The rank of a valid index is below the element count.
proof fn lemma_rank_below_size(idx: Seq<usize>, dim: Seq<usize>)
    requires
        is_index(idx, dim),
    ensures
        0 <= rank(idx, dim) < size(dim),
    decreases idx.len(),
{
    if idx.len() > 0 {
        let p = idx.drop_last();
        let pd = dim.drop_last();
        assert(is_index(p, pd)) by {
            assert forall|j: int| 0 <= j < p.len() implies #[trigger] p[j] < pd[j] by {
                assert(idx[j] < dim[j]);
            }
        }
        lemma_rank_below_size(p, pd);
        let n = idx.len() - 1;
        assert(idx[n] < dim[n]);
        let r = rank(p, pd);
        let d = dim.last() as int;
        assert(0 <= r * d + idx[n] < size(pd) * d) by (nonlinear_arith)
            requires 0 <= r < size(pd), 0 <= idx[n] < d;
    }
}

impl Array<i64> {
    /// The elements of the lane along `axis` at position `k` (row-major) of
    /// the remaining axes.
    pub open spec fn lane(&self, axis: int, k: int) -> Seq<i64> {
        lane_of(self.spec_data(), self.spec_dim(), axis, k)
    }

    /// Return the `q_num / q_den` percentile of each lane along `axis`, as
    /// `ArrayView::percentile_axis` does, selecting the order statistics in
    /// place: afterwards each lane holds the same elements as before, in an
    /// order that is not specified.
    ///
    /// **Panics** if `axis` is out of bounds, if the axis is empty, or if the
    /// quantile is not within `[0, 1]` (excluded by `requires`).
    pub fn percentile_axis_mut(&mut self, axis: usize, q_num: u64, q_den: u64, how: Interpolate) -> (r: Array<i64>)
        requires
            old(self).wf(),
            axis < old(self).spec_dim().len(),
            old(self).spec_dim()[axis as int] > 0,
            q_den > 0,
            q_num <= q_den,
        ensures
            final(self).wf(),
            final(self).spec_dim() == old(self).spec_dim(),
            forall|k: int|
                0 <= k < size(old(self).spec_dim().remove(axis as int)) ==> (#[trigger] final(self).lane(
                    axis as int,
                    k,
                )).to_multiset() == old(self).lane(axis as int, k).to_multiset(),
            r.wf(),
            r.spec_dim() == old(self).spec_dim().remove(axis as int),
            forall|k: int|
                0 <= k < size(old(self).spec_dim().remove(axis as int)) ==> lane_percentile(
                    old(self).lane(axis as int, k),
                    q_num as int,
                    q_den as int,
                    how,
                    #[trigger] r.values()[k],
                ),
    {
        let ghost a = axis as int;
        let ghost dim = self.spec_dim();
        let ghost rd = dim.remove(a);
        let ghost orig = *self;
        proof {
            crate::dimension::lemma_size_remove(dim, a);
        }
        let lanes = {
            let v = self.view();
            let l = v.lanes(axis);
            proof {
                assert forall|t: int| 0 <= t < l@.len() implies (#[trigger] l@[t])@ == orig.lane(a, t) by {
                    assert forall|m: int| 0 <= m < dim[a] implies #[trigger] v.lane(a, t)[m] == orig.lane(a, t)[m] by {
                        lemma_lane_pos(dim, a, t, m, t, m);
                        let u = unravel(t, rd);
                        lemma_unravel_is_index(t, rd);
                        let idx = u.insert(a, m as usize);
                        assert forall|j: int| 0 <= j < idx.len() implies #[trigger] idx[j] < dim[j] by {
                            if j < a {
                                assert(u[j] < rd[j]);
                            } else if j > a {
                                assert(u[j - 1] < rd[j - 1]);
                            }
                        }
                        assert(is_index(idx, dim));
                    }
                    assert(v.lane(a, t) =~= orig.lane(a, t));
                }
            }
            l
        };
        let n = self.shape()[axis];
        let total = lanes.len();
        let strides = default_strides(&vstd::slice::slice_to_vec(self.shape()));
        let s = strides[axis];
        let mut rdim = vstd::slice::slice_to_vec(self.shape());
        rdim.remove(axis);
        let mut rstr = copy_vec(&strides);
        rstr.remove(axis);
        let ghost len = self.spec_data().len() as int;
        proof {
            crate::dimension::lemma_size_nonneg(rd);
            crate::dimension::lemma_size_nonneg(dim);
            if total > 0 {
                assert(size(dim) == size(rd) * dim[a]);
                vstd::arithmetic::mul::lemma_mul_strictly_positive(size(rd), dim[a] as int);
            }
        }
        if total == 0 {
            let out: Vec<i64> = Vec::new();
            return Array::from_parts(out, rdim);
        }
        proof {
            crate::dimension::lemma_size_positive(dim);
            assert forall|j: int| 0 <= j < dim.len() && dim[j] != 1 implies strides@[j] == 1
                * #[trigger] crate::dimension::default_strides_spec(dim)[j] by {}
            assert forall|u: Seq<usize>| #[trigger] is_index(u, rdim@) implies 0 <= 0 + offset(u, rstr@) < len by {
                lemma_offset_insert(u, strides@, a, 0);
                let w = u.insert(a, 0);
                assert forall|j: int| 0 <= j < w.len() implies #[trigger] w[j] < dim[j] by {
                    if j < a {
                        assert(u[j] < rdim@[j]);
                    } else if j > a {
                        assert(u[j - 1] < rdim@[j - 1]);
                    }
                }
                assert(is_index(w, dim));
                crate::dimension::lemma_standard_offset_rank(w, dim, strides@, 1);
                lemma_rank_below_size(w, dim);
            }
        }
        let mut it = Baseiter::new(0, copy_vec(&rdim), rstr, Ghost(len));
        let ghost offs = it.rest();
        let mut out: Vec<i64> = Vec::new();
        let mut k: usize = 0;
        while k < total
            invariant
                self.wf(),
                self.spec_dim() == dim,
                orig.spec_dim() == dim,
                self.spec_data().len() == len,
                len == size(dim),
                len <= isize::MAX,
                0 <= a < dim.len(),
                n == dim[a],
                n > 0,
                rd == dim.remove(a),
                rdim@ == rd,
                total == size(rd),
                total == lanes@.len(),
                strides@.len() == dim.len(),
                s == strides@[a],
                forall|j: int| 0 <= j < dim.len() && dim[j] != 1 ==> strides@[j] == 1
                    * #[trigger] crate::dimension::default_strides_spec(dim)[j],
                it.wf(len),
                offs.len() == total,
                forall|t: int| 0 <= t < total ==> #[trigger] offs[t] == 0 + offset(unravel(t, rd), strides@.remove(a)),
                it.rest() == offs.subrange(k as int, total as int),
                q_den > 0,
                q_num <= q_den,
                k <= total,
                forall|t: int| 0 <= t < total ==> (#[trigger] lanes@[t])@ == orig.lane(a, t),
                forall|t: int| 0 <= t < k ==> (#[trigger] self.lane(a, t)).to_multiset() == orig.lane(a, t).to_multiset(),
                forall|t: int, m: int|
                    k <= t < total && 0 <= m < n ==> #[trigger] self.spec_data()[lane_pos(dim, a, t, m)]
                        == orig.spec_data()[lane_pos(dim, a, t, m)],
                out@.len() == k,
                forall|t: int|
                    0 <= t < k ==> lane_percentile(orig.lane(a, t), q_num as int, q_den as int, how, #[trigger] out@[t]),
            decreases total - k,
        {
            let base: usize = match it.next(Ghost(len)) {
                Some(o) => o,
                None => 0,
            };
            proof {
                assert(base == offs[k as int]);
                assert(it.rest() =~= offs.subrange(k + 1, total as int));
                lemma_unravel_is_index(k as int, rd);
            }
            let mut w = copy_vec(&lanes[k]);
            let ghost w0 = w@;
            proof {
                assert(lanes@[k as int]@ == orig.lane(a, k as int));
                assert(w0.len() == n);
            }
            let x = percentile_of(&mut w, q_num, q_den, how);
            let ghost before = self.spec_data();
            proof {
                assert forall|t: int| 0 <= t < k implies (#[trigger] lane_of(before, dim, a, t)).to_multiset() == orig.lane(a, t).to_multiset() by {
                    assert(self.lane(a, t) == lane_of(before, dim, a, t));
                }
            }
            let mut m: usize = 0;
            while m < n
                invariant
                    self.wf(),
                    self.spec_dim() == dim,
                    self.spec_data().len() == len,
                    len == size(dim),
                    len <= isize::MAX,
                    0 <= a < dim.len(),
                    n == dim[a],
                    rd == dim.remove(a),
                    0 <= k < total,
                    total == size(rd),
                    m <= n,
                    w@.len() == n,
                    strides@.len() == dim.len(),
                    s == strides@[a],
                    forall|j: int| 0 <= j < dim.len() && dim[j] != 1 ==> strides@[j] == 1
                        * #[trigger] crate::dimension::default_strides_spec(dim)[j],
                    base == offset(unravel(k as int, rd), strides@.remove(a)),
                    forall|t: int| 0 <= t < m ==> #[trigger] self.spec_data()[lane_pos(dim, a, k as int, t)] == w@[t],
                    forall|t: int, j: int|
                        0 <= t < total && 0 <= j < n && (t != k || j >= m) ==> #[trigger] self.spec_data()[lane_pos(dim, a, t, j)]
                            == before[lane_pos(dim, a, t, j)],
                decreases n - m,
            {
                let ghost p = lane_pos(dim, a, k as int, m as int);
                proof {
                    lemma_lane_pos(dim, a, k as int, m as int, k as int, m as int);
                    let u = unravel(k as int, rd);
                    lemma_unravel_is_index(k as int, rd);
                    let idx = u.insert(a, m as usize);
                    assert forall|j: int| 0 <= j < idx.len() implies #[trigger] idx[j] < dim[j] by {
                        if j < a {
                            assert(u[j] < rd[j]);
                        } else if j > a {
                            assert(u[j - 1] < rd[j - 1]);
                        }
                    }
                    assert(is_index(idx, dim));
                    crate::dimension::lemma_standard_offset_rank(idx, dim, strides@, 1);
                    lemma_offset_insert(u, strides@, a, m as usize);
                    assert(p == base + m * s);
                    assert(i128::MIN <= m * s <= i128::MAX) by (nonlinear_arith)
                        requires 0 <= m <= usize::MAX, isize::MIN <= s <= isize::MAX;
                }
                let step: i128 = (m as i128) * (s as i128);
                let pos: usize = ((base as i128) + step) as usize;
                let ghost mid = self.spec_data();
                self.set(pos, w[m]);
                proof {
                    assert forall|t: int, j: int|
                        0 <= t < total && 0 <= j < n && (t != k || j >= m + 1) implies #[trigger] self.spec_data()[lane_pos(dim, a, t, j)]
                            == before[lane_pos(dim, a, t, j)] by {
                        lemma_lane_pos(dim, a, t, j, k as int, m as int);
                        assert(mid[lane_pos(dim, a, t, j)] == before[lane_pos(dim, a, t, j)]);
                    }
                    assert forall|t: int| 0 <= t < m + 1 implies #[trigger] self.spec_data()[lane_pos(dim, a, k as int, t)] == w@[t] by {
                        lemma_lane_pos(dim, a, k as int, t, k as int, m as int);
                        if t < m {
                            assert(mid[lane_pos(dim, a, k as int, t)] == w@[t]);
                        }
                    }
                }
                m = m + 1;
            }
            proof {
                assert(self.lane(a, k as int) =~= w@);
                assert(w0 == orig.lane(a, k as int));
                assert forall|t: int| 0 <= t < k + 1 implies (#[trigger] self.lane(a, t)).to_multiset() == orig.lane(a, t).to_multiset() by {
                    if t < k {
                        assert(self.lane(a, t) =~= lane_of(before, dim, a, t));
                        assert(lane_of(before, dim, a, t).to_multiset() == orig.lane(a, t).to_multiset());
                    }
                }
                assert forall|t: int, j: int|
                    k + 1 <= t < total && 0 <= j < n implies #[trigger] self.spec_data()[lane_pos(dim, a, t, j)]
                        == orig.spec_data()[lane_pos(dim, a, t, j)] by {
                    assert(self.spec_data()[lane_pos(dim, a, t, j)] == before[lane_pos(dim, a, t, j)]);
                }
            }
            out.push(x);
            k = k + 1;
        }
        Array::from_parts(out, rdim)
    }
}

} // verus!
