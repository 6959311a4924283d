use vstd::prelude::*;
use vstd::std_specs::cmp::PartialEqSpec;

use crate::wrapping::{
    dot_sum, lemma_seq_sum_append, lemma_wrap_small, lemma_wrapping_add_wraps, lemma_wrapping_mul,
    seq_sum, wrap,
};

verus! {

/// Fold of `s` from the left with `g`, starting from `z`.
pub open spec fn fold_seq<A>(s: Seq<A>, z: A, g: spec_fn(A, A) -> A) -> A
    decreases s.len(),
{
    if s.len() == 0 {
        z
    } else {
        g(fold_seq(s.drop_last(), z, g), s.last())
    }
}

/// Fold of the elements at positions `lane`, `lane + 8`, ... of the first
/// `m` complete blocks of eight.
pub open spec fn lane_fold<A>(xs: Seq<A>, lane: int, m: int, z: A, g: spec_fn(A, A) -> A) -> A
    decreases m,
{
    if m <= 0 {
        z
    } else {
        g(lane_fold(xs, lane, m - 1, z, g), xs[8 * (m - 1) + lane])
    }
}

/// The value that the eightfold unrolled fold produces: eight independent
/// accumulators over the complete blocks, combined as a balanced tree, then
/// combined with the fold of the trailing elements.
pub open spec fn unrolled_value<A>(xs: Seq<A>, z: A, g: spec_fn(A, A) -> A) -> A {
    let m = (xs.len() / 8) as int;
    let q0 = g(lane_fold(xs, 0, m, z, g), lane_fold(xs, 4, m, z, g));
    let q1 = g(lane_fold(xs, 1, m, z, g), lane_fold(xs, 5, m, z, g));
    let q2 = g(lane_fold(xs, 2, m, z, g), lane_fold(xs, 6, m, z, g));
    let q3 = g(lane_fold(xs, 3, m, z, g), lane_fold(xs, 7, m, z, g));
    g(g(g(q0, q2), g(q1, q3)), fold_seq(xs.subrange(8 * m, xs.len() as int), z, g))
}

/// Every value that `init` returns is `z`.
pub open spec fn gives<A, I: Fn() -> A>(init: I, z: A) -> bool {
    forall|r: A| #[trigger] init.ensures((), r) ==> r == z
}

/// Every value that `f` returns on `(a, b)` is `g(a, b)`.
pub open spec fn computes<A, F: Fn(A, A) -> A>(f: F, g: spec_fn(A, A) -> A) -> bool {
    forall|a: A, b: A, r: A| #[trigger] f.ensures((a, b), r) ==> r == g(a, b)
}

/// Fold over the manually unrolled `xs` with `f`.
///
/// Whenever `init` stands for the value `z` and `f` for the function `g`, the
/// result is `unrolled_value(xs, z, g)`.
pub fn unrolled_fold<A: Copy, I: Fn() -> A, F: Fn(A, A) -> A>(xs: &[A], init: I, f: F) -> (r: A)
    requires
        init.requires(()),
        forall|a: A, b: A| #[trigger] f.requires((a, b)),
    ensures
        forall|z: A, g: spec_fn(A, A) -> A|
            gives(init, z) && computes(f, g) ==> r == #[trigger] unrolled_value(xs@, z, g),
{
    // eightfold unrolled so that floating point can be vectorized
    // (even with strict floating point accuracy semantics)
    let len = xs.len();
    let mut p0 = init();
    let mut p1 = init();
    let mut p2 = init();
    let mut p3 = init();
    let mut p4 = init();
    let mut p5 = init();
    let mut p6 = init();
    let mut p7 = init();
    let mut i: usize = 0;
    let ghost mut j: int = 0;
    while len - i >= 8
        invariant
            len == xs@.len(),
            i == 8 * j,
            i <= len,
            forall|a: A, b: A| #[trigger] f.requires((a, b)),
            forall|z: A, g: spec_fn(A, A) -> A|
                gives(init, z) && computes(f, g) ==> {
                    &&& p0 == #[trigger] lane_fold(xs@, 0, j, z, g)
                    &&& p1 == lane_fold(xs@, 1, j, z, g)
                    &&& p2 == lane_fold(xs@, 2, j, z, g)
                    &&& p3 == lane_fold(xs@, 3, j, z, g)
                    &&& p4 == lane_fold(xs@, 4, j, z, g)
                    &&& p5 == lane_fold(xs@, 5, j, z, g)
                    &&& p6 == lane_fold(xs@, 6, j, z, g)
                    &&& p7 == lane_fold(xs@, 7, j, z, g)
                },
        decreases len - i,
    {
        let ghost old_p = (p0, p1, p2, p3, p4, p5, p6, p7);
        p0 = f(p0, xs[i]);
        p1 = f(p1, xs[i + 1]);
        p2 = f(p2, xs[i + 2]);
        p3 = f(p3, xs[i + 3]);
        p4 = f(p4, xs[i + 4]);
        p5 = f(p5, xs[i + 5]);
        p6 = f(p6, xs[i + 6]);
        p7 = f(p7, xs[i + 7]);
        i = i + 8;
        proof {
            j = j + 1;
            assert forall|z: A, g: spec_fn(A, A) -> A|
                gives(init, z) && computes(f, g) implies {
                    &&& p0 == #[trigger] lane_fold(xs@, 0, j, z, g)
                    &&& p1 == lane_fold(xs@, 1, j, z, g)
                    &&& p2 == lane_fold(xs@, 2, j, z, g)
                    &&& p3 == lane_fold(xs@, 3, j, z, g)
                    &&& p4 == lane_fold(xs@, 4, j, z, g)
                    &&& p5 == lane_fold(xs@, 5, j, z, g)
                    &&& p6 == lane_fold(xs@, 6, j, z, g)
                    &&& p7 == lane_fold(xs@, 7, j, z, g)
                } by {
                assert(old_p.0 == lane_fold(xs@, 0, j - 1, z, g));
            }
        }
    }
    let q0 = f(p0, p4);
    let q1 = f(p1, p5);
    let q2 = f(p2, p6);
    let q3 = f(p3, p7);
    let r0 = f(q0, q2);
    let r1 = f(q1, q3);
    let unrolled = f(r0, r1);

    // make it clear to the optimizer that this loop is short
    // and can not be autovectorized.
    let start = i;
    let mut partial = init();
    while i < len
        invariant
            len == xs@.len(),
            start <= i <= len,
            len - start < 8,
            forall|a: A, b: A| #[trigger] f.requires((a, b)),
            forall|z: A, g: spec_fn(A, A) -> A|
                gives(init, z) && computes(f, g) ==> partial == #[trigger] fold_seq(
                    xs@.subrange(start as int, i as int),
                    z,
                    g,
                ),
        decreases len - i,
    {
        proof {
            assert(xs@.subrange(start as int, i + 1).drop_last() =~= xs@.subrange(
                start as int,
                i as int,
            ));
        }
        let ghost old_partial = partial;
        partial = f(partial, xs[i]);
        i = i + 1;
        proof {
            assert forall|z: A, g: spec_fn(A, A) -> A|
                gives(init, z) && computes(f, g) implies partial == #[trigger] fold_seq(
                    xs@.subrange(start as int, i as int),
                    z,
                    g,
                ) by {
                assert(old_partial == fold_seq(xs@.subrange(start as int, i - 1), z, g));
                assert(xs@.subrange(start as int, i as int).drop_last() =~= xs@.subrange(
                    start as int,
                    i - 1,
                ));
            }
        }
    }
    proof {
        assert(j == len / 8);
    }
    f(unrolled, partial)
}


/// Size threshold to switch to naive summation in all implementations of pairwise summation.
pub const NAIVE_SUM_THRESHOLD: usize = 64;

/// Number of elements processed by unrolled operators (to leverage SIMD instructions).
pub const UNROLL_SIZE: usize = 8;

/// Wrapping addition of `i64`, as a spec function.
pub open spec fn add_wrapping() -> spec_fn(i64, i64) -> i64 {
    |a: i64, b: i64| a.wrapping_add(b)
}

/// Exact sum of lane `lane` over the first `m` blocks of eight.
pub open spec fn lane_sum(xs: Seq<i64>, lane: int, m: int) -> int
    decreases m,
{
    if m <= 0 {
        0
    } else {
        lane_sum(xs, lane, m - 1) + xs[8 * (m - 1) + lane]
    }
}

proof fn lemma_lane_fold_wrapping(xs: Seq<i64>, lane: int, m: int)
    requires
        0 <= lane < 8,
        8 * m <= xs.len(),
    ensures
        lane_fold(xs, lane, m, 0i64, add_wrapping()) == wrap(lane_sum(xs, lane, m)),
    decreases m,
{
    if m <= 0 {
        lemma_wrap_small(0);
    } else {
        lemma_lane_fold_wrapping(xs, lane, m - 1);
        lemma_wrap_small(xs[8 * (m - 1) + lane] as int);
        lemma_wrapping_add_wraps(lane_sum(xs, lane, m - 1), xs[8 * (m - 1) + lane] as int);
    }
}

proof fn lemma_fold_seq_wrapping(s: Seq<i64>)
    ensures
        fold_seq(s, 0i64, add_wrapping()) == wrap(seq_sum(s)),
    decreases s.len(),
{
    if s.len() == 0 {
        lemma_wrap_small(0);
    } else {
        lemma_fold_seq_wrapping(s.drop_last());
        lemma_wrap_small(s.last() as int);
        lemma_wrapping_add_wraps(seq_sum(s.drop_last()), s.last() as int);
    }
}

proof fn lemma_lanes_cover(xs: Seq<i64>, m: int)
    requires
        0 <= m,
        8 * m <= xs.len(),
    ensures
        lane_sum(xs, 0, m) + lane_sum(xs, 1, m) + lane_sum(xs, 2, m) + lane_sum(xs, 3, m)
            + lane_sum(xs, 4, m) + lane_sum(xs, 5, m) + lane_sum(xs, 6, m) + lane_sum(xs, 7, m)
            == seq_sum(xs.subrange(0, 8 * m)),
    decreases m,
{
    if m > 0 {
        lemma_lanes_cover(xs, m - 1);
        let b = 8 * (m - 1);
        lemma_seq_sum_append(xs.subrange(0, b), xs.subrange(b, b + 8));
        assert(xs.subrange(0, b) + xs.subrange(b, b + 8) =~= xs.subrange(0, b + 8));
        let t = xs.subrange(b, b + 8);
        assert(seq_sum(t) == t[0] + t[1] + t[2] + t[3] + t[4] + t[5] + t[6] + t[7]) by {
            reveal_with_fuel(seq_sum, 9);
        }
    }
}

/// The unrolled fold with wrapping addition from zero is the wrapped sum.
pub proof fn lemma_unrolled_value_wrapping(xs: Seq<i64>)
    ensures
        unrolled_value(xs, 0i64, add_wrapping()) == wrap(seq_sum(xs)),
{
    let g = add_wrapping();
    let m = (xs.len() / 8) as int;
    let n = xs.len() as int;
    lemma_lane_fold_wrapping(xs, 0, m);
    lemma_lane_fold_wrapping(xs, 1, m);
    lemma_lane_fold_wrapping(xs, 2, m);
    lemma_lane_fold_wrapping(xs, 3, m);
    lemma_lane_fold_wrapping(xs, 4, m);
    lemma_lane_fold_wrapping(xs, 5, m);
    lemma_lane_fold_wrapping(xs, 6, m);
    lemma_lane_fold_wrapping(xs, 7, m);
    let a0 = lane_sum(xs, 0, m);
    let a1 = lane_sum(xs, 1, m);
    let a2 = lane_sum(xs, 2, m);
    let a3 = lane_sum(xs, 3, m);
    let a4 = lane_sum(xs, 4, m);
    let a5 = lane_sum(xs, 5, m);
    let a6 = lane_sum(xs, 6, m);
    let a7 = lane_sum(xs, 7, m);
    let rest = xs.subrange(8 * m, n);
    lemma_fold_seq_wrapping(rest);
    lemma_wrapping_add_wraps(a0, a4);
    lemma_wrapping_add_wraps(a1, a5);
    lemma_wrapping_add_wraps(a2, a6);
    lemma_wrapping_add_wraps(a3, a7);
    lemma_wrapping_add_wraps(a0 + a4, a2 + a6);
    lemma_wrapping_add_wraps(a1 + a5, a3 + a7);
    lemma_wrapping_add_wraps(a0 + a4 + a2 + a6, a1 + a5 + a3 + a7);
    lemma_wrapping_add_wraps(a0 + a4 + a2 + a6 + a1 + a5 + a3 + a7, seq_sum(rest));
    lemma_lanes_cover(xs, m);
    lemma_seq_sum_append(xs.subrange(0, 8 * m), rest);
    assert(xs.subrange(0, 8 * m) + rest =~= xs);
}

fn zero_i64() -> (r: i64)
    ensures
        r == 0,
{
    0
}

fn add_i64(a: i64, b: i64) -> (c: i64)
    ensures
        c == a.wrapping_add(b),
{
    a.wrapping_add(b)
}

/// An implementation of pairwise summation for a vector slice.
///
/// Pairwise summation computes the sum of a set of *n* numbers by splitting
/// it recursively in two halves, summing their elements and then adding the
/// respective sums. It switches to the unrolled naive sum once the set has at
/// most `NAIVE_SUM_THRESHOLD * UNROLL_SIZE` elements.
///
/// The sum is taken in two's-complement wrapping arithmetic, so its value does
/// not depend on the order of the additions.
pub fn pairwise_sum(v: &[i64]) -> (r: i64)
    ensures
        r == wrap(seq_sum(v@)),
    decreases v@.len(),
{
    let n = v.len();
    if n <= NAIVE_SUM_THRESHOLD * UNROLL_SIZE {
        let r = unrolled_fold(v, zero_i64, add_i64);
        proof {
            lemma_unrolled_value_wrapping(v@);
            assert(r == unrolled_value(v@, 0i64, add_wrapping()));
        }
        r
    } else {
        let mid_index = n / 2;
        let (v1, v2) = v.split_at(mid_index);
        let s1 = pairwise_sum(v1);
        let s2 = pairwise_sum(v2);
        proof {
            lemma_wrapping_add_wraps(seq_sum(v1@), seq_sum(v2@));
            lemma_seq_sum_append(v1@, v2@);
            assert(v1@ + v2@ =~= v@);
        }
        s1.wrapping_add(s2)
    }
}

/// An implementation of pairwise summation for a vector slice that never
/// switches to the naive sum algorithm.
pub fn pure_pairwise_sum(v: &[i64]) -> (r: i64)
    ensures
        r == wrap(seq_sum(v@)),
    decreases v@.len(),
{
    let n = v.len();
    if n == 0 {
        proof {
            lemma_wrap_small(0);
        }
        0
    } else if n == 1 {
        proof {
            reveal_with_fuel(seq_sum, 2);
            lemma_wrap_small(v@[0] as int);
        }
        v[0]
    } else {
        let mid_index = n / 2;
        let (v1, v2) = v.split_at(mid_index);
        let s1 = pure_pairwise_sum(v1);
        let s2 = pure_pairwise_sum(v2);
        proof {
            lemma_wrapping_add_wraps(seq_sum(v1@), seq_sum(v2@));
            lemma_seq_sum_append(v1@, v2@);
            assert(v1@ + v2@ =~= v@);
        }
        s1.wrapping_add(s2)
    }
}


/// Exact sum of the products in lane `lane` over the first `m` blocks of eight.
pub open spec fn lane_dot(xs: Seq<i64>, ys: Seq<i64>, lane: int, m: int) -> int
    decreases m,
{
    if m <= 0 {
        0
    } else {
        lane_dot(xs, ys, lane, m - 1) + xs[8 * (m - 1) + lane] * ys[8 * (m - 1) + lane]
    }
}

proof fn lemma_lane_dots_cover(xs: Seq<i64>, ys: Seq<i64>, m: int)
    requires
        0 <= m,
    ensures
        lane_dot(xs, ys, 0, m) + lane_dot(xs, ys, 1, m) + lane_dot(xs, ys, 2, m) + lane_dot(
            xs,
            ys,
            3,
            m,
        ) + lane_dot(xs, ys, 4, m) + lane_dot(xs, ys, 5, m) + lane_dot(xs, ys, 6, m) + lane_dot(
            xs,
            ys,
            7,
            m,
        ) == dot_sum(xs, ys, 8 * m),
    decreases m,
{
    if m > 0 {
        lemma_lane_dots_cover(xs, ys, m - 1);
        reveal_with_fuel(dot_sum, 9);
    }
}

/// Compute the dot product.
///
/// Only the first `min(xs.len(), ys.len())` positions take part. Products and
/// sums are taken in two's-complement wrapping arithmetic.
pub fn unrolled_dot(xs: &[i64], ys: &[i64]) -> (r: i64)
    ensures
        r == wrap(
            dot_sum(xs@, ys@, if xs@.len() <= ys@.len() { xs@.len() as int } else { ys@.len() as int }),
        ),
{
    let len = if xs.len() <= ys.len() { xs.len() } else { ys.len() };
    let mut p0: i64 = 0;
    let mut p1: i64 = 0;
    let mut p2: i64 = 0;
    let mut p3: i64 = 0;
    let mut p4: i64 = 0;
    let mut p5: i64 = 0;
    let mut p6: i64 = 0;
    let mut p7: i64 = 0;
    let mut i: usize = 0;
    let ghost mut j: int = 0;
    proof {
        lemma_wrap_small(0);
    }
    while len - i >= 8
        invariant
            len <= xs@.len(),
            len <= ys@.len(),
            i == 8 * j,
            i <= len,
            p0 == wrap(lane_dot(xs@, ys@, 0, j)),
            p1 == wrap(lane_dot(xs@, ys@, 1, j)),
            p2 == wrap(lane_dot(xs@, ys@, 2, j)),
            p3 == wrap(lane_dot(xs@, ys@, 3, j)),
            p4 == wrap(lane_dot(xs@, ys@, 4, j)),
            p5 == wrap(lane_dot(xs@, ys@, 5, j)),
            p6 == wrap(lane_dot(xs@, ys@, 6, j)),
            p7 == wrap(lane_dot(xs@, ys@, 7, j)),
        decreases len - i,
    {
        proof {
            assert forall|l: int| 0 <= l < 8 implies wrap(#[trigger] lane_dot(xs@, ys@, l, j + 1))
                == wrap(lane_dot(xs@, ys@, l, j)).wrapping_add(
                (xs@[i + l] as i64).wrapping_mul(ys@[i + l]),
            ) by {
                let x = xs@[i + l];
                let y = ys@[i + l];
                lemma_wrapping_mul(x, y);
                lemma_wrapping_add_wraps(lane_dot(xs@, ys@, l, j), x * y);
            }
        }
        p0 = p0.wrapping_add(xs[i].wrapping_mul(ys[i]));
        p1 = p1.wrapping_add(xs[i + 1].wrapping_mul(ys[i + 1]));
        p2 = p2.wrapping_add(xs[i + 2].wrapping_mul(ys[i + 2]));
        p3 = p3.wrapping_add(xs[i + 3].wrapping_mul(ys[i + 3]));
        p4 = p4.wrapping_add(xs[i + 4].wrapping_mul(ys[i + 4]));
        p5 = p5.wrapping_add(xs[i + 5].wrapping_mul(ys[i + 5]));
        p6 = p6.wrapping_add(xs[i + 6].wrapping_mul(ys[i + 6]));
        p7 = p7.wrapping_add(xs[i + 7].wrapping_mul(ys[i + 7]));
        i = i + 8;
        proof {
            j = j + 1;
        }
    }
    let mut sum: i64 = 0;
    sum = sum.wrapping_add(p0.wrapping_add(p4));
    sum = sum.wrapping_add(p1.wrapping_add(p5));
    sum = sum.wrapping_add(p2.wrapping_add(p6));
    sum = sum.wrapping_add(p3.wrapping_add(p7));
    proof {
        let a0 = lane_dot(xs@, ys@, 0, j);
        let a1 = lane_dot(xs@, ys@, 1, j);
        let a2 = lane_dot(xs@, ys@, 2, j);
        let a3 = lane_dot(xs@, ys@, 3, j);
        let a4 = lane_dot(xs@, ys@, 4, j);
        let a5 = lane_dot(xs@, ys@, 5, j);
        let a6 = lane_dot(xs@, ys@, 6, j);
        let a7 = lane_dot(xs@, ys@, 7, j);
        lemma_wrapping_add_wraps(a0, a4);
        lemma_wrapping_add_wraps(a1, a5);
        lemma_wrapping_add_wraps(a2, a6);
        lemma_wrapping_add_wraps(a3, a7);
        lemma_wrapping_add_wraps(0, a0 + a4);
        lemma_wrapping_add_wraps(a0 + a4, a1 + a5);
        lemma_wrapping_add_wraps(a0 + a4 + a1 + a5, a2 + a6);
        lemma_wrapping_add_wraps(a0 + a4 + a1 + a5 + a2 + a6, a3 + a7);
        lemma_lane_dots_cover(xs@, ys@, j);
    }
    while i < len
        invariant
            len <= xs@.len(),
            len <= ys@.len(),
            i <= len,
            sum == wrap(dot_sum(xs@, ys@, i as int)),
        decreases len - i,
    {
        proof {
            let x = xs@[i as int];
            let y = ys@[i as int];
            lemma_wrapping_mul(x, y);
            lemma_wrapping_add_wraps(dot_sum(xs@, ys@, i as int), x * y);
        }
        sum = sum.wrapping_add(xs[i].wrapping_mul(ys[i]));
        i = i + 1;
    }
    sum
}

/// Compute pairwise equality.
///
/// `xs` and `ys` must be the same length.
pub fn unrolled_eq<A: PartialEq>(xs: &[A], ys: &[A]) -> (r: bool)
    requires
        xs@.len() == ys@.len(),
        A::obeys_eq_spec(),
    ensures
        r == (forall|i: int| 0 <= i < xs@.len() ==> (#[trigger] xs@[i]).eq_spec(&ys@[i])),
{
    let len = xs.len();
    let mut i: usize = 0;
    while len - i >= 8
        invariant
            len == xs@.len() == ys@.len(),
            i <= len,
            A::obeys_eq_spec(),
            forall|j: int| 0 <= j < i ==> (#[trigger] xs@[j]).eq_spec(&ys@[j]),
        decreases len - i,
    {
        let d0 = xs[i] != ys[i];
        let d1 = xs[i + 1] != ys[i + 1];
        let d2 = xs[i + 2] != ys[i + 2];
        let d3 = xs[i + 3] != ys[i + 3];
        let d4 = xs[i + 4] != ys[i + 4];
        let d5 = xs[i + 5] != ys[i + 5];
        let d6 = xs[i + 6] != ys[i + 6];
        let d7 = xs[i + 7] != ys[i + 7];
        if d0 || d1 || d2 || d3 || d4 || d5 || d6 || d7 {
            return false;
        }
        i = i + 8;
    }
    while i < len
        invariant
            len == xs@.len() == ys@.len(),
            i <= len,
            A::obeys_eq_spec(),
            forall|j: int| 0 <= j < i ==> (#[trigger] xs@[j]).eq_spec(&ys@[j]),
        decreases len - i,
    {
        if xs[i] != ys[i] {
            return false;
        }
        i = i + 1;
    }
    true
}

} // verus!
