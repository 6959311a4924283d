//! Two's-complement model of `i64` arithmetic: every integer result is
//! reduced modulo 2^64 into the `i64` range.
use vstd::arithmetic::div_mod::{lemma_add_mod_noop, lemma_fundamental_div_mod_converse};
use vstd::prelude::*;

verus! {

/// The modulus of `i64` wrapping arithmetic.
pub open spec fn modulus() -> int {
    0x1_0000_0000_0000_0000
}

/// The `i64` that the mathematical integer `x` wraps to.
pub open spec fn wrap(x: int) -> i64 {
    vstd::wrapping::i64_specs::signed_crop(x)
}

/// Sum of a sequence of integers, taken exactly.
pub open spec fn seq_sum(s: Seq<i64>) -> int
    decreases s.len(),
{
    if s.len() == 0 {
        0
    } else {
        seq_sum(s.drop_last()) + s.last()
    }
}

/// Sum of the exact products of two sequences, over the first `n` positions.
pub open spec fn dot_sum(xs: Seq<i64>, ys: Seq<i64>, n: int) -> int
    decreases n,
{
    if n <= 0 {
        0
    } else {
        dot_sum(xs, ys, n - 1) + xs[n - 1] * ys[n - 1]
    }
}

pub proof fn lemma_wrap_mod(x: int)
    ensures
        (wrap(x) as int) % modulus() == x % modulus(),
        x % modulus() == x - modulus() * (x / modulus()),
{
    let m = modulus();
    let r = x % m;
    assert(x == m * (x / m) + r) by {
        vstd::arithmetic::div_mod::lemma_fundamental_div_mod(x, m);
    }
    assert(0 <= r < m);
    if r > i64::MAX {
        lemma_fundamental_div_mod_converse(r - m, m, -1, r);
    } else {
        lemma_fundamental_div_mod_converse(r, m, 0, r);
    }
}

pub proof fn lemma_wrap_congruent(x: int, y: int)
    requires
        x % modulus() == y % modulus(),
    ensures
        wrap(x) == wrap(y),
{
}

/// A value already in range wraps to itself.
pub proof fn lemma_wrap_small(x: int)
    requires
        i64::MIN <= x <= i64::MAX,
    ensures
        wrap(x) as int == x,
{
    let m = modulus();
    if x >= 0 {
        lemma_fundamental_div_mod_converse(x, m, 0, x);
    } else {
        lemma_fundamental_div_mod_converse(x, m, -1, x + m);
    }
}

/// Wrapping before an addition changes nothing.
pub proof fn lemma_wrap_add(a: int, b: int)
    ensures
        wrap(wrap(a) + wrap(b)) == wrap(a + b),
{
    let m = modulus();
    lemma_wrap_mod(a);
    lemma_wrap_mod(b);
    lemma_add_mod_noop(wrap(a) as int, wrap(b) as int, m);
    lemma_add_mod_noop(a, b, m);
    lemma_wrap_congruent(wrap(a) + wrap(b), a + b);
}

/// `i64::wrapping_add` is the wrapped exact sum.
pub proof fn lemma_wrapping_add(x: i64, y: i64)
    ensures
        x.wrapping_add(y) == wrap(x + y),
{
    let m = modulus();
    let s = x + y;
    if s > i64::MAX {
        lemma_fundamental_div_mod_converse(s, m, 0, s);
    } else if s < i64::MIN {
        lemma_fundamental_div_mod_converse(s, m, -1, s + m);
    } else {
        lemma_wrap_small(s);
    }
}

/// `i64::wrapping_mul` is the wrapped exact product.
pub proof fn lemma_wrapping_mul(x: i64, y: i64)
    ensures
        x.wrapping_mul(y) == wrap(x * y),
{
}

/// The wrapped sum of two wrapped sums.
pub proof fn lemma_wrapping_add_wraps(a: int, b: int)
    ensures
        wrap(a).wrapping_add(wrap(b)) == wrap(a + b),
{
    lemma_wrapping_add(wrap(a), wrap(b));
    lemma_wrap_add(a, b);
}

/// Wrapping one operand of an addition changes nothing.
pub proof fn lemma_wrap_add_right(a: int, b: int)
    ensures
        wrap(a + wrap(b)) == wrap(a + b),
{
    let m = modulus();
    lemma_wrap_mod(b);
    lemma_add_mod_noop(a, wrap(b) as int, m);
    lemma_add_mod_noop(a, b, m);
    lemma_wrap_congruent(a + wrap(b), a + b);
}

/// `i64::wrapping_mul` of two wrapped values is the wrapped exact product.
pub proof fn lemma_wrapping_mul_wraps(a: int, b: int)
    ensures
        wrap(a).wrapping_mul(wrap(b)) == wrap(a * b),
{
    let m = modulus();
    lemma_wrap_mod(a);
    lemma_wrap_mod(b);
    vstd::arithmetic::div_mod::lemma_mul_mod_noop_general(wrap(a) as int, wrap(b) as int, m);
    vstd::arithmetic::div_mod::lemma_mul_mod_noop_general(a, b, m);
    vstd::arithmetic::div_mod::lemma_mul_mod_noop_general(a % m, b % m, m);
    vstd::arithmetic::div_mod::lemma_mul_mod_noop_general(wrap(a) as int % m, wrap(b) as int % m, m);
    lemma_wrap_congruent(wrap(a) * wrap(b), a * b);
}

/// Product of a sequence of integers, taken exactly.
pub open spec fn seq_prod(s: Seq<i64>) -> int
    decreases s.len(),
{
    if s.len() == 0 {
        1
    } else {
        seq_prod(s.drop_last()) * s.last()
    }
}

/// Values that wrap alike still wrap alike after adding the same amount.
pub proof fn lemma_wrap_shift(a: int, b: int, x: int)
    requires
        wrap(a) == wrap(b),
    ensures
        wrap(a + x) == wrap(b + x),
{
    let m = modulus();
    lemma_wrap_mod(a);
    lemma_wrap_mod(b);
    lemma_add_mod_noop(a, x, m);
    lemma_add_mod_noop(b, x, m);
    lemma_wrap_congruent(a + x, b + x);
}

pub proof fn lemma_seq_sum_append(s: Seq<i64>, t: Seq<i64>)
    ensures
        seq_sum(s + t) == seq_sum(s) + seq_sum(t),
    decreases t.len(),
{
    if t.len() > 0 {
        assert((s + t).drop_last() =~= s + t.drop_last());
        lemma_seq_sum_append(s, t.drop_last());
    } else {
        assert(s + t =~= s);
    }
}

} // verus!
