//! Power-of-two arithmetic used by the CIDR block algebra.
//!
//! A CIDR block is an aligned range of `2^s` addresses, so every fact about
//! blocks reduces to facts about multiples of powers of two.  This module
//! states those facts once, over mathematical integers, and the rest of the
//! crate reasons with them.

use vstd::prelude::*;
use vstd::arithmetic::div_mod::{
    lemma_fundamental_div_mod, lemma_fundamental_div_mod_converse, lemma_mod_multiples_basic,
};
use vstd::arithmetic::div_mod::lemma_div_by_multiple;
use vstd::arithmetic::power2::{
    lemma2_to64, lemma_pow2_adds, lemma_pow2_pos, lemma_pow2_strictly_increases, pow2,
};

verus! {

/// `2^s` as a mathematical integer.
pub open spec fn p2(s: nat) -> int {
    pow2(s) as int
}

/// `x` rounded down to the nearest multiple of `2^s`.
pub open spec fn align_down(x: int, s: nat) -> int {
    (x / p2(s)) * p2(s)
}

pub proof fn lemma_p2_pos(s: nat)
    ensures
        p2(s) >= 1,
{
    lemma_pow2_pos(s);
}

pub proof fn lemma_p2_unfold(s: nat)
    requires
        s >= 1,
    ensures
        p2(s) == 2 * p2((s - 1) as nat),
{
    lemma_pow2_adds((s - 1) as nat, 1);
    lemma2_to64();
}

pub proof fn lemma_p2_increases(s1: nat, s2: nat)
    requires
        s1 <= s2,
    ensures
        p2(s1) <= p2(s2),
{
    if s1 < s2 {
        lemma_pow2_strictly_increases(s1, s2);
    }
}

pub proof fn lemma_p2_adds(s1: nat, s2: nat)
    ensures
        p2((s1 + s2) as nat) == p2(s1) * p2(s2),
{
    lemma_pow2_adds(s1, s2);
}

/// Small powers of two, enough for every exponent a CIDR block can use.
pub proof fn lemma_p2_values()
    ensures
        p2(0) == 1,
        p2(1) == 2,
        p2(8) == 0x100,
        p2(16) == 0x10000,
        p2(24) == 0x1000000,
        p2(31) == 0x80000000,
        p2(32) == 0x100000000,
{
    lemma2_to64();
}

/// A smaller power of two divides a larger one.
pub proof fn lemma_p2_divides(s1: nat, s2: nat)
    requires
        s1 <= s2,
    ensures
        p2(s2) % p2(s1) == 0,
{
    lemma_pow2_adds((s2 - s1) as nat, s1);
    lemma_p2_pos(s1);
    lemma_mod_multiples_basic(p2((s2 - s1) as nat), p2(s1));
}

/// A multiple of `2^s2` is also a multiple of `2^s1` for `s1 <= s2`.
pub proof fn lemma_aligned_coarse_to_fine(x: int, s1: nat, s2: nat)
    requires
        s1 <= s2,
        x % p2(s2) == 0,
    ensures
        x % p2(s1) == 0,
{
    lemma_p2_pos(s1);
    lemma_p2_pos(s2);
    lemma_pow2_adds((s2 - s1) as nat, s1);
    lemma_fundamental_div_mod(x, p2(s2));
    let q = x / p2(s2);
    assert(x == p2(s2) * q);
    assert(p2(s2) == p2((s2 - s1) as nat) * p2(s1));
    assert(x == (q * p2((s2 - s1) as nat)) * p2(s1)) by (nonlinear_arith)
        requires
            x == p2(s2) * q,
            p2(s2) == p2((s2 - s1) as nat) * p2(s1),
    ;
    lemma_mod_multiples_basic(q * p2((s2 - s1) as nat), p2(s1));
}

/// Between two distinct multiples of `m` there is room for a whole step of `m`.
pub proof fn lemma_multiple_step(a: int, b: int, m: int)
    requires
        m > 0,
        a % m == 0,
        b % m == 0,
        a < b,
    ensures
        a + m <= b,
{
    let d = b - a;
    lemma_fundamental_div_mod(a, m);
    lemma_fundamental_div_mod(b, m);
    let qa = a / m;
    let qb = b / m;
    assert(a == m * qa);
    assert(b == m * qb);
    assert(d == m * (qb - qa)) by (nonlinear_arith)
        requires
            a == m * qa,
            b == m * qb,
            d == b - a,
    ;
    assert(qb - qa >= 1) by (nonlinear_arith)
        requires
            d == m * (qb - qa),
            d > 0,
            m > 0,
    ;
    assert(m * (qb - qa) >= m * 1) by (nonlinear_arith)
        requires
            qb - qa >= 1,
            m > 0,
    ;
}

/// Rounding down to a multiple of `2^s` lands at or below `x`, less than one
/// block away, on an aligned value.
pub proof fn lemma_align_down_props(x: int, s: nat)
    requires
        x >= 0,
    ensures
        align_down(x, s) % p2(s) == 0,
        align_down(x, s) <= x < align_down(x, s) + p2(s),
        align_down(x, s) >= 0,
{
    lemma_p2_pos(s);
    lemma_fundamental_div_mod(x, p2(s));
    lemma_mod_multiples_basic(x / p2(s), p2(s));
    assert((x / p2(s)) * p2(s) == p2(s) * (x / p2(s))) by (nonlinear_arith);
    assert(x / p2(s) >= 0 ==> (x / p2(s)) * p2(s) >= 0) by (nonlinear_arith)
        requires
            p2(s) >= 1,
    ;
    assert(x / p2(s) >= 0) by {
        vstd::arithmetic::div_mod::lemma_div_pos_is_pos(x, p2(s));
    }
}

/// Rounding down twice, at a finer and then a coarser grain, is the same as
/// rounding down at the coarser grain at once.
pub proof fn lemma_align_down_compose(x: int, s: nat, t: nat)
    requires
        x >= 0,
        s <= t,
    ensures
        align_down(align_down(x, s), t) == align_down(x, t),
{
    lemma_p2_pos(s);
    lemma_p2_pos(t);
    lemma_p2_pos((t - s) as nat);
    lemma_pow2_adds(s, (t - s) as nat);
    let q = x / p2(s);
    let a = q * p2(s);
    // x / 2^t factors through 2^s.
    vstd::arithmetic::div_mod::lemma_div_denominator(x, p2(s), p2((t - s) as nat));
    // a / 2^t does too, and the inner division is exact.
    vstd::arithmetic::div_mod::lemma_div_denominator(a, p2(s), p2((t - s) as nat));
    assert(a / p2(s) == q) by {
        lemma_div_by_multiple(q, p2(s));
    }
    assert(x / p2(t) == q / p2((t - s) as nat));
    assert(a / p2(t) == q / p2((t - s) as nat));
}

/// The aligned block of `2^s` values that holds `x` is unique.
pub proof fn lemma_align_down_unique(x: int, s: nat, a: int)
    requires
        a % p2(s) == 0,
        a <= x < a + p2(s),
    ensures
        align_down(x, s) == a,
{
    lemma_p2_pos(s);
    lemma_fundamental_div_mod(a, p2(s));
    let q = a / p2(s);
    assert(a == p2(s) * q);
    lemma_fundamental_div_mod_converse(x, p2(s), q, x - a);
    assert(q * p2(s) == p2(s) * q) by (nonlinear_arith);
}

/// Aligned values are fixed points of `align_down`.
pub proof fn lemma_align_down_exact(x: int, s: nat)
    requires
        x % p2(s) == 0,
    ensures
        align_down(x, s) == x,
{
    lemma_p2_pos(s);
    lemma_fundamental_div_mod(x, p2(s));
    assert(p2(s) * (x / p2(s)) == (x / p2(s)) * p2(s)) by (nonlinear_arith);
}

} // verus!
