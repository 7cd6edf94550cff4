//! Arithmetic on the binary shape of a leaf count.
//!
//! The folder's stack mirrors the binary representation of the number of
//! leaves pushed so far, so the proofs about it need the population count,
//! the number of trailing zero bits, and the next power of two.

use vstd::prelude::*;
use vstd::arithmetic::power2::*;
use vstd::arithmetic::div_mod::{
    lemma_fundamental_div_mod, lemma_fundamental_div_mod_converse, lemma_small_mod,
};

verus! {

/// Number of set bits in the binary representation of `n`.
pub open spec fn popcount(n: nat) -> nat
    decreases n,
{
    if n == 0 {
        0
    } else {
        popcount(n / 2) + n % 2
    }
}

/// Number of trailing zero bits of `n`; zero for odd `n` and, by
/// convention, for `n == 0`.
pub open spec fn tz(n: nat) -> nat
    decreases n,
{
    if n % 2 == 1 || n == 0 {
        0
    } else {
        tz(n / 2) + 1
    }
}

/// The smallest power of two that is at least `n`, and at least 1.
pub open spec fn next_pow2(n: nat) -> nat
    decreases n,
{
    if n <= 1 {
        1
    } else {
        2 * next_pow2((n + 1) / 2)
    }
}

/// The exponent of `next_pow2`: `next_pow2(n) == pow2(next_pow2_exp(n))`.
pub open spec fn next_pow2_exp(n: nat) -> nat
    decreases n,
{
    if n <= 1 {
        0
    } else {
        next_pow2_exp((n + 1) / 2) + 1
    }
}

/// A number has at most as many set bits as its value, and strictly
/// fewer from two up.
pub proof fn lemma_popcount_le(n: nat)
    ensures
        popcount(n) <= n,
        n >= 2 ==> popcount(n) < n,
    decreases n,
{
    if n > 0 {
        lemma_popcount_le(n / 2);
    }
}

/// A positive number has a set bit.
pub proof fn lemma_popcount_pos(n: nat)
    requires
        n > 0,
    ensures
        popcount(n) > 0,
    decreases n,
{
    if n % 2 == 0 {
        lemma_popcount_pos(n / 2);
    }
}

/// A power of two has exactly one set bit.
pub proof fn lemma_popcount_pow2(k: nat)
    ensures
        popcount(pow2(k)) == 1,
    decreases k,
{
    if k == 0 {
        lemma2_to64();
        assert(popcount(1) == popcount(0) + 1);
    } else {
        lemma_pow2_unfold(k);
        lemma_pow2_pos(k);
        lemma_pow2_pos((k - 1) as nat);
        lemma_popcount_pow2((k - 1) as nat);
        assert(pow2(k) == 2 * pow2((k - 1) as nat));
        assert(pow2(k) % 2 == 0 && pow2(k) / 2 == pow2((k - 1) as nat)) by (nonlinear_arith)
            requires pow2(k) == 2 * pow2((k - 1) as nat);
        assert(popcount(pow2(k)) == popcount(pow2(k) / 2) + pow2(k) % 2);
    }
}

/// Multiplying by `pow2(j)` adds `j` trailing zero bits.
pub proof fn lemma_tz_mul_pow2(b: nat, j: nat)
    requires
        b > 0,
    ensures
        tz(b * pow2(j)) == tz(b) + j,
    decreases j,
{
    if j == 0 {
        lemma2_to64();
        assert(b * pow2(0) == b) by (nonlinear_arith)
            requires pow2(0) == 1;
    } else {
        lemma_pow2_unfold(j);
        lemma_pow2_pos((j - 1) as nat);
        lemma_tz_mul_pow2(b, (j - 1) as nat);
        let m = b * pow2((j - 1) as nat);
        assert(b * pow2(j) == 2 * m) by (nonlinear_arith)
            requires pow2(j) == 2 * pow2((j - 1) as nat), m == b * pow2((j - 1) as nat);
        assert(m > 0) by (nonlinear_arith)
            requires b > 0, pow2((j - 1) as nat) > 0, m == b * pow2((j - 1) as nat);
        assert((2 * m) % 2 == 0 && (2 * m) / 2 == m) by (nonlinear_arith);
        assert(tz(2 * m) == tz(m) + 1);
    }
}

/// `next_pow2` is the power of two with exponent `next_pow2_exp`, and at
/// least `n`.
pub proof fn lemma_next_pow2_is_pow2(n: nat)
    ensures
        next_pow2(n) == pow2(next_pow2_exp(n)),
        next_pow2(n) >= n,
        next_pow2(n) >= 1,
    decreases n,
{
    if n <= 1 {
        lemma2_to64();
    } else {
        lemma_next_pow2_is_pow2((n + 1) / 2);
        lemma_pow2_unfold(next_pow2_exp((n + 1) / 2) + 1);
    }
}

/// Any power of two at least `n` is at least `next_pow2(n)`.
pub proof fn lemma_next_pow2_least(n: nat, j: nat)
    requires
        pow2(j) >= n,
    ensures
        pow2(j) >= next_pow2(n),
    decreases n,
{
    if n <= 1 {
        lemma_pow2_pos(j);
    } else {
        lemma_pow2_pos(j);
        if j == 0 {
            lemma2_to64();
            assert(false);
        } else {
            lemma_pow2_unfold(j);
            assert(pow2((j - 1) as nat) >= (n + 1) / 2) by (nonlinear_arith)
                requires pow2(j) == 2 * pow2((j - 1) as nat), pow2(j) >= n, n >= 2;
            lemma_next_pow2_least((n + 1) / 2, (j - 1) as nat);
        }
    }
}

/// A positive multiple of `pow2(d)` has at least `d` trailing zero bits,
/// and its remaining bits are those of the quotient.
pub proof fn lemma_tz_of_multiple(x: nat, d: nat)
    requires
        x > 0,
        x % pow2(d) == 0,
    ensures
        tz(x) == tz(x / pow2(d)) + d,
        x / pow2(d) > 0,
{
    lemma_pow2_pos(d);
    let q = x / pow2(d);
    lemma_fundamental_div_mod(x as int, pow2(d) as int);
    assert(x == pow2(d) * q);
    assert(q > 0) by (nonlinear_arith)
        requires
            x == pow2(d) * q,
            x > 0,
            q >= 0,
    ;
    assert(q * pow2(d) == x) by (nonlinear_arith)
        requires x == pow2(d) * q;
    lemma_tz_mul_pow2(q, d);
}

/// Splitting off bit `d`: the low `d + 1` bits of `m` are its low `d` bits
/// plus `pow2(d)` exactly when bit `d` is set.
pub proof fn lemma_mod_pow2_step(m: nat, d: nat)
    ensures
        (m / pow2(d)) % 2 == 1 ==> m % pow2(d + 1) == m % pow2(d) + pow2(d),
        (m / pow2(d)) % 2 == 0 ==> m % pow2(d + 1) == m % pow2(d),
{
    lemma_pow2_pos(d);
    lemma_pow2_unfold(d + 1);
    let p = pow2(d) as int;
    let q = m as int / p;
    let r = m as int % p;
    lemma_fundamental_div_mod(m as int, p);
    assert(m == p * q + r);
    let bit = q % 2;
    lemma_fundamental_div_mod(q, 2);
    assert(q == 2 * (q / 2) + bit);
    assert(m as int == (2 * p) * (q / 2) + (bit * p + r)) by (nonlinear_arith)
        requires
            m == p * q + r,
            q == 2 * (q / 2) + bit,
    ;
    assert(0 <= bit * p + r < 2 * p) by (nonlinear_arith)
        requires
            0 <= r < p,
            0 <= bit < 2,
            p > 0,
    ;
    lemma_fundamental_div_mod_converse(m as int, 2 * p, q / 2, bit * p + r);
    assert(m as int % (2 * p) == bit * p + r);
}

/// The largest power of two that is at most `n`; 1 for `n <= 1`.
pub open spec fn pow2_floor(n: nat) -> nat
    decreases n,
{
    if n <= 1 {
        1
    } else {
        2 * pow2_floor(n / 2)
    }
}

/// The exponent of `pow2_floor`.
pub open spec fn pow2_floor_exp(n: nat) -> nat
    decreases n,
{
    if n <= 1 {
        0
    } else {
        pow2_floor_exp(n / 2) + 1
    }
}

/// For positive `n`: `pow2_floor(n)` is the power of two with exponent
/// `pow2_floor_exp(n)`, and `n` lies in its half-open doubling window.
pub proof fn lemma_pow2_floor(n: nat)
    requires
        n >= 1,
    ensures
        pow2_floor(n) == pow2(pow2_floor_exp(n)),
        pow2_floor(n) <= n,
        n < 2 * pow2_floor(n),
    decreases n,
{
    if n <= 1 {
        lemma2_to64();
    } else {
        lemma_pow2_floor(n / 2);
        lemma_pow2_unfold(pow2_floor_exp(n / 2) + 1);
    }
}

/// A power of two exceeds its exponent.
pub proof fn lemma_pow2_gt_exp(k: nat)
    ensures
        pow2(k) > k,
    decreases k,
{
    if k == 0 {
        lemma2_to64();
    } else {
        lemma_pow2_gt_exp((k - 1) as nat);
        lemma_pow2_unfold(k);
    }
}

/// A number below `pow2(d)` is its own remainder.
pub proof fn lemma_mod_pow2_small(m: nat, d: nat)
    requires
        m < pow2(d),
    ensures
        m % pow2(d) == m,
{
    lemma_pow2_pos(d);
    lemma_small_mod(m, pow2(d));
}

} // verus!
