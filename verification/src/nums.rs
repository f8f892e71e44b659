//! Arithmetic spec functions shared by the prover's contracts — powers of
//! two, exact powers, base-two logarithms — and the few lemmas about them
//! that the layer-size bookkeeping needs.

use vstd::arithmetic::div_mod::{
    lemma_div_denominator, lemma_fundamental_div_mod, lemma_fundamental_div_mod_converse,
};
use vstd::prelude::*;

verus! {

/// Whether a natural number is a power of two.
pub open spec fn spec_is_pow2(n: nat) -> bool
    decreases n,
{
    if n == 0 {
        false
    } else if n == 1 {
        true
    } else {
        n % 2 == 0 && spec_is_pow2(n / 2)
    }
}

/// `b` raised to the power `e`.
pub open spec fn spec_pow(b: nat, e: nat) -> nat
    decreases e,
{
    if e == 0 {
        1
    } else {
        b * spec_pow(b, (e - 1) as nat)
    }
}

/// The base-two logarithm of `n`, rounded down.
pub open spec fn spec_log2(n: nat) -> nat
    decreases n,
{
    if n <= 1 {
        0
    } else {
        1 + spec_log2(n / 2)
    }
}

/// A power of a positive base is positive.
pub proof fn lemma_pow_pos(b: nat, e: nat)
    requires
        b >= 1,
    ensures
        spec_pow(b, e) >= 1,
    decreases e,
{
    if e > 0 {
        lemma_pow_pos(b, (e - 1) as nat);
        assert(b * spec_pow(b, (e - 1) as nat) >= 1) by (nonlinear_arith)
            requires
                b >= 1,
                spec_pow(b, (e - 1) as nat) >= 1,
        ;
    }
}

/// A positive power of a base is at least the base.
pub proof fn lemma_pow_lower(b: nat, e: nat)
    requires
        b >= 1,
        e >= 1,
    ensures
        spec_pow(b, e) >= b,
{
    lemma_pow_pos(b, (e - 1) as nat);
    assert(b * spec_pow(b, (e - 1) as nat) >= b) by (nonlinear_arith)
        requires
            b >= 1,
            spec_pow(b, (e - 1) as nat) >= 1,
    ;
}

/// Powers of two are monotonic in the exponent.
pub proof fn lemma_pow2_mono(a: nat, b: nat)
    requires
        a <= b,
    ensures
        spec_pow(2, a) <= spec_pow(2, b),
    decreases b,
{
    if a < b {
        lemma_pow2_mono(a, (b - 1) as nat);
    }
}

/// A power of two divides every larger power of two, and the quotient is
/// again a power of two.
pub proof fn lemma_pow2_div(n: nat, f: nat)
    requires
        spec_is_pow2(n),
        spec_is_pow2(f),
        f <= n,
    ensures
        n % f == 0,
        spec_is_pow2(n / f),
        (n / f) * f == n,
        1 <= n / f,
    decreases f,
{
    if f == 1 {
        assert(n / 1 == n && n % 1 == 0);
    } else {
        let a = n / 2;
        let b = f / 2;
        assert(n % 2 == 0 && f % 2 == 0);
        lemma_pow2_div(a, b);
        lemma_div_denominator(n as int, 2, b as int);
        assert(n / f == a / b) by {
            assert(2 * b == f);
            assert(n as int / (2 * b as int) == (n as int / 2) / (b as int));
        }
        assert((a / b) * f == n) by {
            assert((a / b) * b == a);
            assert((a / b) * (2 * b) == 2 * ((a / b) * b)) by (nonlinear_arith);
            assert(2 * a == n);
        }
        lemma_fundamental_div_mod_converse(n as int, f as int, (a / b) as int, 0);
    }
}

/// Computes the base-two logarithm of `n`.
pub fn log2_exec(n: usize) -> (r: u32)
    requires
        1 <= n,
        n <= 0x1_0000_0000,
    ensures
        r as nat == spec_log2(n as nat),
        r <= 32,
{
    let mut m: usize = n;
    let mut k: u32 = 0;
    proof {
        assert(spec_pow(2, 0) == 1);
        assert((m as nat) * 1 == m as nat) by (nonlinear_arith);
    }
    while m > 1
        invariant
            1 <= m <= n <= 0x1_0000_0000,
            spec_log2(n as nat) == k as nat + spec_log2(m as nat),
            (m as nat) * spec_pow(2, k as nat) <= n as nat,
            k <= 32,
        decreases m,
    {
        proof {
            assert(spec_pow(2, (k + 1) as nat) == 2 * spec_pow(2, k as nat));
            assert(2 * spec_pow(2, k as nat) <= (m as nat) * spec_pow(2, k as nat))
                by (nonlinear_arith)
                requires m >= 2, spec_pow(2, k as nat) >= 0;
            if k + 1 > 32 {
                lemma_pow2_mono(33, (k + 1) as nat);
                assert(spec_pow(2, 33) == 0x2_0000_0000) by {
                    reveal_with_fuel(spec_pow, 34);
                }
            }
            lemma_div_mod_range(m as int, 2);
            assert((m as nat / 2) * spec_pow(2, (k + 1) as nat) <= (m as nat) * spec_pow(
                2,
                k as nat,
            )) by (nonlinear_arith)
                requires
                    spec_pow(2, (k + 1) as nat) == 2 * spec_pow(2, k as nat),
                    (m as nat / 2) * 2 <= m as nat,
                    spec_pow(2, k as nat) >= 0,
            ;
        }
        m = m / 2;
        k = k + 1;
    }
    k
}

/// Every index splits uniquely over a row width: if `k == q * w + r` with
/// `r < w`, then `q` and `r` are the quotient and remainder of `k` by `w`.
pub proof fn lemma_div_mod_split(k: int, w: int, q: int, r: int)
    requires
        w >= 1,
        0 <= r < w,
        0 <= q,
        k == q * w + r,
    ensures
        k / w == q,
        k % w == r,
{
    lemma_fundamental_div_mod_converse(k, w, q, r);
}

/// The quotient and remainder of an index by a positive width stay in range.
pub proof fn lemma_div_mod_range(k: int, w: int)
    requires
        w >= 1,
        0 <= k,
    ensures
        0 <= k % w < w,
        0 <= k / w,
        (k / w) * w + k % w == k,
        w * (k / w) + k % w == k,
{
    lemma_fundamental_div_mod(k, w);
    assert((k / w) * w == w * (k / w)) by (nonlinear_arith);
}

} // verus!
