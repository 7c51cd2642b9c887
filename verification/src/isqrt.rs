//! Integer square roots: the mathematical definitions and the facts about
//! Newton's iteration `x -> (x + n / x) / 2` that the fixed-point square
//! roots rely on.

use vstd::arithmetic::power2::{lemma2_to64, lemma_pow2_adds, lemma_pow2_pos, pow2};
use vstd::prelude::*;

verus! {

/// Number of significant bits of `n` (0 for 0).
pub open spec fn bit_length(n: nat) -> nat
    decreases n,
{
    if n == 0 {
        0
    } else {
        1 + bit_length(n / 2)
    }
}

/// Floor of the square root of `n`.
pub open spec fn isqrt(n: nat) -> nat
    decreases n,
{
    if n == 0 {
        0
    } else {
        let r = isqrt((n - 1) as nat);
        if (r + 1) * (r + 1) <= n {
            r + 1
        } else {
            r
        }
    }
}

/// One Newton step for the square root of `n` from `x`.
pub open spec fn newton_step(n: nat, x: nat) -> nat {
    if x == 0 {
        0
    } else {
        (x + n / x) / 2
    }
}

/// Newton's iteration from `x`, stopped as soon as a step no longer
/// decreases the estimate.
pub open spec fn newton_descent(n: nat, x: nat) -> nat
    decreases x,
{
    if x == 0 {
        0
    } else if newton_step(n, x) >= x {
        x
    } else {
        newton_descent(n, newton_step(n, x))
    }
}

/// `k` Newton steps from `x`.
pub open spec fn newton_steps(n: nat, x: nat, k: nat) -> nat
    decreases k,
{
    if k == 0 {
        x
    } else {
        newton_steps(n, newton_step(n, x), (k - 1) as nat)
    }
}

/// `isqrt` is the floor of the square root.
pub proof fn lemma_isqrt(n: nat)
    ensures
        isqrt(n) * isqrt(n) <= n,
        n < (isqrt(n) + 1) * (isqrt(n) + 1),
    decreases n,
{
    if n == 0 {
        assert(isqrt(0) == 0);
        let s1 = isqrt(n) + 1;
        assert(s1 == 1);
        assert(s1 * s1 == 1) by (nonlinear_arith)
            requires
                s1 == 1,
        ;
    } else {
        lemma_isqrt((n - 1) as nat);
        let r = isqrt((n - 1) as nat);
        let sq1 = (r + 1) * (r + 1);
        let sq2 = (r + 2) * (r + 2);
        assert(sq2 == sq1 + 2 * r + 3) by (nonlinear_arith)
            requires
                sq1 == (r + 1) * (r + 1),
                sq2 == (r + 2) * (r + 2),
        ;
        if sq1 <= n {
            assert(isqrt(n) == r + 1);
            let s1 = isqrt(n) + 1;
            assert(s1 * s1 == sq2);
            assert(n < sq2);
            assert(n < s1 * s1);
        } else {
            assert(isqrt(n) == r);
            let s1 = isqrt(n) + 1;
            assert(s1 * s1 == sq1);
            assert(n < s1 * s1);
        }
    }
}

/// A number whose square brackets `n` is `isqrt(n)`.
pub proof fn lemma_isqrt_unique(n: nat, r: nat)
    requires
        r * r <= n,
        n < (r + 1) * (r + 1),
    ensures
        isqrt(n) == r,
{
    lemma_isqrt(n);
    let s = isqrt(n);
    if s < r {
        assert((s + 1) * (s + 1) <= r * r) by (nonlinear_arith)
            requires
                s + 1 <= r,
        ;
    } else if s > r {
        assert((r + 1) * (r + 1) <= s * s) by (nonlinear_arith)
            requires
                r + 1 <= s,
        ;
    }
}

/// After one Newton step from any positive estimate the estimate plus one
/// squares above `n` (arithmetic-geometric mean).
pub proof fn lemma_newton_step_above(n: nat, x: nat)
    requires
        x >= 1,
    ensures
        n < (newton_step(n, x) + 1) * (newton_step(n, x) + 1),
{
    let q = n / x;
    let x1 = newton_step(n, x);
    assert(x1 == (x + q) / 2);
    assert(n < x * (q + 1)) by (nonlinear_arith)
        requires
            x >= 1,
            q == n / x,
    {
        vstd::arithmetic::div_mod::lemma_fundamental_div_mod(n as int, x as int);
    }
    assert(2 * (x1 + 1) >= x + q + 1);
    assert((x + q + 1) * (x + q + 1) >= 4 * x * (q + 1)) by (nonlinear_arith);
    assert(4 * (x1 + 1) * (x1 + 1) >= (x + q + 1) * (x + q + 1)) by (nonlinear_arith)
        requires
            2 * (x1 + 1) >= x + q + 1,
            x + q + 1 >= 0,
    ;
    assert(n < (x1 + 1) * (x1 + 1)) by (nonlinear_arith)
        requires
            n < x * (q + 1),
            4 * (x1 + 1) * (x1 + 1) >= (x + q + 1) * (x + q + 1),
            (x + q + 1) * (x + q + 1) >= 4 * x * (q + 1),
    ;
}

/// Below `(x + 1)^2` the quotient `n / x` is at most `x + 2`.
pub proof fn lemma_quotient_bound(n: nat, x: nat)
    requires
        x >= 1,
        n < (x + 1) * (x + 1),
    ensures
        n / x <= x + 2,
{
    assert(n <= x * (x + 2)) by (nonlinear_arith)
        requires
            n < (x + 1) * (x + 1),
    ;
    let m = (x + 2) * x;
    assert(m == x * (x + 2)) by (nonlinear_arith)
        requires
            m == (x + 2) * x,
    ;
    assert(n / x <= m / x) by {
        vstd::arithmetic::div_mod::lemma_div_is_ordered(n as int, m as int, x as int);
    }
    assert(m / x == x + 2) by {
        vstd::arithmetic::div_mod::lemma_div_by_multiple((x + 2) as int, x as int);
    }
}

/// When a Newton step does not decrease the estimate, the estimate squares
/// to at most `n`.
pub proof fn lemma_newton_stop(n: nat, x: nat)
    requires
        x >= 1,
        newton_step(n, x) >= x,
    ensures
        x * x <= n,
{
    let q = n / x;
    assert(q >= x);
    assert(x * q <= n) by (nonlinear_arith)
        requires
            x >= 1,
            q == n / x,
    {
        vstd::arithmetic::div_mod::lemma_fundamental_div_mod(n as int, x as int);
    }
    assert(x * x <= x * q) by (nonlinear_arith)
        requires
            q >= x,
    ;
}

/// From a positive estimate, Newton steps on a positive `n` stay positive.
pub proof fn lemma_newton_step_positive(n: nat, x: nat)
    requires
        x >= 1,
        n >= 1,
    ensures
        newton_step(n, x) >= 1,
{
    if x == 1 {
        assert(n / 1 == n);
    }
}

/// Newton's descent from an estimate at or above the square root ends at the
/// floor of the square root.
pub proof fn lemma_newton_descent_isqrt(n: nat, x: nat)
    requires
        x >= 1,
        n >= 1,
        n < (x + 1) * (x + 1),
    ensures
        newton_descent(n, x) == isqrt(n),
    decreases x,
{
    if newton_step(n, x) >= x {
        lemma_newton_stop(n, x);
        lemma_isqrt_unique(n, x);
    } else {
        lemma_newton_step_positive(n, x);
        lemma_newton_step_above(n, x);
        lemma_newton_descent_isqrt(n, newton_step(n, x));
    }
}

/// `n` lies between the powers of two around its bit length.
pub proof fn lemma_bit_length_bounds(n: nat)
    requires
        n >= 1,
    ensures
        bit_length(n) >= 1,
        pow2((bit_length(n) - 1) as nat) <= n,
        n < pow2(bit_length(n)),
    decreases n,
{
    lemma2_to64();
    if n == 1 {
        assert(bit_length(0) == 0);
    } else {
        lemma_bit_length_bounds(n / 2);
        let b = bit_length(n / 2);
        lemma_pow2_adds((b - 1) as nat, 1);
        lemma_pow2_adds(b, 1);
    }
}

/// The bit length is determined by the powers of two around `n`.
pub proof fn lemma_bit_length_unique(n: nat, b: nat)
    requires
        b >= 1,
        pow2((b - 1) as nat) <= n,
        n < pow2(b),
    ensures
        bit_length(n) == b,
    decreases b,
{
    lemma2_to64();
    if b == 1 {
        assert(n == 1);
        assert(bit_length(0) == 0);
    } else {
        lemma_pow2_adds((b - 2) as nat, 1);
        lemma_pow2_adds((b - 1) as nat, 1);
        lemma_bit_length_unique(n / 2, (b - 1) as nat);
    }
}

/// `u64::leading_zeros` counts the bits above the bit length.
pub proof fn lemma_u64_leading_zeros(n: u64)
    ensures
        vstd::std_specs::bits::u64_leading_zeros(n) == 64 - bit_length(n as nat),
    decreases n,
{
    reveal(vstd::std_specs::bits::u64_leading_zeros);
    if n != 0 {
        lemma_u64_leading_zeros(n / 2);
    }
}

/// The bit length of a 64-bit number is at most 64.
pub proof fn lemma_bit_length_u64(n: u64)
    ensures
        bit_length(n as nat) <= 64,
{
    if n >= 1 {
        lemma_bit_length_bounds(n as nat);
        lemma2_to64();
        vstd::arithmetic::power2::lemma2_to64_rest();
        if bit_length(n as nat) > 64 {
            if bit_length(n as nat) > 65 {
                vstd::arithmetic::power2::lemma_pow2_strictly_increases(
                    64,
                    (bit_length(n as nat) - 1) as nat,
                );
            }
        }
    }
}

/// Squaring a power of two doubles its exponent.
pub proof fn lemma_pow2_square(e: nat)
    ensures
        pow2(e) * pow2(e) == pow2(2 * e),
{
    lemma_pow2_adds(e, e);
}

} // verus!
