//! Fixed-point LPC analysis and synthesis in Q16.16 arithmetic.

use vstd::arithmetic::power2::{lemma2_to64, lemma2_to64_rest, lemma_pow2_adds, pow2};
use vstd::prelude::*;

use crate::codec::lpc::LpcCoefficientsFixed;
use crate::isqrt::{
    bit_length, isqrt, lemma_bit_length_bounds, lemma_bit_length_u64, lemma_isqrt,
    lemma_newton_step_above, lemma_newton_step_positive, lemma_pow2_square, lemma_quotient_bound,
    lemma_u64_leading_zeros, newton_step, newton_steps,
};
use crate::types::{q16_product, trunc_div, VoiceResult};

verus! {

// =============================================================================
// All-pole synthesis filter
// =============================================================================

/// Number of feedback taps that output sample `i` uses with `order`
/// coefficients.
pub open spec fn filter_taps(order: int, i: int) -> int {
    if order < i {
        order
    } else {
        i
    }
}

/// Output sample `i` of the all-pole filter after its first `m` feedback taps,
/// given the earlier outputs `y`: `gain * x[i]` plus `coeffs[j] * y[i - 1 - j]`
/// for `j < m`, each product in Q16.16.
pub open spec fn filter_acc(
    coeffs: Seq<i32>,
    gain: i32,
    x: Seq<i32>,
    y: Seq<i32>,
    i: int,
    m: int,
) -> int
    decreases m,
{
    if m <= 0 {
        q16_product(gain as int, x[i] as int) as int
    } else {
        filter_acc(coeffs, gain, x, y, i, m - 1) + q16_product(
            coeffs[m - 1] as int,
            y[i - m] as int,
        ) as int
    }
}

/// The first `n` outputs of the all-pole filter
/// `y[i] = gain * x[i] + sum_{j < min(order, i)} coeffs[j] * y[i - 1 - j]`.
pub open spec fn filter_output(coeffs: Seq<i32>, gain: i32, x: Seq<i32>, n: nat) -> Seq<i32>
    decreases n,
{
    if n == 0 {
        Seq::empty()
    } else {
        let y = filter_output(coeffs, gain, x, (n - 1) as nat);
        y.push(
            filter_acc(
                coeffs,
                gain,
                x,
                y,
                n - 1,
                filter_taps(coeffs.len() as int, n - 1),
            ) as i32,
        )
    }
}

/// Every partial sum of the first `n` filter outputs fits in 32 bits.
pub open spec fn filter_in_range(coeffs: Seq<i32>, gain: i32, x: Seq<i32>, n: nat) -> bool {
    forall|i: int, m: int|
        0 <= i < n && 0 <= m <= filter_taps(coeffs.len() as int, i) ==> i32::MIN
            <= #[trigger] filter_acc(coeffs, gain, x, filter_output(coeffs, gain, x, i as nat), i, m)
            <= i32::MAX
}

pub proof fn lemma_filter_output_len(coeffs: Seq<i32>, gain: i32, x: Seq<i32>, n: nat)
    ensures
        filter_output(coeffs, gain, x, n).len() == n,
    decreases n,
{
    if n > 0 {
        lemma_filter_output_len(coeffs, gain, x, (n - 1) as nat);
    }
}

/// The filter is causal: the first `m` outputs of a longer run are the
/// outputs of the shorter run. (A synthesis into a shorter buffer yields a
/// prefix of the full synthesis.)
pub proof fn law_filter_causal(coeffs: Seq<i32>, gain: i32, x: Seq<i32>, m: nat, n: nat)
    requires
        m <= n,
    ensures
        filter_output(coeffs, gain, x, n).subrange(0, m as int) == filter_output(
            coeffs,
            gain,
            x,
            m,
        ),
    decreases n,
{
    lemma_filter_output_len(coeffs, gain, x, n);
    lemma_filter_output_len(coeffs, gain, x, m);
    if m < n {
        law_filter_causal(coeffs, gain, x, m, (n - 1) as nat);
        lemma_filter_output_len(coeffs, gain, x, (n - 1) as nat);
        let prev = filter_output(coeffs, gain, x, (n - 1) as nat);
        assert(filter_output(coeffs, gain, x, n).subrange(0, m as int) =~= prev.subrange(
            0,
            m as int,
        ));
    } else {
        assert(filter_output(coeffs, gain, x, n).subrange(0, m as int) =~= filter_output(
            coeffs,
            gain,
            x,
            n,
        ));
    }
}

proof fn lemma_filter_acc_zero(coeffs: Seq<i32>, x: Seq<i32>, y: Seq<i32>, i: int, m: int)
    requires
        0 <= m <= coeffs.len(),
        m <= i,
        i <= y.len(),
        forall|j: int| 0 <= j < y.len() ==> y[j] == 0,
    ensures
        filter_acc(coeffs, 0, x, y, i, m) == 0,
    decreases m,
{
    if m > 0 {
        lemma_filter_acc_zero(coeffs, x, y, i, m - 1);
        assert(coeffs[m - 1] * 0 == 0);
    }
}

/// With zero gain the filter stays silent whatever its coefficients and
/// excitation, and it never overflows.
pub proof fn law_filter_zero_gain(coeffs: Seq<i32>, x: Seq<i32>, n: nat)
    ensures
        filter_output(coeffs, 0, x, n) == Seq::new(n, |i: int| 0i32),
        filter_in_range(coeffs, 0, x, n),
    decreases n,
{
    if n > 0 {
        law_filter_zero_gain(coeffs, x, (n - 1) as nat);
        let y = filter_output(coeffs, 0, x, (n - 1) as nat);
        lemma_filter_acc_zero(
            coeffs,
            x,
            y,
            n - 1,
            filter_taps(coeffs.len() as int, n - 1),
        );
        assert(filter_output(coeffs, 0, x, n) =~= Seq::new(n, |i: int| 0i32));
        assert forall|i: int, m: int|
            0 <= i < n && 0 <= m <= filter_taps(coeffs.len() as int, i) implies i32::MIN
            <= #[trigger] filter_acc(coeffs, 0, x, filter_output(coeffs, 0, x, i as nat), i, m)
            <= i32::MAX by {
            if i < n - 1 {
            } else {
                lemma_filter_acc_zero(coeffs, x, y, i, m);
            }
        }
    } else {
        assert(filter_output(coeffs, 0, x, 0) =~= Seq::new(0, |i: int| 0i32));
    }
}

/// Without coefficients the filter only scales: each output is the Q16.16
/// product of the gain and the excitation sample.
pub proof fn law_filter_no_coefficients(coeffs: Seq<i32>, gain: i32, x: Seq<i32>, n: nat, i: int)
    requires
        coeffs.len() == 0,
        0 <= i < n,
    ensures
        filter_output(coeffs, gain, x, n)[i] == q16_product(gain as int, x[i] as int),
    decreases n,
{
    law_filter_causal(coeffs, gain, x, (i + 1) as nat, n);
    lemma_filter_output_len(coeffs, gain, x, n);
    lemma_filter_output_len(coeffs, gain, x, i as nat);
    assert(filter_output(coeffs, gain, x, n)[i] == filter_output(coeffs, gain, x, n).subrange(
        0,
        i + 1,
    )[i]);
}

/// Sum of the first `m` feedback terms of output sample `i`: tap `j`
/// multiplies coefficient `j` by the output `j + 1` samples back.
pub open spec fn feedback_sum(coeffs: Seq<i32>, y: Seq<i32>, i: int, m: int) -> int
    decreases m,
{
    if m <= 0 {
        0
    } else {
        let j = m - 1;
        feedback_sum(coeffs, y, i, j) + q16_product(coeffs[j] as int, y[i - 1 - j] as int) as int
    }
}

proof fn lemma_filter_acc_feedback(
    coeffs: Seq<i32>,
    gain: i32,
    x: Seq<i32>,
    y: Seq<i32>,
    i: int,
    m: int,
)
    requires
        m >= 0,
    ensures
        filter_acc(coeffs, gain, x, y, i, m) == q16_product(gain as int, x[i] as int) as int
            + feedback_sum(coeffs, y, i, m),
    decreases m,
{
    if m > 0 {
        lemma_filter_acc_feedback(coeffs, gain, x, y, i, m - 1);
    }
}

/// Every output of the all-pole filter is the Q16.16 gain times its
/// excitation sample plus, for each tap `j` below `min(order, i)`, the
/// Q16.16 product of coefficient `j` and the output `j + 1` samples back,
/// kept to 32 bits.
pub proof fn law_filter_recurrence(coeffs: Seq<i32>, gain: i32, x: Seq<i32>, n: nat, i: int)
    requires
        0 <= i < n,
    ensures
        filter_output(coeffs, gain, x, n)[i] == (q16_product(gain as int, x[i] as int) as int
            + feedback_sum(
            coeffs,
            filter_output(coeffs, gain, x, n),
            i,
            if coeffs.len() < i {
                coeffs.len() as int
            } else {
                i
            },
        )) as i32,
{
    let y = filter_output(coeffs, gain, x, n);
    let yp = filter_output(coeffs, gain, x, i as nat);
    law_filter_causal(coeffs, gain, x, (i + 1) as nat, n);
    law_filter_causal(coeffs, gain, x, i as nat, n);
    lemma_filter_output_len(coeffs, gain, x, n);
    lemma_filter_output_len(coeffs, gain, x, i as nat);
    lemma_filter_output_len(coeffs, gain, x, (i + 1) as nat);
    let taps = filter_taps(coeffs.len() as int, i);
    assert(y[i] == y.subrange(0, i + 1)[i]);
    lemma_filter_acc_feedback(coeffs, gain, x, yp, i, taps);
    lemma_feedback_prefix(coeffs, y, yp, i, taps);
}

proof fn lemma_feedback_prefix(coeffs: Seq<i32>, y: Seq<i32>, yp: Seq<i32>, i: int, m: int)
    requires
        0 <= m <= i,
        yp.len() == i,
        i <= y.len(),
        yp == y.subrange(0, i),
    ensures
        feedback_sum(coeffs, y, i, m) == feedback_sum(coeffs, yp, i, m),
    decreases m,
{
    if m > 0 {
        lemma_feedback_prefix(coeffs, y, yp, i, m - 1);
        assert(yp[i - 1 - (m - 1)] == y[i - 1 - (m - 1)]);
    }
}

/// The first three outputs of a filter with at least two coefficients,
/// written out: `y0 = g x0`, `y1 = g x1 + c0 y0`, `y2 = g x2 + c0 y1 + c1 y0`,
/// each product in Q16.16 and each sum kept to 32 bits.
pub proof fn law_filter_first_outputs(coeffs: Seq<i32>, gain: i32, x: Seq<i32>, n: nat)
    requires
        coeffs.len() >= 2,
        n >= 3,
    ensures
        filter_output(coeffs, gain, x, n)[0] == q16_product(gain as int, x[0] as int),
        filter_output(coeffs, gain, x, n)[1] == (q16_product(gain as int, x[1] as int) as int
            + q16_product(coeffs[0] as int, filter_output(coeffs, gain, x, n)[0] as int) as int) as i32,
        filter_output(coeffs, gain, x, n)[2] == (q16_product(gain as int, x[2] as int) as int
            + q16_product(coeffs[0] as int, filter_output(coeffs, gain, x, n)[1] as int) as int
            + q16_product(coeffs[1] as int, filter_output(coeffs, gain, x, n)[0] as int) as int) as i32,
{
    let y = filter_output(coeffs, gain, x, n);
    law_filter_recurrence(coeffs, gain, x, n, 0);
    law_filter_recurrence(coeffs, gain, x, n, 1);
    law_filter_recurrence(coeffs, gain, x, n, 2);
    assert(filter_taps(coeffs.len() as int, 1) == 1);
    assert(filter_taps(coeffs.len() as int, 2) == 2);
    assert(feedback_sum(coeffs, y, 1, 1) == q16_product(coeffs[0] as int, y[0] as int) as int) by {
        reveal_with_fuel(feedback_sum, 2);
    }
    assert(feedback_sum(coeffs, y, 2, 2) == q16_product(coeffs[0] as int, y[1] as int) as int
        + q16_product(coeffs[1] as int, y[0] as int) as int) by {
        reveal_with_fuel(feedback_sum, 3);
    }
    assert((q16_product(gain as int, x[0] as int) as int) as i32 == q16_product(
        gain as int,
        x[0] as int,
    ));
}

// =============================================================================
// Autocorrelation
// =============================================================================

/// Sum of the first `k` lagged products `s[lag + i] * s[i]`.
pub open spec fn lag_sum(s: Seq<i32>, lag: int, k: int) -> int
    decreases k,
{
    if k <= 0 {
        0
    } else {
        lag_sum(s, lag, k - 1) + s[lag + k - 1] * s[k - 1]
    }
}

/// Autocorrelation of `s` at `lag`: the sum of `s[lag + i] * s[i]` over all
/// `i` with `lag + i < s.len()`.
pub open spec fn autocorrelation(s: Seq<i32>, lag: int) -> int {
    lag_sum(s, lag, s.len() - lag)
}

/// Every running sum of every lag up to `order` fits in 64 bits.
pub open spec fn autocorrelation_in_range(s: Seq<i32>, order: int) -> bool {
    forall|lag: int, k: int|
        0 <= lag <= order && 0 <= k <= s.len() - lag ==> i64::MIN <= #[trigger] lag_sum(s, lag, k)
            <= i64::MAX
}

/// Compute the autocorrelation in fixed-point for lags `0..=order`.
pub fn autocorrelation_fixed(samples: &[i32], order: usize) -> (r: Vec<i64>)
    requires
        order <= samples@.len(),
        order < usize::MAX,
        autocorrelation_in_range(samples@, order as int),
    ensures
        r@.len() == order + 1,
        forall|lag: int| 0 <= lag <= order ==> r@[lag] == autocorrelation(samples@, lag),
{
    let n: usize = samples.len();
    let mut r: Vec<i64> = vec![0i64; order + 1];
    let mut lag: usize = 0;
    while lag <= order
        invariant
            n == samples@.len(),
            order <= n,
            order < usize::MAX,
            lag <= order + 1,
            r@.len() == order + 1,
            autocorrelation_in_range(samples@, order as int),
            forall|l: int| 0 <= l < lag ==> r@[l] == autocorrelation(samples@, l),
        decreases order + 1 - lag,
    {
        let len = n - lag;
        let mut sum: i64 = 0;
        let mut i: usize = 0;
        while i < len
            invariant
                n == samples@.len(),
                lag <= order <= n,
                len == n - lag,
                i <= len,
                autocorrelation_in_range(samples@, order as int),
                sum == lag_sum(samples@, lag as int, i as int),
            decreases len - i,
        {
            proof {
                crate::types::lemma_i32_product_bounds(samples[lag + i], samples[i as int]);
                let ll: int = lag as int;
                let kk: int = i as int + 1;
                assert(i64::MIN <= lag_sum(samples@, ll, kk) <= i64::MAX);
            }
            sum = sum + (samples[lag + i] as i64) * (samples[i] as i64);
            i = i + 1;
        }
        r.set(lag, sum);
        lag = lag + 1;
    }
    r
}

/// Lag zero of the autocorrelation is the energy, a sum of squares, which is
/// never negative.
pub proof fn law_autocorrelation_energy(s: Seq<i32>, k: int)
    ensures
        lag_sum(s, 0, k) >= 0,
    decreases k,
{
    if k > 0 {
        law_autocorrelation_energy(s, k - 1);
        let v = s[k - 1];
        assert(v * v >= 0) by (nonlinear_arith);
    }
}

/// Sum of the squares `s[a + i]^2` for `i < k`.
spec fn squares_from(s: Seq<i32>, a: int, k: int) -> int
    decreases k,
{
    if k <= 0 {
        0
    } else {
        squares_from(s, a, k - 1) + s[a + k - 1] * s[a + k - 1]
    }
}

proof fn lemma_lag_sum_bounded(s: Seq<i32>, lag: int, k: int)
    ensures
        -(lag_sum(s, 0, k) + squares_from(s, lag, k)) <= 2 * lag_sum(s, lag, k) <= lag_sum(
            s,
            0,
            k,
        ) + squares_from(s, lag, k),
    decreases k,
{
    if k > 0 {
        lemma_lag_sum_bounded(s, lag, k - 1);
        let a = s[lag + k - 1] as int;
        let b = s[k - 1] as int;
        assert(-(b * b + a * a) <= 2 * (a * b) <= b * b + a * a) by (nonlinear_arith);
    }
}

proof fn lemma_energy_split(s: Seq<i32>, a: int, k: int)
    requires
        a >= 0,
        k >= 0,
    ensures
        lag_sum(s, 0, a + k) == lag_sum(s, 0, a) + squares_from(s, a, k),
    decreases k,
{
    if k > 0 {
        lemma_energy_split(s, a, k - 1);
    }
}

proof fn lemma_energy_nonneg_tail(s: Seq<i32>, a: int, k: int)
    ensures
        squares_from(s, a, k) >= 0,
    decreases k,
{
    if k > 0 {
        lemma_energy_nonneg_tail(s, a, k - 1);
        let v = s[a + k - 1];
        assert(v * v >= 0) by (nonlinear_arith);
    }
}

/// No lag of the autocorrelation exceeds lag zero, the energy, in magnitude:
/// `|r[lag]| <= r[0]`.
pub proof fn law_autocorrelation_bounded_by_energy(s: Seq<i32>, lag: int)
    requires
        0 <= lag <= s.len(),
    ensures
        -autocorrelation(s, 0) <= autocorrelation(s, lag) <= autocorrelation(s, 0),
{
    let n = s.len() as int;
    let k = n - lag;
    lemma_lag_sum_bounded(s, lag, k);
    // the first k squares and the last k squares each lie within the energy
    lemma_energy_split(s, k, lag);
    lemma_energy_split(s, lag, k);
    lemma_energy_nonneg_tail(s, k, lag);
    law_autocorrelation_energy(s, lag);
    law_autocorrelation_energy(s, k);
    assert(k + lag == n);
}

// =============================================================================
// Integer square root
// =============================================================================

/// The fixed-point square root: 0 for `n <= 0`, 1 for `n < 4`, and otherwise
/// four Newton steps from `2^((bit_length(n) - 1) / 2)`, kept to 32 bits.
pub open spec fn fixed_sqrt(n: int) -> i32 {
    if n <= 0 {
        0
    } else if n < 4 {
        1
    } else {
        newton_steps(n as nat, pow2(((bit_length(n as nat) - 1) / 2) as nat), 4) as i32
    }
}

/// Fast integer square root (Newton-Raphson, four iterations).
pub fn fast_isqrt(n: i64) -> (r: i32)
    ensures
        r == fixed_sqrt(n as int),
{
    if n <= 0 {
        return 0;
    }
    if n < 4 {
        return 1;
    }
    let un: u64 = n as u64;
    let ghost b = bit_length(n as nat);
    proof {
        lemma_u64_leading_zeros(un);
        lemma_bit_length_u64(un);
        lemma_bit_length_bounds(n as nat);
        lemma2_to64();
        lemma2_to64_rest();
        if b > 63 {
            vstd::arithmetic::power2::lemma_pow2_strictly_increases(63, (b - 1) as nat);
        }
    }
    // Initial guess from the bit length.
    let shift: u32 = (63 - un.leading_zeros()) / 2;
    proof {
        assert(shift == (b - 1) / 2);
        assert(shift < 32);
        vstd::arithmetic::power2::lemma_pow2_strictly_increases(shift as nat, 32);
        vstd::bits::lemma_u64_shl_is_mul(1, shift as u64);
        assert((1i64 << shift) == (1u64 << shift) as i64) by (bit_vector)
            requires
                shift < 32u32,
        ;
        // n < 2^b = 2^shift * 2^(b - shift), so n / 2^shift < 2^(b - shift) <= 2^32
        let lo = pow2(shift as nat);
        let hi = pow2((b - shift) as nat);
        lemma_pow2_adds(shift as nat, (b - shift) as nat);
        assert(lo * hi == hi * lo) by (nonlinear_arith);
        if b - shift < 32 {
            vstd::arithmetic::power2::lemma_pow2_strictly_increases((b - shift) as nat, 32);
        }
        vstd::arithmetic::div_mod::lemma_div_by_multiple_is_strongly_ordered(
            n as int,
            (hi * lo) as int,
            hi as int,
            lo as int,
        );
        vstd::arithmetic::div_mod::lemma_div_by_multiple(hi as int, lo as int);
    }
    let mut x: i64 = 1i64 << shift;
    let ghost x0 = x as nat;
    let mut k: u32 = 0;
    while k < 4
        invariant
            n >= 4,
            1 <= x <= 0x2_0000_0000 + k,
            k <= 4,
            k == 0 ==> n / x <= 0x1_0000_0000,
            k > 0 ==> n < (x + 1) * (x + 1),
            newton_steps(n as nat, x as nat, (4 - k) as nat) == newton_steps(n as nat, x0, 4),
            x0 == pow2(((b - 1) / 2) as nat),
            b == bit_length(n as nat),
        decreases 4 - k,
    {
        proof {
            if k > 0 {
                lemma_quotient_bound(n as nat, x as nat);
            }
        }
        let q: i64 = n / x;
        let s: i64 = x + q;
        proof {
            assert(s >> 1u64 == s / 2) by (bit_vector);
            lemma_newton_step_positive(n as nat, x as nat);
            lemma_newton_step_above(n as nat, x as nat);
        }
        let ghost xp = x as nat;
        x = s >> 1;
        assert(x == newton_step(n as nat, xp));
        k = k + 1;
    }
    x as i32
}

/// One Newton step from `x` with `s` the floor root of `n`: the new estimate
/// `y` is at least `s`, and `2 * x * y < x^2 + (s + 1)^2`.
proof fn lemma_newton_step_bound(n: nat, x: nat, s: nat)
    requires
        x >= 1,
        s * s <= n,
        n < (s + 1) * (s + 1),
    ensures
        newton_step(n, x) >= s,
        2 * x * newton_step(n, x) < x * x + (s + 1) * (s + 1),
{
    let y = newton_step(n, x);
    let q = n / x;
    lemma_newton_step_above(n, x);
    if y < s {
        assert((y + 1) * (y + 1) <= s * s) by (nonlinear_arith)
            requires
                y + 1 <= s,
        ;
    }
    assert(x * q <= n) by (nonlinear_arith)
        requires
            x >= 1,
            q == n / x,
    {
        vstd::arithmetic::div_mod::lemma_fundamental_div_mod(n as int, x as int);
    }
    assert(2 * y <= x + q);
    assert(2 * x * y <= x * x + x * q) by (nonlinear_arith)
        requires
            2 * y <= x + q,
            x >= 1,
    ;
}

/// From an estimate `s + e` above the floor root `s`, the next estimate
/// `s + e2` satisfies `2 * (s + e) * e2 < e^2 + 2s + 1`.
proof fn lemma_error_step(s: int, e: int, e2: int)
    requires
        s >= 1,
        e >= 0,
        e2 >= 0,
        2 * (s + e) * (s + e2) < (s + e) * (s + e) + (s + 1) * (s + 1),
    ensures
        2 * (s + e) * e2 < e * e + 2 * s + 1,
        2 * s * e2 < e * e + 2 * s + 1,
{
    assert(2 * (s + e) * (s + e2) == 2 * (s + e) * s + 2 * (s + e) * e2) by (nonlinear_arith);
    assert((s + e) * (s + e) + (s + 1) * (s + 1) - 2 * (s + e) * s == e * e + 2 * s + 1)
        by (nonlinear_arith);
    assert(2 * s * e2 <= 2 * (s + e) * e2) by (nonlinear_arith)
        requires
            e >= 0,
            e2 >= 0,
    ;
}

/// Four Newton steps from `2^((bit_length(n) - 1) / 2)` land within one of
/// the floor square root, for every `n` from 4 up to 2^40: `fast_isqrt` is
/// the integer square root or one more.
pub proof fn law_fixed_sqrt_within_one(n: int)
    requires
        4 <= n <= 0x100_0000_0000,
    ensures
        isqrt(n as nat) <= fixed_sqrt(n) <= isqrt(n as nat) + 1,
{
    let nn = n as nat;
    let s = isqrt(nn);
    lemma_isqrt(nn);
    // 2 <= s <= 2^20
    if s < 2 {
        assert((s + 1) * (s + 1) <= 4) by (nonlinear_arith)
            requires
                s < 2,
        ;
    }
    if s > 0x10_0000 {
        assert(s * s > 0x100_0000_0000) by (nonlinear_arith)
            requires
                s > 0x10_0000,
        ;
    }
    // The starting point x0 = 2^h, h = (b - 1) / 2: x0^2 <= n < (2 x0)^2.
    let b = bit_length(nn);
    lemma_bit_length_bounds(nn);
    let h = ((b - 1) / 2) as nat;
    let x0 = pow2(h);
    lemma2_to64();
    vstd::arithmetic::power2::lemma_pow2_pos(h);
    lemma_pow2_square(h);
    lemma_pow2_square(h + 1);
    lemma_pow2_adds(h, 1);
    if 2 * h < b - 1 {
        vstd::arithmetic::power2::lemma_pow2_strictly_increases(2 * h, (b - 1) as nat);
    }
    if 2 * (h + 1) > b {
        vstd::arithmetic::power2::lemma_pow2_strictly_increases(b, 2 * (h + 1));
    }
    assert(x0 * x0 <= nn);
    assert(nn < (2 * x0) * (2 * x0));
    if x0 > s {
        assert((s + 1) * (s + 1) <= x0 * x0) by (nonlinear_arith)
            requires
                s + 1 <= x0,
        ;
    }
    if 2 * x0 <= s {
        assert((2 * x0) * (2 * x0) <= s * s) by (nonlinear_arith)
            requires
                2 * x0 <= s,
                x0 >= 0,
        ;
    }
    // Step 1: e1 < (s + 5) / 4.
    let y1 = newton_step(nn, x0);
    lemma_newton_step_bound(nn, x0, s);
    let e1: int = y1 - s;
    let d: int = s - x0;
    assert(2 * x0 * e1 < d * d + 2 * s + 1) by (nonlinear_arith)
        requires
            2 * x0 * y1 < x0 * x0 + (s + 1) * (s + 1),
            e1 == y1 - s,
            d == s - x0,
    ;
    assert(4 * e1 < s + 5) by (nonlinear_arith)
        requires
            2 * x0 * e1 < d * d + 2 * s + 1,
            s + 1 <= 2 * x0,
            x0 <= s,
            d == s - x0,
            e1 >= 0,
    ;
    // Step 2: 32 e2 < s + 63.
    let y2 = newton_step(nn, y1);
    lemma_newton_step_bound(nn, y1, s);
    let e2: int = y2 - s;
    lemma_error_step(s as int, e1, e2);
    assert(32 * e2 < s + 63) by (nonlinear_arith)
        requires
            2 * s * e2 < e1 * e1 + 2 * s + 1,
            4 * e1 < s + 5,
            e1 >= 0,
            s >= 2,
    ;
    // Step 3: 2048 e3 < s + 4671.
    let y3 = newton_step(nn, y2);
    lemma_newton_step_bound(nn, y2, s);
    let e3: int = y3 - s;
    lemma_error_step(s as int, e2, e3);
    assert(2048 * e3 < s + 4671) by (nonlinear_arith)
        requires
            2 * s * e3 < e2 * e2 + 2 * s + 1,
            32 * e2 < s + 63,
            e2 >= 0,
            s >= 2,
    ;
    // Step 4: e4 <= 1.
    let y4 = newton_step(nn, y3);
    lemma_newton_step_bound(nn, y3, s);
    let e4: int = y4 - s;
    lemma_error_step(s as int, e3, e4);
    if e4 >= 2 {
        assert(e3 * e3 - 4 * e3 > 2 * s - 1) by (nonlinear_arith)
            requires
                2 * (s + e3) * e4 < e3 * e3 + 2 * s + 1,
                e4 >= 2,
                e3 >= 0,
                s >= 0,
        ;
        if e3 <= 4 {
            assert(e3 * e3 - 4 * e3 <= 0) by (nonlinear_arith)
                requires
                    0 <= e3 <= 4,
            ;
        } else {
            let t: int = e3 - 2;
            assert(t * t == e3 * e3 - 4 * e3 + 4) by (nonlinear_arith)
                requires
                    t == e3 - 2,
            ;
            assert(2048 * t < s + 575);
            assert(t * t < 2 * s + 3) by (nonlinear_arith)
                requires
                    2048 * t < s + 575,
                    t >= 0,
                    0 <= s <= 0x10_0000,
            ;
        }
    }
    assert(newton_steps(nn, x0, 4) == y4) by {
        reveal_with_fuel(newton_steps, 5);
    }
    assert(s <= y4 <= s + 1);
    assert(x0 == pow2(((bit_length(nn) - 1) / 2) as nat));
    assert(fixed_sqrt(n) == y4 as i32);
    assert(y4 as i32 == y4);
}

/// A Newton step from an estimate at or above the floor root `s` does not
/// grow past the larger of that estimate and `s + 1`.
proof fn lemma_newton_no_growth(x: int, y: int, s: int)
    requires
        x >= s >= 1,
        2 * x * y < x * x + (s + 1) * (s + 1),
    ensures
        y <= x || y <= s + 1,
{
    if x >= s + 1 {
        assert((s + 1) * (s + 1) <= x * x) by (nonlinear_arith)
            requires
                x >= s + 1,
                s >= 1,
        ;
        assert(y < x) by (nonlinear_arith)
            requires
                2 * x * y < x * x + x * x,
                x >= 1,
        ;
    } else {
        assert(y <= s + 1) by (nonlinear_arith)
            requires
                x == s,
                s >= 1,
                2 * x * y < x * x + (s + 1) * (s + 1),
        ;
    }
}

/// Below 2^61 the four Newton steps of `fast_isqrt` stay inside `i32`, so
/// its result is never negative.
pub proof fn law_fixed_sqrt_nonnegative(n: int)
    requires
        n < 0x2000_0000_0000_0000,
    ensures
        fixed_sqrt(n) >= 0,
{
    if n < 4 {
        return;
    }
    let nn = n as nat;
    let s = isqrt(nn);
    lemma_isqrt(nn);
    if s < 2 {
        assert((s + 1) * (s + 1) <= 4) by (nonlinear_arith)
            requires
                s < 2,
        ;
    }
    assert(s < 1518500250) by (nonlinear_arith)
        requires
            s * s <= nn,
            nn < 0x2000_0000_0000_0000,
    ;
    // The starting point x0 = 2^h, h = (b - 1) / 2: x0^2 <= n < (2 x0)^2.
    let b = bit_length(nn);
    lemma_bit_length_bounds(nn);
    let h = ((b - 1) / 2) as nat;
    let x0 = pow2(h);
    lemma2_to64();
    lemma2_to64_rest();
    vstd::arithmetic::power2::lemma_pow2_pos(h);
    lemma_pow2_square(h);
    lemma_pow2_square(h + 1);
    lemma_pow2_adds(h, 1);
    if 2 * h < b - 1 {
        vstd::arithmetic::power2::lemma_pow2_strictly_increases(2 * h, (b - 1) as nat);
    }
    if 2 * (h + 1) > b {
        vstd::arithmetic::power2::lemma_pow2_strictly_increases(b, 2 * (h + 1));
    }
    assert(x0 * x0 <= nn);
    assert(nn < (2 * x0) * (2 * x0));
    if h > 30 {
        vstd::arithmetic::power2::lemma_pow2_strictly_increases(61, 2 * h);
    }
    if h < 29 {
        vstd::arithmetic::power2::lemma_pow2_strictly_increases(h, 29);
    }
    // The first step stays below 2^31.
    let q = nn / x0;
    assert(x0 * q <= nn) by (nonlinear_arith)
        requires
            x0 >= 1,
            q == nn / x0,
    {
        vstd::arithmetic::div_mod::lemma_fundamental_div_mod(nn as int, x0 as int);
    }
    if h == 30 {
        assert(q < 0x8000_0000) by (nonlinear_arith)
            requires
                x0 == 0x4000_0000,
                x0 * q <= nn,
                nn < 0x2000_0000_0000_0000,
        ;
    } else {
        assert(x0 <= 0x2000_0000);
        assert(q < 4 * x0) by (nonlinear_arith)
            requires
                x0 >= 1,
                x0 * q <= nn,
                nn < (2 * x0) * (2 * x0),
        ;
    }
    let y1 = newton_step(nn, x0);
    assert(y1 == (x0 + q) / 2);
    assert(y1 < 0x8000_0000);
    lemma_newton_step_bound(nn, x0, s);
    // Later steps grow past neither the estimate before them nor s + 1.
    let y2 = newton_step(nn, y1);
    lemma_newton_step_bound(nn, y1, s);
    lemma_newton_no_growth(y1 as int, y2 as int, s as int);
    let y3 = newton_step(nn, y2);
    lemma_newton_step_bound(nn, y2, s);
    lemma_newton_no_growth(y2 as int, y3 as int, s as int);
    let y4 = newton_step(nn, y3);
    lemma_newton_step_bound(nn, y3, s);
    lemma_newton_no_growth(y3 as int, y4 as int, s as int);
    assert(newton_steps(nn, x0, 4) == y4) by {
        reveal_with_fuel(newton_steps, 5);
    }
    assert(y4 < 0x8000_0000);
    assert(fixed_sqrt(n) == y4 as i32);
}

// =============================================================================
// Levinson-Durbin recursion
// =============================================================================

/// Running sum of iteration `i` after `m` terms:
/// `r[i + 1] - sum_{j < m} (a[j] * r[i - j]) / 2^16`, each quotient rounded down.
pub open spec fn ld_sum(r: Seq<i64>, a: Seq<i32>, i: int, m: int) -> int
    decreases m,
{
    if m <= 0 {
        r[i + 1] as int
    } else {
        ld_sum(r, a, i, m - 1) - (a[m - 1] * r[i - (m - 1)]) / 65536
    }
}

/// Reflection coefficient of iteration `i`, in Q16.16: the running sum
/// shifted up 16 bits (kept to 64 bits) divided by the error, rounded toward
/// zero and kept to 32 bits; 0 when the error is 0.
pub open spec fn ld_reflection(r: Seq<i64>, a: Seq<i32>, e: int, i: int) -> i32 {
    if e != 0 {
        trunc_div(((ld_sum(r, a, i, i) * 65536) as i64) as int, e) as i32
    } else {
        0
    }
}

/// Coefficients after iteration `i` with reflection coefficient `k`:
/// `a[j] - k * a[i - 1 - j]` (kept to 32 bits) below `i`, `k` at `i`.
pub open spec fn ld_update(a: Seq<i32>, k: i32, i: int) -> Seq<i32> {
    Seq::new(
        a.len(),
        |j: int|
            if j < i {
                (a[j] - q16_product(k as int, a[i - 1 - j] as int)) as i32
            } else if j == i {
                k
            } else {
                a[j]
            },
    )
}

/// Prediction error after a step with reflection coefficient `k`:
/// `e - (k^2 * e) / 2^16`, with `k^2` a Q16.16 product.
pub open spec fn ld_error(e: int, k: i32) -> int {
    e - (q16_product(k as int, k as int) * e) / 65536
}

/// State of the recursion after `t` iterations: the coefficients, the
/// prediction error, and whether the recursion has stopped (its error fell
/// to zero or below).
pub open spec fn ld_state(r: Seq<i64>, order: nat, t: nat) -> (Seq<i32>, int, bool)
    decreases t,
{
    if t == 0 {
        (Seq::new(order, |j: int| 0i32), r[0] as int, false)
    } else {
        let prev = ld_state(r, order, (t - 1) as nat);
        if prev.2 {
            prev
        } else {
            let i = t - 1;
            let k = ld_reflection(r, prev.0, prev.1, i);
            let e = ld_error(prev.1, k);
            (ld_update(prev.0, k, i), e, e <= 0)
        }
    }
}

/// Iteration `i` from coefficients `a` and error `e` reads only entries of `r`
/// that exist and keeps every intermediate value in 64 bits.
pub open spec fn ld_step_in_range(r: Seq<i64>, a: Seq<i32>, e: int, i: int) -> bool {
    let k = ld_reflection(r, a, e, i);
    &&& i + 1 < r.len()
    &&& forall|m: int|
        0 <= m < i ==> i64::MIN <= a[m] * r[i - m] <= i64::MAX && i64::MIN <= #[trigger] ld_sum(
            r,
            a,
            i,
            m + 1,
        ) <= i64::MAX
    &&& !(e == -1 && ((ld_sum(r, a, i, i) * 65536) as i64) == i64::MIN)
    &&& i64::MIN <= q16_product(k as int, k as int) * e <= i64::MAX
    &&& i64::MIN <= ld_error(e, k) <= i64::MAX
}

/// The recursion over `r` up to `order` never reads past `r` nor overflows.
pub open spec fn levinson_in_range(r: Seq<i64>, order: nat) -> bool {
    &&& r.len() >= 1
    &&& r[0] != 0 ==> forall|t: int|
        0 <= t < order && !(#[trigger] ld_state(r, order, t as nat)).2 ==> ld_step_in_range(
            r,
            ld_state(r, order, t as nat).0,
            ld_state(r, order, t as nat).1,
            t,
        )
}

/// Coefficients and gain that the fixed-point Levinson-Durbin recursion
/// computes: all zero for zero energy; otherwise the coefficients after
/// `order` iterations (or after the iteration where the error fell to zero
/// or below), and the fixed-point square root of the final error as gain
/// when that error is positive, else 0.
pub open spec fn levinson(r: Seq<i64>, order: nat) -> (Seq<i32>, i32) {
    if r[0] == 0 {
        (Seq::new(order, |j: int| 0i32), 0)
    } else {
        let s = ld_state(r, order, order);
        (
            s.0,
            if s.1 > 0 {
                fixed_sqrt(s.1)
            } else {
                0
            },
        )
    }
}

/// The coefficient vector always holds `order` entries.
pub proof fn lemma_ld_state_len(r: Seq<i64>, order: nat, t: nat)
    ensures
        ld_state(r, order, t).0.len() == order,
    decreases t,
{
    if t > 0 {
        lemma_ld_state_len(r, order, (t - 1) as nat);
    }
}

/// Once stopped, the recursion stays where it stopped.
pub proof fn lemma_ld_state_stopped(r: Seq<i64>, order: nat, t: nat, u: nat)
    requires
        t <= u,
        ld_state(r, order, t).2,
    ensures
        ld_state(r, order, u) == ld_state(r, order, t),
    decreases u - t,
{
    if t < u {
        lemma_ld_state_stopped(r, order, t, (u - 1) as nat);
    }
}

/// Truncating division of a 64-bit value stays in 64 bits, except for the
/// most negative value divided by -1.
pub proof fn lemma_trunc_div_in_range(x: int, d: int)
    requires
        i64::MIN <= x <= i64::MAX,
        i64::MIN <= d <= i64::MAX,
        d != 0,
        !(x == i64::MIN && d == -1),
    ensures
        i64::MIN <= trunc_div(x, d) <= i64::MAX,
{
    let ax: int = if x < 0 { -x } else { x };
    let ad: int = if d < 0 { -d } else { d };
    assert(ax / ad <= ax) by (nonlinear_arith)
        requires
            ax >= 0,
            ad >= 1,
    ;
    if ax / ad == 0x8000_0000_0000_0000 {
        assert(ad == 1) by (nonlinear_arith)
            requires
                ax <= 0x8000_0000_0000_0000,
                ad >= 1,
                ax / ad == 0x8000_0000_0000_0000,
        ;
    }
}

/// Levinson-Durbin recursion in fixed-point.
pub fn levinson_durbin_fixed(r: &[i64], order: usize) -> (res: VoiceResult<LpcCoefficientsFixed>)
    requires
        levinson_in_range(r@, order as nat),
    ensures
        res is Ok,
        res->Ok_0.coeffs@ == levinson(r@, order as nat).0,
        res->Ok_0.gain == levinson(r@, order as nat).1,
{
    let mut coeffs: Vec<i32> = vec![0i32; order];
    let mut tmp: Vec<i64> = vec![0i64; order];

    if r[0] == 0 {
        let zeros: Vec<i32> = vec![0i32; order];
        proof {
            assert(zeros@ =~= Seq::new(order as nat, |j: int| 0i32));
        }
        return Ok(LpcCoefficientsFixed { coeffs: zeros, gain: 0 });
    }
    let ghost rs = r@;
    let ghost ord = order as nat;
    proof {
        assert(coeffs@ =~= ld_state(rs, ord, 0).0);
    }

    let mut error: i64 = r[0];
    let mut i: usize = 0;
    while i < order
        invariant_except_break
            i <= order,
            !ld_state(rs, ord, i as nat).2,
            coeffs@ == ld_state(rs, ord, i as nat).0,
            error == ld_state(rs, ord, i as nat).1,
        invariant
            rs == r@,
            ord == order,
            r@[0] != 0,
            levinson_in_range(rs, ord),
            coeffs@.len() == order,
            tmp@.len() == order,
        ensures
            coeffs@ == ld_state(rs, ord, ord).0,
            error == ld_state(rs, ord, ord).1,
        decreases order - i,
    {
        let ghost a = coeffs@;
        let ghost e: int = error as int;
        proof {
            let ii: int = i as int;
            assert(!ld_state(rs, ord, ii as nat).2);
            assert(ld_step_in_range(rs, a, e, ii));
        }
        let mut sum: i64 = r[i + 1];
        let mut j: usize = 0;
        while j < i
            invariant
                i < order,
                j <= i,
                rs == r@,
                coeffs@ == a,
                a.len() == order,
                ld_step_in_range(rs, a, e, i as int),
                sum == ld_sum(rs, a, i as int, j as int),
            decreases i - j,
        {
            proof {
                let mm: int = j as int;
                assert(i64::MIN <= ld_sum(rs, a, i as int, mm + 1) <= i64::MAX);
            }
            let p: i64 = coeffs[j] as i64 * r[i - j];
            proof {
                assert(p >> 16u64 == p / 65536) by (bit_vector);
            }
            sum = sum - (p >> 16);
            j = j + 1;
        }
        proof {
            assert(sum << 16u64 == (sum * 65536) as i64) by (bit_vector);
        }
        assert(sum == ld_sum(rs, a, i as int, i as int));
        let shifted: i64 = sum << 16;
        proof {
            if error != 0 {
                lemma_trunc_div_in_range(shifted as int, e);
            }
        }
        let k: i32 = if error != 0 {
            match shifted.checked_div(error) {
                Some(q) => {
                    assert(q == trunc_div(shifted as int, e));
                    q as i32
                },
                None => 0,
            }
        } else {
            0
        };
        assert(k == ld_reflection(rs, a, e, i as int));

        coeffs.set(i, k);
        j = 0;
        while j < i
            invariant
                i < order,
                j <= i,
                a.len() == order,
                coeffs@ == a.update(i as int, k),
                tmp@.len() == order,
                forall|l: int|
                    0 <= l < j ==> tmp@[l] == a[l] - q16_product(
                        k as int,
                        a[i - 1 - l] as int,
                    ),
            decreases i - j,
        {
            let m: i32 = q16_mul(k, coeffs[i - 1 - j]);
            tmp.set(j, coeffs[j] as i64 - m as i64);
            j = j + 1;
        }
        j = 0;
        while j < i
            invariant
                i < order,
                j <= i,
                a.len() == order,
                coeffs@.len() == order,
                tmp@.len() == order,
                forall|l: int|
                    0 <= l < i ==> tmp@[l] == a[l] - q16_product(
                        k as int,
                        a[i - 1 - l] as int,
                    ),
                forall|l: int| 0 <= l < j ==> coeffs@[l] == ld_update(a, k, i as int)[l],
                forall|l: int| j <= l < order ==> coeffs@[l] == a.update(i as int, k)[l],
            decreases i - j,
        {
            coeffs.set(j, tmp[j] as i32);
            j = j + 1;
        }
        proof {
            assert(coeffs@ =~= ld_update(a, k, i as int));
        }

        let k_sq: i64 = q16_mul(k, k) as i64;
        let p: i64 = k_sq * error;
        proof {
            assert(p >> 16u64 == p / 65536) by (bit_vector);
        }
        error = error - (p >> 16);
        proof {
            assert(ld_state(rs, ord, (i + 1) as nat) == (coeffs@, error as int, error <= 0));
        }
        if error <= 0 {
            proof {
                lemma_ld_state_stopped(rs, ord, (i + 1) as nat, ord);
            }
            break;
        }
        i = i + 1;
    }

    let gain: i32 = if error > 0 {
        fast_isqrt(error)
    } else {
        0
    };
    Ok(LpcCoefficientsFixed { coeffs, gain })
}

/// Zero energy gives all-zero coefficients and zero gain, and the recursion
/// always yields `order` coefficients.
pub proof fn law_levinson_shape(r: Seq<i64>, order: nat)
    requires
        r.len() >= 1,
    ensures
        levinson(r, order).0.len() == order,
        r[0] == 0 ==> levinson(r, order).0 == Seq::new(order, |j: int| 0i32),
        r[0] == 0 ==> levinson(r, order).1 == 0,
{
    lemma_ld_state_len(r, order, order);
}

/// `sum_{j < m} (a[j] * r[t - j]) / 2^16`, each quotient rounded down: the
/// prediction of `r[t + 1]` from the current predictor `a`.
pub open spec fn predicted_lag(r: Seq<i64>, a: Seq<i32>, t: int, m: int) -> int
    decreases m,
{
    if m <= 0 {
        0
    } else {
        predicted_lag(r, a, t, m - 1) + (a[m - 1] * r[t - (m - 1)]) / 65536
    }
}

proof fn lemma_ld_sum_prediction(r: Seq<i64>, a: Seq<i32>, t: int, m: int)
    ensures
        ld_sum(r, a, t, m) == r[t + 1] - predicted_lag(r, a, t, m),
    decreases m,
{
    if m > 0 {
        lemma_ld_sum_prediction(r, a, t, m - 1);
    }
}

/// The recursion starts from the all-zero predictor with the energy `r[0]`
/// as error, and each step that runs takes as new coefficient `t` the
/// reflection coefficient: the part of `r[t + 1]` that the current
/// predictor does not predict, in Q16.16 (shifted up 16 bits, kept to 64
/// bits), divided by the current error (rounded toward zero, kept to 32
/// bits; 0 for a zero error). A step stops the recursion exactly when its
/// error falls to zero or below, and the returned predictor is the one after
/// `order` steps.
pub proof fn law_levinson_reflection(r: Seq<i64>, order: nat, t: nat)
    requires
        t < order,
        !ld_state(r, order, t).2,
    ensures
        ld_state(r, order, 0) == (Seq::new(order, |j: int| 0i32), r[0] as int, false),
        ld_state(r, order, t + 1).0[t as int] == (if ld_state(r, order, t).1 != 0 {
            trunc_div(
                (((r[t as int + 1] - predicted_lag(r, ld_state(r, order, t).0, t as int, t as int))
                    * 65536) as i64) as int,
                ld_state(r, order, t).1,
            ) as i32
        } else {
            0i32
        }),
        ld_state(r, order, t + 1).2 == (ld_state(r, order, t + 1).1 <= 0),
        r[0] != 0 ==> levinson(r, order).0 == ld_state(r, order, order).0,
{
    lemma_ld_state_len(r, order, t);
    lemma_ld_sum_prediction(r, ld_state(r, order, t).0, t as int, t as int);
}

/// Each Levinson-Durbin step that runs applies the order update: with `k`
/// the new coefficient at position `t`, every earlier coefficient becomes
/// `a[j] - k * a[t - 1 - j]` (a Q16.16 product, kept to 32 bits), the later
/// ones stay as they were, and the prediction error shrinks to
/// `e - (k^2 * e) / 2^16` with `k^2` a Q16.16 product.
pub proof fn law_levinson_order_update(r: Seq<i64>, order: nat, t: nat)
    requires
        t < order,
        !ld_state(r, order, t).2,
    ensures
        forall|j: int|
            0 <= j < t ==> #[trigger] ld_state(r, order, t + 1).0[j] == (ld_state(r, order, t).0[j]
                - q16_product(
                ld_state(r, order, t + 1).0[t as int] as int,
                ld_state(r, order, t).0[t - 1 - j] as int,
            )) as i32,
        forall|j: int|
            t < j < order ==> #[trigger] ld_state(r, order, t + 1).0[j] == ld_state(
                r,
                order,
                t,
            ).0[j],
        ld_state(r, order, t + 1).1 == ld_state(r, order, t).1 - (q16_product(
            ld_state(r, order, t + 1).0[t as int] as int,
            ld_state(r, order, t + 1).0[t as int] as int,
        ) * ld_state(r, order, t).1) / 65536,
{
    lemma_ld_state_len(r, order, t);
    lemma_ld_state_len(r, order, t + 1);
    assert(ld_state(r, order, t + 1) == {
        let prev = ld_state(r, order, t);
        let k = ld_reflection(r, prev.0, prev.1, t as int);
        let e = ld_error(prev.1, k);
        (ld_update(prev.0, k, t as int), e, e <= 0)
    });
}

/// Levinson-Durbin of order 2 written out over the autocorrelation:
/// `k1 = r1 / r0`, error `e1 = r0 (1 - k1^2)`; if `e1` is positive,
/// `k2 = (r2 - k1 r1) / e1`, and the predictor is `[k1 - k2 k1, k2]` with
/// gain the root of `e2 = e1 (1 - k2^2)` (0 when `e2` is not positive);
/// otherwise the recursion stops at `[k1, 0]` with gain 0. Quotients in
/// Q16.16, rounded toward zero, products in Q16.16, kept to the code's
/// widths.
pub proof fn law_levinson_order_two(r: Seq<i64>)
    requires
        r.len() >= 3,
        r[0] != 0,
    ensures
        ({
            let k1 = trunc_div(((r[1] * 65536) as i64) as int, r[0] as int) as i32;
            let e1 = r[0] - (q16_product(k1 as int, k1 as int) * r[0]) / 65536;
            let s2 = r[2] - (k1 * r[1]) / 65536;
            let k2 = trunc_div(((s2 * 65536) as i64) as int, e1) as i32;
            let e2 = e1 - (q16_product(k2 as int, k2 as int) * e1) / 65536;
            if e1 <= 0 {
                levinson(r, 2) == (seq![k1, 0i32], 0i32)
            } else {
                levinson(r, 2) == (
                    seq![(k1 - q16_product(k2 as int, k1 as int)) as i32, k2],
                    if e2 > 0 {
                        fixed_sqrt(e2)
                    } else {
                        0i32
                    },
                )
            }
        }),
{
    let k1 = trunc_div(((r[1] * 65536) as i64) as int, r[0] as int) as i32;
    let s0 = ld_state(r, 2, 0);
    assert(s0.0 =~= seq![0i32, 0i32]);
    assert(ld_sum(r, s0.0, 0, 0) == r[1]);
    assert(ld_reflection(r, s0.0, s0.1, 0) == k1);
    let s1 = ld_state(r, 2, 1);
    assert(s1.0 =~= seq![k1, 0i32]);
    let e1 = r[0] - (q16_product(k1 as int, k1 as int) * r[0]) / 65536;
    assert(s1.1 == e1);
    if e1 > 0 {
        let s2 = r[2] - (k1 * r[1]) / 65536;
        assert(ld_sum(r, s1.0, 1, 1) == s2) by {
            reveal_with_fuel(ld_sum, 2);
        }
        let k2 = trunc_div(((s2 * 65536) as i64) as int, e1) as i32;
        assert(ld_reflection(r, s1.0, s1.1, 1) == k2);
        let st = ld_state(r, 2, 2);
        assert(st.0 =~= seq![(k1 - q16_product(k2 as int, k1 as int)) as i32, k2]);
    } else {
        lemma_ld_state_stopped(r, 2, 1, 2);
    }
}

/// The gain is never negative while the final prediction error stays below
/// 2^61 (above that the four Newton steps of the root can leave `i32`).
pub proof fn law_levinson_gain_nonnegative(r: Seq<i64>, order: nat)
    requires
        r.len() >= 1,
        ld_state(r, order, order).1 < 0x2000_0000_0000_0000,
    ensures
        levinson(r, order).1 >= 0,
{
    law_fixed_sqrt_nonnegative(ld_state(r, order, order).1);
}

/// The gain is the square root of the final prediction error: 0 when that
/// error is not positive, 1 for errors 1 to 3, and otherwise the floor root
/// or one more, for final errors up to 2^40.
pub proof fn law_levinson_gain_is_root(r: Seq<i64>, order: nat)
    requires
        r.len() >= 1,
        ld_state(r, order, order).1 <= 0x100_0000_0000,
    ensures
        r[0] != 0 && ld_state(r, order, order).1 <= 0 ==> levinson(r, order).1 == 0,
        r[0] != 0 && 1 <= ld_state(r, order, order).1 <= 3 ==> levinson(r, order).1 == 1,
        r[0] != 0 && ld_state(r, order, order).1 >= 4 ==> isqrt(
            ld_state(r, order, order).1 as nat,
        ) <= levinson(r, order).1 <= isqrt(ld_state(r, order, order).1 as nat) + 1,
{
    let e = ld_state(r, order, order).1;
    if r[0] != 0 && e >= 4 {
        law_fixed_sqrt_within_one(e);
    }
}

// =============================================================================
// Q16.16 arithmetic
// =============================================================================

/// Fast Q16.16 multiply.
pub fn q16_mul(a: i32, b: i32) -> (r: i32)
    ensures
        r == q16_product(a as int, b as int),
{
    crate::types::q16_mul(a, b)
}

/// Fast Q16.16 multiply-accumulate.
pub fn q16_mac(acc: i32, a: i32, b: i32) -> (r: i32)
    requires
        i32::MIN <= acc + q16_product(a as int, b as int) <= i32::MAX,
    ensures
        r == acc + q16_product(a as int, b as int),
{
    acc + crate::types::q16_mul(a, b)
}

/// The number of samples a synthesis writes: as many as both the
/// excitation and the output hold.
pub open spec fn synthesis_len(excitation_len: nat, output_len: nat) -> nat {
    if excitation_len < output_len {
        excitation_len
    } else {
        output_len
    }
}

/// Synthesize audio from fixed-point LPC coefficients.
pub fn synthesize_fixed(coeffs: &LpcCoefficientsFixed, excitation: &[i32]) -> (out: Vec<i32>)
    requires
        filter_in_range(coeffs.coeffs@, coeffs.gain, excitation@, excitation@.len()),
    ensures
        out@ == filter_output(coeffs.coeffs@, coeffs.gain, excitation@, excitation@.len()),
{
    let n: usize = excitation.len();
    let mut output: Vec<i32> = vec![0i32; n];
    crate::simd::scalar::q16_lpc_filter_neon(
        coeffs.coeffs.as_slice(),
        coeffs.gain,
        excitation,
        output.as_mut_slice(),
    );
    proof {
        assert(output@.subrange(0, n as int) =~= output@);
    }
    output
}

/// Synthesize into a pre-allocated buffer, for as many samples as both the
/// excitation and the buffer hold; the rest of the buffer is left as it was.
pub fn synthesize_fixed_into(coeffs: &LpcCoefficientsFixed, excitation: &[i32], output: &mut [i32])
    requires
        filter_in_range(
            coeffs.coeffs@,
            coeffs.gain,
            excitation@,
            synthesis_len(excitation@.len(), old(output)@.len()),
        ),
    ensures
        final(output)@.len() == old(output)@.len(),
        final(output)@.subrange(0, synthesis_len(excitation@.len(), old(output)@.len()) as int)
            == filter_output(
            coeffs.coeffs@,
            coeffs.gain,
            excitation@,
            synthesis_len(excitation@.len(), old(output)@.len()),
        ),
        final(output)@.subrange(
            synthesis_len(excitation@.len(), old(output)@.len()) as int,
            old(output)@.len() as int,
        ) == old(output)@.subrange(
            synthesis_len(excitation@.len(), old(output)@.len()) as int,
            old(output)@.len() as int,
        ),
{
    crate::simd::scalar::q16_lpc_filter_neon(
        coeffs.coeffs.as_slice(),
        coeffs.gain,
        excitation,
        output,
    );
}

} // verus!
