//! Scalar implementations of the Q16.16 vector kernels.

use vstd::arithmetic::power2::{lemma2_to64, lemma2_to64_rest, lemma_pow2_adds, pow2};
use vstd::prelude::*;

use crate::isqrt::{
    bit_length, isqrt, lemma_bit_length_bounds, lemma_bit_length_u64, lemma_isqrt, lemma_isqrt_unique, lemma_newton_descent_isqrt,
    lemma_newton_step_above, lemma_newton_step_positive, lemma_newton_stop, lemma_pow2_square,
    lemma_quotient_bound, lemma_u64_leading_zeros, newton_descent, newton_step,
};
use crate::codec::lpc::lpc_fixed::{
    filter_acc, filter_in_range, filter_output, filter_taps, lemma_filter_output_len,
};
use crate::types::{q16_product, trunc_div, EMBEDDING_DIM};

verus! {

/// Fast integer square root (64-bit input, 32-bit output): the floor of the
/// square root, by Newton's iteration from a starting point above it.
pub fn fast_isqrt_64(n: u64) -> (r: u32)
    ensures
        r == isqrt(n as nat),
        r * r <= n,
        n < (r + 1) * (r + 1),
{
    if n == 0 {
        proof {
            lemma_isqrt_unique(0, 0);
        }
        return 0;
    }
    if n < 4 {
        proof {
            assert(1nat * 1nat == 1 && (1nat + 1) * (1nat + 1) == 4) by (nonlinear_arith);
            lemma_isqrt_unique(n as nat, 1);
        }
        return 1;
    }
    proof {
        lemma_u64_leading_zeros(n);
        lemma_bit_length_u64(n);
        lemma_bit_length_bounds(n as nat);
    }
    let lz: u32 = n.leading_zeros();
    // Initial guess 2^((log2(n) / 2) + 1) starts above the answer.
    let log2: u32 = 63 - lz;
    let shift: u32 = (log2 / 2) + 1;
    proof {
        let b = bit_length(n as nat);
        assert(log2 == b - 1);
        lemma2_to64();
        lemma2_to64_rest();
        lemma_pow2_square(shift as nat);
        lemma_pow2_adds((2 * (log2 / 2) + 1) as nat, 0);
        if 2 * shift > b {
            vstd::arithmetic::power2::lemma_pow2_strictly_increases(b, 2 * shift as nat);
        }
        if shift < 32 {
            vstd::arithmetic::power2::lemma_pow2_strictly_increases(shift as nat, 32);
        }
        vstd::bits::lemma_u64_shl_is_mul(1, shift as u64);
    }
    let mut x: u64 = 1u64 << shift;
    proof {
        assert(x as nat == pow2(shift as nat));
        assert(n < x * x);
        assert(x * x <= (x + 1) * (x + 1)) by (nonlinear_arith);
        lemma_newton_descent_isqrt(n as nat, x as nat);
    }
    loop
        invariant
            1 <= x <= 0x1_0000_0000,
            n >= 4,
            n < (x + 1) * (x + 1),
            newton_descent(n as nat, x as nat) == isqrt(n as nat),
        decreases x,
    {
        proof {
            lemma_quotient_bound(n as nat, x as nat);
        }
        let q: u64 = n / x;
        let s: u64 = x + q;
        proof {
            assert(s >> 1u64 == s / 2) by (bit_vector);
        }
        let x1: u64 = s >> 1;
        assert(x1 == newton_step(n as nat, x as nat));
        if x1 >= x {
            proof {
                lemma_newton_stop(n as nat, x as nat);
                lemma_isqrt_unique(n as nat, x as nat);
                assert(x < 0x1_0000_0000) by (nonlinear_arith)
                    requires
                        x * x <= n,
                        n <= u64::MAX,
                        x >= 1,
                ;
            }
            return x as u32;
        }
        proof {
            lemma_newton_step_positive(n as nat, x as nat);
            lemma_newton_step_above(n as nat, x as nat);
        }
        x = x1;
    }
}

/// Fast integer square root (32-bit): the floor of the square root, by
/// Newton's iteration from a starting point above it (the 64-bit iteration
/// on the widened input).
pub fn fast_isqrt_32(n: u32) -> (r: u16)
    ensures
        r == isqrt(n as nat),
        r * r <= n,
        n < (r + 1) * (r + 1),
{
    let r: u32 = fast_isqrt_64(n as u64);
    assert(r < 65536) by (nonlinear_arith)
        requires
            r * r <= n,
            n <= u32::MAX,
    ;
    r as u16
}

// ============================================
// Q16.16 scalar operations
// ============================================

/// Q16.16 multiply using a 64-bit intermediate.
pub fn q16_mul(a: i32, b: i32) -> (r: i32)
    ensures
        r == q16_product(a as int, b as int),
{
    crate::types::q16_mul(a, b)
}

/// Q16.16 multiply-accumulate.
pub fn q16_mac(acc: i32, a: i32, b: i32) -> (r: i32)
    requires
        i32::MIN <= acc + q16_product(a as int, b as int) <= i32::MAX,
    ensures
        r == acc + q16_product(a as int, b as int),
{
    acc + q16_mul(a, b)
}

/// Q16.16 multiply of four lanes.
pub fn q16_mul_4x_neon(a: &[i32; 4], b: &[i32; 4]) -> (r: [i32; 4])
    ensures
        forall|i: int| 0 <= i < 4 ==> r[i] == q16_product(a[i] as int, b[i] as int),
{
    [q16_mul(a[0], b[0]), q16_mul(a[1], b[1]), q16_mul(a[2], b[2]), q16_mul(a[3], b[3])]
}

// ============================================
// Dot product and cosine similarity
// ============================================

/// Sum of the first `k` products `a[i] * b[i]`.
pub open spec fn dot_sum(a: Seq<i32>, b: Seq<i32>, k: int) -> int
    decreases k,
{
    if k <= 0 {
        0
    } else {
        dot_sum(a, b, k - 1) + a[k - 1] * b[k - 1]
    }
}

/// Every running sum of the first `n` products fits in 64 bits.
pub open spec fn dot_in_range(a: Seq<i32>, b: Seq<i32>, n: int) -> bool {
    forall|k: int| 0 <= k <= n ==> i64::MIN <= #[trigger] dot_sum(a, b, k) <= i64::MAX
}

/// The number of lanes a dot product runs over: those both vectors hold.
pub open spec fn common_len(a: Seq<i32>, b: Seq<i32>) -> int {
    if a.len() < b.len() {
        a.len() as int
    } else {
        b.len() as int
    }
}

/// Accumulate `a[i] * b[i]` for `i < n` in 64 bits.
fn dot_accumulate(a: &[i32], b: &[i32], n: usize) -> (sum: i64)
    requires
        n <= a@.len(),
        n <= b@.len(),
        dot_in_range(a@, b@, n as int),
    ensures
        sum == dot_sum(a@, b@, n as int),
{
    let mut sum: i64 = 0;
    let mut i: usize = 0;
    while i < n
        invariant
            i <= n,
            n <= a@.len(),
            n <= b@.len(),
            dot_in_range(a@, b@, n as int),
            sum == dot_sum(a@, b@, i as int),
        decreases n - i,
    {
        proof {
            crate::types::lemma_i32_product_bounds(a[i as int], b[i as int]);
            let kk: int = i as int + 1;
            assert(i64::MIN <= dot_sum(a@, b@, kk) <= i64::MAX);
        }
        sum = sum + a[i] as i64 * b[i] as i64;
        i = i + 1;
    }
    sum
}

/// Q16.16 dot product over the lanes both vectors hold.
pub fn q16_dot_product_neon(a: &[i32], b: &[i32]) -> (r: i64)
    requires
        dot_in_range(a@, b@, common_len(a@, b@)),
    ensures
        r == dot_sum(a@, b@, common_len(a@, b@)) / 65536,
{
    let len: usize = if a.len() < b.len() {
        a.len()
    } else {
        b.len()
    };
    let sum: i64 = dot_accumulate(a, b, len);
    proof {
        assert(sum >> 16u64 == sum / 65536) by (bit_vector);
    }
    sum >> 16
}

/// A sum of squares is never negative.
pub proof fn lemma_dot_self_nonneg(a: Seq<i32>, k: int)
    ensures
        dot_sum(a, a, k) >= 0,
    decreases k,
{
    if k > 0 {
        lemma_dot_self_nonneg(a, k - 1);
        let v = a[k - 1];
        assert(v * v >= 0) by (nonlinear_arith);
    }
}

/// Q16.16 cosine similarity of two embeddings: the Q16.16 dot product, scaled
/// by 2^16, divided by the floor square root of the product of the two
/// Q16.16 norms, rounded toward zero and kept to 32 bits (identical vectors
/// give 1.0, that is 65536); 0 when that root is 0.
pub open spec fn cosine_q16(a: Seq<i32>, b: Seq<i32>) -> i32 {
    let d = dot_sum(a, b, EMBEDDING_DIM as int) / 65536;
    let na = dot_sum(a, a, EMBEDDING_DIM as int) / 65536;
    let nb = dot_sum(b, b, EMBEDDING_DIM as int) / 65536;
    let den = isqrt((na * nb) as nat);
    if den > 0 {
        trunc_div(d * 65536, den as int) as i32
    } else {
        0
    }
}

/// Floor square root of a 128-bit value by Newton's iteration from a
/// starting point `x0` whose successor squared lies above it.
fn isqrt_u128_from(n: u128, x0: u128) -> (r: u64)
    requires
        n >= 1,
        1 <= x0 <= 0x1_0000_0000_0000_0000,
        n < (x0 + 1) * (x0 + 1),
    ensures
        r == isqrt(n as nat),
{
    proof {
        lemma_newton_descent_isqrt(n as nat, x0 as nat);
    }
    let mut x: u128 = x0;
    loop
        invariant
            1 <= x <= 0x1_0000_0000_0000_0000,
            n >= 1,
            n < (x + 1) * (x + 1),
            newton_descent(n as nat, x as nat) == isqrt(n as nat),
        decreases x,
    {
        proof {
            lemma_quotient_bound(n as nat, x as nat);
        }
        let q: u128 = n / x;
        let s: u128 = x + q;
        let x1: u128 = s / 2;
        assert(x1 == newton_step(n as nat, x as nat));
        if x1 >= x {
            proof {
                lemma_newton_stop(n as nat, x as nat);
                lemma_isqrt_unique(n as nat, x as nat);
                assert(x < 0x1_0000_0000_0000_0000) by (nonlinear_arith)
                    requires
                        x * x <= n,
                        n <= u128::MAX,
                        x >= 1,
                ;
            }
            return x as u64;
        }
        proof {
            lemma_newton_step_positive(n as nat, x as nat);
            lemma_newton_step_above(n as nat, x as nat);
        }
        x = x1;
    }
}

/// Scalar cosine similarity in Q16.16.
pub fn q16_cosine_similarity_neon(a: &[i32; EMBEDDING_DIM], b: &[i32; EMBEDDING_DIM]) -> (r: i32)
    requires
        dot_in_range(a@, b@, EMBEDDING_DIM as int),
        dot_in_range(a@, a@, EMBEDDING_DIM as int),
        dot_in_range(b@, b@, EMBEDDING_DIM as int),
    ensures
        r == cosine_q16(a@, b@),
{
    let dot: i64 = dot_accumulate(a, b, EMBEDDING_DIM);
    let norm_a: i64 = dot_accumulate(a, a, EMBEDDING_DIM);
    let norm_b: i64 = dot_accumulate(b, b, EMBEDDING_DIM);
    proof {
        lemma_dot_self_nonneg(a@, EMBEDDING_DIM as int);
        lemma_dot_self_nonneg(b@, EMBEDDING_DIM as int);
        assert(dot >> 16u64 == dot / 65536) by (bit_vector);
        assert(norm_a >> 16u64 == norm_a / 65536) by (bit_vector);
        assert(norm_b >> 16u64 == norm_b / 65536) by (bit_vector);
    }
    let dot_q16: i64 = dot >> 16;
    let norm_a_q16: i64 = norm_a >> 16;
    let norm_b_q16: i64 = norm_b >> 16;

    let norm_a_sqrt: u32 = fast_isqrt_64(norm_a_q16 as u64);
    let norm_b_sqrt: u32 = fast_isqrt_64(norm_b_q16 as u64);
    let ghost na: int = norm_a_q16 as int;
    let ghost nb: int = norm_b_q16 as int;
    proof {
        let sa = norm_a_sqrt as int;
        let sb = norm_b_sqrt as int;
        assert(sa < 0x100_0000) by (nonlinear_arith)
            requires
                sa * sa <= na,
                na < 0x8000_0000_0000,
                sa >= 0,
        ;
        assert(sb < 0x100_0000) by (nonlinear_arith)
            requires
                sb * sb <= nb,
                nb < 0x8000_0000_0000,
                sb >= 0,
        ;
        assert(0 <= na * nb < (sa + 1) * (sb + 1) * ((sa + 1) * (sb + 1))) by (nonlinear_arith)
            requires
                0 <= na < (sa + 1) * (sa + 1),
                0 <= nb < (sb + 1) * (sb + 1),
                sa >= 0,
                sb >= 0,
        ;
        assert((sa + 1) * (sb + 1) <= 0x1_0000_0000_0000) by (nonlinear_arith)
            requires
                0 <= sa < 0x100_0000,
                0 <= sb < 0x100_0000,
        ;
        assert(na * nb < 0x1_0000_0000_0000_0000_0000_0000) by (nonlinear_arith)
            requires
                0 <= na < 0x8000_0000_0000,
                0 <= nb < 0x8000_0000_0000,
        ;
    }
    // Floor root of the product of the norms, computed in 128 bits.
    let norm_product: u128 = norm_a_q16 as u128 * norm_b_q16 as u128;
    let denom_root: u64 = if norm_product == 0 {
        proof {
            assert(isqrt(0) == 0);
        }
        0
    } else {
        let start: u128 = (norm_a_sqrt as u128 + 1) * (norm_b_sqrt as u128 + 1);
        proof {
            let x0 = start as int;
            assert(x0 >= 1) by (nonlinear_arith)
                requires
                    x0 == (norm_a_sqrt as int + 1) * (norm_b_sqrt as int + 1),
                    norm_a_sqrt >= 0,
                    norm_b_sqrt >= 0,
            ;
            assert(x0 * x0 <= (x0 + 1) * (x0 + 1)) by (nonlinear_arith)
                requires
                    x0 >= 0,
            ;
        }
        isqrt_u128_from(norm_product, start)
    };
    proof {
        lemma_isqrt(norm_product as nat);
        let r = denom_root as int;
        assert(r < 0x1_0000_0000_0000) by (nonlinear_arith)
            requires
                r * r <= na * nb,
                na * nb < 0x1_0000_0000_0000_0000_0000_0000,
                r >= 0,
        ;
    }
    let denom: i64 = denom_root as i64;
    proof {
        assert(dot_q16 << 16u64 == (dot_q16 * 65536) as i64) by (bit_vector);
    }
    if denom > 0 {
        let num: i64 = dot_q16 << 16;
        assert(num == dot_q16 * 65536);
        (num / denom) as i32
    } else {
        0
    }
}

proof fn lemma_dot_sum_symmetric(a: Seq<i32>, b: Seq<i32>, k: int)
    ensures
        dot_sum(a, b, k) == dot_sum(b, a, k),
    decreases k,
{
    if k > 0 {
        lemma_dot_sum_symmetric(a, b, k - 1);
        assert(a[k - 1] * b[k - 1] == b[k - 1] * a[k - 1]) by (nonlinear_arith);
    }
}

/// The Q16.16 dot product does not depend on the order of its arguments.
pub proof fn law_dot_product_symmetric(a: Seq<i32>, b: Seq<i32>)
    ensures
        dot_sum(a, b, common_len(a, b)) / 65536 == dot_sum(b, a, common_len(b, a)) / 65536,
{
    lemma_dot_sum_symmetric(a, b, common_len(a, b));
}

/// Cosine similarity does not depend on the order of its arguments.
pub proof fn law_cosine_symmetric(a: Seq<i32>, b: Seq<i32>)
    ensures
        cosine_q16(a, b) == cosine_q16(b, a),
{
    lemma_dot_sum_symmetric(a, b, EMBEDDING_DIM as int);
    let na: int = dot_sum(a, a, EMBEDDING_DIM as int) / 65536;
    let nb: int = dot_sum(b, b, EMBEDDING_DIM as int) / 65536;
    assert(na * nb == nb * na) by (nonlinear_arith);
}

/// Orthogonal embeddings, whose products sum to zero, have similarity 0.
pub proof fn law_cosine_orthogonal(a: Seq<i32>, b: Seq<i32>)
    requires
        dot_sum(a, b, EMBEDDING_DIM as int) == 0,
    ensures
        cosine_q16(a, b) == 0,
{
    let na: int = dot_sum(a, a, EMBEDDING_DIM as int) / 65536;
    let nb: int = dot_sum(b, b, EMBEDDING_DIM as int) / 65536;
    let den: nat = isqrt((na * nb) as nat);
    if den > 0 {
        assert(trunc_div(0, den as int) == 0);
    }
}

proof fn lemma_dot_sum_negated(a: Seq<i32>, b: Seq<i32>, k: int)
    requires
        forall|i: int| 0 <= i < k ==> #[trigger] b[i] == -a[i],
    ensures
        dot_sum(a, b, k) == -dot_sum(a, a, k),
        dot_sum(b, b, k) == dot_sum(a, a, k),
    decreases k,
{
    if k > 0 {
        lemma_dot_sum_negated(a, b, k - 1);
        let x = a[k - 1] as int;
        assert(b[k - 1] == -x);
        assert(x * (-x) == -(x * x) && (-x) * (-x) == x * x) by (nonlinear_arith);
    }
}

/// An embedding with a nonzero Q16.16 norm is similar to itself with
/// exactly 1.0 (65536).
pub proof fn law_cosine_self(a: Seq<i32>)
    requires
        dot_sum(a, a, EMBEDDING_DIM as int) / 65536 > 0,
    ensures
        cosine_q16(a, a) == 65536,
{
    let n = dot_sum(a, a, EMBEDDING_DIM as int) / 65536;
    assert(n * n < (n + 1) * (n + 1)) by (nonlinear_arith)
        requires
            n > 0,
    ;
    lemma_isqrt_unique((n * n) as nat, n as nat);
    assert(trunc_div(n * 65536, n) == 65536) by (nonlinear_arith)
        requires
            n > 0,
    {
        assert((n * 65536) / n == 65536) by (nonlinear_arith)
            requires
                n > 0,
        ;
    }
}

/// Opposite embeddings (`b = -a`) have similarity -1.0: exactly -65536
/// when the squared norm is a multiple of 2^16, and otherwise between
/// -2.0 and -1.0, the Q16.16 dot product being rounded down.
pub proof fn law_cosine_opposite(a: Seq<i32>, b: Seq<i32>)
    requires
        a.len() == EMBEDDING_DIM,
        b.len() == EMBEDDING_DIM,
        forall|i: int| 0 <= i < EMBEDDING_DIM ==> #[trigger] b[i] == -a[i],
        dot_sum(a, a, EMBEDDING_DIM as int) / 65536 > 0,
    ensures
        -131072 <= cosine_q16(a, b) <= -65536,
        dot_sum(a, a, EMBEDDING_DIM as int) % 65536 == 0 ==> cosine_q16(a, b) == -65536,
{
    let dim = EMBEDDING_DIM as int;
    lemma_dot_sum_negated(a, b, dim);
    let big_n = dot_sum(a, a, dim);
    let n = big_n / 65536;
    assert(n * n < (n + 1) * (n + 1)) by (nonlinear_arith)
        requires
            n > 0,
    ;
    lemma_isqrt_unique((n * n) as nat, n as nat);
    let d = (-big_n) / 65536;
    assert(d == -n || (d == -n - 1 && big_n % 65536 != 0));
    let c = -d;
    assert(n <= c <= n + 1);
    assert(c * 65536 > 0) by (nonlinear_arith)
        requires
            c >= 1,
    ;
    assert(trunc_div(d * 65536, n) == -((c * 65536) / n)) by {
        assert(d * 65536 == -(c * 65536));
    }
    assert(65536 <= (c * 65536) / n <= 131072) by (nonlinear_arith)
        requires
            n >= 1,
            n <= c <= n + 1,
    {
        assert(n * 65536 <= c * 65536 <= n * 65536 + 65536);
        assert(c * 65536 <= 2 * n * 65536);
        vstd::arithmetic::div_mod::lemma_div_is_ordered(n * 65536, c * 65536, n);
        vstd::arithmetic::div_mod::lemma_div_is_ordered(c * 65536, 2 * n * 65536, n);
        vstd::arithmetic::div_mod::lemma_div_multiples_vanish(65536, n);
        vstd::arithmetic::div_mod::lemma_div_multiples_vanish(131072, n);
    }
    if big_n % 65536 == 0 {
        assert(c == n);
        vstd::arithmetic::div_mod::lemma_div_multiples_vanish(65536, n);
        assert((n * 65536) / n == 65536) by (nonlinear_arith)
            requires
                n > 0,
        {
            vstd::arithmetic::div_mod::lemma_div_multiples_vanish(65536, n);
        }
    }
}

/// Sum over the first `k` lanes of `(x * b[i] - y * a[i])^2`.
spec fn cross_square_sum(a: Seq<i32>, b: Seq<i32>, x: int, y: int, k: int) -> int
    decreases k,
{
    if k <= 0 {
        0
    } else {
        let t = x * b[k - 1] - y * a[k - 1];
        cross_square_sum(a, b, x, y, k - 1) + t * t
    }
}

proof fn lemma_cross_square_sum(a: Seq<i32>, b: Seq<i32>, x: int, y: int, k: int)
    ensures
        cross_square_sum(a, b, x, y, k) == x * x * dot_sum(b, b, k) - 2 * x * y * dot_sum(a, b, k)
            + y * y * dot_sum(a, a, k),
        cross_square_sum(a, b, x, y, k) >= 0,
    decreases k,
{
    if k > 0 {
        lemma_cross_square_sum(a, b, x, y, k - 1);
        let p = a[k - 1] as int;
        let q = b[k - 1] as int;
        let u = x * q;
        let v = y * p;
        let t = u - v;
        assert(t * t == u * u - 2 * (u * v) + v * v) by (nonlinear_arith)
            requires
                t == u - v,
        ;
        assert(t * t >= 0) by (nonlinear_arith);
        assert(u * u == x * x * (q * q)) by (nonlinear_arith)
            requires
                u == x * q,
        ;
        assert(v * v == y * y * (p * p)) by (nonlinear_arith)
            requires
                v == y * p,
        ;
        assert(u * v == x * y * (p * q)) by (nonlinear_arith)
            requires
                u == x * q,
                v == y * p,
        ;
        assert(2 * x * y * (p * q) == 2 * (x * y * (p * q))) by (nonlinear_arith);
        assert(cross_square_sum(a, b, x, y, k) == cross_square_sum(a, b, x, y, k - 1) + t * t);
        assert(x * x * (dot_sum(b, b, k - 1) + q * q) == x * x * dot_sum(b, b, k - 1) + x * x * (q
            * q)) by (nonlinear_arith);
        assert(2 * x * y * (dot_sum(a, b, k - 1) + p * q) == 2 * x * y * dot_sum(a, b, k - 1) + 2
            * x * y * (p * q)) by (nonlinear_arith);
        assert(y * y * (dot_sum(a, a, k - 1) + p * p) == y * y * dot_sum(a, a, k - 1) + y * y * (p
            * p)) by (nonlinear_arith);
    }
}

/// Cauchy-Schwarz over the first `k` lanes.
proof fn lemma_cauchy_schwarz(a: Seq<i32>, b: Seq<i32>, k: int)
    ensures
        dot_sum(a, b, k) * dot_sum(a, b, k) <= dot_sum(a, a, k) * dot_sum(b, b, k),
    decreases k,
{
    if k > 0 {
        lemma_cauchy_schwarz(a, b, k - 1);
        let p = a[k - 1] as int;
        let q = b[k - 1] as int;
        lemma_cross_square_sum(a, b, p, q, k - 1);
        let aa = dot_sum(a, a, k - 1);
        let bb = dot_sum(b, b, k - 1);
        let ab = dot_sum(a, b, k - 1);
        let pq = p * q;
        let pp = p * p;
        let qq = q * q;
        assert(pq * pq == pp * qq) by (nonlinear_arith)
            requires
                pq == p * q,
                pp == p * p,
                qq == q * q,
        ;
        assert(p * p * bb - 2 * p * q * ab + q * q * aa == pp * bb - 2 * (pq * ab) + qq * aa)
            by (nonlinear_arith)
            requires
                pq == p * q,
                pp == p * p,
                qq == q * q,
        ;
        assert((ab + pq) * (ab + pq) == ab * ab + 2 * (pq * ab) + pq * pq) by (nonlinear_arith);
        assert((aa + pp) * (bb + qq) == aa * bb + pp * bb + qq * aa + pp * qq) by (nonlinear_arith);
        assert(dot_sum(a, b, k) == ab + pq);
        assert(dot_sum(a, a, k) == aa + pp);
        assert(dot_sum(b, b, k) == bb + qq);
    }
}

/// Cosine similarity has the sign of the Q16.16 dot product (the dot
/// product rounded down to Q16.16) and lies within [-4.0, 4.0]: negative for
/// embeddings pointing apart, positive for embeddings pointing together, 0
/// when either Q16.16 norm or the Q16.16 dot product is 0.
pub proof fn law_cosine_sign(a: Seq<i32>, b: Seq<i32>)
    ensures
        dot_sum(a, b, EMBEDDING_DIM as int) < 0 ==> cosine_q16(a, b) <= 0,
        dot_sum(a, b, EMBEDDING_DIM as int) >= 65536 ==> cosine_q16(a, b) >= 0,
        0 <= dot_sum(a, b, EMBEDDING_DIM as int) < 65536 ==> cosine_q16(a, b) == 0,
        -262144 <= cosine_q16(a, b) <= 262144,
{
    let dim = EMBEDDING_DIM as int;
    let big_a = dot_sum(a, a, dim);
    let big_b = dot_sum(b, b, dim);
    let big_c = dot_sum(a, b, dim);
    lemma_dot_self_nonneg(a, dim);
    lemma_dot_self_nonneg(b, dim);
    lemma_cauchy_schwarz(a, b, dim);
    let na = big_a / 65536;
    let nb = big_b / 65536;
    let d = big_c / 65536;
    assert(na * nb >= 0) by (nonlinear_arith)
        requires
            na >= 0,
            nb >= 0,
    ;
    let den = isqrt((na * nb) as nat) as int;
    if den > 0 {
        lemma_isqrt((na * nb) as nat);
        assert(na >= 1 && nb >= 1) by (nonlinear_arith)
            requires
                den * den <= na * nb,
                den >= 1,
                na >= 0,
                nb >= 0,
        ;
        let m: int = if d < 0 {
            -d
        } else {
            d
        };
        // |d| <= 2 den + 2, by Cauchy-Schwarz.
        assert(big_c * big_c >= 65536 * 65536 * ((m - 1) * (m - 1)) || m == 0) by (nonlinear_arith)
            requires
                65536 * d <= big_c < 65536 * d + 65536,
                m == (if d < 0 {
                    -d
                } else {
                    d
                }),
        ;
        assert(big_a * big_b < 65536 * 65536 * (4 * (den + 1) * (den + 1))) by (nonlinear_arith)
            requires
                0 <= big_a < 65536 * na + 65536,
                0 <= big_b < 65536 * nb + 65536,
                na >= 1,
                nb >= 1,
                na * nb < (den + 1) * (den + 1),
        {
            assert(big_a * big_b < (65536 * na + 65536) * (65536 * nb + 65536)) by (
            nonlinear_arith)
                requires
                    0 <= big_a < 65536 * na + 65536,
                    0 <= big_b < 65536 * nb + 65536,
            ;
            assert((na + 1) * (nb + 1) <= 4 * (na * nb)) by (nonlinear_arith)
                requires
                    na >= 1,
                    nb >= 1,
            ;
            assert((65536 * na + 65536) * (65536 * nb + 65536) == 65536 * 65536 * ((na + 1) * (nb
                + 1))) by (nonlinear_arith);
        }
        assert(m <= 2 * den + 2) by (nonlinear_arith)
            requires
                big_c * big_c >= 65536 * 65536 * ((m - 1) * (m - 1)) || m == 0,
                big_c * big_c <= big_a * big_b,
                big_a * big_b < 65536 * 65536 * (4 * (den + 1) * (den + 1)),
                m >= 0,
                den >= 1,
        ;
        let t = trunc_div(d * 65536, den);
        assert((m * 65536) / den <= 262144) by (nonlinear_arith)
            requires
                0 <= m <= 2 * den + 2,
                den >= 1,
        {
            assert(m * 65536 <= 262144 * den);
            vstd::arithmetic::div_mod::lemma_div_is_ordered(m * 65536, 262144 * den, den);
            vstd::arithmetic::div_mod::lemma_div_multiples_vanish(262144, den);
        }
        assert((m * 65536) / den >= 0) by (nonlinear_arith)
            requires
                m >= 0,
                den >= 1,
        ;
        if d < 0 {
            assert(d * 65536 == -(m * 65536));
            assert(t == -((m * 65536) / den));
        } else {
            assert(d * 65536 == m * 65536);
            assert(t == (m * 65536) / den);
            if big_c < 65536 {
                assert(d == 0);
                assert(t == 0);
            }
        }
    }
}

// ============================================
// LPC filter
// ============================================

/// Q16.16 LPC synthesis filter: runs the all-pole filter over `excitation`
/// into `output`, for as many samples as both hold; the rest of `output` is
/// left as it was.
pub fn q16_lpc_filter_neon(coeffs: &[i32], gain: i32, excitation: &[i32], output: &mut [i32])
    requires
        filter_in_range(
            coeffs@,
            gain,
            excitation@,
            if excitation@.len() < old(output)@.len() {
                excitation@.len()
            } else {
                old(output)@.len()
            },
        ),
    ensures
        ({
            let n = if excitation@.len() < old(output)@.len() {
                excitation@.len()
            } else {
                old(output)@.len()
            };
            &&& final(output)@.len() == old(output)@.len()
            &&& final(output)@.subrange(0, n as int) == filter_output(
                coeffs@,
                gain,
                excitation@,
                n,
            )
            &&& final(output)@.subrange(n as int, old(output)@.len() as int) == old(
                output,
            )@.subrange(n as int, old(output)@.len() as int)
        }),
{
    let order: usize = coeffs.len();
    let n: usize = if excitation.len() < output.len() {
        excitation.len()
    } else {
        output.len()
    };
    let ghost c = coeffs@;
    let ghost x = excitation@;
    let mut i: usize = 0;
    while i < n
        invariant
            n <= excitation@.len(),
            n <= output@.len(),
            output@.len() == old(output)@.len(),
            i <= n,
            order == c.len(),
            c == coeffs@,
            x == excitation@,
            filter_in_range(c, gain, x, n as nat),
            output@.subrange(0, i as int) == filter_output(c, gain, x, i as nat),
            output@.subrange(n as int, output@.len() as int) == old(output)@.subrange(
                n as int,
                old(output)@.len() as int,
            ),
        decreases n - i,
    {
        let ghost y = output@.subrange(0, i as int);
        let mut sample: i32 = q16_mul(gain, excitation[i]);
        let taps: usize = if order < i {
            order
        } else {
            i
        };
        proof {
            assert(filter_acc(c, gain, x, y, i as int, 0) == sample);
        }
        let mut j: usize = 0;
        while j < taps
            invariant
                i < n,
                n <= excitation@.len(),
                n <= output@.len(),
                j <= taps,
                taps == filter_taps(order as int, i as int),
                order == c.len(),
                c == coeffs@,
                x == excitation@,
                filter_in_range(c, gain, x, n as nat),
                y == filter_output(c, gain, x, i as nat),
                output@.subrange(0, i as int) == y,
                sample == filter_acc(c, gain, x, y, i as int, j as int),
            decreases taps - j,
        {
            proof {
                assert(0 <= j + 1 <= filter_taps(c.len() as int, i as int));
                let ii: int = i as int;
                let mm: int = j + 1;
                assert(i32::MIN <= filter_acc(c, gain, x, filter_output(c, gain, x, ii as nat), ii, mm)
                    <= i32::MAX);
                assert(output@[i - 1 - j] == y[i - 1 - j]);
            }
            sample = q16_mac(sample, coeffs[j], output[i - 1 - j]);
            j = j + 1;
        }
        output[i] = sample;
        proof {
            lemma_filter_output_len(c, gain, x, i as nat);
            assert(output@.subrange(0, i as int + 1) =~= y.push(sample));
            assert(output@.subrange(n as int, output@.len() as int) =~= old(output)@.subrange(
                n as int,
                old(output)@.len() as int,
            ));
        }
        i = i + 1;
    }
}

} // verus!

