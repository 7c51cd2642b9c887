//! The CDF 5/3 integer lifting wavelet (JPEG 2000 lossless), stated as spec
//! functions, and the facts the compression pipeline rests on: the inverse
//! undoes the forward transform exactly, and the forward transform at most
//! doubles the magnitude bound of its input.
//!
//! Forward: every odd sample is predicted from its two even neighbours,
//! `d = o + round(-2048 * (e_l + e_r) / 4096)`; then every even sample that
//! has an odd sample after it is updated from its two odd neighbours,
//! `s = e + round(1024 * (d_l + d_r) / 4096)`, with mirrored boundaries; and
//! the result is reordered into `[low band..., high band...]`. The inverse
//! interleaves the bands again and subtracts the same rounded deltas in the
//! opposite order.
use vstd::prelude::*;

verus! {

/// Magnitude bound of the integer lifting: inside it neither the forward nor
/// the inverse CDF 5/3 transform overflows `i32`.
pub const LIFTING_BOUND: i32 = 0x2000_0000;

/// Every sample lies strictly inside `(-LIFTING_BOUND, LIFTING_BOUND)`.
pub open spec fn within_lifting_range(s: Seq<i32>) -> bool {
    forall|i: int| 0 <= i < s.len() ==> -LIFTING_BOUND < #[trigger] s[i] < LIFTING_BOUND
}

/// `round(coeff * sum / 4096)`, ties rounded upward.
pub open spec fn lift_delta(sum: int, coeff: int) -> int {
    (sum * coeff + 2048) / 4096
}

/// The right even neighbour of the odd sample `2i + 1`, mirrored at the end.
pub open spec fn even_right(x: Seq<i32>, i: int) -> int {
    if 2 * i + 2 < x.len() {
        x[2 * i + 2] as int
    } else {
        x[2 * i] as int
    }
}

/// The left odd neighbour of the even sample `2i`, mirrored at the start.
pub open spec fn odd_left(x: Seq<i32>, i: int) -> int {
    if i > 0 {
        x[2 * i - 1] as int
    } else {
        x[2 * i + 1] as int
    }
}

/// The predict step, adding (`sign == 1`) or taking back (`sign == -1`) the
/// rounded delta of every odd sample.
pub open spec fn cdf53_predict(x: Seq<i32>, sign: int) -> Seq<i32> {
    Seq::new(
        x.len(),
        |k: int|
            if k % 2 == 1 {
                (x[k] + sign * lift_delta(x[k - 1] + even_right(x, k / 2), -2048)) as i32
            } else {
                x[k]
            },
    )
}

/// The update step, adding or taking back the rounded delta of every even
/// sample that has an odd sample after it.
pub open spec fn cdf53_update(x: Seq<i32>, sign: int) -> Seq<i32> {
    Seq::new(
        x.len(),
        |k: int|
            if k % 2 == 0 && k + 1 < x.len() {
                (x[k] + sign * lift_delta(x[k + 1] + odd_left(x, k / 2), 1024)) as i32
            } else {
                x[k]
            },
    )
}

/// Length of the low band: the even samples, `ceil(n / 2)`.
pub open spec fn low_band_len(n: nat) -> int {
    n - n / 2
}

/// `[e0, o0, e1, o1, ...]` reordered into `[e0, e1, ..., o0, o1, ...]`.
pub open spec fn deinterleaved(x: Seq<i32>) -> Seq<i32> {
    Seq::new(
        x.len(),
        |j: int|
            if j < low_band_len(x.len()) {
                x[2 * j]
            } else {
                x[2 * (j - low_band_len(x.len())) + 1]
            },
    )
}

/// `[e0, e1, ..., o0, o1, ...]` reordered into `[e0, o0, e1, o1, ...]`.
pub open spec fn interleaved(y: Seq<i32>) -> Seq<i32> {
    Seq::new(
        y.len(),
        |k: int|
            if k % 2 == 0 {
                y[k / 2]
            } else {
                y[low_band_len(y.len()) + k / 2]
            },
    )
}

/// The forward CDF 5/3 transform; signals shorter than 2 stay as they are.
pub open spec fn cdf53_forward(signal: Seq<i32>) -> Seq<i32> {
    if signal.len() < 2 {
        signal
    } else {
        deinterleaved(cdf53_update(cdf53_predict(signal, 1), 1))
    }
}

/// The inverse CDF 5/3 transform; sequences shorter than 2 stay as they are.
pub open spec fn cdf53_inverse(coeffs: Seq<i32>) -> Seq<i32> {
    if coeffs.len() < 2 {
        coeffs
    } else {
        cdf53_predict(cdf53_update(interleaved(coeffs), -1), -1)
    }
}

proof fn lemma_predict_delta_bound(s: int)
    requires
        -0x4000_0000 < s < 0x4000_0000,
    ensures
        -0x2000_0000 < lift_delta(s, -2048) <= 0x2000_0000,
{
    assert(-0x2000_0000 < lift_delta(s, -2048) <= 0x2000_0000) by (nonlinear_arith)
        requires
            -0x4000_0000 < s < 0x4000_0000,
    {
    }
}

proof fn lemma_update_delta_bound(s: int)
    requires
        -0x8000_0000 < s < 0x8000_0000,
    ensures
        -0x2000_0000 <= lift_delta(s, 1024) <= 0x2000_0000,
{
    assert(-0x2000_0000 <= lift_delta(s, 1024) <= 0x2000_0000) by (nonlinear_arith)
        requires
            -0x8000_0000 < s < 0x8000_0000,
    {
    }
}

/// Interleaving undoes deinterleaving.
proof fn lemma_interleave_deinterleave(x: Seq<i32>)
    ensures
        interleaved(deinterleaved(x)) == x,
{
    let f = deinterleaved(x);
    let v = interleaved(f);
    let low = low_band_len(x.len());
    assert forall|k: int| 0 <= k < x.len() implies #[trigger] v[k] == x[k] by {
        if k % 2 == 0 {
            assert(k / 2 < low);
            assert(2 * (k / 2) == k);
        } else {
            assert(low + k / 2 >= low);
            assert(low + k / 2 < x.len());
            assert(2 * (k / 2) + 1 == k);
        }
    }
    assert(v =~= x);
}

/// Taking back the predict deltas restores the signal, wherever adding them
/// stayed inside `i32`.
proof fn lemma_predict_undone(x: Seq<i32>)
    requires
        forall|k: int|
            #![trigger x[k]]
            0 <= k < x.len() && k % 2 == 1 ==> i32::MIN <= x[k] + lift_delta(
                x[k - 1] + even_right(x, k / 2),
                -2048,
            ) <= i32::MAX,
    ensures
        cdf53_predict(cdf53_predict(x, 1), -1) == x,
{
    let p = cdf53_predict(x, 1);
    let z = cdf53_predict(p, -1);
    assert forall|k: int| 0 <= k < x.len() implies #[trigger] z[k] == x[k] by {
        if k % 2 == 1 {
            let i = k / 2;
            assert(2 * i + 1 == k);
            assert((k - 1) % 2 == 0);
            assert(p[k - 1] == x[k - 1]);
            if 2 * i + 2 < x.len() {
                assert((2 * i + 2) % 2 == 0);
                assert(p[2 * i + 2] == x[2 * i + 2]);
            } else {
                assert((2 * i) % 2 == 0);
            }
            assert(even_right(p, i) == even_right(x, i));
        }
    }
    assert(z =~= x);
}

/// Taking back the update deltas restores the signal, wherever adding them
/// stayed inside `i32`.
proof fn lemma_update_undone(x: Seq<i32>)
    requires
        forall|k: int|
            #![trigger x[k]]
            0 <= k && k + 1 < x.len() && k % 2 == 0 ==> i32::MIN <= x[k] + lift_delta(
                x[k + 1] + odd_left(x, k / 2),
                1024,
            ) <= i32::MAX,
    ensures
        cdf53_update(cdf53_update(x, 1), -1) == x,
{
    let u = cdf53_update(x, 1);
    let w = cdf53_update(u, -1);
    assert forall|k: int| 0 <= k < x.len() implies #[trigger] w[k] == x[k] by {
        if k % 2 == 0 && k + 1 < x.len() {
            let i = k / 2;
            assert(2 * i == k);
            assert((k + 1) % 2 == 1);
            assert(u[k + 1] == x[k + 1]);
            if i > 0 {
                assert((2 * i - 1) % 2 == 1);
                assert(u[2 * i - 1] == x[2 * i - 1]);
            }
            assert(odd_left(u, i) == odd_left(x, i));
        }
    }
    assert(w =~= x);
}

/// The inverse transform gives back every signal inside the lifting bound,
/// and the forward transform keeps its length and stays within twice the
/// bound.
pub proof fn law_cdf53_roundtrip(x: Seq<i32>)
    requires
        within_lifting_range(x),
    ensures
        cdf53_forward(x).len() == x.len(),
        cdf53_inverse(cdf53_forward(x)) == x,
        forall|i: int|
            0 <= i < x.len() ==> -2 * LIFTING_BOUND <= #[trigger] cdf53_forward(x)[i] <= 2
                * LIFTING_BOUND,
{
    if x.len() >= 2 {
        let p = cdf53_predict(x, 1);
        assert forall|k: int| #![trigger x[k]] 0 <= k < x.len() && k % 2 == 1 implies -0x4000_0000 < x[k]
            + lift_delta(x[k - 1] + even_right(x, k / 2), -2048) < 0x4000_0000 by {
            assert(-LIFTING_BOUND < x[k] < LIFTING_BOUND);
            assert(-LIFTING_BOUND < x[k - 1] < LIFTING_BOUND);
            let i = k / 2;
            if 2 * i + 2 < x.len() {
                assert(-LIFTING_BOUND < x[2 * i + 2] < LIFTING_BOUND);
            } else {
                assert(-LIFTING_BOUND < x[2 * i] < LIFTING_BOUND);
            }
            lemma_predict_delta_bound(x[k - 1] + even_right(x, i));
        }
        assert forall|k: int| 0 <= k < p.len() implies -0x4000_0000 < #[trigger] p[k]
            < 0x4000_0000 by {
            if k % 2 == 0 {
                assert(-LIFTING_BOUND < x[k] < LIFTING_BOUND);
            }
        }
        lemma_predict_undone(x);
        let u = cdf53_update(p, 1);
        assert forall|k: int| #![trigger p[k]] 0 <= k && k + 1 < p.len() && k % 2 == 0 implies -0x4000_0000 <= p[k]
            + lift_delta(p[k + 1] + odd_left(p, k / 2), 1024) <= 0x4000_0000 by {
            assert(-LIFTING_BOUND < x[k] < LIFTING_BOUND);
            assert(p[k] == x[k]);
            let i = k / 2;
            assert(-0x4000_0000 < p[k + 1] < 0x4000_0000);
            if i > 0 {
                assert(-0x4000_0000 < p[2 * i - 1] < 0x4000_0000);
            }
            lemma_update_delta_bound(p[k + 1] + odd_left(p, i));
        }
        assert forall|k: int| 0 <= k < u.len() implies -0x4000_0000 <= #[trigger] u[k]
            <= 0x4000_0000 by {
            assert(-0x4000_0000 < p[k] < 0x4000_0000);
        }
        lemma_update_undone(p);
        lemma_interleave_deinterleave(u);
        let f = deinterleaved(u);
        assert forall|j: int| 0 <= j < x.len() implies -2 * LIFTING_BOUND <= #[trigger] f[j] <= 2
            * LIFTING_BOUND by {
            let low = low_band_len(u.len());
            if j < low {
                assert(-0x4000_0000 <= u[2 * j] <= 0x4000_0000);
            } else {
                assert(-0x4000_0000 <= u[2 * (j - low) + 1] <= 0x4000_0000);
            }
        }
    }
}

} // verus!
