use alice_voice::codec::lpc::lpc_fixed;
use alice_voice::codec::lpc::LpcCoefficientsFixed;

#[test]
fn test_lpc_fixed_point() {
    let samples: Vec<i32> = vec![100, 200, 150, 180, 120, 160, 140, 170];
    let r = lpc_fixed::autocorrelation_fixed(&samples, 4);
    assert_eq!(r.len(), 5);
    assert!(r[0] > 0);

    let coeffs = lpc_fixed::levinson_durbin_fixed(&r, 4).unwrap();
    assert_eq!(coeffs.coeffs.len(), 4);
}

#[test]
fn lpc_test_fast_isqrt() {
    assert_eq!(lpc_fixed::fast_isqrt(0), 0);
    assert_eq!(lpc_fixed::fast_isqrt(1), 1);
    assert_eq!(lpc_fixed::fast_isqrt(4), 2);
    assert_eq!(lpc_fixed::fast_isqrt(9), 3);
    assert_eq!(lpc_fixed::fast_isqrt(100), 10);
    assert_eq!(lpc_fixed::fast_isqrt(10000), 100);

    let n = 1_000_000i64;
    let sqrt = lpc_fixed::fast_isqrt(n);
    assert!((sqrt - 1000).abs() <= 1);
}

#[test]
fn lpc_fixed_autocorrelation_lag0_is_energy() {
    let samples: Vec<i32> = vec![100, 200, -100, 50, -200];
    let r = lpc_fixed::autocorrelation_fixed(&samples, 2);
    let expected_energy: i64 = samples.iter().map(|&x| i64::from(x) * i64::from(x)).sum();
    assert_eq!(r[0], expected_energy);
}

#[test]
fn lpc_fixed_autocorrelation_length() {
    let samples: Vec<i32> = vec![1, 2, 3, 4, 5, 6, 7, 8];
    let r = lpc_fixed::autocorrelation_fixed(&samples, 3);
    assert_eq!(r.len(), 4);
}

#[test]
fn lpc_fixed_zero_input_gives_zero_coefficients() {
    let samples: Vec<i32> = vec![0; 16];
    let r = lpc_fixed::autocorrelation_fixed(&samples, 4);
    let result = lpc_fixed::levinson_durbin_fixed(&r, 4).unwrap();
    assert!(result.coeffs.iter().all(|&c| c == 0));
}

#[test]
fn lpc_fixed_q16_mul_commutative() {
    let a = 98_304i32;
    let b = 131_072i32;
    assert_eq!(lpc_fixed::q16_mul(a, b), lpc_fixed::q16_mul(b, a));
}

#[test]
fn lpc_fixed_q16_mac_identity() {
    let acc = 0i32;
    let a = 65536i32;
    let b = 65536i32;
    let result = lpc_fixed::q16_mac(acc, a, b);
    assert!((result - 65536).abs() < 2);
}

#[test]
fn lpc_fixed_synthesize_zero_gain_produces_silence() {
    let coeffs = LpcCoefficientsFixed { coeffs: vec![0; 4], gain: 0 };
    let excitation = vec![65536i32; 64];
    let out = lpc_fixed::synthesize_fixed(&coeffs, &excitation);
    assert!(out.iter().all(|&x| x == 0));
}

#[test]
fn lpc_fixed_synthesize_into_matches_allocating() {
    let samples: Vec<i32> = vec![100, 200, 150, 180, 120, 160, 140, 170, 90, 110];
    let r = lpc_fixed::autocorrelation_fixed(&samples, 4);
    let coeffs = lpc_fixed::levinson_durbin_fixed(&r, 4).unwrap();
    let excitation = vec![1000i32; 32];

    let out_alloc = lpc_fixed::synthesize_fixed(&coeffs, &excitation);
    let mut out_into = vec![0i32; 32];
    lpc_fixed::synthesize_fixed_into(&coeffs, &excitation, &mut out_into);

    assert_eq!(out_alloc, out_into);
}

#[test]
fn lpc_fixed_fast_isqrt_perfect_squares() {
    assert_eq!(lpc_fixed::fast_isqrt(0), 0);
    assert_eq!(lpc_fixed::fast_isqrt(1), 1);
    assert_eq!(lpc_fixed::fast_isqrt(16), 4);
    assert_eq!(lpc_fixed::fast_isqrt(25), 5);
    assert_eq!(lpc_fixed::fast_isqrt(144), 12);
}

// --- further cases ---

#[test]
fn autocorrelation_exact_lags() {
    let samples: Vec<i32> = vec![1, 2, 3];
    let r = lpc_fixed::autocorrelation_fixed(&samples, 2);
    assert_eq!(r, vec![14, 8, 3]);
    let r_full = lpc_fixed::autocorrelation_fixed(&samples, 3);
    assert_eq!(r_full[3], 0);
}

#[test]
fn levinson_first_reflection_coefficient() {
    // order 1: k = (r[1] << 16) / r[0]; error = r[0] - (k^2 * r[0]) >> 16
    let r: Vec<i64> = vec![4, 2];
    let c = lpc_fixed::levinson_durbin_fixed(&r, 1).unwrap();
    assert_eq!(c.coeffs, vec![32768]);
    // k^2 in Q16 = 16384, error = 4 - (16384 * 4 >> 16) = 3, gain = fast_isqrt(3) = 1
    assert_eq!(c.gain, 1);
}

#[test]
fn levinson_zero_energy_gain_is_zero() {
    let r: Vec<i64> = vec![0, 5, 7];
    let c = lpc_fixed::levinson_durbin_fixed(&r, 2).unwrap();
    assert_eq!(c.coeffs, vec![0, 0]);
    assert_eq!(c.gain, 0);
}

#[test]
fn levinson_stops_when_error_vanishes() {
    // r[1] == r[0]: k = 1.0, error becomes 0 after the first step; the short
    // autocorrelation is never read past the stopping point.
    let r: Vec<i64> = vec![10, 10];
    let c = lpc_fixed::levinson_durbin_fixed(&r, 3).unwrap();
    assert_eq!(c.coeffs, vec![65536, 0, 0]);
    assert_eq!(c.gain, 0);
}

#[test]
fn fast_isqrt_non_squares_and_negative() {
    assert_eq!(lpc_fixed::fast_isqrt(-5), 0);
    assert_eq!(lpc_fixed::fast_isqrt(3), 1);
    assert_eq!(lpc_fixed::fast_isqrt(15), 3);
    assert_eq!(lpc_fixed::fast_isqrt(17), 4);
}

#[test]
fn synthesize_fixed_feedback() {
    // y[0] = g*x[0] = 1.0; y[1] = 0.5 * y[0] = 0.5; y[2] = 0.5 * y[1] = 0.25
    let coeffs = LpcCoefficientsFixed { coeffs: vec![32768], gain: 65536 };
    let excitation = vec![65536, 0, 0];
    let out = lpc_fixed::synthesize_fixed(&coeffs, &excitation);
    assert_eq!(out, vec![65536, 32768, 16384]);
}

#[test]
fn synthesize_fixed_into_short_buffer_is_prefix() {
    let coeffs = LpcCoefficientsFixed { coeffs: vec![32768, -16384], gain: 65536 };
    let excitation = vec![65536, 65536, 0, 0, 0];
    let full = lpc_fixed::synthesize_fixed(&coeffs, &excitation);
    let mut short = vec![7i32; 3];
    lpc_fixed::synthesize_fixed_into(&coeffs, &excitation, &mut short);
    assert_eq!(&short[..], &full[..3]);
    let mut long = vec![7i32; 7];
    lpc_fixed::synthesize_fixed_into(&coeffs, &excitation, &mut long);
    assert_eq!(&long[..5], &full[..]);
    assert_eq!(&long[5..], &[7, 7]);
}

fn floor_sqrt(n: i64) -> i64 {
    let mut s: i64 = (n as f64).sqrt() as i64;
    while s * s > n {
        s -= 1;
    }
    while (s + 1) * (s + 1) <= n {
        s += 1;
    }
    s
}

#[test]
fn fast_isqrt_lands_within_one_of_floor_root() {
    let mut values: Vec<i64> = (4..5000).collect();
    let mut v: i64 = 4;
    while v <= (1i64 << 40) {
        values.push(v - 1);
        values.push(v);
        values.push(v + 1);
        values.push(v + v / 3);
        v *= 2;
    }
    values.push(1i64 << 40);
    values.push(999_999_999_999);
    for n in values {
        if n < 4 || n > (1i64 << 40) {
            continue;
        }
        let r = i64::from(lpc_fixed::fast_isqrt(n));
        let s = floor_sqrt(n);
        assert!(s <= r && r <= s + 1, "n = {}: got {}, floor root {}", n, r, s);
    }
}

#[test]
fn autocorrelation_lags_bounded_by_energy() {
    let samples: Vec<i32> = vec![1, 2, 3, 4, 5, 6, 7, 8];
    let r = lpc_fixed::autocorrelation_fixed(&samples, 3);
    assert_eq!(r, vec![204, 168, 133, 100]);
    for lag in 0..r.len() {
        assert!(r[lag].abs() <= r[0]);
    }

    let alternating: Vec<i32> = vec![3, -3, 3, -3, 3, -3];
    let r = lpc_fixed::autocorrelation_fixed(&alternating, 5);
    assert_eq!(r, vec![54, -45, 36, -27, 18, -9]);
    for lag in 0..r.len() {
        assert!(r[lag].abs() <= r[0]);
    }
}

#[test]
fn levinson_gain_is_root_of_final_error() {
    // With no coefficients to fit, the final error is the energy itself.
    assert_eq!(lpc_fixed::levinson_durbin_fixed(&[100], 0).unwrap().gain, 10);
    assert_eq!(lpc_fixed::levinson_durbin_fixed(&[2], 0).unwrap().gain, 1);
    assert_eq!(lpc_fixed::levinson_durbin_fixed(&[-5], 0).unwrap().gain, 0);
    let g = i64::from(lpc_fixed::levinson_durbin_fixed(&[1_000_000_007], 0).unwrap().gain);
    assert!(g == 31622 || g == 31623);
    let c = lpc_fixed::levinson_durbin_fixed(&[204, 168, 133, 100], 3).unwrap();
    assert!(c.gain >= 0);
}

#[test]
fn fast_isqrt_stays_nonnegative_below_two_to_the_61() {
    assert_eq!(lpc_fixed::fast_isqrt((1i64 << 61) - 1), 1_518_500_249);
    assert_eq!(lpc_fixed::fast_isqrt(1i64 << 60), 1 << 30);
    // Above the bound the four Newton steps can leave i32: (2^31 - 1)^2
    // gives 2147483746, which wraps negative.
    assert!(lpc_fixed::fast_isqrt(((1i64 << 31) - 1) * ((1i64 << 31) - 1)) < 0);
}

#[test]
fn levinson_gain_nonnegative_for_large_energy() {
    assert_eq!(lpc_fixed::levinson_durbin_fixed(&[1i64 << 60], 0).unwrap().gain, 1 << 30);
    let g = lpc_fixed::levinson_durbin_fixed(&[(1i64 << 61) - 1], 0).unwrap().gain;
    assert_eq!(g, 1_518_500_249);
}
