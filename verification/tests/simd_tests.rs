use alice_voice::simd::{
    fast_isqrt_32, fast_isqrt_64, has_neon, q16_cosine_similarity_neon, q16_dot_product_neon,
    q16_lpc_filter_neon, q16_mul, q16_mul_4x_neon,
};
use alice_voice::types::EMBEDDING_DIM;

#[test]
fn test_q16_mul() {
    let a = (2.5 * 65536.0) as i32;
    let b = (4.0 * 65536.0) as i32;
    let result = q16_mul(a, b);
    let expected = (10.0 * 65536.0) as i32;
    assert!((result - expected).abs() < 2, "q16_mul failed: {} vs {}", result, expected);
}

#[test]
fn test_q16_mul_4x() {
    let a = [
        (1.0 * 65536.0) as i32,
        (2.0 * 65536.0) as i32,
        (3.0 * 65536.0) as i32,
        (4.0 * 65536.0) as i32,
    ];
    let b = [
        (2.0 * 65536.0) as i32,
        (3.0 * 65536.0) as i32,
        (4.0 * 65536.0) as i32,
        (5.0 * 65536.0) as i32,
    ];

    let result = q16_mul_4x_neon(&a, &b);

    let expected = [
        (2.0 * 65536.0) as i32,
        (6.0 * 65536.0) as i32,
        (12.0 * 65536.0) as i32,
        (20.0 * 65536.0) as i32,
    ];

    for i in 0..4 {
        assert!(
            (result[i] - expected[i]).abs() < 2,
            "q16_mul_4x[{}] failed: {} vs {}",
            i,
            result[i],
            expected[i]
        );
    }
}

#[test]
fn arm_test_fast_isqrt() {
    assert_eq!(fast_isqrt_64(0), 0);
    assert_eq!(fast_isqrt_64(1), 1);
    assert_eq!(fast_isqrt_64(4), 2);
    assert_eq!(fast_isqrt_64(9), 3);
    assert_eq!(fast_isqrt_64(100), 10);
    assert_eq!(fast_isqrt_64(65536), 256);

    let n = 1_000_000u64;
    let sqrt = fast_isqrt_64(n);
    assert_eq!(sqrt, 1000);
}

#[test]
fn test_q16_dot_product() {
    let a = [65536i32, 131072, 196608];
    let b = [65536i32, 65536, 65536];

    let result = q16_dot_product_neon(&a, &b);
    let expected = 6 * 65536i64;
    assert!((result - expected).abs() < 10, "dot product: {} vs {}", result, expected);
}

#[test]
fn test_q16_cosine_similarity() {
    let mut a = [0i32; EMBEDDING_DIM];
    let mut b = [0i32; EMBEDDING_DIM];

    for i in 0..10 {
        a[i] = 65536;
        b[i] = 65536;
    }

    let sim = q16_cosine_similarity_neon(&a, &b);
    assert!(sim > 50000, "similarity should be ~1.0: {}", sim);

    let mut c = [0i32; EMBEDDING_DIM];
    for i in 0..10 {
        c[i + 10] = 65536;
    }
    let sim_ortho = q16_cosine_similarity_neon(&a, &c);
    assert!(sim_ortho.abs() < 1000, "orthogonal similarity should be ~0: {}", sim_ortho);
}

#[test]
fn test_q16_lpc_filter() {
    let coeffs: [i32; 0] = [];
    let gain = 65536;
    let excitation = [65536i32, 131072, 196608];
    let mut output = [0i32; 3];

    q16_lpc_filter_neon(&coeffs, gain, &excitation, &mut output);

    assert_eq!(output[0], 65536);
    assert_eq!(output[1], 131072);
    assert_eq!(output[2], 196608);
}

#[test]
fn test_neon_detection() {
    let has = has_neon();
    println!("NEON available: {has}");
}

#[test]
fn kernels_are_portable_scalar_loops() {
    assert!(!has_neon());
}

// --- further cases ---

#[test]
fn fast_isqrt_64_is_floor_sqrt() {
    for n in [2u64, 3, 5, 8, 15, 24, 99, 1 << 40, u64::MAX] {
        let r = fast_isqrt_64(n) as u128;
        assert!(r * r <= n as u128);
        assert!((r + 1) * (r + 1) > n as u128);
    }
    assert_eq!(fast_isqrt_64(u64::MAX), 0xFFFF_FFFF);
}

#[test]
fn fast_isqrt_32_is_floor_sqrt() {
    assert_eq!(fast_isqrt_32(0), 0);
    assert_eq!(fast_isqrt_32(1), 1);
    assert_eq!(fast_isqrt_32(16), 4);
    assert_eq!(fast_isqrt_32(25), 5);
    assert_eq!(fast_isqrt_32(31), 5);
    assert_eq!(fast_isqrt_32(81), 9);
    assert_eq!(fast_isqrt_32(100), 10);
    assert_eq!(fast_isqrt_32(u32::MAX), 65535);
    for n in [2u32, 7, 31, 1000, 65535, 65536, u32::MAX] {
        let r = fast_isqrt_32(n) as u64;
        assert!(r * r <= n as u64);
        assert!((r + 1) * (r + 1) > n as u64);
    }
}

#[test]
fn dot_product_uses_common_length() {
    let a = [65536i32, 65536, 65536];
    let b = [2 * 65536i32];
    assert_eq!(q16_dot_product_neon(&a, &b), 2 * 65536);
    assert_eq!(q16_dot_product_neon(&[-1], &[1]), -1);
}

#[test]
fn cosine_of_zero_vector_is_zero() {
    let a = [0i32; EMBEDDING_DIM];
    let mut b = [0i32; EMBEDDING_DIM];
    b[0] = 65536;
    assert_eq!(q16_cosine_similarity_neon(&a, &b), 0);
}

#[test]
fn cosine_of_identical_vectors_is_about_one() {
    // A single unit lane: norm 1.0 (65536), root of 65536 * 65536 is 65536.
    let mut b = [0i32; EMBEDDING_DIM];
    b[0] = 65536;
    assert_eq!(q16_cosine_similarity_neon(&b, &b), 65536);
    // Sixteen unit lanes: norm 16.0, exactly 1.0.
    let mut d = [0i32; EMBEDDING_DIM];
    for v in d.iter_mut().take(16) {
        *v = 65536;
    }
    assert_eq!(q16_cosine_similarity_neon(&d, &d), 65536);
    // Ten unit lanes: norm 10.0 = 655360; the root of 655360 * 655360 is
    // 655360, so the similarity is exactly 1.0.
    let mut c = [0i32; EMBEDDING_DIM];
    for v in c.iter_mut().take(10) {
        *v = 65536;
    }
    assert_eq!(q16_cosine_similarity_neon(&c, &c), 65536);
}

#[test]
fn cosine_divides_by_root_of_norm_product() {
    // Ten unit lanes against the first five: cosine 1/sqrt(2).
    // dot 5.0 = 327680; norms 655360 and 327680; floor root of their
    // product is 463409; 327680 * 65536 / 463409 = 46341.
    let mut a = [0i32; EMBEDDING_DIM];
    let mut b = [0i32; EMBEDDING_DIM];
    for i in 0..10 {
        a[i] = 65536;
    }
    for i in 0..5 {
        b[i] = 65536;
    }
    assert_eq!(q16_cosine_similarity_neon(&a, &b), 46341);
}

#[test]
fn lpc_filter_leaves_tail_untouched() {
    let coeffs = [65536i32];
    let excitation = [65536i32, 0];
    let mut output = [9i32; 4];
    q16_lpc_filter_neon(&coeffs, 65536, &excitation, &mut output);
    assert_eq!(output, [65536, 65536, 9, 9]);
}

#[test]
fn cosine_is_symmetric() {
    let mut a = [0i32; EMBEDDING_DIM];
    let mut b = [0i32; EMBEDDING_DIM];
    for i in 0..EMBEDDING_DIM {
        a[i] = ((i as i32 * 37) % 101 - 50) * 1000;
        b[i] = ((i as i32 * 53) % 89 - 44) * 900;
    }
    assert_eq!(
        q16_cosine_similarity_neon(&a, &b),
        q16_cosine_similarity_neon(&b, &a)
    );
    assert_eq!(q16_dot_product_neon(&a, &b), q16_dot_product_neon(&b, &a));
}

#[test]
fn cosine_of_orthogonal_vectors_is_zero() {
    let mut a = [0i32; EMBEDDING_DIM];
    let mut c = [0i32; EMBEDDING_DIM];
    for i in 0..10 {
        a[i] = 65536;
        c[i + 10] = 65536;
    }
    assert_eq!(q16_cosine_similarity_neon(&a, &c), 0);
    // products that cancel: (1, 1) against (1, -1)
    let mut d = [0i32; EMBEDDING_DIM];
    let mut e = [0i32; EMBEDDING_DIM];
    d[0] = 65536;
    d[1] = 65536;
    e[0] = 65536;
    e[1] = -65536;
    assert_eq!(q16_cosine_similarity_neon(&d, &e), 0);
}
