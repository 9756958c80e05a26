use athenic_demodulator::fixed::{clamp_fp, exp2_fp, fp_mul, isqrt, log2_fp, pow2_i64, sine_fp, SCALE};

#[test]
fn sine_exact_points() {
    // Zero crossings and peaks of the parabolic wave are exact.
    assert_eq!(sine_fp(0), 0);
    assert_eq!(sine_fp(SCALE / 4), SCALE);
    assert_eq!(sine_fp(SCALE / 2), 0);
    assert_eq!(sine_fp(3 * SCALE / 4), -SCALE);
    // The wave has period one in phase; phase lives in [0, 2).
    assert_eq!(sine_fp(SCALE + SCALE / 4), SCALE);
    assert_eq!(sine_fp(2 * SCALE - 1), sine_fp(SCALE - 1));
}

#[test]
fn sine_bounded_everywhere() {
    let mut phase: i64 = 0;
    while phase < 2 * SCALE {
        let v = sine_fp(phase);
        assert!(-SCALE <= v && v <= SCALE);
        phase += 12345;
    }
}

#[test]
fn fp_mul_exact_and_truncating() {
    assert_eq!(fp_mul(5 * SCALE, SCALE / 2), 5 * SCALE / 2);
    assert_eq!(fp_mul(-3 * SCALE, SCALE / 2), -(3 * SCALE / 2));
    // Truncation is toward zero for negative products.
    assert_eq!(fp_mul(-1, SCALE / 2), 0);
    assert_eq!(fp_mul(1, SCALE / 2), 0);
    assert_eq!(fp_mul(7, 0), 0);
}

#[test]
fn isqrt_exact() {
    assert_eq!(isqrt(0), 0);
    assert_eq!(isqrt(4), 2);
    assert_eq!(isqrt(8), 2);
    assert_eq!(isqrt(9), 3);
    assert_eq!(isqrt(SCALE * SCALE), SCALE);
    assert_eq!(isqrt(SCALE * SCALE - 1), SCALE - 1);
}

#[test]
fn pow2_small_values() {
    assert_eq!(pow2_i64(0), 1);
    assert_eq!(pow2_i64(10), 1024);
    assert_eq!(pow2_i64(20), 0x10_0000);
}

#[test]
fn exp2_exact_at_octaves() {
    // The quadratic is exact at whole octaves.
    assert_eq!(exp2_fp(0), SCALE);
    assert_eq!(exp2_fp(SCALE), 2 * SCALE);
    assert_eq!(exp2_fp(3 * SCALE), 8 * SCALE);
    assert_eq!(exp2_fp(-SCALE), SCALE / 2);
    assert_eq!(exp2_fp(-8 * SCALE), SCALE / 256);
}

#[test]
fn exp2_monotone_on_samples() {
    let mut prev = exp2_fp(-8 * SCALE);
    let mut y = -8 * SCALE + 100_000;
    while y <= 10 * SCALE {
        let v = exp2_fp(y);
        assert!(v >= prev);
        prev = v;
        y += 100_000;
    }
}

#[test]
fn log2_exact_at_powers_of_two() {
    assert_eq!(log2_fp(1), 0);
    assert_eq!(log2_fp(2), SCALE);
    assert_eq!(log2_fp(256), 8 * SCALE);
    assert_eq!(log2_fp(512), 9 * SCALE);
}

#[test]
fn clamp_boundaries() {
    assert_eq!(clamp_fp(5, 0, 10), 5);
    assert_eq!(clamp_fp(-5, 0, 10), 0);
    assert_eq!(clamp_fp(15, 0, 10), 10);
    assert_eq!(clamp_fp(0, 0, 10), 0);
    assert_eq!(clamp_fp(10, 0, 10), 10);
}
