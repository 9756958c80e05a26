use athenic_demodulator::envelope::{AREnvelope, RELEASE_EPS};
use athenic_demodulator::fixed::SCALE;

// The one-pole coefficient the envelope computes: the rational approximation
// (2n - 1) / (2n + 1) of exp(-1 / n), where n is the time constant in
// samples (all Q24, floored at zero).
fn expected_coeff(sample_rate: i64, time_ms: i64) -> i64 {
    let nf = time_ms * sample_rate / 1000;
    let c = SCALE - 2 * SCALE * SCALE / (2 * nf + SCALE);
    if c < 0 {
        0
    } else {
        c
    }
}

#[test]
fn attack_coefficient_formula() {
    let mut env = AREnvelope::default();
    env.set_attack_time(44100, SCALE); // 1 ms
    assert_eq!(env.attack_coeff, expected_coeff(44100, SCALE));
    env.set_release_time(44100, 50 * SCALE); // 50 ms
    assert_eq!(env.release_coeff, expected_coeff(44100, 50 * SCALE));
}

#[test]
fn zero_time_constant_is_instant() {
    let mut env = AREnvelope::default();
    env.set_attack_time(44100, 0);
    assert_eq!(env.attack_coeff, 0);
    let mut buf: Vec<i64> = vec![0; 4];
    env.next_block(&mut buf, 4);
    // With coefficient zero the state jumps straight to the target.
    assert_eq!(buf[0], SCALE);
    assert_eq!(buf[3], SCALE);
    assert_eq!(env.current(), SCALE);
}

#[test]
fn first_attack_step_is_one_minus_coeff() {
    let mut env = AREnvelope::default();
    env.set_attack_time(44100, SCALE);
    let c = env.attack_coeff;
    let mut buf: Vec<i64> = vec![0; 1];
    env.next_block(&mut buf, 1);
    // state' = (0 * c + SCALE * (SCALE - c)) / SCALE == SCALE - c, exactly.
    assert_eq!(buf[0], SCALE - c);
}

#[test]
fn attack_is_monotone() {
    let mut env = AREnvelope::default();
    env.set_attack_time(44100, 10 * SCALE);
    let mut buf: Vec<i64> = vec![0; 64];
    env.next_block(&mut buf, 64);
    for k in 1..64 {
        assert!(buf[k] >= buf[k - 1]);
        assert!(buf[k] <= SCALE);
    }
}

#[test]
fn release_decays_by_coeff() {
    let mut env = AREnvelope::default();
    env.set_release_time(44100, SCALE);
    env.state = SCALE;
    env.start_release();
    let c = env.release_coeff;
    let mut buf: Vec<i64> = vec![0; 2];
    env.next_block(&mut buf, 2);
    // state' = state * c / SCALE, exactly.
    assert_eq!(buf[0], c);
    assert_eq!(buf[1], c * c / SCALE);
}

#[test]
fn is_releasing_threshold() {
    let mut env = AREnvelope::default();
    env.state = RELEASE_EPS;
    env.start_release();
    assert!(env.is_releasing());
    env.state = RELEASE_EPS - 1;
    assert!(!env.is_releasing());
    // Without the release flag the state alone does not count as releasing.
    let mut quiet = AREnvelope::default();
    quiet.state = SCALE;
    assert!(!quiet.is_releasing());
}

#[test]
fn reset_clears_state_and_flag() {
    let mut env = AREnvelope::default();
    env.set_attack_time(44100, SCALE);
    env.state = SCALE / 2;
    env.start_release();
    env.reset();
    assert_eq!(env.current(), 0);
    assert!(!env.is_releasing());
    // Coefficients survive a reset.
    assert_eq!(env.attack_coeff, expected_coeff(44100, SCALE));
}

#[test]
fn next_block_writes_only_prefix() {
    let mut env = AREnvelope::default();
    env.set_attack_time(44100, 0);
    let mut buf: Vec<i64> = vec![7; 4];
    env.next_block(&mut buf, 2);
    assert_eq!(buf[0], SCALE);
    assert_eq!(buf[1], SCALE);
    assert_eq!(buf[2], 7);
    assert_eq!(buf[3], 7);
}
