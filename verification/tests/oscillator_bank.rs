use athenic_demodulator::additive_engine::{AdditiveEngine, MAX_HARMONICS};
use athenic_demodulator::fixed::SCALE;
use athenic_demodulator::BasicGainMode;

const SR: u32 = 44100;

fn mirror_sine(phase: i64) -> i64 {
    let u = phase % SCALE;
    let h = SCALE / 2;
    if u < h {
        16 * u * (h - u) / SCALE
    } else {
        let w = u - h;
        -(16 * w * (h - w) / SCALE)
    }
}

fn one_harmonic_freqs(freq: i64) -> Vec<i64> {
    let mut freqs = vec![0i64; MAX_HARMONICS];
    freqs[0] = freq;
    freqs
}

fn amps(value: i64) -> Vec<i64> {
    let mut a = vec![0i64; MAX_HARMONICS];
    a[0] = value;
    a
}

#[test]
fn phase_advances_by_freq_over_sr() {
    // Phase moves by exactly freq / sample_rate per sample, modulo 2.
    let mut engine = AdditiveEngine::default();
    let freqs = one_harmonic_freqs(440 * SCALE);
    let mut out_l = vec![0i64; 3];
    let mut out_r = vec![0i64; 3];
    engine.generate_samples(&freqs, SR, &mut out_l, &mut out_r, &BasicGainMode::Flat, false);
    let step = 440 * SCALE / (SR as i64);
    assert_eq!(engine.phases[0], (3 * step) % (2 * SCALE));
    // Untouched harmonics have frequency zero and keep their phase.
    assert_eq!(engine.phases[1], 0);
}

#[test]
fn phase_stays_in_range_over_many_samples() {
    let mut engine = AdditiveEngine::default();
    // A frequency whose step does not divide the cycle evenly.
    let freqs = one_harmonic_freqs(12345 * SCALE / 10);
    let mut out_l = vec![0i64; 4096];
    let mut out_r = vec![0i64; 4096];
    for _ in 0..8 {
        engine.generate_samples(&freqs, SR, &mut out_l, &mut out_r, &BasicGainMode::Flat, false);
        assert!(0 <= engine.phases[0] && engine.phases[0] < 2 * SCALE);
    }
}

#[test]
fn out_of_range_harmonic_is_silent_but_advances() {
    // 10 Hz is below the audio range: no contribution, but the phase moves.
    let mut engine = AdditiveEngine::default();
    let freqs = one_harmonic_freqs(10 * SCALE);
    let mut out_l = vec![0i64; 8];
    let mut out_r = vec![0i64; 8];
    engine.submit_amplitudes(&amps(SCALE), &amps(SCALE));
    engine.generate_samples(&freqs, SR, &mut out_l, &mut out_r, &BasicGainMode::Flat, false);
    for v in &out_l {
        assert_eq!(*v, 0);
    }
    let step = 10 * SCALE / (SR as i64);
    assert_eq!(engine.phases[0], 8 * step);
}

#[test]
fn harmonics_beyond_nyquist_are_skipped() {
    // A harmonic below the Nyquist frequency sounds; one above it is
    // skipped even at full amplitude.
    let mut below = AdditiveEngine::default();
    let f_below = (SR as i64) * SCALE / 2 - 1000 * SCALE;
    below.submit_amplitudes(&amps(SCALE), &amps(SCALE));
    let mut out_l = vec![0i64; 1];
    let mut out_r = vec![0i64; 1];
    below.generate_samples(
        &one_harmonic_freqs(f_below),
        SR,
        &mut out_l,
        &mut out_r,
        &BasicGainMode::Flat,
        false,
    );
    let step = f_below / (SR as i64);
    assert_eq!(out_l[0], mirror_sine(step % (2 * SCALE)));
    assert_ne!(out_l[0], 0);

    let mut above = AdditiveEngine::default();
    let f_above = (SR as i64) * SCALE / 2 + 1000 * SCALE;
    above.submit_amplitudes(&amps(SCALE), &amps(SCALE));
    let mut out2_l = vec![0i64; 1];
    let mut out2_r = vec![0i64; 1];
    above.generate_samples(
        &one_harmonic_freqs(f_above),
        SR,
        &mut out2_l,
        &mut out2_r,
        &BasicGainMode::Flat,
        false,
    );
    assert_eq!(out2_l[0], 0);
    // The skipped harmonic's phase still advanced.
    assert_eq!(above.phases[0], (f_above / (SR as i64)) % (2 * SCALE));
}

#[test]
fn slew_limits_amplitude_rise() {
    // With slew limiting on, a full jump to 1.0 is applied threshold by
    // threshold: 12.5 / sample_rate per sample, never more.
    let mut engine = AdditiveEngine::default();
    let freqs = one_harmonic_freqs(440 * SCALE);
    engine.submit_amplitudes(&amps(SCALE), &amps(SCALE));
    let mut out_l = vec![0i64; 2];
    let mut out_r = vec![0i64; 2];
    engine.generate_samples(&freqs, SR, &mut out_l, &mut out_r, &BasicGainMode::Flat, true);
    let step = 440 * SCALE / (SR as i64);
    let th = 25 * SCALE / (2 * SR as i64);
    let v1 = mirror_sine(step % (2 * SCALE));
    let v2 = mirror_sine((2 * step) % (2 * SCALE));
    assert_eq!(out_l[0], th * v1 / SCALE);
    assert_eq!(out_l[1], 2 * th * v2 / SCALE);
}

#[test]
fn no_slew_applies_target_at_once() {
    let mut engine = AdditiveEngine::default();
    let freqs = one_harmonic_freqs(440 * SCALE);
    engine.submit_amplitudes(&amps(SCALE), &amps(SCALE));
    let mut out_l = vec![0i64; 1];
    let mut out_r = vec![0i64; 1];
    engine.generate_samples(&freqs, SR, &mut out_l, &mut out_r, &BasicGainMode::Flat, false);
    let step = 440 * SCALE / (SR as i64);
    assert_eq!(out_l[0], mirror_sine(step % (2 * SCALE)));
}

#[test]
fn output_accumulates_into_buffers() {
    let mut engine = AdditiveEngine::default();
    let freqs = one_harmonic_freqs(440 * SCALE);
    engine.submit_amplitudes(&amps(SCALE), &amps(SCALE));
    let mut out_l = vec![1000i64; 1];
    let mut out_r = vec![-1000i64; 1];
    engine.generate_samples(&freqs, SR, &mut out_l, &mut out_r, &BasicGainMode::Flat, false);
    let step = 440 * SCALE / (SR as i64);
    let v = mirror_sine(step % (2 * SCALE));
    assert_eq!(out_l[0], 1000 + v);
    assert_eq!(out_r[0], -1000 + v);
}

#[test]
fn sawtooth_gain_scales_by_inverse_root() {
    // Harmonic 4 (index 3) gets gain sqrt(1/4) = 1/2 exactly.
    let mut engine = AdditiveEngine::default();
    let mut freqs = vec![0i64; MAX_HARMONICS];
    freqs[3] = 440 * SCALE;
    let mut a = vec![0i64; MAX_HARMONICS];
    a[3] = SCALE;
    engine.submit_amplitudes(&a, &a);
    let mut out_l = vec![0i64; 1];
    let mut out_r = vec![0i64; 1];
    engine.generate_samples(&freqs, SR, &mut out_l, &mut out_r, &BasicGainMode::Sawtooth, false);
    let step = 440 * SCALE / (SR as i64);
    let v = mirror_sine(step % (2 * SCALE));
    assert_eq!(out_l[0], v * (SCALE / 2) / SCALE);
}

#[test]
fn reset_slew_tracking_restarts_ramp() {
    let mut engine = AdditiveEngine::default();
    let freqs = one_harmonic_freqs(440 * SCALE);
    engine.submit_amplitudes(&amps(SCALE), &amps(SCALE));
    let mut out_l = vec![0i64; 8];
    let mut out_r = vec![0i64; 8];
    engine.generate_samples(&freqs, SR, &mut out_l, &mut out_r, &BasicGainMode::Flat, true);
    engine.reset_slew_tracking();
    // After clearing the memory the ramp starts from zero again.
    let mut out2_l = vec![0i64; 1];
    let mut out2_r = vec![0i64; 1];
    engine.generate_samples(&freqs, SR, &mut out2_l, &mut out2_r, &BasicGainMode::Flat, true);
    let step = 440 * SCALE / (SR as i64);
    let th = 25 * SCALE / (2 * SR as i64);
    let v9 = mirror_sine((9 * step) % (2 * SCALE));
    assert_eq!(out2_l[0], th * v9 / SCALE);
}

#[test]
fn submit_amplitudes_replaces_targets() {
    let mut engine = AdditiveEngine::default();
    let mut a = vec![0i64; MAX_HARMONICS];
    a[5] = 3 * SCALE;
    let mut b = vec![0i64; MAX_HARMONICS];
    b[5] = -2 * SCALE;
    engine.submit_amplitudes(&a, &b);
    assert_eq!(engine.amp_l[5], 3 * SCALE);
    assert_eq!(engine.amp_r[5], -2 * SCALE);
    assert_eq!(engine.amp_l[4], 0);
}
