use athenic_demodulator::demodulator::{CVDemodulator, DEMOD_BLOCK_SIZE};
use athenic_demodulator::fixed::SCALE;
use athenic_demodulator::voice::AdditiveVoice;
use athenic_demodulator::{BasicGainMode, DistributionMode};

const SR: u32 = 44100;

fn mirror_sine(phase: i64) -> i64 {
    let u = phase % SCALE;
    let h = SCALE / 2;
    if u < h {
        16 * u * (h - u) / SCALE
    } else {
        let w = u - h;
        -(16 * w * (h - w) / SCALE)
    }
}

#[test]
fn concert_pitch_scenario_produces_the_fundamental_sine() {
    // Note 69 at centered bend is exactly 440 Hz. One full analysis block of
    // constant 1.0 through the demodulator sets harmonic 1's target to 1.0;
    // with a flat gain, no slew limiting and an instant attack, the output
    // is exactly the bank's 440 Hz wave at full amplitude.
    let mut voice = AdditiveVoice::default();
    let mut demod = CVDemodulator::default();
    voice.envelope.set_attack_time(SR, 0);
    voice.envelope.set_release_time(SR, 0);
    voice.note_on(69);
    demod.reset();
    let input = vec![SCALE; DEMOD_BLOCK_SIZE];
    let amps = demod.submit_samples(
        &input,
        &input,
        &DistributionMode::Linear,
        1,
        0,
        -2 * SCALE,
        2 * SCALE,
        0,
    );
    let (amp_l, amp_r) = amps.expect("one full block must emit a snapshot");
    assert_eq!(amp_l[0], SCALE);
    voice.engine.submit_amplitudes(&amp_l, &amp_r);
    assert_eq!(voice.engine.amp_l[0], SCALE);

    let mut out_l = vec![0i64; 64];
    let mut out_r = vec![0i64; 64];
    voice.process(SR, &mut out_l, &mut out_r, &BasicGainMode::Flat, false);
    // The first phase is staggered to 512 cycles, which reduces to zero.
    let step = 440 * SCALE / (SR as i64);
    for k in 0..64 {
        let phase = (((k as i64) + 1) * step) % (2 * SCALE);
        assert_eq!(out_l[k], mirror_sine(phase));
        assert_eq!(out_r[k], mirror_sine(phase));
    }
}

#[test]
fn release_tail_then_exact_silence() {
    // A released voice keeps sounding until the envelope decays below the
    // audibility threshold; once silent, a later call leaves the caller's
    // buffers untouched.
    let mut voice = AdditiveVoice::default();
    voice.envelope.set_attack_time(SR, 0);
    voice.envelope.set_release_time(SR, SCALE / 10); // 0.1 ms: a short tail
    voice.note_on(69);
    let mut amp = vec![0i64; 512];
    amp[0] = SCALE;
    voice.engine.submit_amplitudes(&amp, &amp);
    let mut out_l = vec![0i64; 32];
    let mut out_r = vec![0i64; 32];
    voice.process(SR, &mut out_l, &mut out_r, &BasicGainMode::Flat, false);
    voice.note_off();
    assert!(voice.envelope.is_releasing());
    let mut tail_l = vec![0i64; 256];
    let mut tail_r = vec![0i64; 256];
    voice.process(SR, &mut tail_l, &mut tail_r, &BasicGainMode::Flat, false);
    // The tail starts audible...
    assert!(tail_l.iter().any(|v| *v != 0));
    // ...and the release has finished within this buffer.
    assert!(!voice.envelope.is_releasing());
    // The next call must not touch the buffers at all.
    let mut quiet_l = vec![7i64; 16];
    let mut quiet_r = vec![-7i64; 16];
    voice.process(SR, &mut quiet_l, &mut quiet_r, &BasicGainMode::Flat, false);
    assert!(quiet_l.iter().all(|v| *v == 7));
    assert!(quiet_r.iter().all(|v| *v == -7));
}

#[test]
fn going_silent_restaggers_phases_and_clears_slew() {
    let mut voice = AdditiveVoice::default();
    voice.envelope.set_attack_time(SR, 0);
    voice.envelope.set_release_time(SR, 0); // instant release
    voice.note_on(69);
    let mut out_l = vec![0i64; 16];
    let mut out_r = vec![0i64; 16];
    voice.process(SR, &mut out_l, &mut out_r, &BasicGainMode::Flat, true);
    let moved = voice.engine.phases[0];
    assert_ne!(moved, 0);
    voice.note_off();
    voice.process(SR, &mut out_l, &mut out_r, &BasicGainMode::Flat, true);
    // Silence reached inside that call: phases are back on the staggered
    // pattern.
    assert_eq!(voice.engine.phases[0], (512 * SCALE) % (2 * SCALE));
    assert_eq!(voice.engine.phases[1], (512 * SCALE / 2) % (2 * SCALE));
    assert_eq!(voice.engine.phases[511], (512 * SCALE / 512) % (2 * SCALE));
}

#[test]
fn legato_note_ons_do_not_restart_the_envelope() {
    let mut voice = AdditiveVoice::default();
    voice.envelope.set_attack_time(SR, 0);
    voice.note_on(60);
    let mut out_l = vec![0i64; 8];
    let mut out_r = vec![0i64; 8];
    voice.process(SR, &mut out_l, &mut out_r, &BasicGainMode::Flat, false);
    assert_eq!(voice.envelope.current(), SCALE);
    // A second note-on while held keeps the envelope where it is.
    voice.note_on(64);
    assert_eq!(voice.envelope.current(), SCALE);
    assert_eq!(voice.notes_on, 2);
    // One note-off still leaves the voice sounding.
    voice.note_off();
    assert_eq!(voice.notes_on, 1);
    assert!(!voice.envelope.is_releasing());
    voice.note_off();
    assert!(voice.envelope.is_releasing());
}

#[test]
fn note_off_saturates_at_zero() {
    let mut voice = AdditiveVoice::default();
    voice.note_off();
    voice.note_off();
    assert_eq!(voice.notes_on, 0);
    voice.note_on(69);
    assert_eq!(voice.notes_on, 1);
}

#[test]
fn pitch_bend_full_up_doubles_the_frequency() {
    // Bend 1.0 is +12 semitones: note 69 becomes 880 Hz exactly.
    let mut voice = AdditiveVoice::default();
    voice.envelope.set_attack_time(SR, 0);
    voice.note_on(69);
    voice.midi_pitch_bend(SCALE);
    let mut out_l = vec![0i64; 1];
    let mut out_r = vec![0i64; 1];
    voice.process(SR, &mut out_l, &mut out_r, &BasicGainMode::Flat, false);
    let step = 880 * SCALE / (SR as i64);
    assert_eq!(voice.engine.phases[0], step % (2 * SCALE));
}

#[test]
fn replayed_sessions_are_bit_identical() {
    // Determinism: the same event sequence over the same input produces the
    // same output, bit for bit.
    let mut outputs: Vec<Vec<i64>> = Vec::new();
    for _ in 0..2 {
        let mut voice = AdditiveVoice::default();
        let mut demod = CVDemodulator::default();
        voice.envelope.set_attack_time(SR, SCALE / 2);
        voice.envelope.set_release_time(SR, 5 * SCALE);
        voice.note_on(57);
        demod.reset();
        let mut input = vec![0i64; DEMOD_BLOCK_SIZE];
        for (n, v) in input.iter_mut().enumerate() {
            *v = ((n as i64) % 100 - 50) * (SCALE / 50);
        }
        let amps = demod.submit_samples(
            &input,
            &input,
            &DistributionMode::Exponential,
            300,
            2,
            -2 * SCALE,
            2 * SCALE,
            SCALE / 64,
        );
        let (amp_l, amp_r) = amps.expect("snapshot");
        voice.engine.submit_amplitudes(&amp_l, &amp_r);
        let mut out_l = vec![0i64; 333];
        let mut out_r = vec![0i64; 333];
        voice.process(SR, &mut out_l, &mut out_r, &BasicGainMode::Sawtooth, true);
        voice.note_off();
        voice.process(SR, &mut out_l, &mut out_r, &BasicGainMode::Sawtooth, true);
        out_l.extend(out_r);
        outputs.push(out_l);
    }
    assert_eq!(outputs[0], outputs[1]);
}

#[test]
fn reset_hard_stops_the_voice() {
    let mut voice = AdditiveVoice::default();
    voice.envelope.set_attack_time(SR, 0);
    voice.note_on(69);
    let mut out_l = vec![0i64; 8];
    let mut out_r = vec![0i64; 8];
    voice.process(SR, &mut out_l, &mut out_r, &BasicGainMode::Flat, false);
    voice.reset();
    assert_eq!(voice.notes_on, 0);
    assert_eq!(voice.envelope.current(), 0);
    let mut quiet_l = vec![3i64; 8];
    let mut quiet_r = vec![3i64; 8];
    voice.process(SR, &mut quiet_l, &mut quiet_r, &BasicGainMode::Flat, false);
    assert!(quiet_l.iter().all(|v| *v == 3));
}
