use athenic_demodulator::demodulator::{CVDemodulator, DEMOD_BLOCK_SIZE};
use athenic_demodulator::fixed::SCALE;
use athenic_demodulator::DistributionMode;

fn constant_input(value: i64, len: usize) -> Vec<i64> {
    vec![value; len]
}

fn submit_constant(
    demod: &mut CVDemodulator,
    value: i64,
    len: usize,
    mode: DistributionMode,
    count: usize,
    floor: i64,
    ceiling: i64,
    bias: i64,
) -> Option<(Vec<i64>, Vec<i64>)> {
    let input = constant_input(value, len);
    demod.submit_samples(&input, &input, &mode, count, 0, floor, ceiling, bias)
}

#[test]
fn constant_block_first_harmonic_is_rectified_value() {
    // A full analysis block of constant 1.0 under the linear law: the
    // snapshot's first harmonic holds exactly 1.0^3 = 1.0, no averaging drift.
    let mut demod = CVDemodulator::default();
    let amps = submit_constant(
        &mut demod,
        SCALE,
        DEMOD_BLOCK_SIZE,
        DistributionMode::Linear,
        512,
        -2 * SCALE,
        2 * SCALE,
        0,
    );
    let (l, r) = amps.expect("one full block must emit a snapshot");
    assert_eq!(l[0], SCALE);
    assert_eq!(r[0], SCALE);
    // The linear law reaches harmonic 511 by the block's end but never 512.
    assert_eq!(l[510], SCALE);
    assert_eq!(l[511], 0);
}

#[test]
fn constant_block_cubes_the_value() {
    // Constant 0.5: the rectifier gives 0.5^3 = 0.125 exactly.
    let mut demod = CVDemodulator::default();
    let amps = submit_constant(
        &mut demod,
        SCALE / 2,
        DEMOD_BLOCK_SIZE,
        DistributionMode::Linear,
        512,
        -2 * SCALE,
        2 * SCALE,
        0,
    );
    let (l, _) = amps.expect("one full block must emit a snapshot");
    assert_eq!(l[0], SCALE / 8);
}

#[test]
fn rectifier_ignores_sign() {
    // The rectifier is even: -1.0 accumulates the same 1.0 as +1.0.
    let mut demod = CVDemodulator::default();
    let amps = submit_constant(
        &mut demod,
        -SCALE,
        DEMOD_BLOCK_SIZE,
        DistributionMode::Linear,
        512,
        -2 * SCALE,
        2 * SCALE,
        0,
    );
    let (l, _) = amps.expect("one full block must emit a snapshot");
    assert_eq!(l[0], SCALE);
}

#[test]
fn partial_block_emits_nothing() {
    let mut demod = CVDemodulator::default();
    let amps = submit_constant(
        &mut demod,
        SCALE,
        DEMOD_BLOCK_SIZE - 1,
        DistributionMode::Linear,
        512,
        -2 * SCALE,
        2 * SCALE,
        0,
    );
    assert!(amps.is_none());
    // One more sample completes the block.
    let amps = submit_constant(
        &mut demod,
        SCALE,
        1,
        DistributionMode::Linear,
        512,
        -2 * SCALE,
        2 * SCALE,
        0,
    );
    assert!(amps.is_some());
}

#[test]
fn multiple_blocks_keep_latest_snapshot_only() {
    let mut demod = CVDemodulator::default();
    let amps = submit_constant(
        &mut demod,
        SCALE,
        2 * DEMOD_BLOCK_SIZE,
        DistributionMode::Linear,
        512,
        -2 * SCALE,
        2 * SCALE,
        0,
    );
    let (l, _) = amps.expect("two full blocks still emit one snapshot");
    // The averaging window survives the block boundary, so the second
    // block's first harmonic is diluted: the first block's snapshot (which
    // held exactly 1.0 there) was discarded in favor of the latest one.
    assert!(l[0] > 0 && l[0] < SCALE);
    // A harmonic first touched late in the second block is undiluted.
    assert_eq!(l[510], SCALE);
    assert_eq!(demod.progress, 0);
}

#[test]
fn boundary_value_at_ceiling_is_kept() {
    // An input exactly at the ceiling is kept: 1.0^3 = 1.0.
    let mut demod = CVDemodulator::default();
    let amps = submit_constant(
        &mut demod,
        SCALE,
        DEMOD_BLOCK_SIZE,
        DistributionMode::Linear,
        512,
        0,
        SCALE,
        0,
    );
    let (l, _) = amps.expect("snapshot");
    assert_eq!(l[0], SCALE);
}

#[test]
fn value_above_ceiling_is_silenced() {
    // One representable step above the ceiling is gated to zero.
    let mut demod = CVDemodulator::default();
    let amps = submit_constant(
        &mut demod,
        SCALE + 1,
        DEMOD_BLOCK_SIZE,
        DistributionMode::Linear,
        512,
        0,
        SCALE,
        0,
    );
    let (l, _) = amps.expect("snapshot");
    assert_eq!(l[0], 0);
}

#[test]
fn boundary_value_at_floor_is_kept() {
    let mut demod = CVDemodulator::default();
    let amps = submit_constant(
        &mut demod,
        SCALE,
        DEMOD_BLOCK_SIZE,
        DistributionMode::Linear,
        512,
        SCALE,
        2 * SCALE,
        0,
    );
    let (l, _) = amps.expect("snapshot");
    assert_eq!(l[0], SCALE);
}

#[test]
fn value_below_floor_is_silenced() {
    let mut demod = CVDemodulator::default();
    let amps = submit_constant(
        &mut demod,
        SCALE - 1,
        DEMOD_BLOCK_SIZE,
        DistributionMode::Linear,
        512,
        SCALE,
        2 * SCALE,
        0,
    );
    let (l, _) = amps.expect("snapshot");
    assert_eq!(l[0], 0);
}

#[test]
fn bias_is_added_before_gating() {
    // Input 0.75 with bias 0.25 lands exactly on the ceiling of 1.0 and is
    // kept; the accumulated value is the biased one, cubed.
    let mut demod = CVDemodulator::default();
    let input = constant_input(3 * SCALE / 4, DEMOD_BLOCK_SIZE);
    let amps = demod.submit_samples(
        &input,
        &input,
        &DistributionMode::Linear,
        512,
        0,
        0,
        SCALE,
        SCALE / 4,
    );
    let (l, _) = amps.expect("snapshot");
    assert_eq!(l[0], SCALE);
}

#[test]
fn exponential_law_reaches_first_harmonic() {
    let mut demod = CVDemodulator::default();
    let amps = submit_constant(
        &mut demod,
        SCALE,
        DEMOD_BLOCK_SIZE,
        DistributionMode::Exponential,
        512,
        -2 * SCALE,
        2 * SCALE,
        0,
    );
    let (l, _) = amps.expect("snapshot");
    assert_eq!(l[0], SCALE);
}

#[test]
fn single_harmonic_count_still_tracks_harmonic_one() {
    // The law's target is clamped up to harmonic 1, so a count of one under
    // the linear law still accumulates into the first harmonic.
    let mut demod = CVDemodulator::default();
    let amps = submit_constant(
        &mut demod,
        SCALE,
        DEMOD_BLOCK_SIZE,
        DistributionMode::Linear,
        1,
        -2 * SCALE,
        2 * SCALE,
        0,
    );
    let (l, _) = amps.expect("snapshot");
    assert_eq!(l[0], SCALE);
    assert_eq!(l[1], 0);
}

#[test]
fn harmonic_offset_shifts_the_range() {
    let mut demod = CVDemodulator::default();
    let input = constant_input(SCALE, DEMOD_BLOCK_SIZE);
    let amps = demod.submit_samples(
        &input,
        &input,
        &DistributionMode::Linear,
        512,
        100,
        -2 * SCALE,
        2 * SCALE,
        0,
    );
    let (l, _) = amps.expect("snapshot");
    // Harmonics below the offset are never written.
    assert_eq!(l[0], 0);
    assert_eq!(l[98], 0);
    assert_eq!(l[100], SCALE);
}

#[test]
fn reset_restarts_tracking_but_keeps_accumulators() {
    let mut demod = CVDemodulator::default();
    submit_constant(
        &mut demod,
        SCALE,
        500,
        DistributionMode::Linear,
        512,
        -2 * SCALE,
        2 * SCALE,
        0,
    );
    assert_eq!(demod.progress, 500);
    let before = demod.working_amp_l[0];
    demod.reset();
    assert_eq!(demod.progress, 0);
    assert_eq!(demod.prev_harmonic, 1);
    assert_eq!(demod.sample_count, 0);
    assert_eq!(demod.working_amp_l[0], before);
}

#[test]
fn replay_after_reset_is_bit_identical() {
    // Two demodulators whose accumulators agree are indistinguishable after
    // a reset: identical input reproduces identical snapshots.
    let mut a = CVDemodulator::default();
    let mut b = CVDemodulator::default();
    submit_constant(&mut b, SCALE / 2, 700, DistributionMode::Linear, 512, -2 * SCALE, 2 * SCALE, 0);
    // Bring b's accumulators back to a's (both ran no full block from reset,
    // so replaying the same prefix makes them agree again).
    a.reset();
    b.reset();
    let ra = submit_constant(
        &mut a,
        SCALE / 2,
        700,
        DistributionMode::Linear,
        512,
        -2 * SCALE,
        2 * SCALE,
        0,
    );
    let rb = submit_constant(
        &mut b,
        SCALE / 2,
        700,
        DistributionMode::Linear,
        512,
        -2 * SCALE,
        2 * SCALE,
        0,
    );
    assert!(ra.is_none() && rb.is_none());
    assert_eq!(a.progress, b.progress);
    assert_eq!(a.prev_harmonic, b.prev_harmonic);
    assert_eq!(a.sample_count, b.sample_count);
    assert_eq!(a.working_amp_l, b.working_amp_l);
    assert_eq!(a.working_amp_r, b.working_amp_r);
}
