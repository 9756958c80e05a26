//! The oscillator bank: 512 independent phase accumulators with slew-limited
//! amplitude application. Phases advance every sample whether or not the
//! harmonic is audible, so a harmonic that leaves the audio range resumes
//! seamlessly when it re-enters.

use crate::fixed::{
    clamp_fp, clamp_spec, fp_mul, fp_mul_spec, isqrt, lemma_fp_mul_unit_bound, seq_int, sine_fp,
    sine_spec, sqrt_floor, zeros, SCALE,
};
use crate::BasicGainMode;
use vstd::prelude::*;

verus! {

/// The fixed number of harmonics every bank carries.
pub const MAX_HARMONICS: usize = 512;

/// Largest amplitude magnitude the bank accepts: the demodulator's rectifier
/// maps gated input (at most 2.0) to at most 8.0.
pub const AMP_LIMIT: i64 = 0x800_0000;

/// Largest harmonic frequency the bank accepts, far above anything a note
/// can reach.
pub const FREQ_LIMIT: i64 = 0x4_0000_0000_0000;

/// Headroom the caller's output buffers must keep so that accumulation
/// cannot overflow.
pub const OUT_LIMIT: i64 = 0x4_0000_0000_0000;

/// Largest magnitude of one emitted sample: 512 harmonics at the amplitude
/// limit.
pub const SAMPLE_LIMIT: i64 = 0x10_0000_0000;

/// The mathematical state of the bank: every sequence is 512 wide.
#[verifier::ext_equal]
pub ghost struct EngineModel {
    pub phases: Seq<int>,
    pub amp_l: Seq<int>,
    pub amp_r: Seq<int>,
    pub last_l: Seq<int>,
    pub last_r: Seq<int>,
}

pub struct AdditiveEngine {
    pub phases: Vec<i64>,
    pub amp_l: Vec<i64>,
    pub amp_r: Vec<i64>,
    pub last_amp_l: Vec<i64>,
    pub last_amp_r: Vec<i64>,
}

impl View for AdditiveEngine {
    type V = EngineModel;

    open spec fn view(&self) -> EngineModel {
        EngineModel {
            phases: seq_int(self.phases@),
            amp_l: seq_int(self.amp_l@),
            amp_r: seq_int(self.amp_r@),
            last_l: seq_int(self.last_amp_l@),
            last_r: seq_int(self.last_amp_r@),
        }
    }
}

/// Validity: correct widths, phases within one doubled cycle, amplitudes and
/// slew memories within the amplitude limit.
pub open spec fn eng_wf(m: EngineModel) -> bool {
    &&& m.phases.len() == 512
    &&& m.amp_l.len() == 512
    &&& m.amp_r.len() == 512
    &&& m.last_l.len() == 512
    &&& m.last_r.len() == 512
    &&& forall|i: int| 0 <= i < 512 ==> 0 <= #[trigger] m.phases[i] < 2 * SCALE
    &&& forall|i: int| 0 <= i < 512 ==> -AMP_LIMIT <= #[trigger] m.amp_l[i] <= AMP_LIMIT
    &&& forall|i: int| 0 <= i < 512 ==> -AMP_LIMIT <= #[trigger] m.amp_r[i] <= AMP_LIMIT
    &&& forall|i: int| 0 <= i < 512 ==> -AMP_LIMIT <= #[trigger] m.last_l[i] <= AMP_LIMIT
    &&& forall|i: int| 0 <= i < 512 ==> -AMP_LIMIT <= #[trigger] m.last_r[i] <= AMP_LIMIT
}

/// Frequencies the bank accepts: 512 of them, each nonnegative and bounded.
pub open spec fn freqs_ok(fr: Seq<int>) -> bool {
    &&& fr.len() == 512
    &&& forall|i: int| 0 <= i < 512 ==> 0 <= #[trigger] fr[i] <= FREQ_LIMIT
}

/// The per-sample slew bound `12.5 / sample_rate` in Q24.
pub open spec fn slew_threshold(sr: int) -> int {
    25 * SCALE / (2 * sr)
}

/// A harmonic contributes sound only between 20 Hz and the Nyquist frequency.
pub open spec fn freq_in_range(freq: int, sr: int) -> bool {
    freq >= 20 * SCALE && 2 * freq <= sr * SCALE
}

/// One phase advance: exactly `freq / sr` cycles, modulo the doubled cycle.
pub open spec fn phase_step(phase: int, freq: int, sr: int) -> int {
    (phase + freq / sr) % (2 * SCALE as int)
}

/// The amplitude the bank applies this sample: with slew limiting the stored
/// value moves toward the target by at most the threshold; without it the
/// target applies at once.
pub open spec fn slew_amp(last: int, target: int, th: int, slew_on: bool) -> int {
    if slew_on {
        last + clamp_spec(target - last, -th, th)
    } else {
        target
    }
}

/// The slew memory after one sample: it follows the applied amplitude for
/// audible harmonics and is untouched for skipped ones.
pub open spec fn applied_amp(last: int, target: int, freq: int, sr: int, slew_on: bool) -> int {
    if freq_in_range(freq, sr) {
        slew_amp(last, target, slew_threshold(sr), slew_on)
    } else {
        last
    }
}

/// The per-harmonic gain law.
pub open spec fn gain_spec(mode: BasicGainMode, i: int) -> int {
    match mode {
        BasicGainMode::Flat => SCALE as int,
        BasicGainMode::Sawtooth => sqrt_floor((SCALE * SCALE / (i + 1)) as nat) as int,
    }
}

/// What one harmonic adds to one output sample: the sine of its advanced
/// phase, scaled by its slewed amplitude and gain; zero when out of range.
pub open spec fn harmonic_contrib(
    phase: int,
    last: int,
    target: int,
    freq: int,
    sr: int,
    mode: BasicGainMode,
    slew_on: bool,
    i: int,
) -> int {
    if freq_in_range(freq, sr) {
        fp_mul_spec(
            fp_mul_spec(
                slew_amp(last, target, slew_threshold(sr), slew_on),
                sine_spec(phase_step(phase, freq, sr)),
            ),
            gain_spec(mode, i),
        )
    } else {
        0
    }
}

/// The left output sample: the contributions of the first `k` harmonics.
pub open spec fn contrib_sum_l(
    m: EngineModel,
    fr: Seq<int>,
    sr: int,
    mode: BasicGainMode,
    slew_on: bool,
    k: nat,
) -> int
    decreases k,
{
    if k == 0 {
        0
    } else {
        contrib_sum_l(m, fr, sr, mode, slew_on, (k - 1) as nat) + harmonic_contrib(
            m.phases[k - 1],
            m.last_l[k - 1],
            m.amp_l[k - 1],
            fr[k - 1],
            sr,
            mode,
            slew_on,
            k - 1,
        )
    }
}

/// The right output sample: the contributions of the first `k` harmonics.
pub open spec fn contrib_sum_r(
    m: EngineModel,
    fr: Seq<int>,
    sr: int,
    mode: BasicGainMode,
    slew_on: bool,
    k: nat,
) -> int
    decreases k,
{
    if k == 0 {
        0
    } else {
        contrib_sum_r(m, fr, sr, mode, slew_on, (k - 1) as nat) + harmonic_contrib(
            m.phases[k - 1],
            m.last_r[k - 1],
            m.amp_r[k - 1],
            fr[k - 1],
            sr,
            mode,
            slew_on,
            k - 1,
        )
    }
}

/// The bank's state after one sample.
pub open spec fn eng_step(m: EngineModel, fr: Seq<int>, sr: int, slew_on: bool) -> EngineModel {
    EngineModel {
        phases: Seq::new(512, |i: int| phase_step(m.phases[i], fr[i], sr)),
        amp_l: m.amp_l,
        amp_r: m.amp_r,
        last_l: Seq::new(512, |i: int| applied_amp(m.last_l[i], m.amp_l[i], fr[i], sr, slew_on)),
        last_r: Seq::new(512, |i: int| applied_amp(m.last_r[i], m.amp_r[i], fr[i], sr, slew_on)),
    }
}

/// The bank's state after `n` samples.
pub open spec fn eng_iter(m: EngineModel, fr: Seq<int>, sr: int, slew_on: bool, n: nat) -> EngineModel
    decreases n,
{
    if n == 0 {
        m
    } else {
        eng_step(eng_iter(m, fr, sr, slew_on, (n - 1) as nat), fr, sr, slew_on)
    }
}

/// The left sample the bank emits at step `n` (0-based).
pub open spec fn out_sample_l(
    m: EngineModel,
    fr: Seq<int>,
    sr: int,
    mode: BasicGainMode,
    slew_on: bool,
    n: nat,
) -> int {
    contrib_sum_l(eng_iter(m, fr, sr, slew_on, n), fr, sr, mode, slew_on, 512)
}

/// The right sample the bank emits at step `n` (0-based).
pub open spec fn out_sample_r(
    m: EngineModel,
    fr: Seq<int>,
    sr: int,
    mode: BasicGainMode,
    slew_on: bool,
    n: nat,
) -> int {
    contrib_sum_r(eng_iter(m, fr, sr, slew_on, n), fr, sr, mode, slew_on, 512)
}

/// The slew-limited amplitude never moves away from `[last, target]`'s hull,
/// so it stays within any bound both ends satisfy; and the per-sample change
/// never exceeds the threshold in magnitude, for either sign of the jump.
pub proof fn lemma_slew_amp_bounded(last: int, target: int, th: int, slew_on: bool, m: int)
    requires
        th >= 0,
        -m <= last <= m,
        -m <= target <= m,
    ensures
        -m <= slew_amp(last, target, th, slew_on) <= m,
        slew_on ==> -th <= slew_amp(last, target, th, slew_on) - last <= th,
{
}

/// Each harmonic's contribution is at most the amplitude limit.
proof fn lemma_contrib_bound(
    phase: int,
    last: int,
    target: int,
    freq: int,
    sr: int,
    mode: BasicGainMode,
    slew_on: bool,
    i: int,
)
    requires
        1 <= sr,
        -AMP_LIMIT <= last <= AMP_LIMIT,
        -AMP_LIMIT <= target <= AMP_LIMIT,
        0 <= i < 512,
    ensures
        -AMP_LIMIT <= harmonic_contrib(phase, last, target, freq, sr, mode, slew_on, i)
            <= AMP_LIMIT,
{
    if freq_in_range(freq, sr) {
        let th = slew_threshold(sr);
        vstd::arithmetic::div_mod::lemma_div_pos_is_pos(25 * SCALE, 2 * sr);
        lemma_slew_amp_bounded(last, target, th, slew_on, AMP_LIMIT as int);
        let a = slew_amp(last, target, th, slew_on);
        let s = sine_spec(phase_step(phase, freq, sr));
        crate::fixed::lemma_sine_range(phase_step(phase, freq, sr));
        lemma_fp_mul_unit_bound(s, a, AMP_LIMIT as int);
        let g = gain_spec(mode, i);
        assert(0 <= g <= SCALE) by {
            if mode is Sawtooth {
                lemma_gain_range(i);
            }
        }
        lemma_fp_mul_unit_bound(g, fp_mul_spec(a, s), AMP_LIMIT as int);
    }
}

/// The sawtooth gain never exceeds one.
proof fn lemma_gain_range(i: int)
    requires
        0 <= i < 512,
    ensures
        0 <= gain_spec(BasicGainMode::Sawtooth, i) <= SCALE,
{
    let x = SCALE * SCALE / (i + 1);
    vstd::arithmetic::div_mod::lemma_div_pos_is_pos(SCALE * SCALE, i + 1);
    vstd::arithmetic::div_mod::lemma_div_is_ordered_by_denominator(SCALE * SCALE, 1, i + 1);
    assert((SCALE * SCALE) / 1int == SCALE * SCALE) by {
        vstd::arithmetic::div_mod::lemma_div_by_multiple(SCALE * SCALE, 1int);
        assert((SCALE * SCALE) * 1int == SCALE * SCALE) by (nonlinear_arith);
    }
    crate::fixed::lemma_sqrt_floor(x as nat);
    let s = sqrt_floor(x as nat);
    assert(s <= SCALE) by (nonlinear_arith)
        requires
            s * s <= x,
            0 <= x <= SCALE * SCALE,
            SCALE == 0x100_0000,
    ;
}

/// A whole output sample is at most 512 contributions at the limit.
proof fn lemma_contrib_sum_bound(
    m: EngineModel,
    fr: Seq<int>,
    sr: int,
    mode: BasicGainMode,
    slew_on: bool,
    k: nat,
)
    requires
        eng_wf(m),
        freqs_ok(fr),
        1 <= sr,
        k <= 512,
    ensures
        -0x800_0000 * (k as int) <= contrib_sum_l(m, fr, sr, mode, slew_on, k) <= 0x800_0000 * (
        k as int),
        -0x800_0000 * (k as int) <= contrib_sum_r(m, fr, sr, mode, slew_on, k) <= 0x800_0000 * (
        k as int),
    decreases k,
{
    if k > 0 {
        lemma_contrib_sum_bound(m, fr, sr, mode, slew_on, (k - 1) as nat);
        lemma_contrib_bound(
            m.phases[k - 1],
            m.last_l[k - 1],
            m.amp_l[k - 1],
            fr[k - 1],
            sr,
            mode,
            slew_on,
            k - 1,
        );
        lemma_contrib_bound(
            m.phases[k - 1],
            m.last_r[k - 1],
            m.amp_r[k - 1],
            fr[k - 1],
            sr,
            mode,
            slew_on,
            k - 1,
        );
    }
}

/// The sample the bank emits at any step fits in the sample limit.
pub proof fn lemma_out_sample_bound(
    m: EngineModel,
    fr: Seq<int>,
    sr: int,
    mode: BasicGainMode,
    slew_on: bool,
    n: nat,
)
    requires
        eng_wf(m),
        freqs_ok(fr),
        1 <= sr,
    ensures
        -SAMPLE_LIMIT <= out_sample_l(m, fr, sr, mode, slew_on, n) <= SAMPLE_LIMIT,
        -SAMPLE_LIMIT <= out_sample_r(m, fr, sr, mode, slew_on, n) <= SAMPLE_LIMIT,
{
    lemma_eng_iter_wf(m, fr, sr, slew_on, n);
    lemma_contrib_sum_bound(eng_iter(m, fr, sr, slew_on, n), fr, sr, mode, slew_on, 512);
}

/// One step preserves validity.
pub proof fn lemma_eng_step_wf(m: EngineModel, fr: Seq<int>, sr: int, slew_on: bool)
    requires
        eng_wf(m),
        freqs_ok(fr),
        1 <= sr,
    ensures
        eng_wf(eng_step(m, fr, sr, slew_on)),
{
    let m2 = eng_step(m, fr, sr, slew_on);
    let two = 2 * SCALE as int;
    assert forall|i: int| 0 <= i < 512 implies 0 <= #[trigger] m2.phases[i] < two by {
        vstd::arithmetic::div_mod::lemma_div_pos_is_pos(fr[i], sr);
        vstd::arithmetic::div_mod::lemma_mod_bound(m.phases[i] + fr[i] / sr, two);
    }
    assert forall|i: int| 0 <= i < 512 implies -AMP_LIMIT <= #[trigger] m2.last_l[i]
        <= AMP_LIMIT by {
        vstd::arithmetic::div_mod::lemma_div_pos_is_pos(25 * SCALE, 2 * sr);
        lemma_slew_amp_bounded(
            m.last_l[i],
            m.amp_l[i],
            slew_threshold(sr),
            slew_on,
            AMP_LIMIT as int,
        );
    }
    assert forall|i: int| 0 <= i < 512 implies -AMP_LIMIT <= #[trigger] m2.last_r[i]
        <= AMP_LIMIT by {
        vstd::arithmetic::div_mod::lemma_div_pos_is_pos(25 * SCALE, 2 * sr);
        lemma_slew_amp_bounded(
            m.last_r[i],
            m.amp_r[i],
            slew_threshold(sr),
            slew_on,
            AMP_LIMIT as int,
        );
    }
}

/// Any number of steps preserves validity; in particular every phase stays
/// in `[0, 2)` indefinitely, each sample advancing it by exactly
/// `freq / sample_rate` modulo the doubled cycle.
pub proof fn lemma_eng_iter_wf(m: EngineModel, fr: Seq<int>, sr: int, slew_on: bool, n: nat)
    requires
        eng_wf(m),
        freqs_ok(fr),
        1 <= sr,
    ensures
        eng_wf(eng_iter(m, fr, sr, slew_on, n)),
    decreases n,
{
    if n > 0 {
        lemma_eng_iter_wf(m, fr, sr, slew_on, (n - 1) as nat);
        lemma_eng_step_wf(eng_iter(m, fr, sr, slew_on, (n - 1) as nat), fr, sr, slew_on);
    }
}

/// The phase law, stated by itself: every harmonic — audible or skipped —
/// advances by exactly `freq / sample_rate` cycles per sample, modulo the
/// doubled cycle, and the result is always inside `[0, 2)`.
pub proof fn lemma_phase_advance(m: EngineModel, fr: Seq<int>, sr: int, slew_on: bool, i: int)
    requires
        eng_wf(m),
        freqs_ok(fr),
        1 <= sr,
        0 <= i < 512,
    ensures
        eng_step(m, fr, sr, slew_on).phases[i] == (m.phases[i] + fr[i] / sr) % (
        2 * SCALE as int),
        0 <= eng_step(m, fr, sr, slew_on).phases[i] < 2 * SCALE,
{
    vstd::arithmetic::div_mod::lemma_div_pos_is_pos(fr[i], sr);
    vstd::arithmetic::div_mod::lemma_mod_bound(m.phases[i] + fr[i] / sr, 2 * SCALE as int);
}

/// Steps compose: running `a + b` samples is running `a`, then `b` more.
pub proof fn lemma_eng_iter_add(
    m: EngineModel,
    fr: Seq<int>,
    sr: int,
    slew_on: bool,
    a: nat,
    b: nat,
)
    ensures
        eng_iter(m, fr, sr, slew_on, a + b) == eng_iter(
            eng_iter(m, fr, sr, slew_on, a),
            fr,
            sr,
            slew_on,
            b,
        ),
    decreases b,
{
    if b > 0 {
        lemma_eng_iter_add(m, fr, sr, slew_on, a, (b - 1) as nat);
        assert(a + b - 1 == a + (b - 1) as nat);
    }
}

impl AdditiveEngine {
    /// Replaces the target-amplitude arrays with a fresh demodulated snapshot.
    pub fn submit_amplitudes(&mut self, amp_l: &Vec<i64>, amp_r: &Vec<i64>)
        requires
            eng_wf(old(self)@),
            amp_l.len() == MAX_HARMONICS,
            amp_r.len() == MAX_HARMONICS,
            forall|i: int| 0 <= i < 512 ==> -AMP_LIMIT <= #[trigger] amp_l@[i] <= AMP_LIMIT,
            forall|i: int| 0 <= i < 512 ==> -AMP_LIMIT <= #[trigger] amp_r@[i] <= AMP_LIMIT,
        ensures
            eng_wf(final(self)@),
            final(self)@ == (EngineModel {
                amp_l: seq_int(amp_l@),
                amp_r: seq_int(amp_r@),
                ..old(self)@
            }),
    {
        let mut i: usize = 0;
        while i < MAX_HARMONICS
            invariant
                i <= 512,
                amp_l.len() == 512,
                amp_r.len() == 512,
                self.amp_l.len() == 512,
                self.amp_r.len() == 512,
                self.phases == old(self).phases,
                self.last_amp_l == old(self).last_amp_l,
                self.last_amp_r == old(self).last_amp_r,
                forall|j: int| 0 <= j < i ==> self.amp_l@[j] == #[trigger] amp_l@[j],
                forall|j: int| 0 <= j < i ==> self.amp_r@[j] == #[trigger] amp_r@[j],
            decreases 512 - i,
        {
            let vl: i64 = amp_l[i];
            let vr: i64 = amp_r[i];
            self.amp_l.set(i, vl);
            self.amp_r.set(i, vr);
            i = i + 1;
        }
        proof {
            assert(seq_int(self.amp_l@) =~= seq_int(amp_l@));
            assert(seq_int(self.amp_r@) =~= seq_int(amp_r@));
            assert(self@ =~= (EngineModel {
                amp_l: seq_int(amp_l@),
                amp_r: seq_int(amp_r@),
                ..old(self)@
            }));
        }
    }

    /// Advances every harmonic by one sample and returns the pair of output
    /// samples the bank emits.
    fn generate_one(
        &mut self,
        i_freqs: &Vec<i64>,
        sample_rate: u32,
        basic_gain_mode: &BasicGainMode,
        slew_limiting: bool,
    ) -> (out: (i64, i64))
        requires
            eng_wf(old(self)@),
            freqs_ok(seq_int(i_freqs@)),
            1 <= sample_rate <= 1_000_000,
        ensures
            eng_wf(final(self)@),
            final(self)@ == eng_step(
                old(self)@,
                seq_int(i_freqs@),
                sample_rate as int,
                slew_limiting,
            ),
            out.0 == contrib_sum_l(
                old(self)@,
                seq_int(i_freqs@),
                sample_rate as int,
                *basic_gain_mode,
                slew_limiting,
                512,
            ),
            out.1 == contrib_sum_r(
                old(self)@,
                seq_int(i_freqs@),
                sample_rate as int,
                *basic_gain_mode,
                slew_limiting,
                512,
            ),
            -SAMPLE_LIMIT <= out.0 <= SAMPLE_LIMIT,
            -SAMPLE_LIMIT <= out.1 <= SAMPLE_LIMIT,
    {
        let ghost m0 = self@;
        let ghost fr = seq_int(i_freqs@);
        let ghost srr = sample_rate as int;
        let ghost mode = *basic_gain_mode;
        let sr64: i64 = sample_rate as i64;
        let th: i64 = (25 * SCALE) / (2 * sr64);
        proof {
            vstd::arithmetic::div_mod::lemma_div_pos_is_pos(25 * SCALE, 2 * srr);
            vstd::arithmetic::div_mod::lemma_div_is_ordered(25 * SCALE, 25 * SCALE, 2 * srr);
        }
        let mut samp_l: i64 = 0;
        let mut samp_r: i64 = 0;
        let mut i: usize = 0;
        while i < MAX_HARMONICS
            invariant
                i <= 512,
                self.phases.len() == 512,
                self.amp_l.len() == 512,
                self.amp_r.len() == 512,
                self.last_amp_l.len() == 512,
                self.last_amp_r.len() == 512,
                i_freqs.len() == 512,
                eng_wf(m0),
                eng_wf(self@),
                fr == seq_int(i_freqs@),
                freqs_ok(fr),
                srr == sample_rate as int,
                sr64 == sample_rate as i64,
                1 <= srr <= 1_000_000,
                mode == *basic_gain_mode,
                th == slew_threshold(srr),
                0 <= th <= 25 * SCALE,
                seq_int(self.amp_l@) == m0.amp_l,
                seq_int(self.amp_r@) == m0.amp_r,
                forall|j: int|
                    0 <= j < i ==> (#[trigger] self.phases@[j]) as int == phase_step(
                        m0.phases[j],
                        fr[j],
                        srr,
                    ),
                forall|j: int| i <= j < 512 ==> (#[trigger] self.phases@[j]) as int == m0.phases[j],
                forall|j: int|
                    0 <= j < i ==> (#[trigger] self.last_amp_l@[j]) as int == applied_amp(
                        m0.last_l[j],
                        m0.amp_l[j],
                        fr[j],
                        srr,
                        slew_limiting,
                    ),
                forall|j: int|
                    i <= j < 512 ==> (#[trigger] self.last_amp_l@[j]) as int == m0.last_l[j],
                forall|j: int|
                    0 <= j < i ==> (#[trigger] self.last_amp_r@[j]) as int == applied_amp(
                        m0.last_r[j],
                        m0.amp_r[j],
                        fr[j],
                        srr,
                        slew_limiting,
                    ),
                forall|j: int|
                    i <= j < 512 ==> (#[trigger] self.last_amp_r@[j]) as int == m0.last_r[j],
                samp_l == contrib_sum_l(m0, fr, srr, mode, slew_limiting, i as nat),
                samp_r == contrib_sum_r(m0, fr, srr, mode, slew_limiting, i as nat),
                -0x800_0000 * (i as int) <= samp_l <= 0x800_0000 * (i as int),
                -0x800_0000 * (i as int) <= samp_r <= 0x800_0000 * (i as int),
            decreases 512 - i,
        {
            let freq: i64 = i_freqs[i];
            proof {
                assert(fr[i as int] == freq as int);
                assert(0 <= freq <= FREQ_LIMIT);
            }
            let step: i64 = freq / sr64;
            proof {
                vstd::arithmetic::div_mod::lemma_div_pos_is_pos(freq as int, srr);
                vstd::arithmetic::div_mod::lemma_div_nonincreasing(freq as int, srr);
            }
            let ph: i64 = self.phases[i];
            let sum: i64 = ph + step;
            let new_phase: i64 = sum % (2 * SCALE);
            proof {
                vstd::arithmetic::div_mod::lemma_mod_bound(sum as int, 2 * SCALE as int);
                assert(new_phase as int == phase_step(m0.phases[i as int], fr[i as int], srr));
            }
            self.phases.set(i, new_phase);
            if freq >= 20 * SCALE && 2 * freq <= sr64 * SCALE {
                proof {
                    assert(freq_in_range(fr[i as int], srr));
                }
                let v: i64 = sine_fp(new_phase);
                let target_l: i64 = self.amp_l[i];
                let last_l: i64 = self.last_amp_l[i];
                proof {
                    assert(target_l as int == m0.amp_l[i as int]);
                    assert(last_l as int == m0.last_l[i as int]);
                    assert(-AMP_LIMIT <= target_l <= AMP_LIMIT);
                    assert(-AMP_LIMIT <= last_l <= AMP_LIMIT);
                }
                let applied_l: i64 = if slew_limiting {
                    last_l + clamp_fp(target_l - last_l, -th, th)
                } else {
                    target_l
                };
                let target_r: i64 = self.amp_r[i];
                let last_r: i64 = self.last_amp_r[i];
                proof {
                    assert(target_r as int == m0.amp_r[i as int]);
                    assert(last_r as int == m0.last_r[i as int]);
                    assert(-AMP_LIMIT <= target_r <= AMP_LIMIT);
                    assert(-AMP_LIMIT <= last_r <= AMP_LIMIT);
                }
                let applied_r: i64 = if slew_limiting {
                    last_r + clamp_fp(target_r - last_r, -th, th)
                } else {
                    target_r
                };
                proof {
                    lemma_slew_amp_bounded(
                        last_l as int,
                        target_l as int,
                        th as int,
                        slew_limiting,
                        AMP_LIMIT as int,
                    );
                    lemma_slew_amp_bounded(
                        last_r as int,
                        target_r as int,
                        th as int,
                        slew_limiting,
                        AMP_LIMIT as int,
                    );
                    assert(applied_l as int == slew_amp(
                        m0.last_l[i as int],
                        m0.amp_l[i as int],
                        slew_threshold(srr),
                        slew_limiting,
                    ));
                    assert(applied_r as int == slew_amp(
                        m0.last_r[i as int],
                        m0.amp_r[i as int],
                        slew_threshold(srr),
                        slew_limiting,
                    ));
                }
                self.last_amp_l.set(i, applied_l);
                self.last_amp_r.set(i, applied_r);
                let gain: i64 = match basic_gain_mode {
                    BasicGainMode::Flat => SCALE,
                    BasicGainMode::Sawtooth => {
                        let d: i64 = (i as i64) + 1;
                        proof {
                            assert(SCALE * SCALE == 0x1_0000_0000_0000) by (nonlinear_arith);
                        }
                        let x: i64 = (SCALE * SCALE) / d;
                        proof {
                            vstd::arithmetic::div_mod::lemma_div_pos_is_pos(
                                SCALE * SCALE,
                                d as int,
                            );
                            vstd::arithmetic::div_mod::lemma_div_is_ordered_by_denominator(
                                SCALE * SCALE,
                                1,
                                d as int,
                            );
                            assert((SCALE * SCALE) / 1int == SCALE * SCALE) by {
                                vstd::arithmetic::div_mod::lemma_div_by_multiple(
                                    SCALE * SCALE,
                                    1int,
                                );
                                assert((SCALE * SCALE) * 1int == SCALE * SCALE) by (
                                nonlinear_arith);
                            }
                        }
                        isqrt(x)
                    },
                };
                proof {
                    assert(gain as int == gain_spec(mode, i as int));
                    assert(0 <= gain <= SCALE);
                }
                let c1_l: i64 = fp_mul(applied_l, v);
                let c1_r: i64 = fp_mul(applied_r, v);
                proof {
                    lemma_fp_mul_unit_bound(v as int, applied_l as int, AMP_LIMIT as int);
                    lemma_fp_mul_unit_bound(v as int, applied_r as int, AMP_LIMIT as int);
                }
                let c2_l: i64 = fp_mul(c1_l, gain);
                let c2_r: i64 = fp_mul(c1_r, gain);
                proof {
                    lemma_fp_mul_unit_bound(gain as int, c1_l as int, AMP_LIMIT as int);
                    lemma_fp_mul_unit_bound(gain as int, c1_r as int, AMP_LIMIT as int);
                    assert(c2_l as int == harmonic_contrib(
                        m0.phases[i as int],
                        m0.last_l[i as int],
                        m0.amp_l[i as int],
                        fr[i as int],
                        srr,
                        mode,
                        slew_limiting,
                        i as int,
                    ));
                    assert(c2_r as int == harmonic_contrib(
                        m0.phases[i as int],
                        m0.last_r[i as int],
                        m0.amp_r[i as int],
                        fr[i as int],
                        srr,
                        mode,
                        slew_limiting,
                        i as int,
                    ));
                }
                samp_l = samp_l + c2_l;
                samp_r = samp_r + c2_r;
            } else {
                proof {
                    assert(!freq_in_range(fr[i as int], srr));
                    assert(harmonic_contrib(
                        m0.phases[i as int],
                        m0.last_l[i as int],
                        m0.amp_l[i as int],
                        fr[i as int],
                        srr,
                        mode,
                        slew_limiting,
                        i as int,
                    ) == 0);
                }
            }
            i = i + 1;
            proof {
                assert(samp_l == contrib_sum_l(m0, fr, srr, mode, slew_limiting, i as nat));
                assert(samp_r == contrib_sum_r(m0, fr, srr, mode, slew_limiting, i as nat));
            }
        }
        proof {
            assert(SAMPLE_LIMIT == 0x10_0000_0000);
            let st = eng_step(m0, fr, srr, slew_limiting);
            assert(seq_int(self.phases@) =~= st.phases);
            assert(seq_int(self.last_amp_l@) =~= st.last_l);
            assert(seq_int(self.last_amp_r@) =~= st.last_r);
            assert(self@ =~= st);
            lemma_eng_step_wf(m0, fr, srr, slew_limiting);
        }
        (samp_l, samp_r)
    }

    /// Renders `out_l.len()` samples, adding the bank's output into the
    /// caller's buffers (they are accumulated into, never overwritten).
    pub fn generate_samples(
        &mut self,
        i_freqs: &Vec<i64>,
        sample_rate: u32,
        out_l: &mut Vec<i64>,
        out_r: &mut Vec<i64>,
        basic_gain_mode: &BasicGainMode,
        slew_limiting: bool,
    )
        requires
            eng_wf(old(self)@),
            freqs_ok(seq_int(i_freqs@)),
            1 <= sample_rate <= 1_000_000,
            old(out_l).len() == old(out_r).len(),
            forall|k: int|
                0 <= k < old(out_l).len() ==> -OUT_LIMIT <= #[trigger] old(out_l)@[k] <= OUT_LIMIT,
            forall|k: int|
                0 <= k < old(out_r).len() ==> -OUT_LIMIT <= #[trigger] old(out_r)@[k] <= OUT_LIMIT,
        ensures
            eng_wf(final(self)@),
            final(self)@ == eng_iter(
                old(self)@,
                seq_int(i_freqs@),
                sample_rate as int,
                slew_limiting,
                old(out_l).len() as nat,
            ),
            final(out_l).len() == old(out_l).len(),
            final(out_r).len() == old(out_r).len(),
            forall|k: int|
                0 <= k < old(out_l).len() ==> (#[trigger] final(out_l)@[k]) as int == old(
                    out_l,
                )@[k] + out_sample_l(
                    old(self)@,
                    seq_int(i_freqs@),
                    sample_rate as int,
                    *basic_gain_mode,
                    slew_limiting,
                    k as nat,
                ),
            forall|k: int|
                0 <= k < old(out_r).len() ==> (#[trigger] final(out_r)@[k]) as int == old(
                    out_r,
                )@[k] + out_sample_r(
                    old(self)@,
                    seq_int(i_freqs@),
                    sample_rate as int,
                    *basic_gain_mode,
                    slew_limiting,
                    k as nat,
                ),
    {
        let ghost m0 = self@;
        let ghost fr = seq_int(i_freqs@);
        let ghost srr = sample_rate as int;
        let ghost mode = *basic_gain_mode;
        let len: usize = out_l.len();
        let mut n: usize = 0;
        while n < len
            invariant
                n <= len,
                out_l.len() == len,
                out_r.len() == len,
                old(out_l).len() == len,
                old(out_r).len() == len,
                i_freqs.len() == 512,
                eng_wf(m0),
                eng_wf(self@),
                fr == seq_int(i_freqs@),
                freqs_ok(fr),
                srr == sample_rate as int,
                1 <= sample_rate <= 1_000_000,
                mode == *basic_gain_mode,
                self@ == eng_iter(m0, fr, srr, slew_limiting, n as nat),
                forall|k: int|
                    0 <= k < len ==> -OUT_LIMIT <= #[trigger] old(out_l)@[k] <= OUT_LIMIT,
                forall|k: int|
                    0 <= k < len ==> -OUT_LIMIT <= #[trigger] old(out_r)@[k] <= OUT_LIMIT,
                forall|k: int|
                    0 <= k < n ==> (#[trigger] out_l@[k]) as int == old(out_l)@[k] + out_sample_l(
                        m0,
                        fr,
                        srr,
                        mode,
                        slew_limiting,
                        k as nat,
                    ),
                forall|k: int|
                    0 <= k < n ==> (#[trigger] out_r@[k]) as int == old(out_r)@[k] + out_sample_r(
                        m0,
                        fr,
                        srr,
                        mode,
                        slew_limiting,
                        k as nat,
                    ),
                forall|k: int| n <= k < len ==> #[trigger] out_l@[k] == old(out_l)@[k],
                forall|k: int| n <= k < len ==> #[trigger] out_r@[k] == old(out_r)@[k],
            decreases len - n,
        {
            let (sl, sr_samp) = self.generate_one(
                i_freqs,
                sample_rate,
                basic_gain_mode,
                slew_limiting,
            );
            proof {
                assert(eng_iter(m0, fr, srr, slew_limiting, (n + 1) as nat) == eng_step(
                    eng_iter(m0, fr, srr, slew_limiting, n as nat),
                    fr,
                    srr,
                    slew_limiting,
                ));
                assert(sl as int == out_sample_l(m0, fr, srr, mode, slew_limiting, n as nat));
                assert(sr_samp as int == out_sample_r(m0, fr, srr, mode, slew_limiting, n as nat));
            }
            let cur_l: i64 = out_l[n];
            let cur_r: i64 = out_r[n];
            out_l.set(n, cur_l + sl);
            out_r.set(n, cur_r + sr_samp);
            n = n + 1;
        }
    }

    /// Zeroes the slew memory, so the next note does not ramp up from stale
    /// residual amplitude.
    pub fn reset_slew_tracking(&mut self)
        requires
            eng_wf(old(self)@),
        ensures
            eng_wf(final(self)@),
            final(self)@ == (EngineModel { last_l: zeros(512), last_r: zeros(512), ..old(self)@ }),
    {
        let mut i: usize = 0;
        while i < MAX_HARMONICS
            invariant
                i <= 512,
                self.last_amp_l.len() == 512,
                self.last_amp_r.len() == 512,
                self.phases == old(self).phases,
                self.amp_l == old(self).amp_l,
                self.amp_r == old(self).amp_r,
                forall|j: int| 0 <= j < i ==> #[trigger] self.last_amp_l@[j] == 0,
                forall|j: int| 0 <= j < i ==> #[trigger] self.last_amp_r@[j] == 0,
            decreases 512 - i,
        {
            self.last_amp_l.set(i, 0);
            self.last_amp_r.set(i, 0);
            i = i + 1;
        }
        proof {
            assert(seq_int(self.last_amp_l@) =~= zeros(512));
            assert(seq_int(self.last_amp_r@) =~= zeros(512));
            assert(self@ =~= (EngineModel {
                last_l: zeros(512),
                last_r: zeros(512),
                ..old(self)@
            }));
        }
    }
}

impl Default for AdditiveEngine {
    /// A fresh bank: all phases, targets and slew memories at zero.
    fn default() -> (e: AdditiveEngine)
        ensures
            eng_wf(e@),
            e@.phases == zeros(512),
            e@.amp_l == zeros(512),
            e@.amp_r == zeros(512),
            e@.last_l == zeros(512),
            e@.last_r == zeros(512),
    {
        let mut phases: Vec<i64> = Vec::new();
        let mut amp_l: Vec<i64> = Vec::new();
        let mut amp_r: Vec<i64> = Vec::new();
        let mut last_amp_l: Vec<i64> = Vec::new();
        let mut last_amp_r: Vec<i64> = Vec::new();
        let mut i: usize = 0;
        while i < MAX_HARMONICS
            invariant
                i <= 512,
                phases.len() == i,
                amp_l.len() == i,
                amp_r.len() == i,
                last_amp_l.len() == i,
                last_amp_r.len() == i,
                forall|j: int| 0 <= j < i ==> #[trigger] phases@[j] == 0,
                forall|j: int| 0 <= j < i ==> #[trigger] amp_l@[j] == 0,
                forall|j: int| 0 <= j < i ==> #[trigger] amp_r@[j] == 0,
                forall|j: int| 0 <= j < i ==> #[trigger] last_amp_l@[j] == 0,
                forall|j: int| 0 <= j < i ==> #[trigger] last_amp_r@[j] == 0,
            decreases 512 - i,
        {
            phases.push(0);
            amp_l.push(0);
            amp_r.push(0);
            last_amp_l.push(0);
            last_amp_r.push(0);
            i = i + 1;
        }
        let e = AdditiveEngine { phases, amp_l, amp_r, last_amp_l, last_amp_r };
        proof {
            assert(seq_int(e.phases@) =~= zeros(512));
            assert(seq_int(e.amp_l@) =~= zeros(512));
            assert(seq_int(e.amp_r@) =~= zeros(512));
            assert(seq_int(e.last_amp_l@) =~= zeros(512));
            assert(seq_int(e.last_amp_r@) =~= zeros(512));
        }
        e
    }
}

} // verus!
