//! The voice: fundamental-frequency tracking, the note lifecycle, and the
//! glue that multiplies oscillator-bank output by the envelope. A single
//! voice absorbs overlapping note-ons with a counter rather than true
//! polyphony.

use crate::additive_engine::{
    eng_iter, eng_wf, freqs_ok, out_sample_l, out_sample_r, AdditiveEngine, EngineModel,
    FREQ_LIMIT, MAX_HARMONICS, OUT_LIMIT, SAMPLE_LIMIT,
};
use crate::envelope::{active_coeff, env_iter, releasing_now, AREnvelope, RELEASE_EPS};
use crate::fixed::{
    clamp_fp, clamp_spec, exp2_fp, exp2_spec, fp_mul, fp_mul_spec, lemma_fp_mul_unit_bound,
    seq_int, zeros, SCALE,
};
use crate::envelope::{lemma_env_iter_add, lemma_env_iter_range};
use crate::additive_engine::lemma_eng_iter_add;
use crate::BasicGainMode;
use vstd::prelude::*;

verus! {

/// Samples per internal rendering sub-block.
pub const VOICE_BLOCK_SIZE: usize = 32;

pub struct AdditiveVoice {
    pub engine: AdditiveEngine,
    pub envelope: AREnvelope,
    pub current_midi_note: u8,
    pub bend_value: i64,
    pub notes_on: u32,
}

/// Validity of a voice: its bank and envelope are valid and the held note
/// is a MIDI note.
pub open spec fn voice_wf(v: AdditiveVoice) -> bool {
    &&& eng_wf(v.engine@)
    &&& v.envelope.wf()
    &&& v.current_midi_note <= 127
}

/// The held pitch in Q24 semitones relative to A4 (note 69): the note plus
/// the bend remapped from `[0, 1]` to plus or minus 12 semitones.
pub open spec fn semitones_spec(note: u8, bend: int) -> int {
    note * SCALE + 24 * clamp_spec(bend, 0, SCALE as int) - 81 * SCALE
}

/// The fundamental frequency in Q24 Hz: `440 * 2^(semitones / 12)`.
pub open spec fn fundamental_spec(note: u8, bend: int) -> int {
    440 * exp2_spec((semitones_spec(note, bend) + 996 * SCALE) / 12 - 83 * SCALE)
}

/// The 512 harmonic frequencies: integer multiples of the fundamental.
pub open spec fn freqs_spec(note: u8, bend: int) -> Seq<int> {
    Seq::new(512, |i: int| fundamental_spec(note, bend) * (i + 1))
}

/// The staggered phase pattern a silent voice resets to, `512 / (i + 1)`
/// cycles reduced into the phase range, so that the next onset's harmonics
/// do not start in lockstep.
pub open spec fn stagger_phases() -> Seq<int> {
    Seq::new(512, |i: int| (512 * SCALE / (i + 1)) % (2 * SCALE as int))
}

impl AdditiveVoice {
    /// Begins (or layers) a note: the envelope restarts only on the
    /// transition out of silence, so repeated note-ons play legato.
    pub fn note_on(&mut self, note: u8)
        requires
            old(self).notes_on < u32::MAX,
            note <= 127,
        ensures
            final(self).notes_on == old(self).notes_on + 1,
            final(self).current_midi_note == note,
            final(self).bend_value == old(self).bend_value,
            final(self).engine == old(self).engine,
            old(self).notes_on == 0 ==> final(self).envelope == (AREnvelope {
                state: 0,
                releasing: false,
                ..old(self).envelope
            }),
            old(self).notes_on > 0 ==> final(self).envelope == old(self).envelope,
    {
        if self.notes_on == 0 {
            self.envelope.reset();
        }
        self.current_midi_note = note;
        self.notes_on = self.notes_on + 1;
    }

    /// Ends one layered note: the release phase starts only on the
    /// transition to zero held notes, and the counter saturates at zero.
    pub fn note_off(&mut self)
        ensures
            final(self).notes_on == if old(self).notes_on == 0 {
                0u32
            } else {
                (old(self).notes_on - 1) as u32
            },
            final(self).current_midi_note == old(self).current_midi_note,
            final(self).bend_value == old(self).bend_value,
            final(self).engine == old(self).engine,
            final(self).notes_on == 0 && old(self).notes_on > 0 ==> final(self).envelope == (
            AREnvelope { releasing: true, ..old(self).envelope }),
            final(self).notes_on > 0 || old(self).notes_on == 0 ==> final(self).envelope == old(
                self,
            ).envelope,
    {
        if self.notes_on > 0 {
            self.notes_on = self.notes_on - 1;
            if self.notes_on == 0 {
                self.envelope.start_release();
            }
        }
    }

    /// Stores the raw normalized pitch-bend value; it is clamped to `[0, 1]`
    /// when the fundamental is computed.
    pub fn midi_pitch_bend(&mut self, value: i64)
        ensures
            final(self).bend_value == value,
            final(self).current_midi_note == old(self).current_midi_note,
            final(self).notes_on == old(self).notes_on,
            final(self).engine == old(self).engine,
            final(self).envelope == old(self).envelope,
    {
        self.bend_value = value;
    }

    /// Hard stop: silences the envelope, forgets held notes, and clears the
    /// slew memory. Phases and targets are deliberately kept.
    pub fn reset(&mut self)
        requires
            voice_wf(*old(self)),
        ensures
            voice_wf(*final(self)),
            final(self).notes_on == 0,
            final(self).current_midi_note == old(self).current_midi_note,
            final(self).bend_value == old(self).bend_value,
            final(self).envelope == (AREnvelope {
                state: 0,
                releasing: false,
                ..old(self).envelope
            }),
            final(self).engine@ == (EngineModel {
                last_l: zeros(512),
                last_r: zeros(512),
                ..old(self).engine@
            }),
    {
        self.envelope.reset();
        self.notes_on = 0;
        self.engine.reset_slew_tracking();
    }

    /// Resets every phase to the staggered pattern.
    fn reset_phases(&mut self)
        requires
            eng_wf(old(self).engine@),
        ensures
            eng_wf(final(self).engine@),
            final(self).engine@ == (EngineModel {
                phases: stagger_phases(),
                ..old(self).engine@
            }),
            final(self).envelope == old(self).envelope,
            final(self).current_midi_note == old(self).current_midi_note,
            final(self).bend_value == old(self).bend_value,
            final(self).notes_on == old(self).notes_on,
    {
        let mut i: usize = 0;
        while i < MAX_HARMONICS
            invariant
                i <= 512,
                self.engine.phases.len() == 512,
                self.engine.amp_l == old(self).engine.amp_l,
                self.engine.amp_r == old(self).engine.amp_r,
                self.engine.last_amp_l == old(self).engine.last_amp_l,
                self.engine.last_amp_r == old(self).engine.last_amp_r,
                self.envelope == old(self).envelope,
                self.current_midi_note == old(self).current_midi_note,
                self.bend_value == old(self).bend_value,
                self.notes_on == old(self).notes_on,
                forall|j: int|
                    0 <= j < i ==> (#[trigger] self.engine.phases@[j]) as int
                        == stagger_phases()[j],
                forall|j: int|
                    i <= j < 512 ==> (#[trigger] self.engine.phases@[j]) == old(
                        self,
                    ).engine.phases@[j],
            decreases 512 - i,
        {
            let d: i64 = (i as i64) + 1;
            proof {
                vstd::arithmetic::div_mod::lemma_div_pos_is_pos(512 * SCALE, d as int);
                vstd::arithmetic::div_mod::lemma_div_is_ordered(512 * SCALE, 512 * SCALE, d as int);
            }
            let raw: i64 = (512 * SCALE) / d;
            let ph: i64 = raw % (2 * SCALE);
            proof {
                vstd::arithmetic::div_mod::lemma_mod_bound(raw as int, 2 * SCALE as int);
            }
            self.engine.phases.set(i, ph);
            i = i + 1;
        }
        proof {
            assert(seq_int(self.engine.phases@) =~= stagger_phases());
            assert(self.engine@ =~= (EngineModel {
                phases: stagger_phases(),
                ..old(self).engine@
            }));
        }
    }

    /// The 512 harmonic frequencies for the held note and bend.
    fn build_freqs(&self) -> (freqs: Vec<i64>)
        requires
            self.current_midi_note <= 127,
        ensures
            seq_int(freqs@) == freqs_spec(self.current_midi_note, self.bend_value as int),
            freqs_ok(seq_int(freqs@)),
            freqs.len() == 512,
    {
        let b: i64 = clamp_fp(self.bend_value, 0, SCALE);
        proof {
            assert(0 <= (self.current_midi_note as int) * (SCALE as int) <= 127 * 0x100_0000) by (
            nonlinear_arith)
                requires
                    0 <= self.current_midi_note as int <= 127,
                    SCALE as int == 0x100_0000,
            ;
        }
        let semis: i64 = (self.current_midi_note as i64) * SCALE + 24 * b - 81 * SCALE;
        assert(-81 * SCALE <= semis <= 70 * SCALE);
        let y: i64 = (semis + 996 * SCALE) / 12 - 83 * SCALE;
        proof {
            vstd::arithmetic::div_mod::lemma_div_is_ordered(
                915 * SCALE,
                semis + 996 * SCALE,
                12,
            );
            vstd::arithmetic::div_mod::lemma_div_is_ordered(
                semis + 996 * SCALE,
                1066 * SCALE,
                12,
            );
            assert((915 * (SCALE as int)) / 12 == 76 * SCALE + 0x40_0000);
            assert((1066 * (SCALE as int)) / 12 == 88 * SCALE + 0xD5_5555);
        }
        assert(-8 * SCALE <= y <= 6 * SCALE);
        let ex: i64 = exp2_fp(y);
        let fund: i64 = 440 * ex;
        assert(0 <= fund <= 440 * 128 * SCALE);
        let ghost f = fundamental_spec(self.current_midi_note, self.bend_value as int);
        proof {
            assert(f == fund as int);
        }
        let mut freqs: Vec<i64> = Vec::new();
        let mut i: usize = 0;
        while i < MAX_HARMONICS
            invariant
                i <= 512,
                freqs.len() == i,
                0 <= fund <= 440 * 128 * SCALE,
                f == fund as int,
                f == fundamental_spec(self.current_midi_note, self.bend_value as int),
                forall|j: int| 0 <= j < i ==> (#[trigger] freqs@[j]) as int == f * (j + 1),
                forall|j: int| 0 <= j < i ==> 0 <= (#[trigger] freqs@[j]) as int <= FREQ_LIMIT,
            decreases 512 - i,
        {
            proof {
                assert(0 <= (fund as int) * (i + 1) <= FREQ_LIMIT) by (nonlinear_arith)
                    requires
                        0 <= fund as int <= 440 * 128 * 0x100_0000,
                        0 <= i < 512,
                        FREQ_LIMIT == 0x4_0000_0000_0000,
                ;
            }
            let v: i64 = fund * ((i as i64) + 1);
            freqs.push(v);
            i = i + 1;
        }
        proof {
            assert(seq_int(freqs@) =~= freqs_spec(
                self.current_midi_note,
                self.bend_value as int,
            ));
        }
        freqs
    }

    /// Renders into the caller's buffers: oscillator-bank samples scaled by
    /// the envelope are added in. A fully silent voice leaves the buffers
    /// untouched; a voice that just became silent re-staggers its phases and
    /// clears its slew memory so the next onset is click-free.
    pub fn process(
        &mut self,
        sample_rate: u32,
        out_l: &mut Vec<i64>,
        out_r: &mut Vec<i64>,
        basic_gain_mode: &BasicGainMode,
        slew_limiting: bool,
    )
        requires
            voice_wf(*old(self)),
            1 <= sample_rate <= 1_000_000,
            old(out_l).len() == old(out_r).len(),
            forall|k: int|
                0 <= k < old(out_l).len() ==> -OUT_LIMIT <= #[trigger] old(out_l)@[k] <= OUT_LIMIT,
            forall|k: int|
                0 <= k < old(out_r).len() ==> -OUT_LIMIT <= #[trigger] old(out_r)@[k] <= OUT_LIMIT,
        ensures
            voice_wf(*final(self)),
            final(self).current_midi_note == old(self).current_midi_note,
            final(self).bend_value == old(self).bend_value,
            final(self).notes_on == old(self).notes_on,
            final(out_l).len() == old(out_l).len(),
            final(out_r).len() == old(out_r).len(),
            (old(self).notes_on == 0 && !releasing_now(old(self).envelope)) ==> {
                &&& *final(self) == *old(self)
                &&& final(out_l)@ == old(out_l)@
                &&& final(out_r)@ == old(out_r)@
            },
            (old(self).notes_on > 0 || releasing_now(old(self).envelope)) ==> ({
                let fr = freqs_spec(old(self).current_midi_note, old(self).bend_value as int);
                let len = old(out_l).len() as nat;
                let m0 = old(self).engine@;
                let e0 = old(self).envelope;
                let srr = sample_rate as int;
                let mode = *basic_gain_mode;
                let m_end = eng_iter(m0, fr, srr, slew_limiting, len);
                let s_end = env_iter(e0.state as int, active_coeff(e0), e0.releasing, len);
                &&& forall|k: int|
                    0 <= k < len ==> (#[trigger] final(out_l)@[k]) as int == old(out_l)@[k]
                        + fp_mul_spec(
                        out_sample_l(m0, fr, srr, mode, slew_limiting, k as nat),
                        env_iter(e0.state as int, active_coeff(e0), e0.releasing, (k + 1) as nat),
                    )
                &&& forall|k: int|
                    0 <= k < len ==> (#[trigger] final(out_r)@[k]) as int == old(out_r)@[k]
                        + fp_mul_spec(
                        out_sample_r(m0, fr, srr, mode, slew_limiting, k as nat),
                        env_iter(e0.state as int, active_coeff(e0), e0.releasing, (k + 1) as nat),
                    )
                &&& final(self).envelope == (AREnvelope { state: s_end as i64, ..e0 })
                &&& (if old(self).notes_on == 0 && !(e0.releasing && s_end >= RELEASE_EPS) {
                    final(self).engine@ == (EngineModel {
                        phases: stagger_phases(),
                        last_l: zeros(512),
                        last_r: zeros(512),
                        ..m_end
                    })
                } else {
                    final(self).engine@ == m_end
                })
            }),
    {
        let is_rel: bool = self.envelope.is_releasing();
        if !(self.notes_on > 0 || is_rel) {
            return ;
        }
        let ghost m0 = self.engine@;
        let ghost e0 = self.envelope;
        let ghost srr = sample_rate as int;
        let ghost mode = *basic_gain_mode;
        let ghost co = active_coeff(e0);
        let ghost rel = e0.releasing;
        let freqs: Vec<i64> = self.build_freqs();
        let ghost fr = seq_int(freqs@);
        let len: usize = out_l.len();
        let mut env_buf: Vec<i64> = Vec::new();
        let mut k0: usize = 0;
        while k0 < VOICE_BLOCK_SIZE
            invariant
                k0 <= 32,
                env_buf.len() == k0,
            decreases 32 - k0,
        {
            env_buf.push(0);
            k0 = k0 + 1;
        }
        let mut i: usize = 0;
        while i < len
            invariant
                i <= len,
                out_l.len() == len,
                out_r.len() == len,
                old(out_l).len() == len,
                old(out_r).len() == len,
                env_buf.len() == 32,
                freqs.len() == 512,
                fr == seq_int(freqs@),
                freqs_ok(fr),
                fr == freqs_spec(old(self).current_midi_note, old(self).bend_value as int),
                srr == sample_rate as int,
                1 <= sample_rate <= 1_000_000,
                mode == *basic_gain_mode,
                m0 == old(self).engine@,
                e0 == old(self).envelope,
                co == active_coeff(e0),
                rel == e0.releasing,
                eng_wf(m0),
                e0.wf(),
                eng_wf(self.engine@),
                self.engine@ == eng_iter(m0, fr, srr, slew_limiting, i as nat),
                self.envelope.wf(),
                self.envelope.state == env_iter(e0.state as int, co, rel, i as nat),
                self.envelope.attack_coeff == e0.attack_coeff,
                self.envelope.release_coeff == e0.release_coeff,
                self.envelope.releasing == rel,
                self.current_midi_note == old(self).current_midi_note,
                self.bend_value == old(self).bend_value,
                self.notes_on == old(self).notes_on,
                forall|k: int|
                    0 <= k < len ==> -OUT_LIMIT <= #[trigger] old(out_l)@[k] <= OUT_LIMIT,
                forall|k: int|
                    0 <= k < len ==> -OUT_LIMIT <= #[trigger] old(out_r)@[k] <= OUT_LIMIT,
                forall|k: int|
                    0 <= k < i ==> (#[trigger] out_l@[k]) as int == old(out_l)@[k] + fp_mul_spec(
                        out_sample_l(m0, fr, srr, mode, slew_limiting, k as nat),
                        env_iter(e0.state as int, co, rel, (k + 1) as nat),
                    ),
                forall|k: int|
                    0 <= k < i ==> (#[trigger] out_r@[k]) as int == old(out_r)@[k] + fp_mul_spec(
                        out_sample_r(m0, fr, srr, mode, slew_limiting, k as nat),
                        env_iter(e0.state as int, co, rel, (k + 1) as nat),
                    ),
                forall|k: int| i <= k < len ==> #[trigger] out_l@[k] == old(out_l)@[k],
                forall|k: int| i <= k < len ==> #[trigger] out_r@[k] == old(out_r)@[k],
            decreases len - i,
        {
            let block_len: usize = if len - i < VOICE_BLOCK_SIZE {
                len - i
            } else {
                VOICE_BLOCK_SIZE
            };
            let mut buf_l: Vec<i64> = Vec::new();
            let mut buf_r: Vec<i64> = Vec::new();
            let mut k1: usize = 0;
            while k1 < block_len
                invariant
                    k1 <= block_len,
                    buf_l.len() == k1,
                    buf_r.len() == k1,
                    forall|k: int| 0 <= k < k1 ==> #[trigger] buf_l@[k] == 0,
                    forall|k: int| 0 <= k < k1 ==> #[trigger] buf_r@[k] == 0,
                decreases block_len - k1,
            {
                buf_l.push(0);
                buf_r.push(0);
                k1 = k1 + 1;
            }
            let ghost ei = self.envelope;
            let ghost mi = self.engine@;
            self.envelope.next_block(&mut env_buf, block_len);
            self.engine.generate_samples(
                &freqs,
                sample_rate,
                &mut buf_l,
                &mut buf_r,
                basic_gain_mode,
                slew_limiting,
            );
            proof {
                lemma_env_iter_range(e0.state as int, co, rel, i as nat);
                assert forall|k: int| 0 <= k < block_len implies -SAMPLE_LIMIT
                    <= #[trigger] buf_l@[k] <= SAMPLE_LIMIT by {
                    crate::additive_engine::lemma_out_sample_bound(
                        mi,
                        fr,
                        srr,
                        mode,
                        slew_limiting,
                        k as nat,
                    );
                }
                assert forall|k: int| 0 <= k < block_len implies -SAMPLE_LIMIT
                    <= #[trigger] buf_r@[k] <= SAMPLE_LIMIT by {
                    crate::additive_engine::lemma_out_sample_bound(
                        mi,
                        fr,
                        srr,
                        mode,
                        slew_limiting,
                        k as nat,
                    );
                }
            }
            let mut smp: usize = 0;
            while smp < block_len
                invariant
                    smp <= block_len,
                    i + block_len <= len,
                    out_l.len() == len,
                    out_r.len() == len,
                    old(out_l).len() == len,
                    old(out_r).len() == len,
                    buf_l.len() == block_len,
                    buf_r.len() == block_len,
                    env_buf.len() == 32,
                    block_len <= 32,
                    eng_wf(mi),
                    mi == eng_iter(m0, fr, srr, slew_limiting, i as nat),
                    ei == (AREnvelope {
                        state: env_iter(e0.state as int, co, rel, i as nat) as i64,
                        ..e0
                    }),
                    e0.wf(),
                    ei.wf(),
                    eng_wf(m0),
                    freqs_ok(fr),
                    co == active_coeff(e0),
                    rel == e0.releasing,
                    co == active_coeff(ei),
                    rel == ei.releasing,
                    forall|k: int|
                        0 <= k < block_len ==> (#[trigger] buf_l@[k]) as int == out_sample_l(
                            mi,
                            fr,
                            srr,
                            mode,
                            slew_limiting,
                            k as nat,
                        ),
                    forall|k: int|
                        0 <= k < block_len ==> (#[trigger] buf_r@[k]) as int == out_sample_r(
                            mi,
                            fr,
                            srr,
                            mode,
                            slew_limiting,
                            k as nat,
                        ),
                    forall|k: int|
                        0 <= k < block_len ==> -SAMPLE_LIMIT <= #[trigger] buf_l@[k]
                            <= SAMPLE_LIMIT,
                    forall|k: int|
                        0 <= k < block_len ==> -SAMPLE_LIMIT <= #[trigger] buf_r@[k]
                            <= SAMPLE_LIMIT,
                    forall|k: int|
                        0 <= k < block_len ==> (#[trigger] env_buf@[k]) as int == env_iter(
                            ei.state as int,
                            co,
                            rel,
                            (k + 1) as nat,
                        ),
                    forall|k: int|
                        0 <= k < len ==> -OUT_LIMIT <= #[trigger] old(out_l)@[k] <= OUT_LIMIT,
                    forall|k: int|
                        0 <= k < len ==> -OUT_LIMIT <= #[trigger] old(out_r)@[k] <= OUT_LIMIT,
                    forall|k: int|
                        0 <= k < i + smp ==> (#[trigger] out_l@[k]) as int == old(out_l)@[k]
                            + fp_mul_spec(
                            out_sample_l(m0, fr, srr, mode, slew_limiting, k as nat),
                            env_iter(e0.state as int, co, rel, (k + 1) as nat),
                        ),
                    forall|k: int|
                        0 <= k < i + smp ==> (#[trigger] out_r@[k]) as int == old(out_r)@[k]
                            + fp_mul_spec(
                            out_sample_r(m0, fr, srr, mode, slew_limiting, k as nat),
                            env_iter(e0.state as int, co, rel, (k + 1) as nat),
                        ),
                    forall|k: int| i + smp <= k < len ==> #[trigger] out_l@[k] == old(out_l)@[k],
                    forall|k: int| i + smp <= k < len ==> #[trigger] out_r@[k] == old(out_r)@[k],
                decreases block_len - smp,
            {
                let sv_l: i64 = buf_l[smp];
                let sv_r: i64 = buf_r[smp];
                let ev: i64 = env_buf[smp];
                proof {
                    lemma_env_iter_range(ei.state as int, co, rel, (smp + 1) as nat);
                    assert(0 <= ev <= SCALE);
                    lemma_fp_mul_unit_bound(ev as int, sv_l as int, SAMPLE_LIMIT as int);
                    lemma_fp_mul_unit_bound(ev as int, sv_r as int, SAMPLE_LIMIT as int);
                }
                let prod_l: i64 = fp_mul(sv_l, ev);
                let prod_r: i64 = fp_mul(sv_r, ev);
                let cur_l: i64 = out_l[i + smp];
                let cur_r: i64 = out_r[i + smp];
                out_l.set(i + smp, cur_l + prod_l);
                out_r.set(i + smp, cur_r + prod_r);
                proof {
                    lemma_env_iter_range(e0.state as int, co, rel, i as nat);
                    lemma_eng_iter_add(m0, fr, srr, slew_limiting, i as nat, smp as nat);
                    assert(out_sample_l(mi, fr, srr, mode, slew_limiting, smp as nat)
                        == out_sample_l(m0, fr, srr, mode, slew_limiting, (i + smp) as nat));
                    assert(out_sample_r(mi, fr, srr, mode, slew_limiting, smp as nat)
                        == out_sample_r(m0, fr, srr, mode, slew_limiting, (i + smp) as nat));
                    lemma_env_iter_add(e0.state as int, co, rel, i as nat, (smp + 1) as nat);
                    assert(env_iter(ei.state as int, co, rel, (smp + 1) as nat) == env_iter(
                        e0.state as int,
                        co,
                        rel,
                        (i + smp + 1) as nat,
                    ));
                }
                smp = smp + 1;
            }
            proof {
                lemma_eng_iter_add(m0, fr, srr, slew_limiting, i as nat, block_len as nat);
                lemma_env_iter_add(e0.state as int, co, rel, i as nat, block_len as nat);
            }
            i = i + block_len;
        }
        let still_rel: bool = self.envelope.is_releasing();
        if self.notes_on == 0 && !still_rel {
            self.reset_phases();
            self.engine.reset_slew_tracking();
        }
    }
}

/// Reset idempotence for the voice: `reset` clears the envelope, the note
/// counter and the slew memory, so everything it keeps — phases, amplitude
/// targets, coefficients, note and bend — determines the post-reset state
/// completely. Two voices that agree on the kept parts are bit-identical
/// after a reset, and every later call is a function of that state and its
/// inputs alone, so replaying identical inputs reproduces identical output.
pub proof fn lemma_voice_reset_determinism(v1: AdditiveVoice, v2: AdditiveVoice)
    requires
        v1.engine@.phases == v2.engine@.phases,
        v1.engine@.amp_l == v2.engine@.amp_l,
        v1.engine@.amp_r == v2.engine@.amp_r,
        v1.envelope.attack_coeff == v2.envelope.attack_coeff,
        v1.envelope.release_coeff == v2.envelope.release_coeff,
        v1.current_midi_note == v2.current_midi_note,
        v1.bend_value == v2.bend_value,
    ensures
        (EngineModel { last_l: zeros(512), last_r: zeros(512), ..v1.engine@ }) == (EngineModel {
            last_l: zeros(512),
            last_r: zeros(512),
            ..v2.engine@
        }),
        (AREnvelope { state: 0, releasing: false, ..v1.envelope }) == (AREnvelope {
            state: 0,
            releasing: false,
            ..v2.envelope
        }),
{
    assert((EngineModel { last_l: zeros(512), last_r: zeros(512), ..v1.engine@ })
        =~= (EngineModel { last_l: zeros(512), last_r: zeros(512), ..v2.engine@ }));
}

impl Default for AdditiveVoice {
    /// A fresh voice: silent, centered pitch bend, phases staggered so the
    /// first onset is click-free.
    fn default() -> (v: AdditiveVoice)
        ensures
            voice_wf(v),
            v.notes_on == 0,
            v.current_midi_note == 0,
            v.bend_value == SCALE / 2,
            v.envelope == (AREnvelope {
                state: 0,
                attack_coeff: 0,
                release_coeff: 0,
                releasing: false,
            }),
            v.engine@ == (EngineModel {
                phases: stagger_phases(),
                amp_l: zeros(512),
                amp_r: zeros(512),
                last_l: zeros(512),
                last_r: zeros(512),
            }),
    {
        let mut v = AdditiveVoice {
            engine: Default::default(),
            envelope: Default::default(),
            current_midi_note: 0,
            bend_value: SCALE / 2,
            notes_on: 0,
        };
        v.reset_phases();
        proof {
            assert(v.engine@ =~= (EngineModel {
                phases: stagger_phases(),
                amp_l: zeros(512),
                amp_r: zeros(512),
                last_l: zeros(512),
                last_r: zeros(512),
            }));
        }
        v
    }
}

} // verus!


