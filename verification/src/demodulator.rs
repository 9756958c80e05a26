//! The harmonic-envelope demodulator: a block-based rectify-and-average stage
//! that turns raw audio-rate stereo input into one harmonic-amplitude
//! snapshot per analysis block.

use crate::additive_engine::AMP_LIMIT;
use crate::fixed::{exp2_spec, log2_spec, seq_int, zeros, SCALE};
use crate::fixed::{exp2_fp, log2_fp};
use crate::DistributionMode;
use vstd::prelude::*;

verus! {

/// Samples per analysis block: about 42 Hz of resolution at 44.1 kHz, and
/// the latency the system reports.
pub const DEMOD_BLOCK_SIZE: usize = 1050;

/// Largest input-sample magnitude the demodulator accepts (far above any
/// real signal; gating discards out-of-range values anyway).
pub const IN_LIMIT: i64 = 0x1_0000_0000_0000;

/// Largest gate-parameter magnitude (the thresholds and bias span about
/// `[-2, 2]`).
pub const PARAM_LIMIT: i64 = 0x200_0000;

/// The mathematical state of the demodulator.
#[verifier::ext_equal]
pub ghost struct DemodModel {
    pub progress: int,
    pub prev: int,
    pub sc: int,
    pub wl: Seq<int>,
    pub wr: Seq<int>,
}

/// The per-call parameter snapshot.
pub ghost struct DemodParams {
    pub mode: DistributionMode,
    pub hc: int,
    pub off: int,
    pub floor: int,
    pub ceiling: int,
    pub bias: int,
}

pub struct CVDemodulator {
    pub progress: usize,
    pub prev_harmonic: usize,
    pub sample_count: u32,
    pub working_amp_l: Vec<i64>,
    pub working_amp_r: Vec<i64>,
}

impl View for CVDemodulator {
    type V = DemodModel;

    open spec fn view(&self) -> DemodModel {
        DemodModel {
            progress: self.progress as int,
            prev: self.prev_harmonic as int,
            sc: self.sample_count as int,
            wl: seq_int(self.working_amp_l@),
            wr: seq_int(self.working_amp_r@),
        }
    }
}

/// Validity: progress strictly inside one block, a tracked harmonic between
/// 1 and 512, and nonnegative bounded accumulators.
pub open spec fn demod_wf(m: DemodModel) -> bool {
    &&& 0 <= m.progress < 1050
    &&& 1 <= m.prev <= 512
    &&& 0 <= m.sc <= 0xFFFF_FFFF
    &&& m.wl.len() == 512
    &&& m.wr.len() == 512
    &&& forall|j: int| 0 <= j < 512 ==> 0 <= #[trigger] m.wl[j] <= AMP_LIMIT
    &&& forall|j: int| 0 <= j < 512 ==> 0 <= #[trigger] m.wr[j] <= AMP_LIMIT
}

pub open spec fn params_ok(p: DemodParams) -> bool {
    &&& 1 <= p.hc <= 512
    &&& 0 <= p.off <= 512
    &&& -PARAM_LIMIT <= p.floor <= PARAM_LIMIT
    &&& -PARAM_LIMIT <= p.ceiling <= PARAM_LIMIT
    &&& -PARAM_LIMIT <= p.bias <= PARAM_LIMIT
}

/// The input gate: a biased value strictly above the ceiling or strictly
/// below the floor counts as silence; values exactly at either threshold
/// pass through unchanged.
pub open spec fn gate(x: int, floor: int, ceiling: int) -> int {
    if x > ceiling || x < floor {
        0
    } else {
        x
    }
}

/// The rectifier `v^3 * sign(v)`, a smooth even nonlinearity that emphasizes
/// peaks: in Q24, the cube of the magnitude.
pub open spec fn rectify(v: int) -> int {
    let a = if v >= 0 {
        v
    } else {
        -v
    };
    (a * a / (SCALE as int)) * a / (SCALE as int)
}

/// Gated values stay within the parameter range.
pub proof fn lemma_gate_bound(x: int, floor: int, ceiling: int)
    requires
        -PARAM_LIMIT <= floor <= PARAM_LIMIT,
        -PARAM_LIMIT <= ceiling <= PARAM_LIMIT,
    ensures
        -PARAM_LIMIT <= gate(x, floor, ceiling) <= PARAM_LIMIT,
{
}

/// The rectifier maps `[-2, 2]` into `[0, 8]`.
pub proof fn lemma_rectify_bound(v: int)
    requires
        -PARAM_LIMIT <= v <= PARAM_LIMIT,
    ensures
        0 <= rectify(v) <= AMP_LIMIT,
{
    let s = SCALE as int;
    let a = if v >= 0 {
        v
    } else {
        -v
    };
    assert(0 <= a * a <= 4 * s * s) by (nonlinear_arith)
        requires
            0 <= a <= 2 * s,
            s == 0x100_0000,
    ;
    vstd::arithmetic::div_mod::lemma_div_pos_is_pos(a * a, s);
    vstd::arithmetic::div_mod::lemma_div_is_ordered(a * a, 4 * s * s, s);
    assert((4 * s * s) / s == 4 * s) by {
        vstd::arithmetic::div_mod::lemma_div_by_multiple(4 * s, s);
        assert((4 * s) * s == 4 * s * s) by (nonlinear_arith);
    }
    let q = a * a / s;
    assert(0 <= q * a <= 8 * s * s) by (nonlinear_arith)
        requires
            0 <= q <= 4 * s,
            0 <= a <= 2 * s,
            s == 0x100_0000,
    ;
    vstd::arithmetic::div_mod::lemma_div_pos_is_pos(q * a, s);
    vstd::arithmetic::div_mod::lemma_div_is_ordered(q * a, 8 * s * s, s);
    assert((8 * s * s) / s == 8 * s) by {
        vstd::arithmetic::div_mod::lemma_div_by_multiple(8 * s, s);
        assert((8 * s) * s == 8 * s * s) by (nonlinear_arith);
    }
}

/// The index law over block progress: which harmonic (before the offset is
/// added) this step accumulates into.
pub open spec fn target_harmonic(mode: DistributionMode, hc: int, progress: int) -> int {
    match mode {
        DistributionMode::Exponential => exp2_spec(log2_spec(hc) * progress / 1050) / (
        SCALE as int),
        DistributionMode::Linear => hc * progress / 1050,
    }
}

/// The moving-average update: `(acc * count + v) / (count + 1)`.
pub open spec fn avg_step(acc: int, sc: int, v: int) -> int {
    (acc * sc + v) / (sc + 1)
}

/// The working accumulators after one input sample touches harmonics
/// `lo..=hi` with rectified value `v`: the first one is averaged into when
/// the step continues the previously tracked harmonic, every other one is
/// replaced.
pub open spec fn fill(w: Seq<int>, prev: int, sc: int, lo: int, hi: int, v: int) -> Seq<int> {
    Seq::new(
        512,
        |j: int|
            if lo - 1 <= j <= hi - 1 {
                if j == lo - 1 && lo == prev {
                    avg_step(w[j], sc, v)
                } else {
                    v
                }
            } else {
                w[j]
            },
    )
}

/// One input sample through the demodulator: gate, rectify, spread over the
/// law's harmonic range, and emit a snapshot when the block completes.
pub open spec fn demod_step(m: DemodModel, xl: int, xr: int, p: DemodParams) -> (
    DemodModel,
    Option<(Seq<int>, Seq<int>)>,
) {
    let lv = rectify(gate(xl + p.bias, p.floor, p.ceiling));
    let rv = rectify(gate(xr + p.bias, p.floor, p.ceiling));
    let nh = target_harmonic(p.mode, p.hc, m.progress) + p.off;
    let lo0 = if m.prev >= p.off {
        m.prev
    } else {
        p.off
    };
    let lo = if lo0 >= 1 {
        lo0
    } else {
        1
    };
    let hi = if nh < 1 {
        1
    } else if nh <= 512 {
        nh
    } else {
        512
    };
    let touched = hi >= lo;
    let wl2 = if touched {
        fill(m.wl, m.prev, m.sc, lo, hi, lv)
    } else {
        m.wl
    };
    let wr2 = if touched {
        fill(m.wr, m.prev, m.sc, lo, hi, rv)
    } else {
        m.wr
    };
    let sc2 = if touched {
        if hi == lo && lo == m.prev {
            if m.sc == 0xFFFF_FFFF {
                m.sc
            } else {
                m.sc + 1
            }
        } else {
            0
        }
    } else {
        m.sc
    };
    let prev2 = if touched {
        hi
    } else {
        m.prev
    };
    if m.progress + 1 == 1050 {
        (
            DemodModel { progress: 0, prev: 1, sc: sc2, wl: zeros(512), wr: zeros(512) },
            Some((wl2, wr2)),
        )
    } else {
        (DemodModel { progress: m.progress + 1, prev: prev2, sc: sc2, wl: wl2, wr: wr2 }, None)
    }
}

/// A whole buffer through the demodulator: the state after the first `n`
/// samples, with the latest snapshot any of them emitted.
pub open spec fn demod_run(
    m: DemodModel,
    il: Seq<int>,
    ir: Seq<int>,
    p: DemodParams,
    n: nat,
) -> (DemodModel, Option<(Seq<int>, Seq<int>)>)
    decreases n,
{
    if n == 0 {
        (m, None)
    } else {
        let prior = demod_run(m, il, ir, p, (n - 1) as nat);
        let stepped = demod_step(prior.0, il[n - 1], ir[n - 1], p);
        (stepped.0, if stepped.1 is Some {
            stepped.1
        } else {
            prior.1
        })
    }
}

/// One step preserves validity, and whatever it emits is a valid snapshot.
pub proof fn lemma_demod_step_wf(m: DemodModel, xl: int, xr: int, p: DemodParams)
    requires
        demod_wf(m),
        params_ok(p),
    ensures
        demod_wf(demod_step(m, xl, xr, p).0),
        demod_step(m, xl, xr, p).1 matches Some(em) ==> em.0.len() == 512 && em.1.len() == 512
            && (forall|j: int| 0 <= j < 512 ==> 0 <= #[trigger] em.0[j] <= AMP_LIMIT) && (forall|
            j: int,
        | 0 <= j < 512 ==> 0 <= #[trigger] em.1[j] <= AMP_LIMIT),
{
    let lv = rectify(gate(xl + p.bias, p.floor, p.ceiling));
    let rv = rectify(gate(xr + p.bias, p.floor, p.ceiling));
    lemma_gate_bound(xl + p.bias, p.floor, p.ceiling);
    lemma_gate_bound(xr + p.bias, p.floor, p.ceiling);
    lemma_rectify_bound(gate(xl + p.bias, p.floor, p.ceiling));
    lemma_rectify_bound(gate(xr + p.bias, p.floor, p.ceiling));
    lemma_fill_bound(m.wl, m.prev, m.sc, lv);
    lemma_fill_bound(m.wr, m.prev, m.sc, rv);
}

/// Filled accumulators stay within bounds.
proof fn lemma_fill_bound(w: Seq<int>, prev: int, sc: int, v: int)
    requires
        w.len() == 512,
        forall|j: int| 0 <= j < 512 ==> 0 <= #[trigger] w[j] <= AMP_LIMIT,
        0 <= v <= AMP_LIMIT,
        0 <= sc,
    ensures
        forall|lo: int, hi: int, j: int|
            0 <= j < 512 ==> 0 <= #[trigger] fill(w, prev, sc, lo, hi, v)[j] <= AMP_LIMIT,
{
    assert forall|lo: int, hi: int, j: int|
        0 <= j < 512 implies 0 <= #[trigger] fill(w, prev, sc, lo, hi, v)[j] <= AMP_LIMIT by {
        if lo - 1 <= j <= hi - 1 && j == lo - 1 && lo == prev {
            lemma_avg_bound(w[j], sc, v);
        }
    }
}

/// Averaging values inside `[0, limit]` stays inside `[0, limit]`.
pub proof fn lemma_avg_bound(acc: int, sc: int, v: int)
    requires
        0 <= acc <= AMP_LIMIT,
        0 <= v <= AMP_LIMIT,
        0 <= sc,
    ensures
        0 <= avg_step(acc, sc, v) <= AMP_LIMIT,
{
    let lim = AMP_LIMIT as int;
    assert(0 <= acc * sc + v <= lim * (sc + 1)) by (nonlinear_arith)
        requires
            0 <= acc <= lim,
            0 <= v <= lim,
            0 <= sc,
    ;
    vstd::arithmetic::div_mod::lemma_div_pos_is_pos(acc * sc + v, sc + 1);
    vstd::arithmetic::div_mod::lemma_div_is_ordered(acc * sc + v, lim * (sc + 1), sc + 1);
    vstd::arithmetic::div_mod::lemma_div_by_multiple(lim, sc + 1);
}

/// An input exactly at either threshold is kept; only strictly-beyond
/// values are treated as silence — at both ends.
pub proof fn lemma_gate_boundary(floor: int, ceiling: int, x: int)
    requires
        floor <= ceiling,
    ensures
        gate(floor, floor, ceiling) == floor,
        gate(ceiling, floor, ceiling) == ceiling,
        x > ceiling ==> gate(x, floor, ceiling) == 0,
        x < floor ==> gate(x, floor, ceiling) == 0,
        floor <= x <= ceiling ==> gate(x, floor, ceiling) == x,
{
}

/// Executable gate, exact mirror of `gate`.
fn gate_fp(x: i64, floor: i64, ceiling: i64) -> (r: i64)
    requires
        -IN_LIMIT - PARAM_LIMIT <= x <= IN_LIMIT + PARAM_LIMIT,
        -PARAM_LIMIT <= floor <= PARAM_LIMIT,
        -PARAM_LIMIT <= ceiling <= PARAM_LIMIT,
    ensures
        r == gate(x as int, floor as int, ceiling as int),
        -PARAM_LIMIT <= r <= PARAM_LIMIT,
{
    let mut l: i64 = x;
    if l > ceiling {
        l = 0;
    }
    if l < floor {
        l = 0;
    }
    l
}

/// Executable rectifier, exact mirror of `rectify`.
fn rectify_fp(v: i64) -> (r: i64)
    requires
        -PARAM_LIMIT <= v <= PARAM_LIMIT,
    ensures
        r == rectify(v as int),
        0 <= r <= AMP_LIMIT,
{
    let a: i64 = if v < 0 {
        -v
    } else {
        v
    };
    proof {
        assert(0 <= (a as int) * (a as int) <= 0x4_0000_0000_0000) by (nonlinear_arith)
            requires
                0 <= a as int <= 0x200_0000,
        ;
    }
    let sq: i64 = (a * a) / SCALE;
    proof {
        vstd::arithmetic::div_mod::lemma_div_pos_is_pos((a as int) * (a as int), SCALE as int);
        vstd::arithmetic::div_mod::lemma_div_is_ordered(
            (a as int) * (a as int),
            0x4_0000_0000_0000,
            SCALE as int,
        );
        assert(0x4_0000_0000_0000int / (SCALE as int) == 0x400_0000) by {
            vstd::arithmetic::div_mod::lemma_div_by_multiple(0x400_0000, SCALE as int);
            assert(0x400_0000 * (SCALE as int) == 0x4_0000_0000_0000) by (nonlinear_arith);
        }
        assert(0 <= (sq as int) * (a as int) <= 0x8_0000_0000_0000) by (nonlinear_arith)
            requires
                0 <= sq as int <= 0x400_0000,
                0 <= a as int <= 0x200_0000,
        ;
    }
    let r: i64 = (sq * a) / SCALE;
    proof {
        vstd::arithmetic::div_mod::lemma_div_pos_is_pos((sq as int) * (a as int), SCALE as int);
        vstd::arithmetic::div_mod::lemma_div_is_ordered(
            (sq as int) * (a as int),
            0x8_0000_0000_0000,
            SCALE as int,
        );
        assert(0x8_0000_0000_0000int / (SCALE as int) == AMP_LIMIT) by {
            vstd::arithmetic::div_mod::lemma_div_by_multiple(AMP_LIMIT as int, SCALE as int);
            assert((AMP_LIMIT as int) * (SCALE as int) == 0x8_0000_0000_0000) by (nonlinear_arith);
        }
    }
    r
}

/// Executable index law, exact mirror of `target_harmonic`.
fn harmonic_target(mode: &DistributionMode, hc: usize, progress: usize) -> (t: usize)
    requires
        1 <= hc <= 512,
        progress < 1050,
    ensures
        t as int == target_harmonic(*mode, hc as int, progress as int),
        t <= 2048,
{
    match mode {
        DistributionMode::Exponential => {
            let lg: i64 = log2_fp(hc);
            proof {
                assert(0 <= lg * (progress as int) <= lg * 1050) by (nonlinear_arith)
                    requires
                        0 <= lg,
                        0 <= progress as int <= 1050,
                ;
                assert(lg * 1050 <= 10 * SCALE * 1050) by (nonlinear_arith)
                    requires
                        lg <= 10 * SCALE,
                ;
            }
            let y: i64 = (lg * (progress as i64)) / 1050;
            proof {
                vstd::arithmetic::div_mod::lemma_div_pos_is_pos(lg * (progress as int), 1050);
                vstd::arithmetic::div_mod::lemma_div_is_ordered(
                    lg * (progress as int),
                    lg * 1050,
                    1050,
                );
                vstd::arithmetic::div_mod::lemma_div_by_multiple(lg as int, 1050);
            }
            let ex: i64 = exp2_fp(y);
            let t64: i64 = ex / SCALE;
            proof {
                vstd::arithmetic::div_mod::lemma_div_pos_is_pos(ex as int, SCALE as int);
                vstd::arithmetic::div_mod::lemma_div_is_ordered(
                    ex as int,
                    2048 * SCALE,
                    SCALE as int,
                );
                assert((2048 * (SCALE as int)) / (SCALE as int) == 2048) by {
                    vstd::arithmetic::div_mod::lemma_div_by_multiple(2048, SCALE as int);
                    assert(2048 * (SCALE as int) == (2048 as int) * (SCALE as int)) by (
                    nonlinear_arith);
                }
            }
            t64 as usize
        },
        DistributionMode::Linear => {
            proof {
                assert(0 <= (hc as int) * (progress as int) <= 512 * 1050) by (nonlinear_arith)
                    requires
                        0 <= hc as int <= 512,
                        0 <= progress as int <= 1050,
                ;
            }
            let t: usize = (hc * progress) / 1050;
            proof {
                vstd::arithmetic::div_mod::lemma_div_pos_is_pos(
                    (hc as int) * (progress as int),
                    1050,
                );
                vstd::arithmetic::div_mod::lemma_div_is_ordered(
                    (hc as int) * (progress as int),
                    512int * 1050,
                    1050,
                );
                vstd::arithmetic::div_mod::lemma_div_by_multiple(512, 1050);
            }
            t
        },
    }
}

/// Averaging a constant is exact: a harmonic fed the same rectified value
/// all block long holds exactly that value, with no drift.
pub proof fn lemma_avg_constant(v: int, sc: int)
    requires
        0 <= v,
        0 <= sc,
    ensures
        avg_step(v, sc, v) == v,
{
    assert(v * sc + v == v * (sc + 1)) by (nonlinear_arith);
    vstd::arithmetic::div_mod::lemma_div_by_multiple(v, sc + 1);
}

/// Reset idempotence for the demodulator: a reset clears progress, the
/// tracked harmonic and the averaging window but keeps the accumulators, so
/// two histories whose accumulators agree are bit-identical after a reset,
/// and replaying identical input from there reproduces identical states and
/// snapshots.
pub proof fn lemma_demod_reset_determinism(
    m1: DemodModel,
    m2: DemodModel,
    il: Seq<int>,
    ir: Seq<int>,
    p: DemodParams,
    n: nat,
)
    requires
        m1.wl == m2.wl,
        m1.wr == m2.wr,
    ensures
        demod_run((DemodModel { progress: 0, prev: 1, sc: 0, ..m1 }), il, ir, p, n) == demod_run(
            (DemodModel { progress: 0, prev: 1, sc: 0, ..m2 }),
            il,
            ir,
            p,
            n,
        ),
{
    assert((DemodModel { progress: 0, prev: 1, sc: 0, ..m1 }) =~= (DemodModel {
        progress: 0,
        prev: 1,
        sc: 0,
        ..m2
    }));
}

/// What one constant-input step does to the first harmonic's accumulator
/// under the linear law with full count and no offset.
proof fn lemma_constant_step_first(m: DemodModel, xl: int, xr: int, p: DemodParams)
    requires
        demod_wf(m),
        params_ok(p),
        p.mode is Linear,
        p.hc == 512,
        p.off == 0,
    ensures
        ({
            let stepped = demod_step(m, xl, xr, p);
            let lv = rectify(gate(xl + p.bias, p.floor, p.ceiling));
            let rv = rectify(gate(xr + p.bias, p.floor, p.ceiling));
            &&& (m.prev == 1 && m.sc == 0 && m.progress + 1 < 1050 ==> stepped.0.wl[0] == lv
                && stepped.0.wr[0] == rv && stepped.1 is None)
            &&& (m.wl[0] == lv && m.wr[0] == rv ==> {
                &&& (m.progress + 1 < 1050 ==> stepped.0.wl[0] == lv && stepped.0.wr[0] == rv
                    && stepped.1 is None)
                &&& (m.progress + 1 == 1050 ==> (stepped.1 matches Some(em) && em.0[0] == lv
                    && em.1[0] == rv))
            })
        }),
{
    let lv = rectify(gate(xl + p.bias, p.floor, p.ceiling));
    let rv = rectify(gate(xr + p.bias, p.floor, p.ceiling));
    let nh = 512 * m.progress / 1050;
    vstd::arithmetic::div_mod::lemma_div_pos_is_pos(512 * m.progress, 1050);
    let lo = m.prev;
    let hi = if nh < 1 {
        1int
    } else if nh <= 512 {
        nh
    } else {
        512int
    };
    if m.prev == 1 && m.sc == 0 {
        assert(hi >= 1 && lo == 1);
        assert(fill(m.wl, m.prev, m.sc, lo, hi, lv)[0] == avg_step(m.wl[0], 0, lv));
        assert(avg_step(m.wl[0], 0, lv) == lv && avg_step(m.wr[0], 0, rv) == rv) by {
            assert(m.wl[0] * 0 + lv == lv && m.wr[0] * 0 + rv == rv) by (nonlinear_arith);
            vstd::arithmetic::div_mod::lemma_div_by_multiple(lv, 1);
            vstd::arithmetic::div_mod::lemma_div_by_multiple(rv, 1);
            assert(lv * 1int == lv && rv * 1int == rv) by (nonlinear_arith);
        }
    }
    if m.wl[0] == lv && m.wr[0] == rv {
        if hi >= lo {
            if lo == 1 {
                assert(m.prev == 1);
                assert(fill(m.wl, m.prev, m.sc, lo, hi, lv)[0] == avg_step(m.wl[0], m.sc, lv));
                lemma_avg_constant(lv, m.sc);
                lemma_avg_constant(rv, m.sc);
            } else {
                assert(fill(m.wl, m.prev, m.sc, lo, hi, lv)[0] == m.wl[0]);
                assert(fill(m.wr, m.prev, m.sc, lo, hi, rv)[0] == m.wr[0]);
            }
        }
        let stepped = demod_step(m, xl, xr, p);
        if m.progress + 1 < 1050 {
            assert(stepped.0.wl[0] == lv && stepped.0.wr[0] == rv && stepped.1 is None);
        } else {
            assert(stepped.1 matches Some(em) && em.0[0] == lv && em.1[0] == rv);
        }
    }
}

/// The induction behind the constant-block law: running `k` constant
/// samples from a freshly reset window leaves progress at `k`, emits
/// nothing, and from the first sample on holds the rectified value in the
/// first harmonic's accumulator.
proof fn lemma_constant_block_inv(
    m: DemodModel,
    il: Seq<int>,
    ir: Seq<int>,
    p: DemodParams,
    vl: int,
    vr: int,
    k: nat,
)
    requires
        demod_wf(m),
        m.progress == 0,
        m.prev == 1,
        m.sc == 0,
        params_ok(p),
        p.mode is Linear,
        p.hc == 512,
        p.off == 0,
        il.len() >= 1050,
        ir.len() >= 1050,
        forall|n: int| 0 <= n < 1050 ==> #[trigger] il[n] == vl,
        forall|n: int| 0 <= n < 1050 ==> #[trigger] ir[n] == vr,
        k <= 1049,
    ensures
        ({
            let run = demod_run(m, il, ir, p, k);
            let lv = rectify(gate(vl + p.bias, p.floor, p.ceiling));
            let rv = rectify(gate(vr + p.bias, p.floor, p.ceiling));
            &&& demod_wf(run.0)
            &&& run.0.progress == k
            &&& run.1 is None
            &&& (k >= 1 ==> run.0.wl[0] == lv && run.0.wr[0] == rv)
        }),
    decreases k,
{
    if k > 0 {
        lemma_constant_block_inv(m, il, ir, p, vl, vr, (k - 1) as nat);
        let prior = demod_run(m, il, ir, p, (k - 1) as nat);
        lemma_demod_step_wf(prior.0, il[k - 1], ir[k - 1], p);
        lemma_constant_step_first(prior.0, il[k - 1], ir[k - 1], p);
    }
}

/// The constant-block law: a constant stereo value, inside the gating
/// thresholds after bias, sustained for one full analysis block through the
/// linear law with the full harmonic count and no offset, makes the block's
/// snapshot hold exactly the rectified value at harmonic one — the constant
/// moving average drifts nowhere.
pub proof fn lemma_constant_block_first_harmonic(
    m: DemodModel,
    il: Seq<int>,
    ir: Seq<int>,
    p: DemodParams,
    vl: int,
    vr: int,
)
    requires
        demod_wf(m),
        m.progress == 0,
        m.prev == 1,
        m.sc == 0,
        params_ok(p),
        p.mode is Linear,
        p.hc == 512,
        p.off == 0,
        il.len() >= 1050,
        ir.len() >= 1050,
        forall|n: int| 0 <= n < 1050 ==> #[trigger] il[n] == vl,
        forall|n: int| 0 <= n < 1050 ==> #[trigger] ir[n] == vr,
        p.floor <= vl + p.bias <= p.ceiling,
        p.floor <= vr + p.bias <= p.ceiling,
    ensures
        ({
            let run = demod_run(m, il, ir, p, 1050);
            &&& (run.1 matches Some(em) && em.0[0] == rectify(vl + p.bias) && em.1[0]
                == rectify(vr + p.bias))
        }),
{
    lemma_constant_block_inv(m, il, ir, p, vl, vr, 1049);
    let prior = demod_run(m, il, ir, p, 1049);
    lemma_constant_step_first(prior.0, il[1049], ir[1049], p);
    assert(gate(vl + p.bias, p.floor, p.ceiling) == vl + p.bias);
    assert(gate(vr + p.bias, p.floor, p.ceiling) == vr + p.bias);
}

impl CVDemodulator {
    /// Starts a fresh tracking window without forcing a block boundary: the
    /// working accumulators are deliberately kept.
    pub fn reset(&mut self)
        ensures
            final(self)@ == (DemodModel { progress: 0, prev: 1, sc: 0, ..old(self)@ }),
    {
        self.progress = 0;
        self.prev_harmonic = 1;
        self.sample_count = 0;
    }

    /// Feeds one input sample through the demodulator.
    fn step_one(
        &mut self,
        xl: i64,
        xr: i64,
        distribution_mode: &DistributionMode,
        harmonic_count: usize,
        harmonic_offset: usize,
        floor: i64,
        ceiling: i64,
        bias: i64,
        Ghost(p): Ghost<DemodParams>,
    ) -> (em: Option<(Vec<i64>, Vec<i64>)>)
        requires
            demod_wf(old(self)@),
            params_ok(p),
            p == (DemodParams {
                mode: *distribution_mode,
                hc: harmonic_count as int,
                off: harmonic_offset as int,
                floor: floor as int,
                ceiling: ceiling as int,
                bias: bias as int,
            }),
            -IN_LIMIT <= xl <= IN_LIMIT,
            -IN_LIMIT <= xr <= IN_LIMIT,
        ensures
            demod_wf(final(self)@),
            final(self)@ == demod_step(old(self)@, xl as int, xr as int, p).0,
            em is Some <==> demod_step(old(self)@, xl as int, xr as int, p).1 is Some,
            em matches Some(pair) ==> {
                &&& pair.0.len() == 512
                &&& pair.1.len() == 512
                &&& demod_step(old(self)@, xl as int, xr as int, p).1 == Some(
                    (seq_int(pair.0@), seq_int(pair.1@)),
                )
                &&& forall|j: int| 0 <= j < 512 ==> 0 <= #[trigger] pair.0@[j] <= AMP_LIMIT
                &&& forall|j: int| 0 <= j < 512 ==> 0 <= #[trigger] pair.1@[j] <= AMP_LIMIT
            },
    {
        let ghost m0 = self@;
        proof {
            lemma_demod_step_wf(m0, xl as int, xr as int, p);
        }
        let lv: i64 = rectify_fp(gate_fp(xl + bias, floor, ceiling));
        let rv: i64 = rectify_fp(gate_fp(xr + bias, floor, ceiling));
        let nh: usize = harmonic_target(distribution_mode, harmonic_count, self.progress)
            + harmonic_offset;
        let mut lo: usize = self.prev_harmonic;
        if harmonic_offset > lo {
            lo = harmonic_offset;
        }
        if lo < 1 {
            lo = 1;
        }
        let hi: usize = if nh < 1 {
            1
        } else if nh > 512 {
            512
        } else {
            nh
        };
        let ghost lov = lo as int;
        let ghost hiv = hi as int;
        if hi >= lo {
            let ghost wl0 = m0.wl;
            let ghost wr0 = m0.wr;
            let ghost prev0 = m0.prev;
            let ghost sc0 = m0.sc;
            if lo == self.prev_harmonic {
                let sc64: i64 = self.sample_count as i64;
                let cur_l: i64 = self.working_amp_l[lo - 1];
                let cur_r: i64 = self.working_amp_r[lo - 1];
                proof {
                    assert(cur_l as int == wl0[lov - 1]);
                    assert(cur_r as int == wr0[lov - 1]);
                    assert(0 <= (cur_l as int) * (sc64 as int) <= 0x800_0000 * 0xFFFF_FFFF
                        && 0 <= (cur_r as int) * (sc64 as int) <= 0x800_0000 * 0xFFFF_FFFF) by (
                    nonlinear_arith)
                        requires
                            0 <= cur_l as int <= 0x800_0000,
                            0 <= cur_r as int <= 0x800_0000,
                            0 <= sc64 as int <= 0xFFFF_FFFF,
                    ;
                }
                let nl: i64 = (cur_l * sc64 + lv) / (sc64 + 1);
                let nr: i64 = (cur_r * sc64 + rv) / (sc64 + 1);
                proof {
                    lemma_avg_bound(cur_l as int, sc64 as int, lv as int);
                    lemma_avg_bound(cur_r as int, sc64 as int, rv as int);
                    assert(nl as int == avg_step(wl0[lov - 1], sc0, lv as int));
                    assert(nr as int == avg_step(wr0[lov - 1], sc0, rv as int));
                }
                self.working_amp_l.set(lo - 1, nl);
                self.working_amp_r.set(lo - 1, nr);
                self.sample_count = if self.sample_count == 0xFFFF_FFFFu32 {
                    self.sample_count
                } else {
                    self.sample_count + 1
                };
            } else {
                self.working_amp_l.set(lo - 1, lv);
                self.working_amp_r.set(lo - 1, rv);
                self.sample_count = 0;
            }
            let ghost first_l = self.working_amp_l@[lov - 1];
            let ghost first_r = self.working_amp_r@[lov - 1];
            let ghost sc_mid = self.sample_count;
            proof {
                assert(first_l as int == if lov == prev0 {
                    avg_step(wl0[lov - 1], sc0, lv as int)
                } else {
                    lv as int
                });
                assert(first_r as int == if lov == prev0 {
                    avg_step(wr0[lov - 1], sc0, rv as int)
                } else {
                    rv as int
                });
            }
            let mut h: usize = lo + 1;
            while h <= hi
                invariant
                    lo + 1 <= h <= hi + 1,
                    1 <= lo <= hi <= 512,
                    self.working_amp_l.len() == 512,
                    self.working_amp_r.len() == 512,
                    wl0.len() == 512,
                    wr0.len() == 512,
                    lov == lo as int,
                    forall|j: int| lo <= j < h - 1 ==> (#[trigger] self.working_amp_l@[j]) == lv,
                    forall|j: int| lo <= j < h - 1 ==> (#[trigger] self.working_amp_r@[j]) == rv,
                    forall|j: int|
                        0 <= j < 512 && j != lov - 1 && !(lo <= j < h - 1) ==> (
                        #[trigger] self.working_amp_l@[j]) as int == wl0[j],
                    forall|j: int|
                        0 <= j < 512 && j != lov - 1 && !(lo <= j < h - 1) ==> (
                        #[trigger] self.working_amp_r@[j]) as int == wr0[j],
                    self.working_amp_l@[lov - 1] == first_l,
                    self.working_amp_r@[lov - 1] == first_r,
                    self.progress == old(self).progress,
                    self.prev_harmonic == old(self).prev_harmonic,
                    self.sample_count == sc_mid,
                decreases hi + 1 - h,
            {
                self.working_amp_l.set(h - 1, lv);
                self.working_amp_r.set(h - 1, rv);
                h = h + 1;
            }
            if hi > lo {
                self.sample_count = 0;
            }
            self.prev_harmonic = hi;
            proof {
                assert(seq_int(self.working_amp_l@) =~= fill(wl0, prev0, sc0, lov, hiv, lv as int));
                assert(seq_int(self.working_amp_r@) =~= fill(wr0, prev0, sc0, lov, hiv, rv as int));
            }
        }
        self.progress = self.progress + 1;
        let ghost stepped = demod_step(m0, xl as int, xr as int, p);
        let ghost prog_mid = self.progress;
        if self.progress >= DEMOD_BLOCK_SIZE {
            let ghost snap_l = seq_int(self.working_amp_l@);
            let ghost snap_r = seq_int(self.working_amp_r@);
            let ghost prev_mid = self.prev_harmonic;
            let ghost sc_mid2 = self.sample_count;
            let mut out_l: Vec<i64> = Vec::new();
            let mut out_r: Vec<i64> = Vec::new();
            let mut j: usize = 0;
            while j < 512
                invariant
                    j <= 512,
                    out_l.len() == j,
                    out_r.len() == j,
                    self.working_amp_l.len() == 512,
                    self.working_amp_r.len() == 512,
                    snap_l.len() == 512,
                    snap_r.len() == 512,
                    forall|k: int| 0 <= k < j ==> (#[trigger] out_l@[k]) as int == snap_l[k],
                    forall|k: int| 0 <= k < j ==> (#[trigger] out_r@[k]) as int == snap_r[k],
                    forall|k: int| 0 <= k < j ==> (#[trigger] self.working_amp_l@[k]) == 0,
                    forall|k: int| 0 <= k < j ==> (#[trigger] self.working_amp_r@[k]) == 0,
                    forall|k: int|
                        j <= k < 512 ==> (#[trigger] self.working_amp_l@[k]) as int == snap_l[k],
                    forall|k: int|
                        j <= k < 512 ==> (#[trigger] self.working_amp_r@[k]) as int == snap_r[k],
                    self.progress == prog_mid,
                    self.prev_harmonic == prev_mid,
                    self.sample_count == sc_mid2,
                decreases 512 - j,
            {
                let v_l: i64 = self.working_amp_l[j];
                let v_r: i64 = self.working_amp_r[j];
                out_l.push(v_l);
                out_r.push(v_r);
                self.working_amp_l.set(j, 0);
                self.working_amp_r.set(j, 0);
                j = j + 1;
            }
            self.progress = 0;
            self.prev_harmonic = 1;
            proof {
                assert(seq_int(self.working_amp_l@) =~= zeros(512));
                assert(seq_int(self.working_amp_r@) =~= zeros(512));
                assert(seq_int(out_l@) =~= snap_l);
                assert(seq_int(out_r@) =~= snap_r);
                assert(self@ =~= stepped.0);
                assert(stepped.1 == Some((snap_l, snap_r)));
                assert forall|k: int| 0 <= k < 512 implies 0 <= #[trigger] out_l@[k]
                    <= AMP_LIMIT by {
                    assert(seq_int(out_l@)[k] == out_l@[k] as int);
                }
                assert forall|k: int| 0 <= k < 512 implies 0 <= #[trigger] out_r@[k]
                    <= AMP_LIMIT by {
                    assert(seq_int(out_r@)[k] == out_r@[k] as int);
                }
            }
            Some((out_l, out_r))
        } else {
            proof {
                assert(self@ =~= stepped.0);
            }
            None
        }
    }

    /// Feeds a buffer of stereo input through the demodulator. Returns the
    /// most recent harmonic-amplitude snapshot any completed block emitted,
    /// or nothing while the current block is still filling. When the input
    /// spans several blocks, earlier snapshots are discarded by design.
    pub fn submit_samples(
        &mut self,
        in_l: &Vec<i64>,
        in_r: &Vec<i64>,
        distribution_mode: &DistributionMode,
        harmonic_count: usize,
        harmonic_offset: usize,
        floor: i64,
        ceiling: i64,
        bias: i64,
    ) -> (amps: Option<(Vec<i64>, Vec<i64>)>)
        requires
            demod_wf(old(self)@),
            in_l.len() == in_r.len(),
            forall|n: int| 0 <= n < in_l.len() ==> -IN_LIMIT <= #[trigger] in_l@[n] <= IN_LIMIT,
            forall|n: int| 0 <= n < in_r.len() ==> -IN_LIMIT <= #[trigger] in_r@[n] <= IN_LIMIT,
            1 <= harmonic_count <= 512,
            harmonic_offset <= 512,
            -PARAM_LIMIT <= floor <= PARAM_LIMIT,
            -PARAM_LIMIT <= ceiling <= PARAM_LIMIT,
            -PARAM_LIMIT <= bias <= PARAM_LIMIT,
        ensures
            demod_wf(final(self)@),
            ({
                let p = DemodParams {
                    mode: *distribution_mode,
                    hc: harmonic_count as int,
                    off: harmonic_offset as int,
                    floor: floor as int,
                    ceiling: ceiling as int,
                    bias: bias as int,
                };
                let run = demod_run(
                    old(self)@,
                    seq_int(in_l@),
                    seq_int(in_r@),
                    p,
                    in_l.len() as nat,
                );
                &&& final(self)@ == run.0
                &&& (amps is Some <==> run.1 is Some)
                &&& (amps matches Some(pair) ==> {
                    &&& pair.0.len() == 512
                    &&& pair.1.len() == 512
                    &&& run.1 == Some((seq_int(pair.0@), seq_int(pair.1@)))
                    &&& forall|j: int| 0 <= j < 512 ==> 0 <= #[trigger] pair.0@[j] <= AMP_LIMIT
                    &&& forall|j: int| 0 <= j < 512 ==> 0 <= #[trigger] pair.1@[j] <= AMP_LIMIT
                })
            }),
    {
        let ghost m0 = self@;
        let ghost il = seq_int(in_l@);
        let ghost ir = seq_int(in_r@);
        let ghost p = DemodParams {
            mode: *distribution_mode,
            hc: harmonic_count as int,
            off: harmonic_offset as int,
            floor: floor as int,
            ceiling: ceiling as int,
            bias: bias as int,
        };
        let mut amps: Option<(Vec<i64>, Vec<i64>)> = None;
        let len: usize = in_l.len();
        let mut n: usize = 0;
        while n < len
            invariant
                n <= len,
                in_l.len() == len,
                in_r.len() == len,
                il == seq_int(in_l@),
                ir == seq_int(in_r@),
                forall|k: int| 0 <= k < len ==> -IN_LIMIT <= #[trigger] in_l@[k] <= IN_LIMIT,
                forall|k: int| 0 <= k < len ==> -IN_LIMIT <= #[trigger] in_r@[k] <= IN_LIMIT,
                params_ok(p),
                p == (DemodParams {
                    mode: *distribution_mode,
                    hc: harmonic_count as int,
                    off: harmonic_offset as int,
                    floor: floor as int,
                    ceiling: ceiling as int,
                    bias: bias as int,
                }),
                1 <= harmonic_count <= 512,
                harmonic_offset <= 512,
                demod_wf(self@),
                ({
                    let run = demod_run(m0, il, ir, p, n as nat);
                    &&& self@ == run.0
                    &&& (amps is Some <==> run.1 is Some)
                    &&& (amps matches Some(pair) ==> {
                        &&& pair.0.len() == 512
                        &&& pair.1.len() == 512
                        &&& run.1 == Some((seq_int(pair.0@), seq_int(pair.1@)))
                        &&& forall|j: int| 0 <= j < 512 ==> 0 <= #[trigger] pair.0@[j] <= AMP_LIMIT
                        &&& forall|j: int| 0 <= j < 512 ==> 0 <= #[trigger] pair.1@[j] <= AMP_LIMIT
                    })
                }),
            decreases len - n,
        {
            let xl: i64 = in_l[n];
            let xr: i64 = in_r[n];
            let em = self.step_one(
                xl,
                xr,
                distribution_mode,
                harmonic_count,
                harmonic_offset,
                floor,
                ceiling,
                bias,
                Ghost(p),
            );
            proof {
                assert(il[n as int] == xl as int);
                assert(ir[n as int] == xr as int);
                assert(demod_run(m0, il, ir, p, (n + 1) as nat).0 == demod_step(
                    demod_run(m0, il, ir, p, n as nat).0,
                    il[n as int],
                    ir[n as int],
                    p,
                ).0);
            }
            match em {
                Some(pair) => {
                    amps = Some(pair);
                },
                None => {},
            }
            n = n + 1;
        }
        amps
    }
}

impl Default for CVDemodulator {
    /// A fresh demodulator at the start of a block, tracking harmonic 1,
    /// with empty accumulators.
    fn default() -> (d: CVDemodulator)
        ensures
            demod_wf(d@),
            d@ == (DemodModel {
                progress: 0,
                prev: 1,
                sc: 0,
                wl: zeros(512),
                wr: zeros(512),
            }),
    {
        let mut working_amp_l: Vec<i64> = Vec::new();
        let mut working_amp_r: Vec<i64> = Vec::new();
        let mut i: usize = 0;
        while i < 512
            invariant
                i <= 512,
                working_amp_l.len() == i,
                working_amp_r.len() == i,
                forall|j: int| 0 <= j < i ==> #[trigger] working_amp_l@[j] == 0,
                forall|j: int| 0 <= j < i ==> #[trigger] working_amp_r@[j] == 0,
            decreases 512 - i,
        {
            working_amp_l.push(0);
            working_amp_r.push(0);
            i = i + 1;
        }
        let d = CVDemodulator {
            progress: 0,
            prev_harmonic: 1,
            sample_count: 0,
            working_amp_l,
            working_amp_r,
        };
        proof {
            assert(seq_int(d.working_amp_l@) =~= zeros(512));
            assert(seq_int(d.working_amp_r@) =~= zeros(512));
            assert(d@ =~= (DemodModel {
                progress: 0,
                prev: 1,
                sc: 0,
                wl: zeros(512),
                wr: zeros(512),
            }));
        }
        d
    }
}

} // verus!