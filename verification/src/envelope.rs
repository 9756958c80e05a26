//! One-pole attack/release envelope follower. The state ramps toward 1 while
//! a note is held and toward 0 once released; each sample multiplies the
//! distance to the target by a coefficient derived from a time constant.

use crate::fixed::SCALE;
use vstd::prelude::*;

verus! {

/// Release is audibly finished once the state falls below this level
/// (about 0.001 in Q24).
pub const RELEASE_EPS: i64 = 16777;

pub struct AREnvelope {
    pub state: i64,
    pub attack_coeff: i64,
    pub release_coeff: i64,
    pub releasing: bool,
}

/// One envelope update: `state * coeff + target * (1 - coeff)`, where the
/// target is 1 while attacking and 0 while releasing.
pub open spec fn env_next(state: int, coeff: int, releasing: bool) -> int {
    if releasing {
        state * coeff / (SCALE as int)
    } else {
        (state * coeff + SCALE * (SCALE - coeff)) / (SCALE as int)
    }
}

/// The state after `n` envelope updates with a fixed coefficient and phase.
pub open spec fn env_iter(state: int, coeff: int, releasing: bool, n: nat) -> int
    decreases n,
{
    if n == 0 {
        state
    } else {
        env_next(env_iter(state, coeff, releasing, (n - 1) as nat), coeff, releasing)
    }
}

/// The envelope counts as audibly releasing while the release flag is set
/// and the state has not yet fallen below `RELEASE_EPS`.
pub open spec fn releasing_now(e: AREnvelope) -> bool {
    e.releasing && e.state >= RELEASE_EPS
}

/// The coefficient the current phase applies.
pub open spec fn active_coeff(e: AREnvelope) -> int {
    if e.releasing {
        e.release_coeff as int
    } else {
        e.attack_coeff as int
    }
}

/// The one-pole coefficient for a time constant of `time_ms` (Q24
/// milliseconds) at `sample_rate`: the rational approximation
/// `(2n - 1) / (2n + 1)` of `exp(-1 / n)`, where `n` is the time constant in
/// samples, floored at zero.
pub open spec fn coeff_spec(sample_rate: int, time_ms: int) -> int {
    let nf = time_ms * sample_rate / 1000;
    let c = SCALE - 2 * SCALE * SCALE / (2 * nf + SCALE);
    if c < 0 {
        0
    } else {
        c
    }
}

/// An update keeps the state inside `[0, 1]`.
pub proof fn lemma_env_next_range(state: int, coeff: int, releasing: bool)
    requires
        0 <= state <= SCALE,
        0 <= coeff < SCALE,
    ensures
        0 <= env_next(state, coeff, releasing) <= SCALE,
{
    let s = SCALE as int;
    if releasing {
        assert(0 <= state * coeff <= s * s) by (nonlinear_arith)
            requires
                0 <= state <= s,
                0 <= coeff <= s,
        ;
        vstd::arithmetic::div_mod::lemma_div_pos_is_pos(state * coeff, s);
        vstd::arithmetic::div_mod::lemma_div_is_ordered(state * coeff, s * s, s);
        vstd::arithmetic::div_mod::lemma_div_by_multiple(s, s);
    } else {
        assert(0 <= state * coeff + s * (s - coeff) <= s * s) by (nonlinear_arith)
            requires
                0 <= state <= s,
                0 <= coeff < s,
        ;
        vstd::arithmetic::div_mod::lemma_div_pos_is_pos(state * coeff + s * (s - coeff), s);
        vstd::arithmetic::div_mod::lemma_div_is_ordered(state * coeff + s * (s - coeff), s * s, s);
        vstd::arithmetic::div_mod::lemma_div_by_multiple(s, s);
    }
}

/// The state moves monotonically toward the current target: downward toward 0
/// while releasing, upward toward 1 while attacking.
pub proof fn lemma_env_next_toward_target(state: int, coeff: int, releasing: bool)
    requires
        0 <= state <= SCALE,
        0 <= coeff < SCALE,
    ensures
        releasing ==> env_next(state, coeff, releasing) <= state,
        !releasing ==> env_next(state, coeff, releasing) >= state,
{
    let s = SCALE as int;
    if releasing {
        assert(state * coeff <= state * s) by (nonlinear_arith)
            requires
                0 <= state,
                coeff <= s,
        ;
        assert(0 <= state * coeff) by (nonlinear_arith)
            requires
                0 <= state,
                0 <= coeff,
        ;
        vstd::arithmetic::div_mod::lemma_div_is_ordered(state * coeff, state * s, s);
        vstd::arithmetic::div_mod::lemma_div_by_multiple(state, s);
    } else {
        assert(state * coeff + s * (s - coeff) >= state * s) by (nonlinear_arith)
            requires
                0 <= state <= s,
                0 <= coeff < s,
        ;
        vstd::arithmetic::div_mod::lemma_div_is_ordered(
            state * s,
            state * coeff + s * (s - coeff),
            s,
        );
        vstd::arithmetic::div_mod::lemma_div_by_multiple(state, s);
    }
}

/// `n` updates keep the state inside `[0, 1]`.
pub proof fn lemma_env_iter_range(state: int, coeff: int, releasing: bool, n: nat)
    requires
        0 <= state <= SCALE,
        0 <= coeff < SCALE,
    ensures
        0 <= env_iter(state, coeff, releasing, n) <= SCALE,
    decreases n,
{
    if n > 0 {
        lemma_env_iter_range(state, coeff, releasing, (n - 1) as nat);
        lemma_env_next_range(env_iter(state, coeff, releasing, (n - 1) as nat), coeff, releasing);
    }
}

/// Over any number of updates within one phase, the state moves
/// monotonically toward the current target: never up while releasing, never
/// down while attacking.
pub proof fn lemma_env_iter_monotone(state: int, coeff: int, releasing: bool, n: nat)
    requires
        0 <= state <= SCALE,
        0 <= coeff < SCALE,
    ensures
        releasing ==> env_iter(state, coeff, releasing, (n + 1) as nat) <= env_iter(
            state,
            coeff,
            releasing,
            n,
        ),
        !releasing ==> env_iter(state, coeff, releasing, (n + 1) as nat) >= env_iter(
            state,
            coeff,
            releasing,
            n,
        ),
{
    lemma_env_iter_range(state, coeff, releasing, n);
    lemma_env_next_toward_target(env_iter(state, coeff, releasing, n), coeff, releasing);
}

/// Updates compose: running `a + b` steps is running `a`, then `b` more.
pub proof fn lemma_env_iter_add(state: int, coeff: int, releasing: bool, a: nat, b: nat)
    ensures
        env_iter(state, coeff, releasing, a + b) == env_iter(
            env_iter(state, coeff, releasing, a),
            coeff,
            releasing,
            b,
        ),
    decreases b,
{
    if b > 0 {
        lemma_env_iter_add(state, coeff, releasing, a, (b - 1) as nat);
        assert(a + b - 1 == a + (b - 1) as nat);
    }
}

impl AREnvelope {
    /// Validity: the state sits in `[0, 1]` and both coefficients in `[0, 1)`.
    pub open spec fn wf(&self) -> bool {
        &&& 0 <= self.state <= SCALE
        &&& 0 <= self.attack_coeff < SCALE
        &&& 0 <= self.release_coeff < SCALE
    }

    pub fn set_attack_time(&mut self, sample_rate: u32, time_ms: i64)
        requires
            1 <= sample_rate <= 1_000_000,
            0 <= time_ms <= 1000 * SCALE,
        ensures
            final(self).attack_coeff == coeff_spec(sample_rate as int, time_ms as int),
            0 <= final(self).attack_coeff < SCALE,
            final(self).state == old(self).state,
            final(self).release_coeff == old(self).release_coeff,
            final(self).releasing == old(self).releasing,
    {
        self.attack_coeff = Self::coefficient(sample_rate, time_ms);
    }

    pub fn set_release_time(&mut self, sample_rate: u32, time_ms: i64)
        requires
            1 <= sample_rate <= 1_000_000,
            0 <= time_ms <= 1000 * SCALE,
        ensures
            final(self).release_coeff == coeff_spec(sample_rate as int, time_ms as int),
            0 <= final(self).release_coeff < SCALE,
            final(self).state == old(self).state,
            final(self).attack_coeff == old(self).attack_coeff,
            final(self).releasing == old(self).releasing,
    {
        self.release_coeff = Self::coefficient(sample_rate, time_ms);
    }

    fn coefficient(sample_rate: u32, time_ms: i64) -> (c: i64)
        requires
            1 <= sample_rate <= 1_000_000,
            0 <= time_ms <= 1000 * SCALE,
        ensures
            c == coeff_spec(sample_rate as int, time_ms as int),
            0 <= c < SCALE,
    {
        proof {
            assert(0 <= time_ms * (sample_rate as int) <= 1000 * SCALE * 1_000_000) by (
            nonlinear_arith)
                requires
                    0 <= time_ms <= 1000 * SCALE,
                    0 <= sample_rate as int <= 1_000_000,
            ;
        }
        let nf: i64 = (time_ms * (sample_rate as i64)) / 1000;
        proof {
            vstd::arithmetic::div_mod::lemma_div_pos_is_pos(
                time_ms * (sample_rate as int),
                1000,
            );
            vstd::arithmetic::div_mod::lemma_div_is_ordered(
                time_ms * (sample_rate as int),
                1000 * SCALE * 1_000_000,
                1000,
            );
        }
        let denom: i64 = 2 * nf + SCALE;
        let quot: i64 = (2 * SCALE * SCALE) / denom;
        proof {
            vstd::arithmetic::div_mod::lemma_div_pos_is_pos(2 * SCALE * SCALE, denom as int);
            vstd::arithmetic::div_mod::lemma_div_is_ordered(
                denom as int,
                2 * SCALE * SCALE,
                denom as int,
            );
            vstd::arithmetic::div_mod::lemma_div_by_self(denom as int);
        }
        assert(quot >= 1);
        let c: i64 = SCALE - quot;
        if c < 0 {
            0
        } else {
            c
        }
    }

    pub fn reset(&mut self)
        ensures
            final(self).state == 0,
            final(self).releasing == false,
            final(self).attack_coeff == old(self).attack_coeff,
            final(self).release_coeff == old(self).release_coeff,
    {
        self.state = 0;
        self.releasing = false;
    }

    pub fn current(&self) -> (r: i64)
        ensures
            r == self.state,
    {
        self.state
    }

    pub fn start_release(&mut self)
        ensures
            final(self).releasing == true,
            final(self).state == old(self).state,
            final(self).attack_coeff == old(self).attack_coeff,
            final(self).release_coeff == old(self).release_coeff,
    {
        self.releasing = true;
    }

    /// True while the release phase is still audible: the release flag is set
    /// and the state has not yet decayed below `RELEASE_EPS`.
    pub fn is_releasing(&self) -> (r: bool)
        ensures
            r == (self.releasing && self.state >= RELEASE_EPS),
    {
        self.releasing && self.state >= RELEASE_EPS
    }

    /// Writes the next `block_len` envelope values into the front of
    /// `block_values`, advancing the state by one update per value.
    pub fn next_block(&mut self, block_values: &mut Vec<i64>, block_len: usize)
        requires
            old(self).wf(),
            block_len <= old(block_values).len(),
        ensures
            final(self).wf(),
            final(self).state == env_iter(
                old(self).state as int,
                active_coeff(*old(self)),
                old(self).releasing,
                block_len as nat,
            ),
            final(self).attack_coeff == old(self).attack_coeff,
            final(self).release_coeff == old(self).release_coeff,
            final(self).releasing == old(self).releasing,
            final(block_values).len() == old(block_values).len(),
            forall|j: int|
                0 <= j < block_len ==> final(block_values)@[j] == env_iter(
                    old(self).state as int,
                    active_coeff(*old(self)),
                    old(self).releasing,
                    (j + 1) as nat,
                ),
            forall|j: int|
                block_len <= j < old(block_values).len() ==> final(block_values)@[j] == old(
                    block_values,
                )@[j],
    {
        let ghost s0 = self.state as int;
        let ghost co = active_coeff(*self);
        let ghost rel = self.releasing;
        let coeff: i64 = if self.releasing {
            self.release_coeff
        } else {
            self.attack_coeff
        };
        let mut j: usize = 0;
        while j < block_len
            invariant
                j <= block_len <= block_values.len(),
                block_values.len() == old(block_values).len(),
                0 <= self.state <= SCALE,
                0 <= coeff < SCALE,
                coeff == co,
                self.releasing == rel,
                self.attack_coeff == old(self).attack_coeff,
                self.release_coeff == old(self).release_coeff,
                rel == old(self).releasing,
                s0 == old(self).state,
                co == active_coeff(*old(self)),
                self.state == env_iter(s0, co, rel, j as nat),
                0 <= s0 <= SCALE,
                forall|i: int| 0 <= i < j ==> block_values@[i] == env_iter(s0, co, rel, (i + 1) as nat),
                forall|i: int| j <= i < block_values.len() ==> block_values@[i] == old(block_values)@[i],
            decreases block_len - j,
        {
            proof {
                lemma_env_next_range(self.state as int, coeff as int, rel);
            }
            let num: i64 = if self.releasing {
                self.state * coeff
            } else {
                self.state * coeff + SCALE * (SCALE - coeff)
            };
            proof {
                assert(0 <= self.state * coeff <= SCALE * SCALE
                    && self.state * coeff + SCALE * (SCALE - coeff) <= SCALE * SCALE) by (
                nonlinear_arith)
                    requires
                        0 <= self.state <= SCALE,
                        0 <= coeff < SCALE,
                ;
            }
            let new_state: i64 = num / SCALE;
            self.state = new_state;
            block_values.set(j, new_state);
            j = j + 1;
        }
    }
}

impl Default for AREnvelope {
    /// A fresh envelope: silent, not releasing, with instant time constants.
    fn default() -> (e: AREnvelope)
        ensures
            e.state == 0,
            e.attack_coeff == 0,
            e.release_coeff == 0,
            e.releasing == false,
            e.wf(),
    {
        AREnvelope { state: 0, attack_coeff: 0, release_coeff: 0, releasing: false }
    }
}

} // verus!
