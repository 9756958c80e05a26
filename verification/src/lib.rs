//! A monophonic additive synthesizer whose per-harmonic amplitudes are
//! demodulated from an audio-rate control signal.
//!
//! All audio values are fixed-point integers: an `i64` holds a real number
//! scaled by [`fixed::SCALE`]. The host shell converts to and from its own
//! sample format at the boundary; everything inside is exact integer
//! arithmetic, so every operation here is a total, deterministic function of
//! its fixed-size state.

use vstd::prelude::*;

pub mod additive_engine;
pub mod demodulator;
pub mod envelope;
pub mod fixed;
pub mod voice;

verus! {

/// The per-harmonic amplitude scaling law used during resynthesis.
#[derive(Clone, Copy, PartialEq, Eq, Structural, Debug)]
pub enum BasicGainMode {
    /// Every harmonic at full amplitude.
    Flat,
    /// Harmonic `i` (0-based) scaled by `sqrt(1 / (i + 1))`, compensating the
    /// natural `1 / i` rolloff of a sawtooth for roughly equal energy.
    Sawtooth,
}

/// The law mapping demodulator block progress to a target harmonic index.
#[derive(Clone, Copy, PartialEq, Eq, Structural, Debug)]
pub enum DistributionMode {
    /// `floor(count^(progress / block_size))`: front-loads the low harmonics,
    /// spending most of the block on the higher ones.
    Exponential,
    /// `floor(count * progress / block_size)`: equal time per harmonic.
    Linear,
}

} // verus!
