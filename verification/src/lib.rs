//! Additive synthesis of a time-domain waveform from a spectrogram-style
//! amplitude grid, carried out entirely in fixed-point integer arithmetic.
//!
//! A [`frequency::FrequencyDomainAudio`] holds a grid of per-(time, frequency)
//! amplitudes together with the duration and frequency range it spans.
//! Synthesis sums, for each output sample, one sinusoid per frequency bin of
//! the column selected by the sample's time, then normalizes the waveform to
//! peak magnitude [`SIG_ONE`] and quantizes it to signed 32-bit integers.

use vstd::prelude::*;

pub mod audio_types;
pub mod frequency;
pub mod logscale;
pub mod sine;

verus! {

/// Fixed-point unit for amplitudes: an [`audio_types::Amplitude`] of
/// `AMP_ONE` stands for the real amplitude 1.0.
pub const AMP_ONE: u32 = 65536;

/// Fixed-point unit for signal values: an [`audio_types::Value`] of
/// `SIG_ONE` stands for the real signal level 1.0, the peak reached
/// after normalization.
pub const SIG_ONE: i64 = 65536;

/// Fixed-point unit (2^32) for Q32.32 quantities: seconds of time and
/// base-2 logarithms of frequency.
pub const FIX_ONE: u64 = 0x1_0000_0000;

/// Largest positive quantized sample: the greatest value of a signed
/// 32-bit integer. A normalized sample of `SIG_ONE` quantizes to exactly
/// this value.
pub const QUANT_MAX: i64 = 0x7fff_ffff;

} // verus!
