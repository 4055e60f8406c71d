//! Streaming speech-to-text orchestration.
//!
//! The neural decoder and the subword tokenizer are outside collaborators;
//! this library holds the logic around them: splitting a waveform into
//! fixed-length frames padded with silence, turning context-dependent token
//! decodes into non-duplicated incremental text, and the session's event and
//! error policy.

use vstd::prelude::*;

pub mod chunk;
pub mod detok;
pub mod session;

verus! {

/// Samples per decoder frame: each step consumes exactly this many.
pub const FRAME_LEN: usize = 1920;

/// All-silence frames appended after the audio so the decoder's look-ahead
/// flushes the final words.
pub const EXTRA_SILENCE_FRAMES: usize = 32;

/// The sample rate the decoder requires; input at any other rate is resampled
/// once, up front.
pub const TARGET_SAMPLE_RATE: u32 = 24000;

/// Whether a waveform at `rate` must be resampled before chunking.
pub fn needs_resample(rate: u32) -> (r: bool)
    ensures
        r == (rate != TARGET_SAMPLE_RATE),
{
    rate != TARGET_SAMPLE_RATE
}

} // verus!
