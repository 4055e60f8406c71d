//! Session-level types: decoder events and the error taxonomy.
//!
//! One session transcribes one waveform: frames are fed to the stateful
//! decoder in order, each step yields zero or more events, and the events are
//! processed in emission order. Any fatal error aborts the whole session; text
//! already emitted stays valid and is never retracted.

use vstd::prelude::*;

verus! {

/// What the decoder observed after consuming one frame.
pub enum AsrEvent {
    /// Internal progress; carries no emittable text.
    Step,
    /// A word boundary closed; carries no new tokens.
    EndWord,
    /// An ordered run of subword token IDs newly finalized for the current
    /// word.
    Word { tokens: Vec<u32> },
}

/// The tokens an event contributes to detokenization: `Word` events carry
/// their tokens, `Step` and `EndWord` carry none.
pub open spec fn event_tokens_spec(ev: AsrEvent) -> Seq<u32> {
    match ev {
        AsrEvent::Step => Seq::empty(),
        AsrEvent::EndWord => Seq::empty(),
        AsrEvent::Word { tokens } => tokens@,
    }
}

/// Extract the tokens to detokenize from one event. `Step` and `EndWord` are
/// structural markers and contribute none.
pub fn event_tokens(ev: AsrEvent) -> (toks: Vec<u32>)
    ensures
        toks@ == event_tokens_spec(ev),
{
    match ev {
        AsrEvent::Step => Vec::new(),
        AsrEvent::EndWord => Vec::new(),
        AsrEvent::Word { tokens } => tokens,
    }
}

/// Why a transcription attempt failed. Every variant is fatal: the whole
/// session aborts, with no partial-result salvage beyond the text already
/// written to the sink.
#[derive(Clone, Copy, Debug)]
pub enum SttError {
    /// The audio source could not be read or decoded.
    Input,
    /// A decoder step failed; the session state is already mutated, so no
    /// retry is safe.
    Engine,
    /// The tokenizer failed to decode a queried singleton or pair, indicating
    /// a vocabulary/model mismatch.
    Decode,
}

} // verus!
