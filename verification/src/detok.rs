//! Incremental detokenization.
//!
//! A subword tokenizer may render a token differently depending on the token
//! before it (leading spaces, byte-pair merges), so decoding each token alone
//! and concatenating is wrong, and re-decoding the whole accumulated sequence
//! per token costs unbounded work. The compromise implemented here queries the
//! tokenizer on pairs only: for each new token `t` with predecessor `prev`,
//! decode `[prev]` and `[prev, t]`, and emit exactly the suffix that the pair
//! decode adds past the singleton decode. If the pair decode does not grow,
//! the emitted fragment is empty and the session continues.

use crate::session::SttError;
use vstd::prelude::*;

verus! {

/// The reserved "no previous token" sentinel, matching the tokenizer's own
/// beginning-of-sequence behaviour.
pub const NO_PREV_TOKEN: u32 = 0;

/// The text newly revealed by the second token of a pair: the suffix of the
/// pair decode past the previous-token decode, or nothing if the pair decode
/// does not grow.
pub open spec fn fragment_spec(s_prev: Seq<char>, s_pair: Seq<char>) -> Seq<char> {
    if s_pair.len() > s_prev.len() {
        s_pair.subrange(s_prev.len() as int, s_pair.len() as int)
    } else {
        Seq::empty()
    }
}

/// Given the decode of `[prev]` and of `[prev, t]`, return the text newly
/// revealed by `t`.
pub fn fragment_from_decodes(s_prev: &str, s_pair: &str) -> (frag: String)
    ensures
        frag@ == fragment_spec(s_prev@, s_pair@),
{
    let prev_len = s_prev.unicode_len();
    let pair_len = s_pair.unicode_len();
    if pair_len > prev_len {
        s_pair.substring_char(prev_len, pair_len).to_owned()
    } else {
        String::new()
    }
}

/// The state carried across one transcription session: the immediately
/// preceding token ID, advanced after every processed token and never rolled
/// back.
pub struct Detokenizer {
    pub prev: u32,
}

impl Detokenizer {
    /// A fresh session context, starting at the sentinel.
    pub fn new() -> (d: Detokenizer)
        ensures
            d.prev == NO_PREV_TOKEN,
    {
        Detokenizer { prev: NO_PREV_TOKEN }
    }

    /// The two decode queries the session needs for the next token `t`: the
    /// singleton `[prev]` and the pair `[prev, t]`. The caller hands both to
    /// the tokenizer and returns the results to `step_results`.
    pub fn decode_queries(&self, t: u32) -> (q: (Vec<u32>, Vec<u32>))
        ensures
            q.0@ == seq![self.prev],
            q.1@ == seq![self.prev, t],
    {
        let mut single: Vec<u32> = Vec::new();
        single.push(self.prev);
        let mut pair: Vec<u32> = Vec::new();
        pair.push(self.prev);
        pair.push(t);
        proof {
            assert(single@ =~= seq![self.prev]);
            assert(pair@ =~= seq![self.prev, t]);
        }
        (single, pair)
    }

    /// Process one token given the two decode strings; emit the newly revealed
    /// text and advance the context. If the pair decode does not grow past the
    /// previous-token decode, the fragment is exactly empty and the context
    /// still advances to `t`.
    pub fn step_decoded(&mut self, t: u32, s_prev: &str, s_pair: &str) -> (frag: String)
        ensures
            frag@ == fragment_spec(s_prev@, s_pair@),
            final(self).prev == t,
            s_pair@.len() <= s_prev@.len() ==> frag@ == Seq::<char>::empty(),
    {
        self.prev = t;
        fragment_from_decodes(s_prev, s_pair)
    }

    /// Process one token given the decode outcomes, `None` standing for a
    /// failed decode. A decode failure is fatal: it indicates a
    /// vocabulary/model mismatch, not a transient condition. The context
    /// advances to `t` either way, as the session aborts on an error.
    pub fn step_results(
        &mut self,
        t: u32,
        s_prev: Option<String>,
        s_pair: Option<String>,
    ) -> (r: Result<String, SttError>)
        ensures
            final(self).prev == t,
            r is Ok <==> (s_prev is Some && s_pair is Some),
            r matches Ok(frag) ==> frag@ == fragment_spec(s_prev.unwrap()@, s_pair.unwrap()@),
            r matches Err(e) ==> e == SttError::Decode,
    {
        self.prev = t;
        match (s_prev, s_pair) {
            (Some(p), Some(q)) => Ok(fragment_from_decodes(p.as_str(), q.as_str())),
            _ => Err(SttError::Decode),
        }
    }
}

/// The concatenation of every fragment the detokenizer emits for `tokens`,
/// processed in order starting from the context `prev`, when the tokenizer
/// decodes ID sequences as `decode`.
pub open spec fn detok_concat(
    decode: spec_fn(Seq<u32>) -> Seq<char>,
    prev: u32,
    tokens: Seq<u32>,
) -> Seq<char>
    decreases tokens.len(),
{
    if tokens.len() == 0 {
        Seq::empty()
    } else {
        fragment_spec(decode(seq![prev]), decode(seq![prev, tokens.first()])) + detok_concat(
            decode,
            tokens.first(),
            tokens.drop_first(),
        )
    }
}

/// Law: for a tokenizer whose decoding is context-insensitive — decoding a
/// concatenation yields the concatenation of the decodings — the emitted
/// fragments, concatenated, equal the decode of the whole token sequence. No
/// text is duplicated and none is lost.
pub proof fn lemma_no_duplication(
    decode: spec_fn(Seq<u32>) -> Seq<char>,
    prev: u32,
    tokens: Seq<u32>,
)
    requires
        forall|s1: Seq<u32>, s2: Seq<u32>| #[trigger] decode(s1 + s2) == decode(s1) + decode(s2),
    ensures
        detok_concat(decode, prev, tokens) == decode(tokens),
    decreases tokens.len(),
{
    let empty = Seq::<u32>::empty();
    assert(empty + empty =~= empty);
    assert(decode(empty) == decode(empty) + decode(empty));
    assert(decode(empty) =~= Seq::<char>::empty());
    if tokens.len() == 0 {
        assert(tokens =~= empty);
        assert(detok_concat(decode, prev, tokens) == decode(tokens));
    } else {
        let t = tokens.first();
        assert(seq![prev] + seq![t] =~= seq![prev, t]);
        assert(decode(seq![prev, t]) == decode(seq![prev]) + decode(seq![t]));
        assert(fragment_spec(decode(seq![prev]), decode(seq![prev, t])) =~= decode(seq![t]));
        lemma_no_duplication(decode, t, tokens.drop_first());
        assert(seq![t] + tokens.drop_first() =~= tokens);
        assert(decode(tokens) == decode(seq![t]) + decode(tokens.drop_first()));
    }
}

/// The context carried out of a processed token run: the last token, or the
/// incoming context if the run is empty.
pub open spec fn last_context(prev: u32, tokens: Seq<u32>) -> u32 {
    if tokens.len() == 0 {
        prev
    } else {
        tokens.last()
    }
}

/// Law: output is append-only. Processing further tokens never revises earlier
/// fragments: the fragments for an extended token sequence are exactly the
/// fragments for the original sequence followed by the fragments for the
/// extension, started from the carried context.
pub proof fn lemma_append_only(
    decode: spec_fn(Seq<u32>) -> Seq<char>,
    prev: u32,
    tokens: Seq<u32>,
    more: Seq<u32>,
)
    ensures
        detok_concat(decode, prev, tokens + more) == detok_concat(decode, prev, tokens)
            + detok_concat(decode, last_context(prev, tokens), more),
    decreases tokens.len(),
{
    if tokens.len() == 0 {
        assert(tokens + more =~= more);
        assert(detok_concat(decode, prev, tokens) + detok_concat(decode, prev, more)
            =~= detok_concat(decode, prev, more));
    } else {
        let t = tokens.first();
        assert((tokens + more).first() == t);
        assert((tokens + more).drop_first() =~= tokens.drop_first() + more);
        lemma_append_only(decode, t, tokens.drop_first(), more);
        assert(last_context(t, tokens.drop_first()) == last_context(prev, tokens));
        assert(detok_concat(decode, prev, tokens + more) =~= detok_concat(decode, prev, tokens)
            + detok_concat(decode, last_context(prev, tokens), more));
    }
}

/// Law: the fragment emitted for a token depends only on what the tokenizer
/// decodes the queried singleton and pair to. Two tokenizers that agree on
/// `[prev]` and `[prev, t]` yield the same fragment for `t`: for a fixed
/// vocabulary the step is a pure, repeatable function of `(prev, t)`.
pub proof fn lemma_fragment_deterministic(
    decode1: spec_fn(Seq<u32>) -> Seq<char>,
    decode2: spec_fn(Seq<u32>) -> Seq<char>,
    prev: u32,
    t: u32,
)
    requires
        decode1(seq![prev]) == decode2(seq![prev]),
        decode1(seq![prev, t]) == decode2(seq![prev, t]),
    ensures
        fragment_spec(decode1(seq![prev]), decode1(seq![prev, t])) == fragment_spec(
            decode2(seq![prev]),
            decode2(seq![prev, t]),
        ),
{
}

} // verus!
