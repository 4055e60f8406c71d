use stt_rs::detok::{fragment_from_decodes, Detokenizer, NO_PREV_TOKEN};

fn letters(ids: &[u32]) -> String {
    // A context-insensitive decode: each token ID renders as one fixed letter,
    // and a sequence decodes to the concatenation of its letters.
    ids.iter().map(|&i| char::from(b'a' + (i % 26) as u8)).collect()
}

#[test]
fn sentinel_first_token_reveals_whole_decode() {
    // prev = sentinel, t = 42; [0] decodes to "" and [0, 42] to "Hello":
    // the emitted fragment is "Hello" and prev advances to 42.
    let mut d = Detokenizer::new();
    assert_eq!(d.prev, NO_PREV_TOKEN);
    let frag = d.step_decoded(42, "", "Hello");
    assert_eq!(frag, "Hello");
    assert_eq!(d.prev, 42);
}

#[test]
fn two_words_emit_word_then_spaced_word() {
    // Word{tokens:[42]} then Word{tokens:[57]}, with [42] decoding to "Hello"
    // and [42, 57] to "Hello world": fragments "Hello" then " world".
    let mut d = Detokenizer::new();
    let first = d.step_decoded(42, "", "Hello");
    assert_eq!(first, "Hello");
    let second = d.step_decoded(57, "Hello", "Hello world");
    assert_eq!(second, " world");
    assert_eq!(d.prev, 57);
}

#[test]
fn degenerate_pair_decode_emits_empty_and_still_advances() {
    let mut d = Detokenizer::new();
    let shrunk = d.step_decoded(9, "Hello", "Hell");
    assert_eq!(shrunk, "");
    assert_eq!(d.prev, 9);
    let same = d.step_decoded(10, "abc", "abc");
    assert_eq!(same, "");
    assert_eq!(d.prev, 10);
}

#[test]
fn fragment_is_repeatable_for_fixed_decodes() {
    let a = fragment_from_decodes("Hel", "Hello");
    let b = fragment_from_decodes("Hel", "Hello");
    assert_eq!(a, b);
    assert_eq!(a, "lo");
}

#[test]
fn fragment_splits_at_character_boundaries() {
    let f = fragment_from_decodes("é", "éà");
    assert_eq!(f, "à");
}

#[test]
fn queries_are_the_singleton_and_the_pair() {
    let d = Detokenizer::new();
    let (single, pair) = d.decode_queries(7);
    assert_eq!(single, vec![NO_PREV_TOKEN]);
    assert_eq!(pair, vec![NO_PREV_TOKEN, 7]);
}

#[test]
fn later_tokens_never_revise_earlier_fragments() {
    // Append-only output: running the extended token sequence reproduces the
    // fragments of the shorter run as a prefix, unchanged.
    let short: Vec<u32> = vec![7, 4];
    let long: Vec<u32> = vec![7, 4, 11, 14];
    let run = |tokens: &[u32]| -> Vec<String> {
        let mut d = Detokenizer::new();
        let mut frags = Vec::new();
        for &t in tokens {
            let (single, pair) = d.decode_queries(t);
            frags.push(d.step_decoded(t, &letters(&single), &letters(&pair)));
        }
        frags
    };
    let short_frags = run(&short);
    let long_frags = run(&long);
    assert_eq!(&long_frags[..short_frags.len()], &short_frags[..]);
}

#[test]
fn context_insensitive_decode_loses_and_duplicates_nothing() {
    // For an additive decode, the concatenated fragments equal the decode of
    // the whole token sequence.
    let tokens: Vec<u32> = vec![7, 4, 11, 11, 14];
    let mut d = Detokenizer::new();
    let mut out = String::new();
    for &t in &tokens {
        let (single, pair) = d.decode_queries(t);
        let frag = d.step_decoded(t, &letters(&single), &letters(&pair));
        out.push_str(&frag);
    }
    assert_eq!(out, letters(&tokens));
}
