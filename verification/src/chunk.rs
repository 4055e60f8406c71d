//! Splitting a waveform into fixed-length frames.
//!
//! A decoder step consumes frames of exactly `frame_len` samples. The chunker
//! covers every input sample in time order, pads the final partial frame with
//! silence rather than truncating it, and appends a fixed number of extra
//! all-silence frames so the decoder has enough trailing context to flush the
//! last words.

use vstd::prelude::*;

verus! {

/// One frame made entirely of silence.
pub open spec fn silence_frame<T>(frame_len: nat, silence: T) -> Seq<T> {
    Seq::new(frame_len, |j: int| silence)
}

/// `count` trailing all-silence frames.
pub open spec fn silence_frames<T>(count: nat, frame_len: nat, silence: T) -> Seq<Seq<T>> {
    Seq::new(count, |i: int| silence_frame(frame_len, silence))
}

/// The samples extended to `frame_len` with silence.
pub open spec fn padded_frame<T>(samples: Seq<T>, frame_len: nat, silence: T) -> Seq<T>
    recommends
        samples.len() <= frame_len,
{
    samples + Seq::new((frame_len - samples.len()) as nat, |j: int| silence)
}

/// The frames covering `samples`: full frames in time order, the last one
/// padded with silence up to `frame_len`. An empty waveform is covered by no
/// frames.
pub open spec fn cover_frames<T>(samples: Seq<T>, frame_len: nat, silence: T) -> Seq<Seq<T>>
    decreases samples.len(),
{
    if frame_len == 0 || samples.len() == 0 {
        Seq::empty()
    } else if samples.len() <= frame_len {
        seq![padded_frame(samples, frame_len, silence)]
    } else {
        seq![samples.take(frame_len as int)] + cover_frames(
            samples.skip(frame_len as int),
            frame_len,
            silence,
        )
    }
}

/// Every frame of a chunked waveform: the covering frames followed by `extra`
/// all-silence frames.
pub open spec fn chunked_frames<T>(samples: Seq<T>, frame_len: nat, silence: T, extra: nat) -> Seq<
    Seq<T>,
> {
    cover_frames(samples, frame_len, silence) + silence_frames(extra, frame_len, silence)
}

/// The frames laid end to end again.
pub open spec fn concat_frames<T>(frames: Seq<Seq<T>>) -> Seq<T>
    decreases frames.len(),
{
    if frames.len() == 0 {
        Seq::empty()
    } else {
        frames.first() + concat_frames(frames.drop_first())
    }
}

/// The mathematical view of a vector of frames.
pub open spec fn frames_view<T>(frames: Seq<Vec<T>>) -> Seq<Seq<T>> {
    Seq::new(frames.len(), |i: int| frames[i]@)
}

/// A run of silence samples.
pub open spec fn silence_samples<T>(count: nat, silence: T) -> Seq<T> {
    Seq::new(count, |i: int| silence)
}

/// Concatenation distributes over appending frame sequences.
proof fn lemma_concat_frames_add<T>(a: Seq<Seq<T>>, b: Seq<Seq<T>>)
    ensures
        concat_frames(a + b) == concat_frames(a) + concat_frames(b),
    decreases a.len(),
{
    if a.len() == 0 {
        assert(a + b =~~= b);
        assert(concat_frames(a) + concat_frames(b) =~= concat_frames(b));
    } else {
        assert((a + b).drop_first() =~~= a.drop_first() + b);
        lemma_concat_frames_add(a.drop_first(), b);
        assert((a + b).first() == a.first());
        assert(concat_frames(a + b) =~= concat_frames(a) + concat_frames(b));
    }
}

/// The trailing silence frames concatenate to pure silence.
proof fn lemma_concat_silence_frames<T>(count: nat, frame_len: nat, silence: T)
    ensures
        concat_frames(silence_frames(count, frame_len, silence)).len() == count * frame_len,
        forall|k: int|
            0 <= k < count * frame_len ==> concat_frames(silence_frames(count, frame_len, silence))[k]
                == silence,
    decreases count,
{
    if count == 0 {
        assert(count * frame_len == 0);
    } else {
        let s = silence_frames(count, frame_len, silence);
        assert(s.first() == silence_frame(frame_len, silence));
        assert(s.drop_first() =~~= silence_frames((count - 1) as nat, frame_len, silence));
        lemma_concat_silence_frames((count - 1) as nat, frame_len, silence);
        assert(count * frame_len == frame_len + (count - 1) * frame_len) by (nonlinear_arith);
    }
}

/// The covering frames concatenate to the samples followed by silence.
proof fn lemma_cover_coverage<T>(samples: Seq<T>, frame_len: nat, silence: T)
    requires
        frame_len >= 1,
    ensures
        concat_frames(cover_frames(samples, frame_len, silence)).len() >= samples.len(),
        concat_frames(cover_frames(samples, frame_len, silence)).take(samples.len() as int)
            == samples,
        forall|k: int|
            samples.len() <= k < concat_frames(cover_frames(samples, frame_len, silence)).len()
                ==> concat_frames(cover_frames(samples, frame_len, silence))[k] == silence,
    decreases samples.len(),
{
    let c = concat_frames(cover_frames(samples, frame_len, silence));
    if samples.len() == 0 {
        assert(c.take(0) =~= samples);
    } else if samples.len() <= frame_len {
        assert(cover_frames(samples, frame_len, silence).drop_first() =~~= Seq::<Seq<T>>::empty());
        assert(concat_frames(Seq::<Seq<T>>::empty()) == Seq::<T>::empty());
        assert(cover_frames(samples, frame_len, silence).first() == padded_frame(
            samples,
            frame_len,
            silence,
        ));
        assert(c =~= padded_frame(samples, frame_len, silence));
        assert(c.take(samples.len() as int) =~= samples);
    } else {
        let head = samples.take(frame_len as int);
        let tail = samples.skip(frame_len as int);
        lemma_cover_coverage(tail, frame_len, silence);
        let ct = concat_frames(cover_frames(tail, frame_len, silence));
        assert(cover_frames(samples, frame_len, silence).first() == head);
        assert(cover_frames(samples, frame_len, silence).drop_first() =~~= cover_frames(
            tail,
            frame_len,
            silence,
        ));
        assert(c == head + ct);
        assert forall|k: int| 0 <= k < samples.len() implies c[k] == samples[k] by {
            if k < frame_len {
                assert(c[k] == head[k]);
            } else {
                assert(c[k] == ct[k - frame_len]);
                assert(ct[k - frame_len] == ct.take(tail.len() as int)[k - frame_len]);
            }
        }
        assert(c.take(samples.len() as int) =~= samples);
        assert forall|k: int| samples.len() <= k < c.len() implies c[k] == silence by {
            assert(c[k] == ct[k - frame_len]);
        }
    }
}

/// Law: the chunked frames, concatenated and stripped of the appended padding
/// and tail silence, reproduce the original samples in order, unmodified;
/// everything past the original samples is silence.
pub proof fn lemma_coverage<T>(samples: Seq<T>, frame_len: nat, silence: T, extra: nat)
    requires
        frame_len >= 1,
    ensures
        concat_frames(chunked_frames(samples, frame_len, silence, extra)).len() >= samples.len(),
        concat_frames(chunked_frames(samples, frame_len, silence, extra)).take(
            samples.len() as int,
        ) == samples,
        forall|k: int|
            samples.len() <= k < concat_frames(
                chunked_frames(samples, frame_len, silence, extra),
            ).len() ==> concat_frames(chunked_frames(samples, frame_len, silence, extra))[k]
                == silence,
{
    let cover = cover_frames(samples, frame_len, silence);
    let tail = silence_frames(extra, frame_len, silence);
    lemma_concat_frames_add(cover, tail);
    lemma_cover_coverage(samples, frame_len, silence);
    lemma_concat_silence_frames(extra, frame_len, silence);
    let c = concat_frames(chunked_frames(samples, frame_len, silence, extra));
    assert(c == concat_frames(cover) + concat_frames(tail));
    assert(c.take(samples.len() as int) =~= concat_frames(cover).take(samples.len() as int));
    assert forall|k: int| samples.len() <= k < c.len() implies c[k] == silence by {
        if k >= concat_frames(cover).len() {
            assert(c[k] == concat_frames(tail)[k - concat_frames(cover).len()]);
        }
    }
}

/// The covering frames of pure silence are silence frames.
proof fn lemma_cover_silence<T>(count: nat, frame_len: nat, silence: T)
    requires
        frame_len >= 1,
    ensures
        cover_frames(silence_samples(count, silence), frame_len, silence) == silence_frames(
            cover_frames(silence_samples(count, silence), frame_len, silence).len(),
            frame_len,
            silence,
        ),
    decreases count,
{
    let s = silence_samples(count, silence);
    let c = cover_frames(s, frame_len, silence);
    if count == 0 {
        assert(c =~~= silence_frames(c.len(), frame_len, silence));
    } else if count <= frame_len {
        assert(padded_frame(s, frame_len, silence) =~= silence_frame(frame_len, silence));
        assert(c =~~= silence_frames(c.len(), frame_len, silence));
    } else {
        assert(s.take(frame_len as int) =~= silence_frame(frame_len, silence));
        assert(s.skip(frame_len as int) =~= silence_samples((count - frame_len) as nat, silence));
        lemma_cover_silence((count - frame_len) as nat, frame_len, silence);
        assert(c =~~= silence_frames(c.len(), frame_len, silence));
    }
}

/// Law: appending trailing silence to a waveform leaves every frame that
/// covers the original audio unchanged; the grown waveform only contributes
/// additional all-silence frames after them.
pub proof fn lemma_tail_growth<T>(samples: Seq<T>, added: nat, frame_len: nat, silence: T)
    requires
        frame_len >= 1,
    ensures
        cover_frames(samples, frame_len, silence).len() <= cover_frames(
            samples + silence_samples(added, silence),
            frame_len,
            silence,
        ).len(),
        cover_frames(samples + silence_samples(added, silence), frame_len, silence) == cover_frames(
            samples,
            frame_len,
            silence,
        ) + silence_frames(
            (cover_frames(samples + silence_samples(added, silence), frame_len, silence).len()
                - cover_frames(samples, frame_len, silence).len()) as nat,
            frame_len,
            silence,
        ),
    decreases samples.len(),
{
    let base = cover_frames(samples, frame_len, silence);
    let grown_samples = samples + silence_samples(added, silence);
    let grown = cover_frames(grown_samples, frame_len, silence);
    if samples.len() == 0 {
        assert(grown_samples =~= silence_samples(added, silence));
        lemma_cover_silence(added, frame_len, silence);
        assert(grown =~~= base + silence_frames((grown.len() - base.len()) as nat, frame_len,
            silence));
    } else if samples.len() + added <= frame_len {
        assert(padded_frame(grown_samples, frame_len, silence) =~= padded_frame(
            samples,
            frame_len,
            silence,
        ));
        assert(grown =~~= base + silence_frames((grown.len() - base.len()) as nat, frame_len,
            silence));
    } else if samples.len() <= frame_len {
        assert(grown_samples.take(frame_len as int) =~= padded_frame(samples, frame_len, silence));
        assert(grown_samples.skip(frame_len as int) =~= silence_samples(
            (samples.len() + added - frame_len) as nat,
            silence,
        ));
        lemma_cover_silence((samples.len() + added - frame_len) as nat, frame_len, silence);
        assert(grown =~~= base + silence_frames((grown.len() - base.len()) as nat, frame_len,
            silence));
    } else {
        assert(grown_samples.take(frame_len as int) =~= samples.take(frame_len as int));
        assert(grown_samples.skip(frame_len as int) =~= samples.skip(frame_len as int)
            + silence_samples(added, silence));
        lemma_tail_growth(samples.skip(frame_len as int), added, frame_len, silence);
        assert(grown =~~= base + silence_frames((grown.len() - base.len()) as nat, frame_len,
            silence));
    }
}

/// Split `samples` into frames of exactly `frame_len` samples, in time order,
/// padding the final partial frame with `silence` and appending `extra_frames`
/// all-silence frames at the end.
#[verifier::loop_isolation(false)]
pub fn chunk_frames<T: Copy>(
    samples: &Vec<T>,
    frame_len: usize,
    silence: T,
    extra_frames: usize,
) -> (frames: Vec<Vec<T>>)
    requires
        frame_len >= 1,
        samples.len() + frame_len <= usize::MAX,
    ensures
        frames_view(frames@) == chunked_frames(
            samples@,
            frame_len as nat,
            silence,
            extra_frames as nat,
        ),
{
    let n = samples.len();
    let mut frames: Vec<Vec<T>> = Vec::new();
    let mut pos: usize = 0;
    proof {
        assert(samples@.skip(0) =~= samples@);
        assert(frames_view(frames@) + cover_frames(samples@, frame_len as nat, silence)
            =~~= cover_frames(samples@, frame_len as nat, silence));
    }
    while pos < n
        invariant
            pos <= n,
            cover_frames(samples@, frame_len as nat, silence) == frames_view(frames@)
                + cover_frames(samples@.skip(pos as int), frame_len as nat, silence),
        decreases n - pos,
    {
        let mut frame: Vec<T> = Vec::new();
        let mut j: usize = 0;
        while j < frame_len
            invariant
                j <= frame_len,
                pos < n,
                frame@.len() == j,
                forall|jj: int|
                    0 <= jj < j ==> frame@[jj] == (if pos + jj < n {
                        samples@[pos + jj]
                    } else {
                        silence
                    }),
            decreases frame_len - j,
        {
            if pos + j < n {
                frame.push(samples[pos + j]);
            } else {
                frame.push(silence);
            }
            j += 1;
        }
        let ghost rem = samples@.skip(pos as int);
        let ghost old_frames = frames@;
        frames.push(frame);
        proof {
            assert(frames_view(frames@) =~~= frames_view(old_frames) + seq![frame@]);
        }
        if n - pos > frame_len {
            proof {
                assert(frame@ =~= rem.take(frame_len as int));
                assert(rem.skip(frame_len as int) =~= samples@.skip(pos + frame_len));
                assert(cover_frames(rem, frame_len as nat, silence) == seq![frame@]
                    + cover_frames(samples@.skip(pos + frame_len), frame_len as nat, silence));
                assert(frames_view(old_frames) + cover_frames(rem, frame_len as nat, silence)
                    =~~= frames_view(frames@) + cover_frames(
                    samples@.skip(pos + frame_len),
                    frame_len as nat,
                    silence,
                ));
            }
            pos = pos + frame_len;
        } else {
            proof {
                assert(frame@ =~= padded_frame(rem, frame_len as nat, silence));
                assert(cover_frames(rem, frame_len as nat, silence) == seq![frame@]);
                assert(samples@.skip(n as int) =~= Seq::<T>::empty());
                assert(frames_view(old_frames) + cover_frames(rem, frame_len as nat, silence)
                    =~~= frames_view(frames@) + cover_frames(
                    samples@.skip(n as int),
                    frame_len as nat,
                    silence,
                ));
            }
            pos = n;
        }
    }
    proof {
        assert(frames_view(frames@) + cover_frames(samples@.skip(n as int), frame_len as nat, silence)
            =~~= frames_view(frames@));
    }
    let mut i: usize = 0;
    while i < extra_frames
        invariant
            i <= extra_frames,
            frames_view(frames@) == cover_frames(samples@, frame_len as nat, silence)
                + silence_frames(i as nat, frame_len as nat, silence),
        decreases extra_frames - i,
    {
        let mut frame: Vec<T> = Vec::new();
        let mut j: usize = 0;
        while j < frame_len
            invariant
                j <= frame_len,
                frame@.len() == j,
                forall|jj: int| 0 <= jj < j ==> frame@[jj] == silence,
            decreases frame_len - j,
        {
            frame.push(silence);
            j += 1;
        }
        let ghost old_frames = frames@;
        frames.push(frame);
        proof {
            assert(frame@ =~= silence_frame(frame_len as nat, silence));
            assert(frames_view(frames@) =~~= frames_view(old_frames) + seq![frame@]);
            assert(cover_frames(samples@, frame_len as nat, silence) + silence_frames(
                (i + 1) as nat,
                frame_len as nat,
                silence,
            ) =~~= frames_view(frames@));
        }
        i += 1;
    }
    proof {
        assert(frames_view(frames@) =~~= chunked_frames(
            samples@,
            frame_len as nat,
            silence,
            extra_frames as nat,
        ));
    }
    frames
}

} // verus!
