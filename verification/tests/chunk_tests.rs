use stt_rs::chunk::chunk_frames;

#[test]
fn single_short_frame_padded_with_silence() {
    // 1000 samples, frame length 1920, no extra tail frames: exactly one
    // frame, its tail filled with silence.
    let samples: Vec<f32> = (0..1000).map(|i| (i as f32) / 1000.0).collect();
    let frames = chunk_frames(&samples, 1920, 0.0f32, 0);
    assert_eq!(frames.len(), 1);
    assert_eq!(frames[0].len(), 1920);
    for i in 0..1000 {
        assert_eq!(frames[0][i], samples[i]);
    }
    for i in 1000..1920 {
        assert_eq!(frames[0][i], 0.0f32);
    }
}

#[test]
fn concatenation_reproduces_samples() {
    // Coverage: concatenated frames, stripped of padding and tail silence,
    // give back the original samples in order.
    let samples: Vec<f32> = (0..5000).map(|i| ((i * 37) % 101) as f32 + 1.0).collect();
    let frames = chunk_frames(&samples, 1920, 0.0f32, 32);
    assert_eq!(frames.len(), 3 + 32);
    let mut flat: Vec<f32> = Vec::new();
    for f in &frames {
        assert_eq!(f.len(), 1920);
        flat.extend_from_slice(f);
    }
    assert_eq!(&flat[..5000], &samples[..]);
    assert!(flat[5000..].iter().all(|&x| x == 0.0f32));
}

#[test]
fn exact_multiple_needs_no_padding() {
    let samples: Vec<i32> = (0..3840).map(|i| i as i32).collect();
    let frames = chunk_frames(&samples, 1920, 0i32, 0);
    assert_eq!(frames.len(), 2);
    let mut flat: Vec<i32> = Vec::new();
    for f in &frames {
        flat.extend_from_slice(f);
    }
    assert_eq!(flat, samples);
}

#[test]
fn empty_waveform_yields_only_tail_silence() {
    let samples: Vec<f32> = Vec::new();
    let frames = chunk_frames(&samples, 1920, 0.0f32, 2);
    assert_eq!(frames.len(), 2);
    for f in &frames {
        assert_eq!(f.len(), 1920);
        assert!(f.iter().all(|&x| x == 0.0f32));
    }
}

#[test]
fn frame_length_one_covers_each_sample() {
    let samples: Vec<u8> = vec![7, 8, 9];
    let frames = chunk_frames(&samples, 1, 0u8, 1);
    assert_eq!(frames.len(), 4);
    assert_eq!(frames[0], vec![7]);
    assert_eq!(frames[1], vec![8]);
    assert_eq!(frames[2], vec![9]);
    assert_eq!(frames[3], vec![0]);
}

#[test]
fn appended_silence_never_changes_audio_frames() {
    // Idempotent tail growth: adding trailing silence to the waveform leaves
    // every frame covering the original audio unchanged and only appends
    // all-silence frames.
    let samples: Vec<f32> = (0..2500).map(|i| (i % 7) as f32 + 1.0).collect();
    let mut grown = samples.clone();
    grown.extend(vec![0.0f32; 4000]);
    let base = chunk_frames(&samples, 1920, 0.0f32, 0);
    let big = chunk_frames(&grown, 1920, 0.0f32, 0);
    assert!(big.len() >= base.len());
    for i in 0..base.len() {
        assert_eq!(base[i], big[i]);
    }
    for f in &big[base.len()..] {
        assert!(f.iter().all(|&x| x == 0.0f32));
    }
}
