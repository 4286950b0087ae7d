use whisper_gtk::audio::{
    append_recorded_s16le_chunk, clamp_level, duration_for_bytes, AudioStats, EXACT_BYTES, ONE,
    SPEECH_RMS_THRESHOLD,
};

fn pcm_samples(amplitude: f32, samples: usize) -> Vec<u8> {
    let sample = (amplitude.clamp(-1.0, 1.0) * i16::MAX as f32) as i16;
    let mut bytes = Vec::with_capacity(samples * 2);
    for _ in 0..samples {
        bytes.extend_from_slice(&sample.to_le_bytes());
    }
    bytes
}

fn bytes_of(samples: &[i16]) -> Vec<u8> {
    samples.iter().flat_map(|sample| sample.to_le_bytes()).collect()
}

fn loudness(samples: &[i16]) -> (f32, f32) {
    let mut peak = 0f32;
    let mut square_sum = 0f64;
    for sample in samples {
        let normalized = *sample as f32 / i16::MAX as f32;
        peak = peak.max(normalized.abs());
        square_sum += (normalized as f64).powi(2);
    }
    let rms = if samples.is_empty() {
        0.0
    } else {
        (square_sum / samples.len() as f64).sqrt() as f32
    };
    (peak, rms)
}

#[test]
fn audio_gate_discards_short_or_silent_recordings() {
    let mut carry = None;
    let mut short_loud = AudioStats::default();
    short_loud.ingest_bytes(&pcm_samples(0.5, 1600), &mut carry);
    assert!(!short_loud.should_transcribe());

    let mut silent = AudioStats::default();
    let mut carry = None;
    silent.ingest_bytes(&pcm_samples(0.0, 8000), &mut carry);
    assert!(!silent.should_transcribe());
}

#[test]
fn audio_gate_allows_sustained_speech() {
    let mut stats = AudioStats::default();
    let mut carry = None;
    stats.ingest_bytes(&pcm_samples(0.08, 4800), &mut carry);
    assert!(stats.should_transcribe());
    assert!(stats.speech_duration().as_millis() >= 200);
}

#[test]
fn threshold_is_sharp() {
    let kept = |bytes, speech_bytes| AudioStats { bytes, speech_bytes }.should_transcribe();
    assert!(kept(9600, 6400));
    assert!(!kept(9598, 6400));
    assert!(!kept(9600, 6398));
}

#[test]
fn every_sample_is_a_part_of_full_scale() {
    let mut worst = 0;
    for sample in i16::MIN..=i16::MAX {
        let mut samples = Vec::new();
        let metrics = append_recorded_s16le_chunk(
            &sample.to_le_bytes(),
            &mut samples,
            &mut AudioStats::default(),
            &mut None,
        );
        let expected = sample as f32 / i16::MAX as f32;
        if f32::from_bits(samples[0]) != expected
            || f32::from_bits(metrics.peak) != expected.abs()
            || f32::from_bits(metrics.rms) != loudness(&[sample]).1
        {
            worst = sample;
        }
    }
    assert_eq!(worst, 0);
}

#[test]
fn loudness_is_that_of_floating_point() {
    let mut state = 0x2545_f491u32;
    for length in [1usize, 2, 3, 7, 48, 480, 1000] {
        for scale in [1i32, 20, 400, 32768] {
            let samples: Vec<i16> = (0..length)
                .map(|_| {
                    state ^= state << 13;
                    state ^= state >> 17;
                    state ^= state << 5;
                    ((state as i32 >> 16) * scale / 32768) as i16
                })
                .collect();
            let mut stats = AudioStats::default();
            let metrics = stats.ingest_bytes(&bytes_of(&samples), &mut None);
            let (peak, rms) = loudness(&samples);
            assert_eq!(metrics.peak, peak.to_bits());
            assert_eq!(metrics.rms, rms.to_bits());
            assert_eq!(stats.bytes, 2 * length as u64);
            assert_eq!(stats.speech_bytes, if rms >= 0.015 { 2 * length as u64 } else { 0 });
        }
    }
}

#[test]
fn constants_are_those_of_floating_point() {
    assert_eq!(SPEECH_RMS_THRESHOLD, 0.015f32.to_bits());
    assert_eq!(ONE, 1.0f32.to_bits());
}

#[test]
fn chunks_join_across_odd_lengths() {
    let bytes = bytes_of(&[100, -200, 300, -400, 500]);
    let mut whole = Vec::new();
    append_recorded_s16le_chunk(&bytes, &mut whole, &mut AudioStats::default(), &mut None);
    for cut in 1..bytes.len() {
        let mut parts = Vec::new();
        let mut stats = AudioStats::default();
        let mut carry = None;
        append_recorded_s16le_chunk(&bytes[..cut], &mut parts, &mut stats, &mut carry);
        append_recorded_s16le_chunk(&bytes[cut..], &mut parts, &mut stats, &mut carry);
        assert_eq!(parts, whole);
        assert_eq!(stats.bytes, 10);
        assert_eq!(carry, None);
    }
}

#[test]
fn odd_byte_waits_for_its_pair() {
    let mut carry = None;
    let mut stats = AudioStats::default();
    let metrics = stats.ingest_bytes(&[0x34], &mut carry);
    assert_eq!((metrics.peak, metrics.rms), (0, 0));
    assert_eq!(carry, Some(0x34));
    stats.ingest_bytes(&[0x12], &mut carry);
    assert_eq!(carry, None);
    assert_eq!(stats.bytes, 2);
}

#[test]
fn empty_chunk_drops_the_odd_byte() {
    let mut carry = Some(7);
    let mut stats = AudioStats::default();
    stats.ingest_bytes(&[], &mut carry);
    assert_eq!(carry, None);
    assert_eq!(stats.bytes, 0);
}

#[test]
fn durations_are_those_of_floating_point() {
    for bytes in [
        0u64,
        1,
        2,
        3,
        9600,
        31_999,
        32_000,
        123_456_789,
        0x1f_ffff_ffff_ffff,
        0x20_0000_0000_0001,
        0x7fff_ffff_ffff_ffff,
        u64::MAX,
    ] {
        let expected = std::time::Duration::from_secs_f64(bytes as f64 / 32_000.0);
        let duration = duration_for_bytes(bytes);
        assert_eq!(duration.as_nanos(), expected.as_nanos());
        assert_eq!(duration.as_millis(), expected.as_millis());
    }
}

#[test]
fn levels_are_clamped_as_floating_point_is() {
    for level in [
        0.0f32,
        -0.0,
        0.25,
        1.0,
        1.000_030_5,
        3.5,
        -0.5,
        -7.0,
        f32::MIN_POSITIVE,
        -f32::MIN_POSITIVE,
        f32::MAX,
        f32::MIN,
        f32::INFINITY,
        f32::NEG_INFINITY,
    ] {
        assert_eq!(clamp_level(level.to_bits()), level.clamp(0.0, 1.0).to_bits());
    }
    assert_eq!(clamp_level(0x7fc0_0000), 0x7fc0_0000);
}

#[test]
fn recordings_only_grow() {
    let mut stats = AudioStats::default();
    let mut carry = None;
    let mut before = (0u128, 0u128, false);
    for round in 0..40 {
        let amplitude = if round % 3 == 0 { 0.0 } else { 0.2 };
        stats.ingest_bytes(&pcm_samples(amplitude, 480), &mut carry);
        let now = (
            stats.duration().as_nanos(),
            stats.speech_duration().as_nanos(),
            stats.should_transcribe(),
        );
        assert_eq!(now.0, before.0 + 480 * 62_500);
        assert_eq!(now.1, before.1 + if round % 3 == 0 { 0 } else { 480 * 62_500 });
        assert!(now.1 <= now.0);
        assert!(now.2 || !before.2);
        before = now;
    }
    assert!(before.2);
}

#[test]
fn peak_of_the_whole_is_the_larger_peak() {
    let first = bytes_of(&[5, -1000, 30]);
    let second = bytes_of(&[999, -7]);
    let peak = |bytes: &[u8]| AudioStats::default().ingest_bytes(bytes, &mut None).peak;
    let whole = [first.clone(), second.clone()].concat();
    assert_eq!(peak(&whole), peak(&first));
    assert_eq!(peak(&whole), (1000f32 / 32767f32).to_bits());
    assert!(peak(&second) < peak(&first));
}

#[test]
fn times_are_exact_up_to_the_limit() {
    for bytes in [EXACT_BYTES - 1, EXACT_BYTES - 2, EXACT_BYTES - 31_998, 0x10_0000_0002] {
        assert_eq!(duration_for_bytes(bytes).as_nanos(), bytes as u128 * 31_250);
    }
    assert_ne!(
        duration_for_bytes(EXACT_BYTES + 2).as_nanos(),
        (EXACT_BYTES + 2) as u128 * 31_250
    );
}
