use whisper_gtk::audio::{AudioStats, ONE};
use whisper_gtk::config::{AppConfig, OutputMode};
use whisper_gtk::recording::{
    build_position_command, build_recording_command, build_transcribe_command, raw_to_wav,
    recording_chunk_bytes, CapturedRecording, RecordingGeneration, RecordingStop,
};

fn config(audio_source: Option<&str>) -> AppConfig {
    AppConfig {
        hotkey: "<F8>".to_string(),
        audio_source: audio_source.map(|source| source.to_string()),
        output_mode: OutputMode::DirectTyping,
        max_recording_secs: 30,
        model_path: None,
        whisper_threads: 1,
    }
}

#[test]
fn recording_generation_ignores_stale_timeout() {
    let mut state = RecordingGeneration::default();
    let first = state.next();
    assert_eq!(state.current(), Some(first));
    assert!(state.stop_if_current(first));
    let second = state.next();
    assert_ne!(first, second);
    assert!(!state.stop_if_current(first));
    assert!(state.stop_if_current(second));
    assert_eq!(state.current(), None);
}

#[test]
fn generations_stay_at_the_largest_number() {
    let mut state = RecordingGeneration { current: None, next: u64::MAX };
    assert_eq!(state.next(), u64::MAX);
    assert!(!state.stop_if_current(1));
    assert_eq!(state.current(), Some(u64::MAX));
}

#[test]
fn recording_command_uses_configured_source() {
    let command = build_recording_command(&config(Some("alsa_input.usb")));
    assert_eq!(command.program, "parec");
    assert_eq!(
        command.args,
        vec![
            "--client-name=whisper-gtk",
            "--format=s16le",
            "--channels=1",
            "--rate=16000",
            "--latency-msec=30",
            "-d",
            "alsa_input.usb",
        ]
    );
}

#[test]
fn recording_command_leaves_out_an_unknown_source() {
    let command = build_recording_command(&config(None));
    assert_eq!(
        command.args,
        vec![
            "--client-name=whisper-gtk",
            "--format=s16le",
            "--channels=1",
            "--rate=16000",
            "--latency-msec=30",
        ]
    );
}

#[test]
fn transcribe_command_is_fixed() {
    let command = build_transcribe_command("/tmp/in.wav");
    assert_eq!(command.program, "whisper.cpp-base.en");
    assert_eq!(command.args, vec!["-np", "-nt", "-ac", "1500", "-mc", "50", "/tmp/in.wav"]);
}

#[test]
fn position_command_names_the_window_and_its_place() {
    let command = build_position_command("Whisper Recording", -500, 860);
    assert_eq!(command.program, "xdotool");
    assert_eq!(
        command.args,
        vec![
            "search",
            "--name",
            "Whisper Recording",
            "windowraise",
            "windowmove",
            "-500",
            "860"
        ]
    );
    let corner = build_position_command("x", i32::MIN, 0);
    assert_eq!(corner.args[5], "-2147483648");
    assert_eq!(corner.args[6], "0");
}

#[test]
fn raw_to_wav_creates_header() {
    let raw = vec![0u8; 320];
    let bytes = raw_to_wav(&raw);
    assert_eq!(&bytes[0..4], b"RIFF");
    assert_eq!(&bytes[8..12], b"WAVE");
}

#[test]
fn wav_header_is_exact() {
    let wav = raw_to_wav(&[1, 2, 3, 4]);
    let expected: Vec<u8> = [
        b"RIFF".as_slice(),
        &40u32.to_le_bytes(),
        b"WAVE",
        b"fmt ",
        &16u32.to_le_bytes(),
        &1u16.to_le_bytes(),
        &1u16.to_le_bytes(),
        &16_000u32.to_le_bytes(),
        &32_000u32.to_le_bytes(),
        &2u16.to_le_bytes(),
        &16u16.to_le_bytes(),
        b"data",
        &4u32.to_le_bytes(),
        &[1, 2, 3, 4],
    ]
    .concat();
    assert_eq!(wav, expected);
}

#[test]
fn chunk_holds_thirty_milliseconds() {
    assert_eq!(recording_chunk_bytes(), 960);
}

#[test]
fn captured_speech_is_kept() {
    let mut captured = CapturedRecording::new();
    let chunk: Vec<u8> = (0..480).flat_map(|_| 16384i16.to_le_bytes()).collect();
    for _ in 0..10 {
        let level = captured.ingest(&chunk);
        assert_eq!(level, (16384f32 / 32767f32).to_bits());
    }
    assert_eq!(captured.stats, AudioStats { bytes: 9600, speech_bytes: 9600 });
    let samples = match captured.finish() {
        RecordingStop::Captured(samples) => samples,
        RecordingStop::Discarded(_) => panic!("speech was discarded"),
    };
    assert_eq!(samples.len(), 4800);
    assert!(samples.iter().all(|sample| f32::from_bits(*sample) == 16384f32 / 32767f32));
}

#[test]
fn captured_silence_is_discarded() {
    let mut captured = CapturedRecording::new();
    for _ in 0..20 {
        assert_eq!(captured.ingest(&[0u8; 960]), 0);
    }
    assert!(matches!(
        captured.finish(),
        RecordingStop::Discarded(AudioStats { bytes: 19200, speech_bytes: 0 })
    ));
}

#[test]
fn level_stays_within_full_scale() {
    let mut captured = CapturedRecording::new();
    assert_eq!(captured.ingest(&i16::MIN.to_le_bytes()), ONE);
    assert!(f32::from_bits(captured.samples[0]) < -1.0);
}
