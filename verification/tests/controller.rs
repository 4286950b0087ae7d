use whisper_gtk::controller::{
    transcription_events, AppController, AppEvent, Effect, OverlayTick,
};

fn finished(sequence: u64, text: Option<&str>) -> AppEvent {
    AppEvent::TranscriptionFinished { sequence, text: text.map(|text| text.to_string()) }
}

fn outputs(effects: Vec<Effect>) -> Vec<String> {
    effects
        .into_iter()
        .map(|effect| match effect {
            Effect::Output(text) => text,
            other => panic!("not an output: {:?}", other),
        })
        .collect()
}

fn recording() -> AppController {
    let mut controller = AppController::new();
    assert!(matches!(
        controller.handle_event(AppEvent::HotkeyPressed)[..],
        [Effect::StartSession]
    ));
    let effects = controller.recording_started(30);
    assert!(matches!(
        effects[..],
        [
            Effect::SetRecordingUi(true),
            Effect::PositionOverlay { delay_millis: 40 },
            Effect::StartOverlayTick { period_millis: 33 },
            Effect::StartMaxDurationTimer { secs: 30, generation: 1 },
        ]
    ));
    controller
}

#[test]
fn hotkey_starts_and_stops_a_recording() {
    let mut controller = recording();
    assert!(controller.handle_event(AppEvent::HotkeyPressed).is_empty());
    let effects = controller.handle_event(AppEvent::HotkeyReleased);
    assert!(matches!(
        effects[..],
        [
            Effect::CancelMaxDurationTimer,
            Effect::CancelOverlayTickTimer,
            Effect::SetRecordingUi(false),
            Effect::Transcribe { sequence: 1 },
        ]
    ));
    assert!(controller.handle_event(AppEvent::HotkeyReleased).is_empty());
    let _ = controller.recording_started(5);
    let effects = controller.handle_event(AppEvent::HotkeyReleased);
    assert!(matches!(effects[3], Effect::Transcribe { sequence: 2 }));
}

#[test]
fn stale_timeout_does_not_stop_a_recording() {
    let mut controller = recording();
    assert!(controller.max_duration_reached(7).is_empty());
    let _ = controller.stop_recording();
    assert!(controller.max_duration_reached(1).is_empty());
    let _ = controller.recording_started(5);
    assert!(controller.max_duration_reached(1).is_empty());
    assert!(controller.recording);
    assert_eq!(controller.max_duration_reached(2).len(), 4);
    assert!(!controller.recording);
}

#[test]
fn failed_start_hides_the_overlay() {
    let mut controller = AppController::new();
    assert!(matches!(controller.recording_failed()[..], [Effect::SetRecordingUi(false)]));
    assert!(!controller.recording);
}

#[test]
fn transcripts_wait_for_their_turn() {
    let mut controller = AppController::new();
    assert!(outputs(controller.handle_event(finished(3, Some("c")))).is_empty());
    assert!(outputs(controller.handle_event(finished(2, None))).is_empty());
    assert_eq!(outputs(controller.handle_event(finished(1, Some("a")))), vec!["a", "c"]);
    assert_eq!(outputs(controller.handle_event(finished(4, Some("d")))), vec!["d"]);
    assert!(controller.pending_transcripts.is_empty());
    assert_eq!(controller.next_transcription_to_output, 5);
}

#[test]
fn transcripts_come_out_the_same_in_any_order() {
    let arrivals = [[1u64, 2, 3], [1, 3, 2], [2, 1, 3], [2, 3, 1], [3, 1, 2], [3, 2, 1]];
    for order in arrivals {
        let mut controller = AppController::new();
        let mut out = Vec::new();
        for sequence in order {
            let text = format!("text {}", sequence);
            out.extend(outputs(controller.handle_event(finished(sequence, Some(&text)))));
        }
        assert_eq!(out, vec!["text 1", "text 2", "text 3"]);
    }
}

#[test]
fn last_number_is_put_out_once() {
    let mut controller = AppController::new();
    controller.next_transcription_to_output = u64::MAX;
    let text = Some("last".to_string());
    assert_eq!(controller.finish_transcription(u64::MAX, text), vec!["last"]);
    assert_eq!(controller.next_transcription_to_output, u64::MAX);
    assert!(controller.pending_transcripts.is_empty());
}

#[test]
fn errors_are_told() {
    let mut controller = AppController::new();
    let effects = controller.handle_event(AppEvent::Error("oops".to_string()));
    assert!(matches!(&effects[..], [Effect::Report(message)] if message == "oops"));
}

#[test]
fn settings_window_is_built_once() {
    let mut controller = AppController::new();
    assert!(matches!(
        controller.show_settings_window()[..],
        [Effect::BuildSettings, Effect::PresentSettings]
    ));
    assert!(matches!(controller.show_settings_window()[..], [Effect::PresentSettings]));
}

#[test]
fn quitting_forgets_the_recording() {
    let mut controller = recording();
    assert!(matches!(
        controller.quit()[..],
        [
            Effect::CancelMaxDurationTimer,
            Effect::CancelOverlayTickTimer,
            Effect::SetRecordingUi(false),
            Effect::DiscardSession,
            Effect::Quit,
        ]
    ));
    assert!(matches!(controller.quit()[..], [Effect::SetRecordingUi(false), Effect::Quit]));
}

#[test]
fn overlay_shows_the_newest_level() {
    let mut controller = recording();
    assert_eq!(
        controller.overlay_tick(&vec![1, 2, 3]),
        OverlayTick::Advance { level: Some(3) }
    );
    assert_eq!(controller.overlay_tick(&vec![]), OverlayTick::Advance { level: None });
    let _ = controller.stop_recording();
    assert_eq!(controller.overlay_tick(&vec![1]), OverlayTick::Stop);
}

#[test]
fn transcriptions_end_in_one_finish() {
    let events = transcription_events(4, Ok(Some("hello".to_string())));
    assert!(matches!(
        &events[..],
        [AppEvent::TranscriptionFinished { sequence: 4, text: Some(text) }] if text == "hello"
    ));
    for result in [Ok(Some(" \n".to_string())), Ok(None)] {
        let events = transcription_events(5, result);
        assert!(matches!(
            events[..],
            [AppEvent::TranscriptionFinished { sequence: 5, text: None }]
        ));
    }
    let events = transcription_events(6, Err("no model".to_string()));
    assert!(matches!(
        &events[..],
        [
            AppEvent::Error(message),
            AppEvent::TranscriptionFinished { sequence: 6, text: None },
        ] if message == "transcription failed: no model"
    ));
}
