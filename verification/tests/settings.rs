use whisper_gtk::config::{AppConfig, OutputMode};
use whisper_gtk::settings::{
    audio_source_selection_to_config, current_model, default_model_selection,
    dropdown_index_for_value, dropdown_select_value, duration_changed, mode_entries, mode_selected,
    output_mode_selection_to_config, threads_changed, KeyAction, ModelAction, ModelOutcome,
    PickerAction, SettingsDialog, ESCAPE_KEY, INVALID_LIST_POSITION,
};

const DEFAULT_MODEL: &str = "/usr/share/default.bin";

fn config() -> AppConfig {
    AppConfig {
        hotkey: "<F8>".to_string(),
        audio_source: None,
        output_mode: OutputMode::DirectTyping,
        max_recording_secs: 30,
        model_path: None,
        whisper_threads: 4,
    }
}

fn strings(texts: &[&str]) -> Vec<String> {
    texts.iter().map(|text| text.to_string()).collect()
}

fn dialog() -> SettingsDialog {
    SettingsDialog::new(&strings(&["mic", "line"]), &strings(&["/a.bin", "/b.bin"]))
}

#[test]
fn first_entry_with_the_text_is_selected() {
    let entries = strings(&["a", "b", "b"]);
    assert_eq!(dropdown_index_for_value(&entries, "b"), Some(1));
    assert_eq!(dropdown_index_for_value(&entries, "c"), None);
    let mut selected = 2;
    assert!(dropdown_select_value(&mut selected, &entries, "a"));
    assert_eq!(selected, 0);
    assert!(!dropdown_select_value(&mut selected, &entries, "c"));
    assert_eq!(selected, 0);
}

#[test]
fn entries_stand_for_settings() {
    assert_eq!(audio_source_selection_to_config("Default source"), None);
    assert_eq!(audio_source_selection_to_config("mic"), Some("mic".to_string()));
    assert_eq!(output_mode_selection_to_config("Direct typing"), Some(OutputMode::DirectTyping));
    assert_eq!(
        output_mode_selection_to_config("Clipboard paste"),
        Some(OutputMode::ClipboardPaste)
    );
    assert_eq!(output_mode_selection_to_config("direct typing"), None);
    assert_eq!(mode_entries(), vec!["Direct typing", "Clipboard paste"]);
}

#[test]
fn dialog_lists_what_there_is() {
    let dialog = dialog();
    assert_eq!(dialog.audio_sources, vec!["Default source", "mic", "line"]);
    assert_eq!(dialog.model_entries, vec!["/a.bin", "/b.bin", "Other..."]);
    assert!(!dialog.capturing);
    assert!(!dialog.guarded);
}

#[test]
fn dialog_shows_what_is_configured() {
    let paths = strings(&["/a.bin", "/b.bin"]);
    let view = dialog().view_of(&config(), None, &paths, "/b.bin");
    assert_eq!(view.hotkey, "<F8>");
    assert_eq!(view.audio, Some(0));
    assert_eq!(view.mode, Some(0));
    assert_eq!(view.duration, 30);
    assert_eq!(view.threads, 4);
    assert_eq!(view.model, Some(1));
    let other = AppConfig {
        audio_source: Some("gone".to_string()),
        output_mode: OutputMode::ClipboardPaste,
        whisper_threads: 0,
        model_path: Some("/gone.bin".to_string()),
        ..config()
    };
    let view = dialog().view_of(&other, Some("F8".to_string()), &paths, DEFAULT_MODEL);
    assert_eq!(view.hotkey, "F8");
    assert_eq!(view.audio, None);
    assert_eq!(view.mode, Some(1));
    assert_eq!(view.threads, 1);
    assert_eq!(view.model, Some(0));
}

#[test]
fn shown_model_is_the_best_that_is_listed() {
    let paths = strings(&["/a.bin", "/b.bin"]);
    let with = |path: &str| AppConfig { model_path: Some(path.to_string()), ..config() };
    assert_eq!(default_model_selection(&paths, &with("/b.bin"), "/a.bin"), "/b.bin");
    assert_eq!(default_model_selection(&paths, &with("/c.bin"), "/b.bin"), "/b.bin");
    assert_eq!(default_model_selection(&paths, &config(), DEFAULT_MODEL), "/a.bin");
    assert_eq!(default_model_selection(&vec![], &config(), DEFAULT_MODEL), "Other...");
    assert_eq!(current_model(&with("/b.bin"), DEFAULT_MODEL), "/b.bin");
    assert_eq!(current_model(&config(), DEFAULT_MODEL), DEFAULT_MODEL);
}

#[test]
fn keys_become_the_hotkey() {
    let mut dialog = dialog();
    let mut cfg = config();
    let name = || Some("<Control>F9".to_string());
    assert!(matches!(dialog.key_pressed(&mut cfg, 0xffc6, name(), None), KeyAction::Proceed));
    assert_eq!(cfg, config());
    assert_eq!(dialog.begin_capture(), "Press keys...");
    assert!(matches!(dialog.key_pressed(&mut cfg, 0xffe3, None, None), KeyAction::Proceed));
    assert!(dialog.capturing);
    match dialog.key_pressed(&mut cfg, 0xffc6, name(), None) {
        KeyAction::Captured(label) => assert_eq!(label, "<Control>F9"),
        other => panic!("not captured: {:?}", other),
    }
    assert_eq!(cfg.hotkey, "<Control>F9");
    assert!(!dialog.capturing);
}

#[test]
fn escape_ends_the_wait_and_then_the_dialog() {
    let mut dialog = dialog();
    let mut cfg = config();
    let name = || Some("Escape".to_string());
    dialog.begin_capture();
    let label = Some("F8".to_string());
    match dialog.key_pressed(&mut cfg, ESCAPE_KEY, name(), label) {
        KeyAction::Restore(label) => assert_eq!(label, Some("F8".to_string())),
        other => panic!("not restored: {:?}", other),
    }
    assert!(!dialog.capturing);
    assert!(matches!(
        dialog.key_pressed(&mut cfg, ESCAPE_KEY, name(), None),
        KeyAction::Close
    ));
    assert_eq!(cfg, config());
}

#[test]
fn selected_source_is_taken_once() {
    let dialog = dialog();
    let mut cfg = config();
    assert!(dialog.audio_selected(&mut cfg, 1));
    assert_eq!(cfg.audio_source, Some("mic".to_string()));
    assert!(!dialog.audio_selected(&mut cfg, 1));
    assert!(!dialog.audio_selected(&mut cfg, INVALID_LIST_POSITION));
    assert!(!dialog.audio_selected(&mut cfg, 3));
    assert_eq!(cfg.audio_source, Some("mic".to_string()));
    assert!(dialog.audio_selected(&mut cfg, 0));
    assert_eq!(cfg, config());
}

#[test]
fn source_with_the_name_of_the_default_is_lost() {
    let dialog = dialog();
    let mut cfg = AppConfig { audio_source: Some("Default source".to_string()), ..config() };
    assert!(dialog.audio_selected(&mut cfg, 0));
    assert_eq!(cfg.audio_source, None);
}

#[test]
fn selected_mode_is_taken_once() {
    let mut cfg = config();
    assert!(!mode_selected(&mut cfg, 0));
    assert!(mode_selected(&mut cfg, 1));
    assert_eq!(cfg.output_mode, OutputMode::ClipboardPaste);
    assert!(!mode_selected(&mut cfg, 1));
    assert!(!mode_selected(&mut cfg, 2));
    assert!(!mode_selected(&mut cfg, INVALID_LIST_POSITION));
    assert_eq!(cfg.output_mode, OutputMode::ClipboardPaste);
}

#[test]
fn numbers_stay_in_bounds() {
    let mut cfg = config();
    for (given, taken) in [(i64::MIN, 5), (4, 5), (5, 5), (77, 77), (180, 180), (181, 180)] {
        duration_changed(&mut cfg, given);
        assert_eq!(cfg.max_recording_secs, taken);
    }
    for (given, taken) in [(-1, 1), (0, 1), (1, 1), (128, 128), (i64::MAX, u32::MAX)] {
        threads_changed(&mut cfg, given);
        assert_eq!(cfg.whisper_threads, taken);
    }
}

#[test]
fn selected_model_is_tried() {
    let mut dialog = dialog();
    let cfg = AppConfig { model_path: Some("/a.bin".to_string()), ..config() };
    assert!(matches!(dialog.model_selected(&cfg, 0, DEFAULT_MODEL), ModelAction::Ignore));
    match dialog.model_selected(&cfg, 1, DEFAULT_MODEL) {
        ModelAction::Validate { path, previous } => {
            assert_eq!((path.as_str(), previous.as_str()), ("/b.bin", "/a.bin"));
        }
        other => panic!("not tried: {:?}", other),
    }
    assert!(matches!(dialog.model_selected(&cfg, 2, DEFAULT_MODEL), ModelAction::OpenPicker));
    assert!(matches!(dialog.model_selected(&cfg, 3, DEFAULT_MODEL), ModelAction::Ignore));
    dialog.guard();
    assert!(matches!(dialog.model_selected(&cfg, 1, DEFAULT_MODEL), ModelAction::Ignore));
    dialog.release();
    assert!(!dialog.guarded);
    assert!(matches!(dialog.model_selected(&cfg, 2, DEFAULT_MODEL), ModelAction::OpenPicker));
}

#[test]
fn chosen_file_is_tried() {
    let dialog = dialog();
    let cfg = AppConfig { model_path: Some("/b.bin".to_string()), ..config() };
    let (previous, select) = dialog.open_model_picker(&cfg, DEFAULT_MODEL);
    assert_eq!(previous, "/b.bin");
    assert_eq!(select, Some(1));
    match dialog.picker_answered(true, Some("/c.bin".to_string()), previous.clone()) {
        PickerAction::Validate { path, previous } => {
            assert_eq!((path.as_str(), previous.as_str()), ("/c.bin", "/b.bin"));
        }
        other => panic!("not tried: {:?}", other),
    }
    assert!(matches!(
        dialog.picker_answered(true, None, previous.clone()),
        PickerAction::Restore(Some(1))
    ));
    assert!(matches!(
        dialog.picker_answered(false, Some("/c.bin".to_string()), "/gone.bin".to_string()),
        PickerAction::Restore(None)
    ));
}

#[test]
fn good_model_is_configured_and_listed() {
    let mut dialog = dialog();
    let mut cfg = config();
    let outcome = dialog.validate_model_selection(&mut cfg, Ok(()), "/c.bin", true, "/a.bin");
    assert!(matches!(outcome, ModelOutcome::Accepted { select: Some(3) }));
    assert_eq!(dialog.model_entries, vec!["/a.bin", "/b.bin", "Other...", "/c.bin"]);
    assert_eq!(cfg.model_path, Some("/c.bin".to_string()));
    let outcome = dialog.validate_model_selection(&mut cfg, Ok(()), "/c.bin", true, "/a.bin");
    assert!(matches!(outcome, ModelOutcome::Accepted { select: Some(3) }));
    assert_eq!(dialog.model_entries.len(), 4);
    let outcome = dialog.validate_model_selection(&mut cfg, Ok(()), "/d.bin", false, "/a.bin");
    assert!(matches!(outcome, ModelOutcome::Accepted { select: None }));
    assert_eq!(dialog.model_entries.len(), 4);
}

#[test]
fn bad_model_changes_nothing() {
    let mut dialog = dialog();
    let mut cfg = config();
    let result = Err("no such file".to_string());
    match dialog.validate_model_selection(&mut cfg, result, "/c.bin", true, "/b.bin") {
        ModelOutcome::Rejected { message, select } => {
            assert_eq!(message, "/c.bin\n\nno such file");
            assert_eq!(select, Some(1));
        }
        other => panic!("not rejected: {:?}", other),
    }
    assert_eq!(cfg, config());
    assert_eq!(dialog.model_entries.len(), 3);
}
