use whisper_gtk::config::OutputMode;
use whisper_gtk::output::{
    paste_pressed, paste_text_from_clipboard, run_output_mode, type_text, KeyError, OutputStep,
    PASTE_KEYS,
};

fn reason(step: OutputStep) -> String {
    match step {
        OutputStep::Failed(reason) => reason,
        other => panic!("no failure: {:?}", other),
    }
}

#[test]
fn mode_decides_the_first_step() {
    assert!(matches!(run_output_mode(OutputMode::DirectTyping), OutputStep::TypeText));
    assert!(matches!(run_output_mode(OutputMode::ClipboardPaste), OutputStep::SetClipboards));
    assert_eq!(PASTE_KEYS, "ctrl+v");
}

#[test]
fn failed_typing_falls_back_to_the_clipboard() {
    assert!(matches!(type_text(Ok(())), OutputStep::Done));
    for error in [KeyError::Context("x".to_string()), KeyError::Send("y".to_string())] {
        assert!(matches!(type_text(Err(error)), OutputStep::SetClipboards));
    }
}

#[test]
fn clipboard_needs_a_display() {
    assert!(matches!(paste_text_from_clipboard(true), OutputStep::PressPaste));
    assert_eq!(
        reason(paste_text_from_clipboard(false)),
        "no GTK display available for clipboard"
    );
}

#[test]
fn failed_paste_is_told() {
    assert!(matches!(paste_pressed(Ok(())), OutputStep::Done));
    assert_eq!(
        reason(paste_pressed(Err(KeyError::Context("x".to_string())))),
        "failed to create libxdo context: x"
    );
    assert_eq!(
        reason(paste_pressed(Err(KeyError::Send("y".to_string())))),
        "libxdo keysequence failed: y"
    );
}
