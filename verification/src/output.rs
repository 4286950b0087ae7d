//! Output of a text to the focused window: by typing it, or through the
//! clipboard, which also stands in where typing fails.

use vstd::prelude::*;

use crate::config::OutputMode;
use crate::text;

verus! {

/// The keys that paste.
pub const PASTE_KEYS: &'static str = "ctrl+v";

/// Why keys could not be sent.
#[derive(Debug)]
pub enum KeyError {
    /// There is no way to send keys at all.
    Context(String),
    /// The keys were not taken.
    Send(String),
}

/// What is to be done next to put a text out.
#[derive(Debug)]
pub enum OutputStep {
    /// Type the text.
    TypeText,
    /// Put the text on both clipboards.
    SetClipboards,
    /// Press the keys that paste.
    PressPaste,
    /// The text is out.
    Done,
    /// The text could not be put out, for this reason.
    Failed(String),
}

/// The first step of a way of output.
pub open spec fn first_step(mode: OutputMode) -> OutputStep {
    match mode {
        OutputMode::DirectTyping => OutputStep::TypeText,
        OutputMode::ClipboardPaste => OutputStep::SetClipboards,
    }
}

/// The step after the text was typed.
pub open spec fn after_typing(typed: Result<(), KeyError>) -> OutputStep {
    match typed {
        Ok(_) => OutputStep::Done,
        Err(_) => OutputStep::SetClipboards,
    }
}

/// What is told where there is no clipboard.
pub open spec fn no_clipboard() -> Seq<char> {
    "no GTK display available for clipboard"@
}

/// What is told where the keys that paste could not be sent.
pub open spec fn paste_failure(error: KeyError) -> Seq<char> {
    match error {
        KeyError::Context(error) => "failed to create libxdo context: "@ + error@,
        KeyError::Send(error) => "libxdo keysequence failed: "@ + error@,
    }
}

/// Starts to put a text out.
pub fn run_output_mode(mode: OutputMode) -> (step: OutputStep)
    ensures
        step == first_step(mode),
{
    match mode {
        OutputMode::DirectTyping => OutputStep::TypeText,
        OutputMode::ClipboardPaste => OutputStep::SetClipboards,
    }
}

/// Goes on after the text was typed: the clipboard stands in for typing that
/// failed.
pub fn type_text(typed: Result<(), KeyError>) -> (step: OutputStep)
    ensures
        step == after_typing(typed),
{
    match typed {
        Ok(_) => OutputStep::Done,
        Err(_) => OutputStep::SetClipboards,
    }
}

/// Goes on after the clipboards were set, which takes a display.
pub fn paste_text_from_clipboard(has_display: bool) -> (step: OutputStep)
    ensures
        has_display ==> step is PressPaste,
        !has_display ==> (step matches OutputStep::Failed(reason) && reason@ == no_clipboard()),
{
    if has_display {
        OutputStep::PressPaste
    } else {
        OutputStep::Failed("no GTK display available for clipboard".to_owned())
    }
}

/// Ends after the keys that paste were pressed.
pub fn paste_pressed(pressed: Result<(), KeyError>) -> (step: OutputStep)
    ensures
        match pressed {
            Ok(_) => step is Done,
            Err(error) => step matches OutputStep::Failed(reason) && reason@ == paste_failure(error),
        },
{
    match pressed {
        Ok(_) => OutputStep::Done,
        Err(KeyError::Context(error)) => OutputStep::Failed(
            text::joined_text("failed to create libxdo context: ", error.as_str()),
        ),
        Err(KeyError::Send(error)) => OutputStep::Failed(
            text::joined_text("libxdo keysequence failed: ", error.as_str()),
        ),
    }
}

/// Whether the text goes through the clipboard.
pub open spec fn uses_clipboard(mode: OutputMode, typed: Result<(), KeyError>) -> bool {
    match first_step(mode) {
        OutputStep::TypeText => after_typing(typed) is SetClipboards,
        step => step is SetClipboards,
    }
}

/// The text goes through the clipboard exactly where that is configured or typing
/// failed; and typing that works leaves nothing more to do.
pub proof fn clipboard_stands_in_for_typing(mode: OutputMode, typed: Result<(), KeyError>)
    ensures
        uses_clipboard(mode, typed) <==> mode == OutputMode::ClipboardPaste || typed is Err,
        mode == OutputMode::DirectTyping && typed is Ok ==> first_step(mode) is TypeText
            && after_typing(typed) is Done,
{
}

/// Output starts as it is configured, typing that failed goes on through the
/// clipboard, and a failure to paste tells its cause.
pub proof fn output_takes_its_steps(mode: OutputMode, typed: Result<(), KeyError>, error: String)
    ensures
        mode == OutputMode::DirectTyping <==> first_step(mode) is TypeText,
        mode == OutputMode::ClipboardPaste <==> first_step(mode) is SetClipboards,
        typed is Ok <==> after_typing(typed) is Done,
        typed is Err <==> after_typing(typed) is SetClipboards,
        no_clipboard() == "no GTK display available for clipboard"@,
        paste_failure(KeyError::Context(error)) == "failed to create libxdo context: "@ + error@,
        paste_failure(KeyError::Send(error)) == "libxdo keysequence failed: "@ + error@,
{
}

} // verus!
