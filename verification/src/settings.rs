//! The settings dialog: what its lists hold, what they show first, and what
//! follows when something in it is changed.

use vstd::prelude::*;

use crate::config::{
    in_bounds, text_of, AppConfig, OutputMode, Settings, MAX_MAX_RECORDING_SECS,
    MIN_MAX_RECORDING_SECS,
};
use crate::text;
use crate::text::{push_text, texts_of};

verus! {

/// The entry of the list of sound sources that stands for no source in
/// particular.
pub const DEFAULT_SOURCE_ENTRY: &'static str = "Default source";

/// The entry of the list of models that stands for a file to be chosen.
pub const OTHER_MODEL_ENTRY: &'static str = "Other...";

/// What the hotkey's button says while a hotkey is awaited.
pub const CAPTURE_LABEL: &'static str = "Press keys...";

/// The position of no entry at all.
pub const INVALID_LIST_POSITION: u32 = 0xffff_ffff;

/// The key that ends the wait for a hotkey, and closes the dialog otherwise.
pub const ESCAPE_KEY: u32 = 0xff1b;

/// Whether `index` is the position of the first entry that says `value`, or none
/// where no entry does.
pub open spec fn is_first(entries: Seq<Seq<char>>, value: Seq<char>, index: Option<u32>) -> bool {
    match index {
        Some(i) => i < entries.len() && entries[i as int] == value && forall|j: int|
            0 <= j < i ==> #[trigger] entries[j] != value,
        None => forall|j: int| 0 <= j < entries.len() ==> #[trigger] entries[j] != value,
    }
}

/// The position of the first entry that says `value`.
pub fn dropdown_index_for_value(entries: &Vec<String>, value: &str) -> (index: Option<u32>)
    requires
        entries@.len() <= INVALID_LIST_POSITION,
    ensures
        is_first(texts_of(entries@), value@, index),
{
    for i in 0..entries.len()
        invariant
            entries@.len() <= INVALID_LIST_POSITION,
            forall|j: int| 0 <= j < i ==> #[trigger] texts_of(entries@)[j] != value@,
    {
        if text::same_text(entries[i].as_str(), value) {
            assert(texts_of(entries@)[i as int] == value@);
            return Some(i as u32);
        }
        assert(texts_of(entries@)[i as int] != value@);
    }
    None
}

/// Selects the first entry that says `value`, where there is one, and tells
/// whether there was.
pub fn dropdown_select_value(selected: &mut u32, entries: &Vec<String>, value: &str) -> (found: bool)
    requires
        entries@.len() <= INVALID_LIST_POSITION,
    ensures
        found ==> is_first(texts_of(entries@), value@, Some(*final(selected))),
        !found ==> is_first(texts_of(entries@), value@, None) && *final(selected) == *old(selected),
{
    match dropdown_index_for_value(entries, value) {
        Some(index) => {
            *selected = index;
            true
        },
        None => false,
    }
}

/// The sound source that an entry of the list stands for.
pub open spec fn source_of_entry(entry: Seq<char>) -> Option<Seq<char>> {
    if entry == DEFAULT_SOURCE_ENTRY@ {
        None
    } else {
        Some(entry)
    }
}

/// The sound source that an entry of the list stands for.
pub fn audio_source_selection_to_config(selection: &str) -> (source: Option<String>)
    ensures
        text_of(source) == source_of_entry(selection@),
{
    if text::same_text(selection, DEFAULT_SOURCE_ENTRY) {
        None
    } else {
        Some(selection.to_owned())
    }
}

/// The entry of the list that stands for a sound source.
pub open spec fn entry_of_source(source: Option<Seq<char>>) -> Seq<char> {
    match source {
        Some(source) => source,
        None => DEFAULT_SOURCE_ENTRY@,
    }
}

/// The way of output that an entry of the list stands for.
pub open spec fn mode_of_entry(entry: Seq<char>) -> Option<OutputMode> {
    if entry == "Direct typing"@ {
        Some(OutputMode::DirectTyping)
    } else if entry == "Clipboard paste"@ {
        Some(OutputMode::ClipboardPaste)
    } else {
        None
    }
}

/// The way of output that an entry of the list stands for.
pub fn output_mode_selection_to_config(selection: &str) -> (mode: Option<OutputMode>)
    ensures
        mode == mode_of_entry(selection@),
{
    if text::same_text(selection, "Direct typing") {
        Some(OutputMode::DirectTyping)
    } else if text::same_text(selection, "Clipboard paste") {
        Some(OutputMode::ClipboardPaste)
    } else {
        None
    }
}

/// The entry of the list that stands for a way of output.
pub open spec fn entry_of_mode(mode: OutputMode) -> Seq<char> {
    match mode {
        OutputMode::DirectTyping => "Direct typing"@,
        OutputMode::ClipboardPaste => "Clipboard paste"@,
    }
}

fn mode_entry(mode: OutputMode) -> (entry: &'static str)
    ensures
        entry@ == entry_of_mode(mode),
{
    match mode {
        OutputMode::DirectTyping => "Direct typing",
        OutputMode::ClipboardPaste => "Clipboard paste",
    }
}

/// The entries of the list of ways of output.
pub fn mode_entries() -> (entries: Vec<String>)
    ensures
        texts_of(entries@) == seq![
            entry_of_mode(OutputMode::DirectTyping),
            entry_of_mode(OutputMode::ClipboardPaste),
        ],
{
    let mut entries: Vec<String> = Vec::new();
    push_text(&mut entries, mode_entry(OutputMode::DirectTyping));
    push_text(&mut entries, mode_entry(OutputMode::ClipboardPaste));
    assert(texts_of(entries@) =~= seq![
        entry_of_mode(OutputMode::DirectTyping),
        entry_of_mode(OutputMode::ClipboardPaste),
    ]);
    entries
}

/// The entries of the list of sound sources: the default, then each source.
pub fn audio_entries(sources: &Vec<String>) -> (entries: Vec<String>)
    ensures
        texts_of(entries@) == seq![DEFAULT_SOURCE_ENTRY@] + texts_of(sources@),
{
    let mut entries: Vec<String> = Vec::new();
    push_text(&mut entries, DEFAULT_SOURCE_ENTRY);
    for i in 0..sources.len()
        invariant
            texts_of(entries@) == seq![DEFAULT_SOURCE_ENTRY@] + texts_of(sources@).take(i as int),
    {
        push_text(&mut entries, sources[i].as_str());
        assert(texts_of(sources@)[i as int] == sources@[i as int]@);
        assert(texts_of(sources@).take(i + 1) == texts_of(sources@).take(i as int).push(
            texts_of(sources@)[i as int],
        ));
    }
    assert(texts_of(sources@).take(sources@.len() as int) == texts_of(sources@));
    entries
}

/// The entries of the list of models: each model, then the one for a file to be
/// chosen.
pub fn model_entries(paths: &Vec<String>) -> (entries: Vec<String>)
    ensures
        texts_of(entries@) == texts_of(paths@).push(OTHER_MODEL_ENTRY@),
{
    let mut entries: Vec<String> = Vec::new();
    for i in 0..paths.len()
        invariant
            texts_of(entries@) == texts_of(paths@).take(i as int),
    {
        push_text(&mut entries, paths[i].as_str());
        assert(texts_of(paths@)[i as int] == paths@[i as int]@);
        assert(texts_of(paths@).take(i + 1) == texts_of(paths@).take(i as int).push(
            texts_of(paths@)[i as int],
        ));
    }
    assert(texts_of(paths@).take(paths@.len() as int) == texts_of(paths@));
    push_text(&mut entries, OTHER_MODEL_ENTRY);
    entries
}

fn mentions(paths: &Vec<String>, path: &str) -> (answer: bool)
    ensures
        answer == texts_of(paths@).contains(path@),
{
    for i in 0..paths.len()
        invariant
            forall|j: int| 0 <= j < i ==> #[trigger] texts_of(paths@)[j] != path@,
    {
        if text::same_text(paths[i].as_str(), path) {
            assert(texts_of(paths@)[i as int] == path@);
            return true;
        }
        assert(texts_of(paths@)[i as int] != path@);
    }
    false
}

/// The entry of the list of models that is shown first: the configured model
/// where it is listed, else the default one where that is, else the first, else
/// the one for a file to be chosen.
pub open spec fn shown_model(
    paths: Seq<Seq<char>>,
    configured: Option<Seq<char>>,
    default: Seq<char>,
) -> Seq<char> {
    if configured is Some && paths.contains(configured->0) {
        configured->0
    } else if paths.contains(default) {
        default
    } else if paths.len() > 0 {
        paths[0]
    } else {
        OTHER_MODEL_ENTRY@
    }
}

/// The entry of the list of models that is shown first.
pub fn default_model_selection(
    model_paths: &Vec<String>,
    config: &AppConfig,
    default: &str,
) -> (entry: String)
    ensures
        entry@ == shown_model(texts_of(model_paths@), config@.model_path, default@),
{
    if let Some(path) = &config.model_path {
        if mentions(model_paths, path.as_str()) {
            return path.clone();
        }
    }
    if mentions(model_paths, default) {
        return default.to_owned();
    }
    if model_paths.len() > 0 {
        model_paths[0].clone()
    } else {
        OTHER_MODEL_ENTRY.to_owned()
    }
}

/// The model that is in use: the configured one, else the default one.
pub open spec fn model_in_use(configured: Option<Seq<char>>, default: Seq<char>) -> Seq<char> {
    match configured {
        Some(path) => path,
        None => default,
    }
}

/// The model that is in use.
pub fn current_model(config: &AppConfig, default: &str) -> (path: String)
    ensures
        path@ == model_in_use(config@.model_path, default@),
{
    match &config.model_path {
        Some(path) => path.clone(),
        None => default.to_owned(),
    }
}

/// What the dialog shows when it opens. A position is absent where the list does
/// not hold what is configured.
#[derive(Debug)]
pub struct SettingsView {
    pub hotkey: String,
    pub audio: Option<u32>,
    pub mode: Option<u32>,
    pub duration: u32,
    pub threads: u32,
    pub model: Option<u32>,
}

/// The lists of the dialog, and what it waits for.
#[derive(Debug)]
pub struct SettingsDialog {
    pub audio_sources: Vec<String>,
    pub model_entries: Vec<String>,
    /// Whether the next keys are taken as the new hotkey.
    pub capturing: bool,
    /// Whether a model is being selected by the dialog itself.
    pub guarded: bool,
}

/// What follows when a key is pressed in the dialog.
#[derive(Debug)]
pub enum KeyAction {
    /// The key is nothing to the dialog.
    Proceed,
    /// The dialog closes.
    Close,
    /// The hotkey's button shows this again, or stays as it is.
    Restore(Option<String>),
    /// There is a new hotkey: it is saved and shown.
    Captured(String),
}

/// What follows when a model is selected.
#[derive(Debug)]
pub enum ModelAction {
    Ignore,
    /// A file is to be chosen.
    OpenPicker,
    /// The model is to be tried; if it fails, the previous one is selected again.
    Validate { path: String, previous: String },
}

/// What follows when the choice of a file ends.
#[derive(Debug)]
pub enum PickerAction {
    /// The file is to be tried as a model.
    Validate { path: String, previous: String },
    /// The previous model is selected again, where the list holds it.
    Restore(Option<u32>),
}

/// What came of trying a model: which entry is selected, if any, and what is
/// told of a failure.
#[derive(Debug)]
pub enum ModelOutcome {
    Accepted { select: Option<u32> },
    Rejected { message: String, select: Option<u32> },
}

/// What is told of a model that failed.
pub open spec fn failure_message(path: Seq<char>, error: Seq<char>) -> Seq<char> {
    path + "\n\n"@ + error
}

/// The settings after an entry of the list of sound sources was selected.
pub open spec fn after_audio(settings: Settings, entries: Seq<Seq<char>>, selected: u32) -> Settings {
    if selected == INVALID_LIST_POSITION || selected >= entries.len() {
        settings
    } else {
        Settings { audio_source: source_of_entry(entries[selected as int]), ..settings }
    }
}

/// The settings after an entry of the list of ways of output was selected.
pub open spec fn after_mode(settings: Settings, selected: u32) -> Settings {
    if selected == 0 {
        Settings { output_mode: OutputMode::DirectTyping, ..settings }
    } else if selected == 1 {
        Settings { output_mode: OutputMode::ClipboardPaste, ..settings }
    } else {
        settings
    }
}

/// A number brought between two others.
pub open spec fn within(value: int, low: int, high: int) -> int {
    if value < low {
        low
    } else if value > high {
        high
    } else {
        value
    }
}

fn same_source(a: &Option<String>, b: &Option<String>) -> (answer: bool)
    ensures
        answer == (text_of(*a) == text_of(*b)),
{
    match (a, b) {
        (Some(a), Some(b)) => text::same_text(a.as_str(), b.as_str()),
        (None, None) => true,
        _ => false,
    }
}

/// Takes the limit of a recording's length, rounded to whole seconds.
pub fn duration_changed(config: &mut AppConfig, secs: i64)
    ensures
        final(config)@ == (Settings {
            max_recording_secs: within(
                secs as int,
                MIN_MAX_RECORDING_SECS as int,
                MAX_MAX_RECORDING_SECS as int,
            ) as u32,
            ..old(config)@
        }),
{
    let value: u32 = if secs < MIN_MAX_RECORDING_SECS as i64 {
        MIN_MAX_RECORDING_SECS
    } else if secs > MAX_MAX_RECORDING_SECS as i64 {
        MAX_MAX_RECORDING_SECS
    } else {
        secs as u32
    };
    config.max_recording_secs = value;
}

/// Takes the number of threads, rounded to a whole number.
pub fn threads_changed(config: &mut AppConfig, threads: i64)
    ensures
        final(config)@ == (Settings {
            whisper_threads: within(threads as int, 1, u32::MAX as int) as u32,
            ..old(config)@
        }),
{
    let value: u32 = if threads < 1 {
        1
    } else if threads > u32::MAX as i64 {
        u32::MAX
    } else {
        threads as u32
    };
    config.whisper_threads = value;
}

/// Takes the selected way of output, and tells whether it is another one.
pub fn mode_selected(config: &mut AppConfig, selected: u32) -> (changed: bool)
    ensures
        final(config)@ == after_mode(old(config)@, selected),
        changed == (final(config)@ != old(config)@),
{
    let entries = mode_entries();
    assert(texts_of(entries@).len() == entries@.len());
    if selected == INVALID_LIST_POSITION || selected as usize >= entries.len() {
        return false;
    }
    proof {
        entries_are_distinct();
        assert(texts_of(entries@)[selected as int] == entries@[selected as int]@);
    }
    let mode = match output_mode_selection_to_config(entries[selected as usize].as_str()) {
        Some(mode) => mode,
        None => {
            return false;
        },
    };
    if config.output_mode == mode {
        return false;
    }
    config.output_mode = mode;
    true
}

proof fn entries_are_distinct()
    ensures
        "Direct typing"@ != "Clipboard paste"@,
{
    reveal_strlit("Direct typing");
    reveal_strlit("Clipboard paste");
    assert("Direct typing"@.len() == 13);
    assert("Clipboard paste"@.len() == 15);
}

impl SettingsDialog {
    /// Whether the lists start and end as they should and can be numbered.
    pub open spec fn wf(self) -> bool {
        &&& 0 < self.audio_sources@.len() < INVALID_LIST_POSITION
        &&& texts_of(self.audio_sources@)[0] == DEFAULT_SOURCE_ENTRY@
        &&& 0 < self.model_entries@.len() < INVALID_LIST_POSITION
        &&& texts_of(self.model_entries@).contains(OTHER_MODEL_ENTRY@)
    }

    /// A dialog that was just opened.
    pub fn new(sources: &Vec<String>, model_paths: &Vec<String>) -> (dialog: Self)
        requires
            sources@.len() + 1 < INVALID_LIST_POSITION,
            model_paths@.len() + 1 < INVALID_LIST_POSITION,
        ensures
            dialog.wf(),
            texts_of(dialog.audio_sources@) == seq![DEFAULT_SOURCE_ENTRY@] + texts_of(sources@),
            texts_of(dialog.model_entries@) == texts_of(model_paths@).push(OTHER_MODEL_ENTRY@),
            !dialog.capturing,
            !dialog.guarded,
    {
        let audio_sources = audio_entries(sources);
        let model_entries = model_entries(model_paths);
        proof {
            assert(texts_of(audio_sources@).len() == audio_sources@.len());
            assert(texts_of(model_entries@).len() == model_entries@.len());
            assert(texts_of(model_entries@)[model_paths@.len() as int] == OTHER_MODEL_ENTRY@);
        }
        SettingsDialog { audio_sources, model_entries, capturing: false, guarded: false }
    }

    /// What the dialog shows when it opens. The label of the configured hotkey is
    /// there only where the hotkey can be read.
    pub fn view_of(
        &self,
        config: &AppConfig,
        hotkey_label: Option<String>,
        model_paths: &Vec<String>,
        default_model: &str,
    ) -> (view: SettingsView)
        requires
            self.wf(),
        ensures
            view.hotkey@ == (match hotkey_label {
                Some(label) => label@,
                None => config@.hotkey,
            }),
            is_first(
                texts_of(self.audio_sources@),
                entry_of_source(config@.audio_source),
                view.audio,
            ),
            view.mode == Some(
                match config@.output_mode {
                    OutputMode::DirectTyping => 0u32,
                    OutputMode::ClipboardPaste => 1u32,
                },
            ),
            view.duration == config@.max_recording_secs,
            view.threads == within(config@.whisper_threads as int, 1, u32::MAX as int),
            is_first(
                texts_of(self.model_entries@),
                shown_model(texts_of(model_paths@), config@.model_path, default_model@),
                view.model,
            ),
    {
        let hotkey = match hotkey_label {
            Some(label) => label,
            None => config.hotkey.clone(),
        };
        let audio = match &config.audio_source {
            Some(source) => dropdown_index_for_value(&self.audio_sources, source.as_str()),
            None => dropdown_index_for_value(&self.audio_sources, DEFAULT_SOURCE_ENTRY),
        };
        let modes = mode_entries();
        proof {
            entries_are_distinct();
            assert(texts_of(modes@).len() == modes@.len());
            assert(texts_of(modes@)[0] == "Direct typing"@);
            assert(texts_of(modes@)[1] == "Clipboard paste"@);
        }
        let mode = dropdown_index_for_value(&modes, mode_entry(config.output_mode));
        let shown = default_model_selection(model_paths, config, default_model);
        SettingsView {
            hotkey,
            audio,
            mode,
            duration: config.max_recording_secs,
            threads: if config.whisper_threads < 1 {
                1
            } else {
                config.whisper_threads
            },
            model: dropdown_index_for_value(&self.model_entries, shown.as_str()),
        }
    }

    /// Starts to wait for a hotkey, and gives what the button says meanwhile.
    pub fn begin_capture(&mut self) -> (label: &'static str)
        ensures
            *final(self) == (SettingsDialog { capturing: true, ..*old(self) }),
            label@ == CAPTURE_LABEL@,
    {
        self.capturing = true;
        CAPTURE_LABEL
    }

    /// Starts to select a model on behalf of the dialog itself.
    pub fn guard(&mut self)
        ensures
            *final(self) == (SettingsDialog { guarded: true, ..*old(self) }),
    {
        self.guarded = true;
    }

    /// Leaves the selection of a model to the user again.
    pub fn release(&mut self)
        ensures
            *final(self) == (SettingsDialog { guarded: false, ..*old(self) }),
    {
        self.guarded = false;
    }

    /// Takes a key that was pressed. The accelerator is there where the key,
    /// with its modifiers, can be one; the label is that of the configured
    /// hotkey, where it can be read.
    pub fn key_pressed(
        &mut self,
        config: &mut AppConfig,
        key: u32,
        accelerator: Option<String>,
        hotkey_label: Option<String>,
    ) -> (action: KeyAction)
        ensures
            match action {
                KeyAction::Proceed => key != ESCAPE_KEY && !(old(self).capturing
                    && accelerator is Some) && *final(self) == *old(self) && *final(config)
                    == *old(config),
                KeyAction::Close => key == ESCAPE_KEY && !old(self).capturing && *final(self)
                    == *old(self) && *final(config) == *old(config),
                KeyAction::Restore(label) => key == ESCAPE_KEY && old(self).capturing && label
                    == hotkey_label && *final(self) == (SettingsDialog {
                    capturing: false,
                    ..*old(self)
                }) && *final(config) == *old(config),
                KeyAction::Captured(label) => key != ESCAPE_KEY && old(self).capturing
                    && accelerator is Some && label@ == accelerator->0@ && *final(self) == (
                SettingsDialog { capturing: false, ..*old(self) }) && final(config)@ == (Settings {
                    hotkey: accelerator->0@,
                    ..old(config)@
                }),
            },
    {
        if key == ESCAPE_KEY {
            if self.capturing {
                self.capturing = false;
                return KeyAction::Restore(hotkey_label);
            }
            return KeyAction::Close;
        }
        if !self.capturing {
            return KeyAction::Proceed;
        }
        match accelerator {
            Some(name) => {
                config.hotkey = name.clone();
                self.capturing = false;
                KeyAction::Captured(name)
            },
            None => KeyAction::Proceed,
        }
    }

    /// Takes the selected sound source, and tells whether it is another one.
    pub fn audio_selected(&self, config: &mut AppConfig, selected: u32) -> (changed: bool)
        ensures
            final(config)@ == after_audio(old(config)@, texts_of(self.audio_sources@), selected),
            changed == (final(config)@ != old(config)@),
    {
        assert(texts_of(self.audio_sources@).len() == self.audio_sources@.len());
        if selected == INVALID_LIST_POSITION || selected as usize >= self.audio_sources.len() {
            return false;
        }
        assert(texts_of(self.audio_sources@)[selected as int] == self.audio_sources@[selected as int]@);
        let source = audio_source_selection_to_config(self.audio_sources[selected as usize].as_str());
        if same_source(&config.audio_source, &source) {
            return false;
        }
        config.audio_source = source;
        true
    }

    /// Decides on a model that was selected.
    pub fn model_selected(&self, config: &AppConfig, selected: u32, default_model: &str) -> (action:
        ModelAction)
        ensures
            match action {
                ModelAction::Ignore => self.guarded || selected == INVALID_LIST_POSITION || selected
                    >= self.model_entries@.len() || (self.model_entries@[selected as int]@
                    != OTHER_MODEL_ENTRY@ && self.model_entries@[selected as int]@ == model_in_use(
                    config@.model_path,
                    default_model@,
                )),
                ModelAction::OpenPicker => !self.guarded && selected != INVALID_LIST_POSITION
                    && selected < self.model_entries@.len() && self.model_entries@[selected as int]@
                    == OTHER_MODEL_ENTRY@,
                ModelAction::Validate { path, previous } => !self.guarded && selected
                    != INVALID_LIST_POSITION && selected < self.model_entries@.len() && path@
                    == self.model_entries@[selected as int]@ && path@ != OTHER_MODEL_ENTRY@
                    && previous@ == model_in_use(config@.model_path, default_model@) && path@
                    != previous@,
            },
    {
        if self.guarded || selected == INVALID_LIST_POSITION || selected as usize
            >= self.model_entries.len() {
            return ModelAction::Ignore;
        }
        let path = self.model_entries[selected as usize].clone();
        if text::same_text(path.as_str(), OTHER_MODEL_ENTRY) {
            return ModelAction::OpenPicker;
        }
        let previous = current_model(config, default_model);
        if text::same_text(previous.as_str(), path.as_str()) {
            return ModelAction::Ignore;
        }
        ModelAction::Validate { path, previous }
    }

    /// The model to come back to while a file is being chosen: its path, and the
    /// entry that is selected meanwhile, where the list holds it.
    pub fn open_model_picker(&self, config: &AppConfig, default_model: &str) -> (previous: (
        String,
        Option<u32>,
    ))
        requires
            self.wf(),
        ensures
            previous.0@ == model_in_use(config@.model_path, default_model@),
            is_first(texts_of(self.model_entries@), previous.0@, previous.1),
    {
        let previous = current_model(config, default_model);
        let select = dropdown_index_for_value(&self.model_entries, previous.as_str());
        (previous, select)
    }

    /// Decides on the end of the choice of a file: whether it was accepted, and
    /// the file's path where there is one.
    pub fn picker_answered(&self, accepted: bool, file: Option<String>, previous: String) -> (action:
        PickerAction)
        requires
            self.wf(),
        ensures
            match action {
                PickerAction::Validate { path, previous: p } => accepted && file == Some(path) && p
                    == previous,
                PickerAction::Restore(select) => !(accepted && file is Some) && is_first(
                    texts_of(self.model_entries@),
                    previous@,
                    select,
                ),
            },
    {
        if accepted {
            if let Some(path) = file {
                return PickerAction::Validate { path, previous };
            }
        }
        PickerAction::Restore(dropdown_index_for_value(&self.model_entries, previous.as_str()))
    }

    /// Takes what came of trying a model. A good one is configured, and listed
    /// where it was chosen as a file and is not listed yet; after a bad one the
    /// previous model is selected again.
    pub fn validate_model_selection(
        &mut self,
        config: &mut AppConfig,
        result: Result<(), String>,
        path: &str,
        custom_entry: bool,
        previous: &str,
    ) -> (outcome: ModelOutcome)
        requires
            old(self).wf(),
            old(self).model_entries@.len() + 1 < INVALID_LIST_POSITION,
        ensures
            final(self).wf(),
            final(self).audio_sources == old(self).audio_sources,
            final(self).capturing == old(self).capturing,
            final(self).guarded == old(self).guarded,
            texts_of(final(self).model_entries@) == (if result is Ok && custom_entry && !texts_of(
                old(self).model_entries@,
            ).contains(path@) {
                texts_of(old(self).model_entries@).push(path@)
            } else {
                texts_of(old(self).model_entries@)
            }),
            final(config)@ == (if result is Ok {
                Settings { model_path: Some(path@), ..old(config)@ }
            } else {
                old(config)@
            }),
            match outcome {
                ModelOutcome::Accepted { select } => result is Ok && is_first(
                    texts_of(final(self).model_entries@),
                    path@,
                    select,
                ),
                ModelOutcome::Rejected { message, select } => result matches Err(error) && message@
                    == failure_message(path@, error@) && is_first(
                    texts_of(final(self).model_entries@),
                    previous@,
                    select,
                ),
            },
    {
        match result {
            Ok(()) => {
                config.model_path = Some(path.to_owned());
                if custom_entry && !mentions(&self.model_entries, path) {
                    let ghost before = texts_of(self.model_entries@);
                    let ghost other = choose|i: int|
                        0 <= i < before.len() && before[i] == OTHER_MODEL_ENTRY@;
                    assert(before.len() == self.model_entries@.len());
                    push_text(&mut self.model_entries, path);
                    assert(texts_of(self.model_entries@).len() == self.model_entries@.len());
                    assert(texts_of(self.model_entries@)[other] == OTHER_MODEL_ENTRY@);
                }
                ModelOutcome::Accepted {
                    select: dropdown_index_for_value(&self.model_entries, path),
                }
            },
            Err(error) => {
                let message = text::joined_text(path, "\n\n");
                let message = text::joined_text(message.as_str(), error.as_str());
                ModelOutcome::Rejected {
                    message,
                    select: dropdown_index_for_value(&self.model_entries, previous),
                }
            },
        }
    }
}

/// Each way of output is listed under an entry that stands for it.
pub proof fn mode_entries_stand_for_modes(mode: OutputMode)
    ensures
        mode_of_entry(entry_of_mode(mode)) == Some(mode),
{
    entries_are_distinct();
}

/// Selecting the entry of the configured sound source changes nothing, unless
/// the source has the very name of the entry for the default.
pub proof fn showing_the_source_changes_nothing(
    settings: Settings,
    entries: Seq<Seq<char>>,
    index: Option<u32>,
)
    requires
        is_first(entries, entry_of_source(settings.audio_source), index),
        index is Some,
        settings.audio_source != Some(DEFAULT_SOURCE_ENTRY@),
    ensures
        after_audio(settings, entries, index->0) == settings,
{
}

/// No selection, no number and no hotkey that the dialog takes moves the
/// configuration out of its bounds, as long as a hotkey has a name.
pub proof fn selections_keep_bounds(
    settings: Settings,
    accelerator: Seq<char>,
    entries: Seq<Seq<char>>,
    selected: u32,
    path: Seq<char>,
    number: int,
)
    requires
        in_bounds(settings),
        text::trimmed(accelerator).len() > 0,
    ensures
        in_bounds(Settings { hotkey: accelerator, ..settings }),
        in_bounds(after_audio(settings, entries, selected)),
        in_bounds(after_mode(settings, selected)),
        in_bounds(Settings { model_path: Some(path), ..settings }),
        in_bounds(
            Settings {
                max_recording_secs: within(
                    number,
                    MIN_MAX_RECORDING_SECS as int,
                    MAX_MAX_RECORDING_SECS as int,
                ) as u32,
                ..settings
            },
        ),
        in_bounds(
            Settings { whisper_threads: within(number, 1, u32::MAX as int) as u32, ..settings },
        ),
{
}

/// The model that is shown first always has an entry in the list.
pub proof fn shown_model_is_listed(
    paths: Seq<Seq<char>>,
    configured: Option<Seq<char>>,
    default: Seq<char>,
    index: Option<u32>,
)
    requires
        is_first(paths.push(OTHER_MODEL_ENTRY@), shown_model(paths, configured, default), index),
    ensures
        index is Some,
{
    let entries = paths.push(OTHER_MODEL_ENTRY@);
    let shown = shown_model(paths, configured, default);
    if paths.contains(shown) {
        let i = choose|i: int| 0 <= i < paths.len() && paths[i] == shown;
        assert(entries[i] == shown);
    } else if paths.len() > 0 {
        assert(paths.contains(paths[0]));
    } else {
        assert(entries[0] == shown);
    }
}

/// A position that is given is that of an entry that says the value, and no entry
/// before it does; none is given exactly where no entry says it.
pub proof fn first_entry_is_selected(entries: Seq<Seq<char>>, value: Seq<char>, index: Option<u32>)
    requires
        is_first(entries, value, index),
    ensures
        index is Some <==> entries.contains(value),
        index matches Some(i) ==> i < entries.len() && entries[i as int] == value
            && !entries.take(i as int).contains(value),
{
    if let Some(i) = index {
        let front = entries.take(i as int);
        if front.contains(value) {
            let j = choose|j: int| 0 <= j < front.len() && front[j] == value;
            assert(entries[j] == value);
        }
    }
}

/// Every sound source has an entry that stands for it, unless it has the name of
/// the entry for no source in particular; that entry stands for none.
pub proof fn entries_stand_for_sources(source: Seq<char>)
    ensures
        entry_of_source(None) == "Default source"@,
        source_of_entry("Default source"@) is None,
        source != "Default source"@ ==> source_of_entry(entry_of_source(Some(source))) == Some(
            source,
        ),
        entry_of_source(Some(source)) == source,
{
}

/// The two ways of output have these entries, and no other entry stands for one.
pub proof fn entries_stand_for_ways_of_output(entry: Seq<char>)
    ensures
        entry_of_mode(OutputMode::DirectTyping) == "Direct typing"@,
        entry_of_mode(OutputMode::ClipboardPaste) == "Clipboard paste"@,
        mode_of_entry(entry) == Some(OutputMode::DirectTyping) <==> entry == "Direct typing"@,
        mode_of_entry(entry) == Some(OutputMode::ClipboardPaste) <==> entry == "Clipboard paste"@,
{
    entries_are_distinct();
}

/// The configured model is shown where it is listed; else the default one where
/// that is; else the first of the list; and an empty list shows the entry for a
/// file to be chosen.
pub proof fn configured_model_is_shown(
    paths: Seq<Seq<char>>,
    configured: Option<Seq<char>>,
    default: Seq<char>,
)
    ensures
        configured matches Some(path) ==> (paths.contains(path) ==> shown_model(
            paths,
            configured,
            default,
        ) == path),
        (configured matches Some(path) ==> !paths.contains(path)) && paths.contains(default)
            ==> shown_model(paths, configured, default) == default,
        (configured matches Some(path) ==> !paths.contains(path)) && !paths.contains(default)
            && paths.len() > 0 ==> shown_model(paths, configured, default) == paths[0],
        paths.len() == 0 ==> shown_model(paths, configured, default) == "Other..."@,
        model_in_use(None, default) == default,
        configured matches Some(path) ==> model_in_use(configured, default) == path,
{
}

/// A selected sound source changes the sound source and nothing else, and a
/// position that the list does not have changes nothing.
pub proof fn selected_source_is_configured(
    settings: Settings,
    entries: Seq<Seq<char>>,
    selected: u32,
)
    ensures
        ({
            let after = after_audio(settings, entries, selected);
            &&& selected < entries.len() && selected != 0xffff_ffff && entries[selected as int]
                != "Default source"@ ==> after.audio_source == Some(entries[selected as int])
            &&& selected < entries.len() && selected != 0xffff_ffff && entries[selected as int]
                == "Default source"@ ==> after.audio_source is None
            &&& selected >= entries.len() || selected == 0xffff_ffff ==> after.audio_source
                == settings.audio_source
            &&& after.hotkey == settings.hotkey
            &&& after.output_mode == settings.output_mode
            &&& after.max_recording_secs == settings.max_recording_secs
            &&& after.model_path == settings.model_path
            &&& after.whisper_threads == settings.whisper_threads
        }),
{
}

/// A selected way of output changes the way of output and nothing else, and a
/// position that the list does not have changes nothing.
pub proof fn selected_mode_is_configured(settings: Settings, selected: u32)
    ensures
        ({
            let after = after_mode(settings, selected);
            &&& selected == 0 ==> after.output_mode == OutputMode::DirectTyping
            &&& selected == 1 ==> after.output_mode == OutputMode::ClipboardPaste
            &&& selected > 1 ==> after.output_mode == settings.output_mode
            &&& after.hotkey == settings.hotkey
            &&& after.audio_source == settings.audio_source
            &&& after.max_recording_secs == settings.max_recording_secs
            &&& after.model_path == settings.model_path
            &&& after.whisper_threads == settings.whisper_threads
        }),
{
}

/// A number between two others stays; one below becomes the lower, one above the
/// higher of them. A limit of the length is kept between 5 and 180 seconds.
pub proof fn numbers_are_brought_between(value: int, low: int, high: int)
    requires
        low <= high,
    ensures
        low <= value <= high ==> within(value, low, high) == value,
        value < low ==> within(value, low, high) == low,
        value > high ==> within(value, low, high) == high,
        MIN_MAX_RECORDING_SECS == 5,
        MAX_MAX_RECORDING_SECS == 180,
{
}

/// A model that failed is told by its path, and by the cause below a blank line.
pub proof fn failures_tell_the_model(path: Seq<char>, error: Seq<char>)
    ensures
        failure_message(path, error) == path + "\n\n"@ + error,
        CAPTURE_LABEL@ == "Press keys..."@,
        ESCAPE_KEY == 0xff1b,
{
}

} // verus!
