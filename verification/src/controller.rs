//! The controller: when a recording starts and ends, and in which order the
//! transcripts are put out.

use std::collections::BTreeMap;

use vstd::prelude::*;

use crate::config::text_of;
use crate::recording::RecordingGeneration;
use crate::text;

verus! {

broadcast use vstd::std_specs::btree::group_btree_axioms;

/// What the program's main loop reacts to.
#[derive(Debug)]
pub enum AppEvent {
    HotkeyPressed,
    HotkeyReleased,
    Error(String),
    TranscriptionFinished { sequence: u64, text: Option<String> },
}

/// What the program is to do.
#[derive(Debug)]
pub enum Effect {
    /// Start to record.
    StartSession,
    CancelMaxDurationTimer,
    CancelOverlayTickTimer,
    /// Show or hide the overlay, and let the tray item tell of it.
    SetRecordingUi(bool),
    /// Move the overlay to its place after this time.
    PositionOverlay { delay_millis: u64 },
    /// Let the overlay move at this pace.
    StartOverlayTick { period_millis: u64 },
    /// End the recording with this number after this time.
    StartMaxDurationTimer { secs: u64, generation: u64 },
    /// End the session, and transcribe what it recorded under this number.
    Transcribe { sequence: u64 },
    /// Put a text out.
    Output(String),
    /// Tell of an error.
    Report(String),
    /// Build the settings window.
    BuildSettings,
    /// Bring the settings window to the front.
    PresentSettings,
    /// End the session, and forget what it recorded.
    DiscardSession,
    /// End the program.
    Quit,
}

/// The time until the overlay is moved to its place.
pub const OVERLAY_DELAY_MILLIS: u64 = 40;

/// The pace of the overlay.
pub const OVERLAY_TICK_MILLIS: u64 = 33;

/// The texts of some transcripts, by their numbers.
pub open spec fn transcripts(pending: Map<u64, Option<String>>) -> Map<u64, Option<Seq<char>>> {
    pending.map_values(|transcript: Option<String>| text_of(transcript))
}

/// The text of a transcript, or nothing where it has none.
pub open spec fn text_in(transcript: Option<Seq<char>>) -> Seq<Seq<char>> {
    match transcript {
        Some(text) => seq![text],
        None => Seq::empty(),
    }
}

/// Whether all transcripts from `from` to `number` are there.
pub open spec fn in_run(pending: Map<u64, Option<Seq<char>>>, from: u64, number: u64) -> bool {
    from <= number && forall|j: u64| from <= j <= number ==> #[trigger] pending.contains_key(j)
}

/// The texts of the transcripts from `from` on, up to the first that is not there.
pub open spec fn run_texts(pending: Map<u64, Option<Seq<char>>>, from: u64) -> Seq<Seq<char>>
    decreases u64::MAX - from,
{
    if !pending.contains_key(from) {
        Seq::empty()
    } else if from == u64::MAX {
        text_in(pending[from])
    } else {
        text_in(pending[from]) + run_texts(pending, (from + 1) as u64)
    }
}

/// The number behind the transcripts from `from` on, up to the first that is not
/// there; the largest number stays where it is.
pub open spec fn run_end(pending: Map<u64, Option<Seq<char>>>, from: u64) -> u64
    decreases u64::MAX - from,
{
    if !pending.contains_key(from) || from == u64::MAX {
        from
    } else {
        run_end(pending, (from + 1) as u64)
    }
}

/// The transcripts without those from `from` on, up to the first that is not
/// there.
pub open spec fn without_run(pending: Map<u64, Option<Seq<char>>>, from: u64) -> Map<
    u64,
    Option<Seq<char>>,
> {
    Map::new(
        |k: u64| pending.contains_key(k) && !in_run(pending, from, k),
        |k: u64| pending[k],
    )
}

proof fn run_was_taken(
    pending: Map<u64, Option<Seq<char>>>,
    rest: Map<u64, Option<Seq<char>>>,
    first: u64,
    end: int,
)
    requires
        first <= end <= u64::MAX + 1,
        forall|k: u64| first <= k < end ==> #[trigger] pending.contains_key(k),
        end <= u64::MAX ==> !pending.contains_key(end as u64),
        forall|k: u64|
            rest.contains_key(k) <==> (#[trigger] pending.contains_key(k) && !(first <= k < end)),
        forall|k: u64| #[trigger] rest.contains_key(k) ==> rest[k] == pending[k],
    ensures
        rest == without_run(pending, first),
{
    assert forall|k: u64| #[trigger] in_run(pending, first, k) <==> first <= k < end by {
        if first <= k && end <= k {
            assert(!pending.contains_key(end as u64));
        }
    }
    assert forall|k: u64| rest.contains_key(k) == #[trigger] without_run(
        pending,
        first,
    ).contains_key(k) by {
        assert(rest.contains_key(k) <==> (pending.contains_key(k) && !in_run(pending, first, k)));
    }
    assert(rest =~= without_run(pending, first));
}

/// Whether texts are these, one by one.
pub open spec fn are_texts(texts: Seq<String>, expected: Seq<Seq<char>>) -> bool {
    &&& texts.len() == expected.len()
    &&& forall|i: int| 0 <= i < texts.len() ==> (#[trigger] texts[i])@ == expected[i]
}

/// The state of the program: whether it records, which recording that is, which
/// timers run, whether there is a settings window, and the transcripts that wait
/// for their turn.
pub struct AppController {
    pub recording: bool,
    pub recording_generation: RecordingGeneration,
    pub max_duration_timer: bool,
    pub overlay_tick_timer: bool,
    pub settings_window: bool,
    pub next_transcription_sequence: u64,
    pub next_transcription_to_output: u64,
    pub pending_transcripts: BTreeMap<u64, Option<String>>,
}

impl AppController {
    /// Whether the state is one that the program can be in: the timers run while
    /// a recording does, and a recording that runs has a number.
    pub open spec fn wf(self) -> bool {
        &&& self.recording_generation.wf()
        &&& self.max_duration_timer == self.recording
        &&& self.overlay_tick_timer == self.recording
        &&& self.recording ==> self.recording_generation.current is Some
    }

    /// The transcripts that wait for their turn.
    pub open spec fn pending(self) -> Map<u64, Option<Seq<char>>> {
        transcripts(self.pending_transcripts@)
    }

    /// The state with no recording, and without its timers.
    pub open spec fn idle(self) -> Self {
        AppController {
            recording: false,
            max_duration_timer: false,
            overlay_tick_timer: false,
            ..self
        }
    }

    /// The state with a recording that just started.
    pub open spec fn started(self) -> Self {
        AppController {
            recording: true,
            max_duration_timer: true,
            overlay_tick_timer: true,
            recording_generation: self.recording_generation.begun(),
            ..self
        }
    }

    /// The state after the recording that runs, if one does, has no number any
    /// more.
    pub open spec fn ungenerated(self) -> Self {
        AppController {
            recording_generation: match self.recording_generation.current {
                Some(generation) => self.recording_generation.ended(generation),
                None => self.recording_generation,
            },
            ..self
        }
    }

    /// The state after the recording ended and was handed to be transcribed.
    pub open spec fn stopped(self) -> Self {
        if self.recording {
            AppController {
                next_transcription_sequence: if self.next_transcription_sequence < u64::MAX {
                    (self.next_transcription_sequence + 1) as u64
                } else {
                    u64::MAX
                },
                ..self.idle().ungenerated()
            }
        } else {
            self
        }
    }

    /// What the end of the recording entails.
    pub open spec fn stop_effects(self) -> Seq<Effect> {
        if self.recording {
            seq![
                Effect::CancelMaxDurationTimer,
                Effect::CancelOverlayTickTimer,
                Effect::SetRecordingUi(false),
                Effect::Transcribe { sequence: self.next_transcription_sequence },
            ]
        } else {
            Seq::empty()
        }
    }

    /// The program at its start.
    pub fn new() -> (controller: Self)
        ensures
            controller.wf(),
            !controller.recording,
            controller.recording_generation == (RecordingGeneration { current: None, next: 0 }),
            !controller.settings_window,
            controller.next_transcription_sequence == 1,
            controller.next_transcription_to_output == 1,
            controller.pending() == Map::<u64, Option<Seq<char>>>::empty(),
    {
        let controller = AppController {
            recording: false,
            recording_generation: RecordingGeneration::default(),
            max_duration_timer: false,
            overlay_tick_timer: false,
            settings_window: false,
            next_transcription_sequence: 1,
            next_transcription_to_output: 1,
            pending_transcripts: BTreeMap::new(),
        };
        assert(controller.pending() =~= Map::<u64, Option<Seq<char>>>::empty());
        controller
    }

    fn cancel_timers(&mut self, effects: &mut Vec<Effect>)
        requires
            old(self).wf(),
        ensures
            *final(self) == (AppController {
                max_duration_timer: false,
                overlay_tick_timer: false,
                ..*old(self)
            }),
            final(effects)@ == old(effects)@ + (if old(self).recording {
                seq![Effect::CancelMaxDurationTimer, Effect::CancelOverlayTickTimer]
            } else {
                Seq::empty()
            }),
    {
        let ghost before = effects@;
        if self.max_duration_timer {
            self.max_duration_timer = false;
            effects.push(Effect::CancelMaxDurationTimer);
        }
        if self.overlay_tick_timer {
            self.overlay_tick_timer = false;
            effects.push(Effect::CancelOverlayTickTimer);
        }
        assert(effects@ =~= before + (if old(self).recording {
            seq![Effect::CancelMaxDurationTimer, Effect::CancelOverlayTickTimer]
        } else {
            Seq::empty()
        }));
    }

    fn end_generation(&mut self)
        ensures
            *final(self) == old(self).ungenerated(),
    {
        if let Some(generation) = self.recording_generation.current() {
            let _ = self.recording_generation.stop_if_current(generation);
        }
    }

    /// What a pressed hotkey entails: a recording, unless one runs.
    pub fn start_recording(&self) -> (effects: Vec<Effect>)
        ensures
            effects@ == (if self.recording {
                Seq::empty()
            } else {
                seq![Effect::StartSession]
            }),
    {
        let mut effects: Vec<Effect> = Vec::new();
        if !self.recording {
            effects.push(Effect::StartSession);
        }
        effects
    }

    /// Takes in that a recording started, which may take the given time.
    pub fn recording_started(&mut self, max_recording_secs: u32) -> (effects: Vec<Effect>)
        requires
            old(self).wf(),
            !old(self).recording,
        ensures
            final(self).wf(),
            *final(self) == old(self).started(),
            effects@ == seq![
                Effect::SetRecordingUi(true),
                Effect::PositionOverlay { delay_millis: OVERLAY_DELAY_MILLIS },
                Effect::StartOverlayTick { period_millis: OVERLAY_TICK_MILLIS },
                Effect::StartMaxDurationTimer {
                    secs: max_recording_secs as u64,
                    generation: final(self).recording_generation.next,
                },
            ],
            effects@[1] == (Effect::PositionOverlay { delay_millis: 40 }),
            effects@[2] == (Effect::StartOverlayTick { period_millis: 33 }),
    {
        let mut effects: Vec<Effect> = Vec::new();
        self.cancel_timers(&mut effects);
        self.recording = true;
        let generation: u64 = self.recording_generation.next();
        effects.push(Effect::SetRecordingUi(true));
        effects.push(Effect::PositionOverlay { delay_millis: OVERLAY_DELAY_MILLIS });
        effects.push(Effect::StartOverlayTick { period_millis: OVERLAY_TICK_MILLIS });
        self.overlay_tick_timer = true;
        effects.push(
            Effect::StartMaxDurationTimer { secs: max_recording_secs as u64, generation },
        );
        self.max_duration_timer = true;
        assert(effects@ =~= seq![
            Effect::SetRecordingUi(true),
            Effect::PositionOverlay { delay_millis: OVERLAY_DELAY_MILLIS },
            Effect::StartOverlayTick { period_millis: OVERLAY_TICK_MILLIS },
            Effect::StartMaxDurationTimer {
                secs: max_recording_secs as u64,
                generation: self.recording_generation.next,
            },
        ]);
        effects
    }

    /// Takes in that no recording could be started.
    pub fn recording_failed(&mut self) -> (effects: Vec<Effect>)
        requires
            old(self).wf(),
            !old(self).recording,
        ensures
            final(self).wf(),
            *final(self) == old(self).ungenerated(),
            effects@ == seq![Effect::SetRecordingUi(false)],
    {
        let mut effects: Vec<Effect> = Vec::new();
        self.cancel_timers(&mut effects);
        self.recording = false;
        self.end_generation();
        effects.push(Effect::SetRecordingUi(false));
        assert(effects@ =~= seq![Effect::SetRecordingUi(false)]);
        effects
    }

    /// Ends the recording that runs, if one does, and hands it to be transcribed.
    pub fn stop_recording(&mut self) -> (effects: Vec<Effect>)
        requires
            old(self).wf(),
        ensures
            final(self).wf(),
            *final(self) == old(self).stopped(),
            effects@ == old(self).stop_effects(),
    {
        let mut effects: Vec<Effect> = Vec::new();
        if !self.recording {
            return effects;
        }
        self.cancel_timers(&mut effects);
        self.recording = false;
        self.end_generation();
        effects.push(Effect::SetRecordingUi(false));
        let sequence: u64 = self.next_transcription_sequence;
        self.next_transcription_sequence = self.next_transcription_sequence.saturating_add(1);
        effects.push(Effect::Transcribe { sequence });
        assert(effects@ =~= old(self).stop_effects());
        effects
    }

    /// Takes in that the time of the recording with a number is over: ends it, if
    /// it is the one that runs.
    pub fn max_duration_reached(&mut self, generation: u64) -> (effects: Vec<Effect>)
        requires
            old(self).wf(),
        ensures
            final(self).wf(),
            old(self).recording_generation.current == Some(generation) ==> *final(self)
                == old(self).stopped() && effects@ == old(self).stop_effects(),
            old(self).recording_generation.current != Some(generation) ==> *final(self)
                == *old(self) && effects@.len() == 0,
    {
        match self.recording_generation.current() {
            Some(current) => {
                if current == generation {
                    return self.stop_recording();
                }
            },
            None => {},
        }
        Vec::new()
    }

    /// Takes a transcript, and gives the texts that are to be put out now, in
    /// order: those of the transcripts from the next one on, up to the first that
    /// is not there yet.
    pub fn finish_transcription(&mut self, sequence: u64, text: Option<String>) -> (texts: Vec<
        String,
    >)
        ensures
            ({
                let pending = old(self).pending().insert(sequence, text_of(text));
                let next = old(self).next_transcription_to_output;
                &&& are_texts(texts@, run_texts(pending, next))
                &&& final(self).pending() == without_run(pending, next)
                &&& final(self).next_transcription_to_output == run_end(pending, next)
            }),
            final(self).recording == old(self).recording,
            final(self).recording_generation == old(self).recording_generation,
            final(self).max_duration_timer == old(self).max_duration_timer,
            final(self).overlay_tick_timer == old(self).overlay_tick_timer,
            final(self).settings_window == old(self).settings_window,
            final(self).next_transcription_sequence == old(self).next_transcription_sequence,
    {
        let ghost pending = self.pending().insert(sequence, text_of(text));
        let ghost first = self.next_transcription_to_output;
        let _ = self.pending_transcripts.insert(sequence, text);
        assert(self.pending() =~= pending);
        let mut texts: Vec<String> = Vec::new();
        assert(Seq::<Seq<char>>::empty() + run_texts(pending, first) =~= run_texts(pending, first));
        let ghost mut out: Seq<Seq<char>> = Seq::empty();
        loop
            invariant_except_break
                first <= self.next_transcription_to_output,
                forall|k: u64|
                    first <= k < self.next_transcription_to_output ==> #[trigger]
                    pending.contains_key(k),
                forall|k: u64|
                    self.pending().contains_key(k) <==> (#[trigger] pending.contains_key(k) && !(
                    first <= k < self.next_transcription_to_output)),
                forall|k: u64| #[trigger]
                    self.pending().contains_key(k) ==> self.pending()[k] == pending[k],
                are_texts(texts@, out),
                out + run_texts(pending, self.next_transcription_to_output) == run_texts(
                    pending,
                    first,
                ),
                run_end(pending, self.next_transcription_to_output) == run_end(pending, first),
            invariant
                self.recording == old(self).recording,
                self.recording_generation == old(self).recording_generation,
                self.max_duration_timer == old(self).max_duration_timer,
                self.overlay_tick_timer == old(self).overlay_tick_timer,
                self.settings_window == old(self).settings_window,
                self.next_transcription_sequence == old(self).next_transcription_sequence,
            ensures
                are_texts(texts@, run_texts(pending, first)),
                self.pending() == without_run(pending, first),
                self.next_transcription_to_output == run_end(pending, first),
            decreases u64::MAX - self.next_transcription_to_output,
        {
            let next: u64 = self.next_transcription_to_output;
            let ghost before = self.pending_transcripts@;
            let transcript = match self.pending_transcripts.remove(&next) {
                Some(transcript) => transcript,
                None => {
                    proof {
                        assert(!before.contains_key(next));
                        assert(self.pending_transcripts@ =~= before);
                        assert(!self.pending().contains_key(next));
                        assert(!pending.contains_key(next));
                        assert(out + run_texts(pending, next) =~= out);
                        run_was_taken(pending, self.pending(), first, next as int);
                    }
                    break ;
                },
            };
            proof {
                assert(before.contains_key(next) && before[next] == transcript);
                assert(transcripts(before).contains_key(next));
                assert(transcripts(before)[next] == text_of(transcript));
                assert(pending.contains_key(next));
                assert(self.pending() =~= transcripts(before).remove(next));
                assert forall|k: u64|
                    self.pending().contains_key(k) <==> (#[trigger] pending.contains_key(k) && !(first
                        <= k <= next)) by {
                    assert(self.pending().contains_key(k) <==> transcripts(before).contains_key(k)
                        && k != next);
                }
            }
            let last: bool = next == u64::MAX;
            self.next_transcription_to_output = next.saturating_add(1);
            let ghost so_far = out;
            if let Some(text) = transcript {
                proof {
                    out = out.push(text@);
                }
                texts.push(text);
            }
            proof {
                assert(out =~= so_far + text_in(pending[next]));
                if !last {
                    assert(so_far + (text_in(pending[next]) + run_texts(pending, (next + 1) as u64))
                        =~= out + run_texts(pending, (next + 1) as u64));
                }
            }
            if last {
                proof {
                    assert(so_far + run_texts(pending, next) =~= out);
                    run_was_taken(pending, self.pending(), first, next + 1);
                }
                break ;
            }
        }
        texts
    }

    /// What opening the settings entails: their window is built, unless there is
    /// one, and brought to the front.
    pub fn show_settings_window(&mut self) -> (effects: Vec<Effect>)
        ensures
            *final(self) == (AppController { settings_window: true, ..*old(self) }),
            effects@ == (if old(self).settings_window {
                seq![Effect::PresentSettings]
            } else {
                seq![Effect::BuildSettings, Effect::PresentSettings]
            }),
    {
        let mut effects: Vec<Effect> = Vec::new();
        if !self.settings_window {
            effects.push(Effect::BuildSettings);
            self.settings_window = true;
        }
        effects.push(Effect::PresentSettings);
        effects
    }

    /// What the end of the program entails: a recording that runs is forgotten.
    pub fn quit(&mut self) -> (effects: Vec<Effect>)
        requires
            old(self).wf(),
        ensures
            final(self).wf(),
            *final(self) == old(self).idle(),
            effects@ == (if old(self).recording {
                seq![
                    Effect::CancelMaxDurationTimer,
                    Effect::CancelOverlayTickTimer,
                    Effect::SetRecordingUi(false),
                    Effect::DiscardSession,
                    Effect::Quit,
                ]
            } else {
                seq![Effect::SetRecordingUi(false), Effect::Quit]
            }),
    {
        let mut effects: Vec<Effect> = Vec::new();
        self.cancel_timers(&mut effects);
        effects.push(Effect::SetRecordingUi(false));
        if self.recording {
            self.recording = false;
            effects.push(Effect::DiscardSession);
        }
        effects.push(Effect::Quit);
        proof {
            if old(self).recording {
                assert(effects@ =~= seq![
                    Effect::CancelMaxDurationTimer,
                    Effect::CancelOverlayTickTimer,
                    Effect::SetRecordingUi(false),
                    Effect::DiscardSession,
                    Effect::Quit,
                ]);
            } else {
                assert(effects@ =~= seq![Effect::SetRecordingUi(false), Effect::Quit]);
            }
        }
        effects
    }

    /// What the overlay shows next: nothing more where no recording runs, else the
    /// newest of the levels that came in, if any did.
    pub fn overlay_tick(&self, levels: &Vec<u32>) -> (tick: OverlayTick)
        ensures
            tick == (if !self.recording {
                OverlayTick::Stop
            } else if levels@.len() > 0 {
                OverlayTick::Advance { level: Some(levels@.last()) }
            } else {
                OverlayTick::Advance { level: None }
            }),
    {
        if !self.recording {
            return OverlayTick::Stop;
        }
        let n: usize = levels.len();
        if n > 0 {
            OverlayTick::Advance { level: Some(levels[n - 1]) }
        } else {
            OverlayTick::Advance { level: None }
        }
    }

    /// Reacts to an event of the main loop.
    pub fn handle_event(&mut self, event: AppEvent) -> (effects: Vec<Effect>)
        requires
            old(self).wf(),
        ensures
            final(self).wf(),
            match event {
                AppEvent::HotkeyPressed => *final(self) == *old(self) && effects@ == (if old(
                    self,
                ).recording {
                    Seq::empty()
                } else {
                    seq![Effect::StartSession]
                }),
                AppEvent::HotkeyReleased => *final(self) == old(self).stopped() && effects@ == old(
                    self,
                ).stop_effects(),
                AppEvent::Error(message) => *final(self) == *old(self) && effects@ == seq![
                    Effect::Report(message),
                ],
                AppEvent::TranscriptionFinished { sequence, text } => {
                    let pending = old(self).pending().insert(sequence, text_of(text));
                    let next = old(self).next_transcription_to_output;
                    &&& are_outputs(effects@, run_texts(pending, next))
                    &&& final(self).pending() == without_run(pending, next)
                    &&& final(self).next_transcription_to_output == run_end(pending, next)
                    &&& final(self).recording == old(self).recording
                    &&& final(self).recording_generation == old(self).recording_generation
                    &&& final(self).settings_window == old(self).settings_window
                    &&& final(self).next_transcription_sequence == old(
                        self,
                    ).next_transcription_sequence
                },
            },
    {
        match event {
            AppEvent::HotkeyPressed => self.start_recording(),
            AppEvent::HotkeyReleased => self.stop_recording(),
            AppEvent::Error(message) => {
                let mut effects: Vec<Effect> = Vec::new();
                effects.push(Effect::Report(message));
                effects
            },
            AppEvent::TranscriptionFinished { sequence, text } => {
                let texts = self.finish_transcription(sequence, text);
                outputs_of(texts)
            },
        }
    }
}

/// What the overlay shows next.
#[derive(Debug, Clone, Copy, PartialEq, Eq, Structural)]
pub enum OverlayTick {
    /// Nothing more.
    Stop,
    /// One more level: this one, or the last one again.
    Advance { level: Option<u32> },
}

/// Whether the effects are the output of these texts, one by one.
pub open spec fn are_outputs(effects: Seq<Effect>, texts: Seq<Seq<char>>) -> bool {
    &&& effects.len() == texts.len()
    &&& forall|i: int|
        0 <= i < effects.len() ==> (#[trigger] effects[i] matches Effect::Output(text) && text@
            == texts[i])
}

fn outputs_of(texts: Vec<String>) -> (effects: Vec<Effect>)
    ensures
        effects@.len() == texts@.len(),
        forall|i: int|
            0 <= i < effects@.len() ==> (#[trigger] effects@[i] matches Effect::Output(text)
                && text@ == texts@[i]@),
{
    let mut effects: Vec<Effect> = Vec::new();
    for i in 0..texts.len()
        invariant
            effects@.len() == i,
            forall|j: int|
                0 <= j < i ==> (#[trigger] effects@[j] matches Effect::Output(text) && text@
                    == texts@[j]@),
    {
        effects.push(Effect::Output(texts[i].clone()));
    }
    effects
}

/// What is told of a transcription that failed.
pub open spec fn transcription_failure(error: Seq<char>) -> Seq<char> {
    "transcription failed: "@ + error
}

/// The events that follow from a transcription: its text where there is one that
/// is not blank, and first what went wrong where something did. A recording that
/// was discarded has no text.
pub fn transcription_events(sequence: u64, result: Result<Option<String>, String>) -> (events: Vec<
    AppEvent,
>)
    ensures
        match result {
            Ok(text) => events@ == seq![
                AppEvent::TranscriptionFinished {
                    sequence,
                    text: match text {
                        Some(text) => if text::trimmed(text@).len() == 0 {
                            None
                        } else {
                            Some(text)
                        },
                        None => None,
                    },
                },
            ],
            Err(error) => events@.len() == 2 && (events@[0] matches AppEvent::Error(message)
                && message@ == transcription_failure(error@) && message@ == "transcription failed: "@
                + error@) && events@[1]
                == (AppEvent::TranscriptionFinished { sequence, text: None }),
        },
{
    let mut events: Vec<AppEvent> = Vec::new();
    match result {
        Ok(Some(text)) => {
            let text = if text::is_blank(text.as_str()) {
                None
            } else {
                Some(text)
            };
            events.push(AppEvent::TranscriptionFinished { sequence, text });
        },
        Ok(None) => {
            events.push(AppEvent::TranscriptionFinished { sequence, text: None });
        },
        Err(error) => {
            events.push(
                AppEvent::Error(text::joined_text("transcription failed: ", error.as_str())),
            );
            events.push(AppEvent::TranscriptionFinished { sequence, text: None });
        },
    }
    events
}

/// The texts of the transcripts from the first one up to `next`, in order.
pub open spec fn texts_before(given: Map<u64, Option<Seq<char>>>, next: nat) -> Seq<Seq<char>>
    decreases next,
{
    if next <= 1 {
        Seq::empty()
    } else {
        texts_before(given, (next - 1) as nat) + text_in(given[(next - 1) as u64])
    }
}

/// Whether the texts that were put out are those of the given transcripts, in
/// order and up to the first that is missing, and the others wait.
pub open spec fn settled(
    given: Map<u64, Option<Seq<char>>>,
    out: Seq<Seq<char>>,
    next: u64,
    pending: Map<u64, Option<Seq<char>>>,
) -> bool {
    &&& 1 <= next
    &&& forall|k: u64| 1 <= k < next ==> #[trigger] given.contains_key(k)
    &&& !given.contains_key(next)
    &&& pending == Map::new(|k: u64| given.contains_key(k) && next <= k, |k: u64| given[k])
    &&& out == texts_before(given, next as nat)
}

proof fn run_continues(
    given: Map<u64, Option<Seq<char>>>,
    pending: Map<u64, Option<Seq<char>>>,
    from: u64,
)
    requires
        1 <= from,
        !given.contains_key(u64::MAX),
        forall|k: u64|
            from <= k ==> (#[trigger] pending.contains_key(k) <==> given.contains_key(k)) && (
            given.contains_key(k) ==> pending[k] == given[k]),
    ensures
        ({
            let end = run_end(pending, from);
            &&& from <= end
            &&& !given.contains_key(end)
            &&& forall|k: u64| from <= k < end ==> #[trigger] given.contains_key(k)
            &&& texts_before(given, from as nat) + run_texts(pending, from) == texts_before(
                given,
                end as nat,
            )
        }),
    decreases u64::MAX - from,
{
    if !given.contains_key(from) {
        assert(!pending.contains_key(from));
        assert(texts_before(given, from as nat) + Seq::empty() =~= texts_before(
            given,
            from as nat,
        ));
    } else {
        assert(pending.contains_key(from));
        assert(from != u64::MAX);
        let then = (from + 1) as u64;
        run_continues(given, pending, then);
        assert(texts_before(given, then as nat) == texts_before(given, from as nat) + text_in(
            given[from],
        ));
        assert(texts_before(given, from as nat) + (text_in(pending[from]) + run_texts(
            pending,
            then,
        )) =~= (texts_before(given, from as nat) + text_in(given[from])) + run_texts(pending, then));
    }
}

proof fn earlier_texts_stay(
    given: Map<u64, Option<Seq<char>>>,
    sequence: u64,
    transcript: Option<Seq<char>>,
    next: nat,
)
    requires
        next <= sequence,
    ensures
        texts_before(given.insert(sequence, transcript), next) == texts_before(given, next),
    decreases next,
{
    if next > 1 {
        earlier_texts_stay(given, sequence, transcript, (next - 1) as nat);
    }
}

/// Transcripts are put out in the order of their numbers, each once and none left
/// out, in whatever order they come in: if that holds of what was put out so far,
/// it holds with every further transcript, as long as there are numbers left.
pub proof fn transcripts_come_out_in_order(
    given: Map<u64, Option<Seq<char>>>,
    out: Seq<Seq<char>>,
    next: u64,
    pending: Map<u64, Option<Seq<char>>>,
    sequence: u64,
    transcript: Option<Seq<char>>,
)
    requires
        settled(given, out, next, pending),
        1 <= sequence < u64::MAX,
        !given.contains_key(sequence),
        !given.contains_key(u64::MAX),
    ensures
        ({
            let waiting = pending.insert(sequence, transcript);
            settled(
                given.insert(sequence, transcript),
                out + run_texts(waiting, next),
                run_end(waiting, next),
                without_run(waiting, next),
            )
        }),
{
    let waiting = pending.insert(sequence, transcript);
    let all = given.insert(sequence, transcript);
    assert(next <= sequence) by {
        if sequence < next {
            assert(given.contains_key(sequence));
        }
    }
    earlier_texts_stay(given, sequence, transcript, next as nat);
    run_continues(all, waiting, next);
    let end = run_end(waiting, next);
    assert forall|k: u64| 1 <= k < end implies #[trigger] all.contains_key(k) by {
        if k < next {
            assert(given.contains_key(k));
        }
    }
    let rest = Map::new(|k: u64| all.contains_key(k) && end <= k, |k: u64| all[k]);
    assert forall|k: u64| next <= k < end implies #[trigger] waiting.contains_key(k) by {
        assert(all.contains_key(k));
    }
    assert(!waiting.contains_key(end));
    run_was_taken(waiting, rest, next, end as int);
}

/// What came of the transcripts that came in: the texts that were put out, the
/// number of the next one, and those that wait.
pub struct Delivery {
    pub out: Seq<Seq<char>>,
    pub next: u64,
    pub pending: Map<u64, Option<Seq<char>>>,
}

/// What comes of transcripts that come in one after the other, each with its
/// number, from the start of the program on.
pub open spec fn delivered(arrivals: Seq<(u64, Option<Seq<char>>)>) -> Delivery
    decreases arrivals.len(),
{
    if arrivals.len() == 0 {
        Delivery { out: Seq::empty(), next: 1, pending: Map::empty() }
    } else {
        let before = delivered(arrivals.drop_last());
        let waiting = before.pending.insert(arrivals.last().0, arrivals.last().1);
        Delivery {
            out: before.out + run_texts(waiting, before.next),
            next: run_end(waiting, before.next),
            pending: without_run(waiting, before.next),
        }
    }
}

/// The transcripts that came in, by their numbers.
pub open spec fn arrived(arrivals: Seq<(u64, Option<Seq<char>>)>) -> Map<u64, Option<Seq<char>>>
    decreases arrivals.len(),
{
    if arrivals.len() == 0 {
        Map::empty()
    } else {
        arrived(arrivals.drop_last()).insert(arrivals.last().0, arrivals.last().1)
    }
}

/// Whether transcripts come in under numbers of their own.
pub open spec fn numbered_apart(arrivals: Seq<(u64, Option<Seq<char>>)>) -> bool {
    &&& forall|i: int| 0 <= i < arrivals.len() ==> 1 <= (#[trigger] arrivals[i]).0 < u64::MAX
    &&& forall|i: int, j: int|
        0 <= i < j < arrivals.len() ==> (#[trigger] arrivals[i]).0 != (#[trigger] arrivals[j]).0
}

proof fn arrived_under(arrivals: Seq<(u64, Option<Seq<char>>)>, number: u64)
    requires
        arrived(arrivals).contains_key(number),
    ensures
        exists|i: int| 0 <= i < arrivals.len() && (#[trigger] arrivals[i]).0 == number,
    decreases arrivals.len(),
{
    if arrivals.len() > 0 {
        if arrivals.last().0 == number {
            assert(arrivals[arrivals.len() - 1].0 == number);
        } else {
            arrived_under(arrivals.drop_last(), number);
            let i = choose|i: int|
                0 <= i < arrivals.drop_last().len() && (#[trigger] arrivals.drop_last()[i]).0
                    == number;
            assert(arrivals[i].0 == number);
        }
    }
}

/// From the start of the program on, whatever transcripts came in and in whatever
/// order: the texts that were put out are those of the transcripts from the first
/// one up to the first that is missing, in the order of their numbers, each once.
pub proof fn arrivals_come_out_in_order(arrivals: Seq<(u64, Option<Seq<char>>)>)
    requires
        numbered_apart(arrivals),
    ensures
        ({
            let delivery = delivered(arrivals);
            settled(arrived(arrivals), delivery.out, delivery.next, delivery.pending)
        }),
    decreases arrivals.len(),
{
    if arrivals.len() == 0 {
        let none = Map::<u64, Option<Seq<char>>>::empty();
        assert(none =~= Map::new(|k: u64| none.contains_key(k) && 1 <= k, |k: u64| none[k]));
    } else {
        let before = arrivals.drop_last();
        let last = arrivals.last();
        assert(numbered_apart(before)) by {
            assert(forall|i: int| 0 <= i < before.len() ==> before[i] == arrivals[i]);
        }
        arrivals_come_out_in_order(before);
        assert(arrivals[arrivals.len() - 1] == last);
        if arrived(before).contains_key(last.0) {
            arrived_under(before, last.0);
            let i = choose|i: int| 0 <= i < before.len() && (#[trigger] before[i]).0 == last.0;
            assert(arrivals[i].0 == arrivals[arrivals.len() - 1].0);
        }
        if arrived(before).contains_key(u64::MAX) {
            arrived_under(before, u64::MAX);
            let i = choose|i: int| 0 <= i < before.len() && (#[trigger] before[i]).0 == u64::MAX;
            assert(arrivals[i].0 == u64::MAX);
        }
        let delivery = delivered(before);
        transcripts_come_out_in_order(
            arrived(before),
            delivery.out,
            delivery.next,
            delivery.pending,
            last.0,
            last.1,
        );
    }
}

/// What was put out depends on which transcripts came in, not on the order in
/// which they did.
pub proof fn arrival_order_does_not_matter(
    arrivals: Seq<(u64, Option<Seq<char>>)>,
    others: Seq<(u64, Option<Seq<char>>)>,
)
    requires
        numbered_apart(arrivals),
        numbered_apart(others),
        arrived(arrivals) == arrived(others),
    ensures
        delivered(arrivals) == delivered(others),
{
    arrivals_come_out_in_order(arrivals);
    arrivals_come_out_in_order(others);
    let one = delivered(arrivals);
    let other = delivered(others);
    if one.next < other.next {
        assert(arrived(others).contains_key(one.next));
    } else if other.next < one.next {
        assert(arrived(arrivals).contains_key(other.next));
    }
}

/// Once every transcript up to some number came in, the texts of all of them are
/// out.
pub proof fn no_transcript_is_held_back(
    given: Map<u64, Option<Seq<char>>>,
    out: Seq<Seq<char>>,
    next: u64,
    pending: Map<u64, Option<Seq<char>>>,
    last: u64,
)
    requires
        settled(given, out, next, pending),
        forall|k: u64| 1 <= k <= last ==> #[trigger] given.contains_key(k),
    ensures
        last < next,
{
}

/// A recording that started is ended by its own timer and by no earlier one, and
/// the next one is transcribed under another number.
pub proof fn timer_ends_its_own_recording(state: AppController, generation: u64)
    requires
        state.wf(),
        !state.recording,
        state.recording_generation.next < u64::MAX,
        state.next_transcription_sequence < u64::MAX,
    ensures
        ({
            let started = state.started();
            &&& started.recording_generation.current == Some(started.recording_generation.next)
            &&& generation <= state.recording_generation.next
                ==> started.recording_generation.current != Some(generation)
            &&& !started.stopped().recording
            &&& started.stopped().recording_generation.current is None
            &&& started.stopped().next_transcription_sequence
                > started.next_transcription_sequence
        }),
{
}

proof fn transcripts_from(raw: Map<u64, Option<String>>, from: u64, count: nat)
    requires
        count > 0,
        from + count <= u64::MAX + 1,
    ensures
        Seq::new(count, |i: int| raw[(from + i) as u64]) == seq![raw[from]] + Seq::new(
            (count - 1) as nat,
            |i: int| raw[((from + 1) as u64 + i) as u64],
        ),
{
    let all = Seq::new(count, |i: int| raw[(from + i) as u64]);
    let rest = Seq::new((count - 1) as nat, |i: int| raw[((from + 1) as u64 + i) as u64]);
    assert forall|i: int| 0 <= i < count implies all[i] == (seq![raw[from]] + rest)[i] by {
        if i > 0 {
            assert(rest[i - 1] == raw[((from + 1) as u64 + (i - 1)) as u64]);
        }
    }
    assert(all =~= seq![raw[from]] + rest);
}

proof fn run_is_filtered(raw: Map<u64, Option<String>>, from: u64, count: nat)
    requires
        from + count <= u64::MAX + 1,
        forall|k: u64| from <= k < from + count ==> #[trigger] raw.contains_key(k),
        from + count <= u64::MAX ==> !raw.contains_key((from + count) as u64),
    ensures
        run_texts(transcripts(raw), from) == Seq::new(
            count,
            |i: int| raw[(from + i) as u64],
        ).filter(|transcript: Option<String>| transcript is Some).map_values(
            |transcript: Option<String>| (transcript->0)@,
        ),
        run_end(transcripts(raw), from) == (if from + count <= u64::MAX {
            from + count
        } else {
            u64::MAX as int
        }),
    decreases count,
{
    let there = |transcript: Option<String>| transcript is Some;
    let said = |transcript: Option<String>| (transcript->0)@;
    let all = Seq::new(count, |i: int| raw[(from + i) as u64]);
    let pending = transcripts(raw);
    reveal(Seq::filter);
    if count == 0 {
        assert(!pending.contains_key(from));
        assert(all.filter(there).map_values(said) =~= Seq::<Seq<char>>::empty());
    } else {
        assert(raw.contains_key(from));
        assert(pending.contains_key(from));
        assert(pending[from] == text_of(raw[from]));
        let one = seq![raw[from]];
        let rest = Seq::new((count - 1) as nat, |i: int| raw[((from + 1) as u64 + i) as u64]);
        transcripts_from(raw, from, count);
        Seq::filter_distributes_over_add(one, rest, there);
        assert(one.drop_last() =~= Seq::<Option<String>>::empty());
        assert(one.drop_last().filter(there) =~= Seq::<Option<String>>::empty());
        assert(one.filter(there) =~= if raw[from] is Some {
            one
        } else {
            Seq::empty()
        });
        assert(one.filter(there).map_values(said) =~= text_in(pending[from]));
        assert((one.filter(there) + rest.filter(there)).map_values(said) =~= one.filter(
            there,
        ).map_values(said) + rest.filter(there).map_values(said));
        if from < u64::MAX {
            run_is_filtered(raw, (from + 1) as u64, (count - 1) as nat);
        } else {
            assert(rest =~= Seq::<Option<String>>::empty());
            assert(rest.filter(there).map_values(said) =~= Seq::<Seq<char>>::empty());
            assert(text_in(pending[from]) + Seq::<Seq<char>>::empty() =~= text_in(pending[from]));
        }
    }
}

/// When a transcript came in and those from the next number on are there, up to
/// some number, then what is put out is the texts of those among them that have
/// one: each text as it is, in the order of the numbers. The others wait on.
pub proof fn texts_come_out_whole(
    waiting: Map<u64, Option<String>>,
    sequence: u64,
    text: Option<String>,
    next: u64,
    count: nat,
    texts: Seq<String>,
    effects: Seq<Effect>,
)
    requires
        next + count <= u64::MAX + 1,
        forall|k: u64|
            next <= k < next + count ==> k == sequence || #[trigger] waiting.contains_key(k),
        next + count <= u64::MAX ==> next + count != sequence && !waiting.contains_key(
            (next + count) as u64,
        ),
    ensures
        ({
            let pending = transcripts(waiting).insert(sequence, text_of(text));
            let expected = Seq::new(
                count,
                |i: int| waiting.insert(sequence, text)[(next + i) as u64],
            ).filter(|transcript: Option<String>| transcript is Some).map_values(
                |transcript: Option<String>| (transcript->0)@,
            );
            &&& are_texts(texts, run_texts(pending, next)) ==> texts.map_values(|text: String| text@)
                == expected
            &&& are_outputs(effects, run_texts(pending, next)) ==> effects.len() == expected.len()
                && forall|i: int|
                0 <= i < effects.len() ==> (#[trigger] effects[i] matches Effect::Output(text)
                    && text@ == expected[i])
            &&& run_end(pending, next) == (if next + count <= u64::MAX {
                next + count
            } else {
                u64::MAX as int
            })
            &&& forall|k: u64| #[trigger]
                without_run(pending, next).contains_key(k) <==> (waiting.contains_key(k) || k
                    == sequence) && !(next <= k < next + count)
            &&& forall|k: u64| #[trigger]
                without_run(pending, next).contains_key(k) ==> (match waiting.insert(
                    sequence,
                    text,
                )[k] {
                    Some(text) => without_run(pending, next)[k] == Some(text@),
                    None => without_run(pending, next)[k] is None,
                })
        }),
{
    let raw = waiting.insert(sequence, text);
    let pending = transcripts(waiting).insert(sequence, text_of(text));
    assert(pending =~= transcripts(raw));
    run_is_filtered(raw, next, count);
    if are_texts(texts, run_texts(pending, next)) {
        assert(texts.map_values(|text: String| text@) =~= run_texts(pending, next));
    }
    assert forall|k: u64| #[trigger] without_run(pending, next).contains_key(k) <==> (
    waiting.contains_key(k) || k == sequence) && !(next <= k < next + count) by {
        if next <= k && in_run(pending, next, k) && next + count <= k {
            assert(!pending.contains_key((next + count) as u64));
        }
        if next <= k < next + count {
            assert forall|j: u64| next <= j <= k implies #[trigger] pending.contains_key(j) by {
                assert(j == sequence || waiting.contains_key(j));
            }
        }
    }
}

proof fn arrived_is_given(
    arrivals: Seq<(u64, Option<Seq<char>>)>,
    number: u64,
    transcript: Option<Seq<char>>,
    i: int,
)
    requires
        numbered_apart(arrivals),
        0 <= i < arrivals.len(),
        arrivals[i] == (number, transcript),
    ensures
        arrived(arrivals).contains_key(number),
        arrived(arrivals)[number] == transcript,
    decreases arrivals.len(),
{
    let before = arrivals.drop_last();
    let last = arrivals.len() - 1;
    if i < last {
        assert(numbered_apart(before)) by {
            assert(forall|j: int| 0 <= j < before.len() ==> before[j] == arrivals[j]);
        }
        assert(before[i] == arrivals[i]);
        arrived_is_given(before, number, transcript, i);
        assert(arrivals[last].0 != arrivals[i].0);
    }
}

proof fn texts_are_filtered(
    given: Map<u64, Option<Seq<char>>>,
    said: Seq<Option<Seq<char>>>,
    next: nat,
)
    requires
        1 <= next <= said.len() + 1,
        said.len() < u64::MAX,
        forall|i: int| 0 <= i < said.len() ==> given[(i + 1) as u64] == #[trigger] said[i],
    ensures
        texts_before(given, next) == said.take(next - 1).filter(
            |transcript: Option<Seq<char>>| transcript is Some,
        ).map_values(|transcript: Option<Seq<char>>| transcript->0),
    decreases next,
{
    let there = |transcript: Option<Seq<char>>| transcript is Some;
    let text = |transcript: Option<Seq<char>>| transcript->0;
    let front = said.take(next - 1);
    reveal(Seq::filter);
    if next > 1 {
        texts_are_filtered(given, said, (next - 1) as nat);
        assert(front.drop_last() =~= said.take(next - 2));
        assert(front.last() == said[next - 2]);
        assert(given[(next - 2 + 1) as u64] == said[next - 2]);
        assert(front.filter(there).map_values(text) =~= said.take(next - 2).filter(
            there,
        ).map_values(text) + text_in(said[next - 2]));
    } else {
        assert(front.filter(there).map_values(text) =~= Seq::<Seq<char>>::empty());
    }
}

/// When just the transcripts from the first to the last of some list came in, and
/// maybe later ones but not the one that follows, each under a number of its own
/// and in whatever order, then what was put out is the texts in the list: every
/// transcript that has a text gives that text, one without gives none, and they
/// stand in the order of the list.
pub proof fn every_text_comes_out_once(
    arrivals: Seq<(u64, Option<Seq<char>>)>,
    said: Seq<Option<Seq<char>>>,
)
    requires
        forall|i: int| 0 <= i < arrivals.len() ==> 1 <= (#[trigger] arrivals[i]).0 < u64::MAX,
        forall|i: int, j: int|
            0 <= i < j < arrivals.len() ==> (#[trigger] arrivals[i]).0 != (#[trigger] arrivals[j]).0,
        said.len() + 1 < u64::MAX,
        forall|i: int|
            0 <= i < said.len() ==> arrivals.contains(((i + 1) as u64, #[trigger] said[i])),
        forall|i: int| 0 <= i < arrivals.len() ==> (#[trigger] arrivals[i]).0 != said.len() + 1,
    ensures
        delivered(arrivals).out == said.filter(
            |transcript: Option<Seq<char>>| transcript is Some,
        ).map_values(|transcript: Option<Seq<char>>| transcript->0),
        delivered(arrivals).next == said.len() + 1,
{
    arrivals_come_out_in_order(arrivals);
    let given = arrived(arrivals);
    assert forall|i: int| 0 <= i < said.len() implies given[(i + 1) as u64] == #[trigger] said[i]
        && given.contains_key((i + 1) as u64) by {
        let number = (i + 1) as u64;
        assert(arrivals.contains((number, said[i])));
        let k = choose|k: int| 0 <= k < arrivals.len() && arrivals[k] == (number, said[i]);
        arrived_is_given(arrivals, number, said[i], k);
    }
    let end = (said.len() + 1) as u64;
    if given.contains_key(end) {
        arrived_under(arrivals, end);
    }
    let next = delivered(arrivals).next;
    assert(next == end) by {
        if next < end {
            assert(given[(next - 1 + 1) as u64] == said[next - 1]);
        }
    }
    texts_are_filtered(given, said, end as nat);
    assert(said.take(end - 1) =~= said);
}

/// A recording that started runs under a new number and with both timers, and
/// nothing else has changed. One that ended runs no more, without number and
/// timers, and the next one is transcribed under the following number; what waits
/// to be put out and the settings window stay as they were.
pub proof fn recordings_start_and_stop(state: AppController)
    requires
        state.wf(),
    ensures
        ({
            let after = state.started();
            &&& after.recording && after.max_duration_timer && after.overlay_tick_timer
            &&& after.recording_generation.current == Some(after.recording_generation.next)
            &&& state.recording_generation.next < u64::MAX ==> after.recording_generation.next
                == state.recording_generation.next + 1
            &&& after.next_transcription_sequence == state.next_transcription_sequence
            &&& after.next_transcription_to_output == state.next_transcription_to_output
            &&& after.pending_transcripts == state.pending_transcripts
            &&& after.settings_window == state.settings_window
        }),
        ({
            let after = state.stopped();
            &&& !after.recording && !after.max_duration_timer && !after.overlay_tick_timer
            &&& state.recording ==> after.recording_generation.current is None
            &&& state.recording && state.next_transcription_sequence < u64::MAX
                ==> after.next_transcription_sequence == state.next_transcription_sequence + 1
            &&& after.recording_generation.next == state.recording_generation.next
            &&& !state.recording ==> after == state
            &&& after.next_transcription_to_output == state.next_transcription_to_output
            &&& after.pending_transcripts == state.pending_transcripts
            &&& after.settings_window == state.settings_window
        }),
        ({
            let after = state.idle();
            &&& !after.recording && !after.max_duration_timer && !after.overlay_tick_timer
            &&& after.recording_generation == state.recording_generation
            &&& after.next_transcription_sequence == state.next_transcription_sequence
            &&& after.next_transcription_to_output == state.next_transcription_to_output
            &&& after.pending_transcripts == state.pending_transcripts
            &&& after.settings_window == state.settings_window
        }),
        ({
            let after = state.ungenerated();
            &&& after.recording_generation.current is None
            &&& after.recording_generation.next == state.recording_generation.next
            &&& after.recording == state.recording
            &&& after.max_duration_timer == state.max_duration_timer
            &&& after.overlay_tick_timer == state.overlay_tick_timer
            &&& after.next_transcription_sequence == state.next_transcription_sequence
            &&& after.next_transcription_to_output == state.next_transcription_to_output
            &&& after.pending_transcripts == state.pending_transcripts
            &&& after.settings_window == state.settings_window
        }),
{
}

/// The end of a recording stops both timers, hides the overlay, and last hands the
/// recording over under the number that is next; where none runs, nothing is done.
pub proof fn end_of_a_recording_is_handed_over(state: AppController)
    ensures
        !state.recording ==> state.stop_effects().len() == 0,
        state.recording ==> ({
            let effects = state.stop_effects();
            &&& effects.len() == 4
            &&& effects.contains(Effect::CancelMaxDurationTimer)
            &&& effects.contains(Effect::CancelOverlayTickTimer)
            &&& effects[2] == Effect::SetRecordingUi(false)
            &&& effects[3] matches Effect::Transcribe { sequence } && sequence
                == state.next_transcription_sequence
        }),
{
    if state.recording {
        assert(state.stop_effects()[0] == Effect::CancelMaxDurationTimer);
        assert(state.stop_effects()[1] == Effect::CancelOverlayTickTimer);
    }
}

} // verus!
