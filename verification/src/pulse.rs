//! The sound server: what is asked of it when a recording starts, and what is
//! made of its answers.

use vstd::prelude::*;

use crate::audio::SAMPLE_RATE;
use crate::config::text_of;
use crate::recording::recording_chunk_bytes;
use crate::text;
use crate::text::{push_text, texts_of};

verus! {

/// How samples are laid out.
#[derive(Debug, Clone, Copy, PartialEq, Eq, Structural)]
pub enum SampleFormat {
    /// Signed 16-bit numbers, the low byte first.
    S16le,
}

/// The kind of sound that is recorded.
#[derive(Debug, Clone, Copy, PartialEq, Eq, Structural)]
pub struct SampleSpec {
    pub format: SampleFormat,
    pub channels: u8,
    pub rate: u32,
}

/// The kind of sound that is recorded.
pub fn recording_sample_spec() -> (spec: SampleSpec)
    ensures
        spec == (SampleSpec { format: SampleFormat::S16le, channels: 1, rate: SAMPLE_RATE }),
        spec.rate == 16_000,
{
    SampleSpec { format: SampleFormat::S16le, channels: 1, rate: SAMPLE_RATE }
}

/// How the server buffers sound. The largest number leaves the choice to it.
#[derive(Debug, Clone, Copy, PartialEq, Eq, Structural)]
pub struct BufferAttributes {
    pub maxlength: u32,
    pub tlength: u32,
    pub prebuf: u32,
    pub minreq: u32,
    pub fragsize: u32,
}

/// How the server buffers a recording: in fragments of one chunk, with the rest
/// left to it.
pub fn recording_buffer_attr() -> (attributes: BufferAttributes)
    ensures
        attributes == (BufferAttributes {
            maxlength: u32::MAX,
            tlength: u32::MAX,
            prebuf: u32::MAX,
            minreq: u32::MAX,
            fragsize: 960,
        }),
{
    BufferAttributes {
        maxlength: u32::MAX,
        tlength: u32::MAX,
        prebuf: u32::MAX,
        minreq: u32::MAX,
        fragsize: recording_chunk_bytes() as u32,
    }
}

/// What the server says when it is asked for its sources.
#[derive(Debug)]
pub enum SourceReply {
    /// A source, which may have no name.
    Item(Option<String>),
    /// There are no more sources.
    End,
    /// The server could not answer.
    Error,
}

/// Whether a reply is the last one.
pub fn is_last_reply(reply: &SourceReply) -> (last: bool)
    ensures
        last == !(reply is Item),
{
    match reply {
        SourceReply::Item(_) => false,
        SourceReply::End => true,
        SourceReply::Error => true,
    }
}

/// The names of the sources in some replies, in their order.
pub open spec fn source_names(replies: Seq<SourceReply>) -> Seq<Seq<char>>
    decreases replies.len(),
{
    if replies.len() == 0 {
        Seq::empty()
    } else {
        let before = source_names(replies.drop_last());
        match replies.last() {
            SourceReply::Item(Some(name)) => before.push(name@),
            _ => before,
        }
    }
}

/// The names of the sources that the server told, in the order in which it told
/// them; none where it could not be reached.
pub fn list_audio_sources(replies: Option<Vec<SourceReply>>) -> (names: Vec<String>)
    ensures
        texts_of(names@) == (match replies {
            Some(replies) => source_names(replies@),
            None => Seq::empty(),
        }),
{
    let mut names: Vec<String> = Vec::new();
    assert(texts_of(names@) =~= Seq::<Seq<char>>::empty());
    let replies = match replies {
        Some(replies) => replies,
        None => {
            return names;
        },
    };
    assert(replies@.take(0) == Seq::<SourceReply>::empty());
    for i in 0..replies.len()
        invariant
            texts_of(names@) == source_names(replies@.take(i as int)),
    {
        proof {
            assert(replies@.take(i + 1).drop_last() == replies@.take(i as int));
            assert(replies@.take(i + 1).last() == replies@[i as int]);
        }
        if let SourceReply::Item(Some(name)) = &replies[i] {
            push_text(&mut names, name.as_str());
        }
    }
    assert(replies@.take(replies@.len() as int) == replies@);
    names
}

/// The name of the default source: what the server told of it, nothing where it
/// could not be reached.
pub fn default_audio_source(server: Option<Option<String>>) -> (source: Option<String>)
    ensures
        text_of(source) == (match server {
            Some(name) => text_of(name),
            None => None,
        }),
{
    match server {
        Some(name) => name,
        None => None,
    }
}

/// How far the connection to the server has come.
#[derive(Debug, Clone, Copy, PartialEq, Eq, Structural)]
pub enum ContextState {
    Unconnected,
    Connecting,
    Authorizing,
    SettingName,
    Ready,
    Failed,
    Terminated,
}

/// What to do with a connection.
#[derive(Debug)]
pub enum ContextStep {
    /// Wait for it to come further.
    Wait,
    /// Use it.
    Use,
    /// Give it up, with this message.
    GiveUp(String),
}

/// What is told of a connection that failed.
pub open spec fn context_failure(state: ContextState) -> Seq<char> {
    "PulseAudio context initialization failed: "@ + (if state == ContextState::Failed {
        "Failed"@
    } else {
        "Terminated"@
    })
}

/// Decides what to do with a connection.
pub fn context_step(state: ContextState) -> (step: ContextStep)
    ensures
        match step {
            ContextStep::Wait => state != ContextState::Ready && state != ContextState::Failed
                && state != ContextState::Terminated,
            ContextStep::Use => state == ContextState::Ready,
            ContextStep::GiveUp(message) => (state == ContextState::Failed || state
                == ContextState::Terminated) && message@ == context_failure(state),
        },
{
    match state {
        ContextState::Ready => ContextStep::Use,
        ContextState::Failed => ContextStep::GiveUp(
            text::joined_text("PulseAudio context initialization failed: ", "Failed"),
        ),
        ContextState::Terminated => ContextStep::GiveUp(
            text::joined_text("PulseAudio context initialization failed: ", "Terminated"),
        ),
        _ => ContextStep::Wait,
    }
}

/// The names that are listed are those of the replies that tell of a source with a
/// name, all of them and in their order.
pub proof fn every_named_source_is_listed(replies: Seq<SourceReply>)
    ensures
        source_names(replies) == replies.filter(
            |reply: SourceReply| reply is Item && reply->Item_0 is Some,
        ).map_values(|reply: SourceReply| (reply->Item_0->0)@),
    decreases replies.len(),
{
    let told = |reply: SourceReply| reply is Item && reply->Item_0 is Some;
    let name = |reply: SourceReply| (reply->Item_0->0)@;
    reveal(Seq::filter);
    if replies.len() == 0 {
        assert(replies.filter(told).map_values(name) =~= Seq::<Seq<char>>::empty());
    } else {
        every_named_source_is_listed(replies.drop_last());
        let before = replies.drop_last().filter(told);
        if told(replies.last()) {
            assert(before.push(replies.last()).map_values(name) =~= before.map_values(name).push(
                name(replies.last()),
            ));
        }
    }
}

/// A connection that failed is told by how it ended.
pub proof fn failures_tell_the_state()
    ensures
        context_failure(ContextState::Failed) == "PulseAudio context initialization failed: "@
            + "Failed"@,
        context_failure(ContextState::Terminated) == "PulseAudio context initialization failed: "@
            + "Terminated"@,
{
}

} // verus!
