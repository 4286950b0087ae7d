use whisper_gtk::pulse::{
    context_step, default_audio_source, is_last_reply, list_audio_sources, recording_buffer_attr,
    recording_sample_spec, BufferAttributes, ContextState, ContextStep, SampleFormat, SampleSpec,
    SourceReply,
};

#[test]
fn named_sources_are_listed() {
    let replies = vec![
        SourceReply::Item(Some("mic".to_string())),
        SourceReply::Item(None),
        SourceReply::Item(Some("line".to_string())),
        SourceReply::End,
    ];
    let last: Vec<bool> = replies.iter().map(is_last_reply).collect();
    assert_eq!(last, vec![false, false, false, true]);
    assert!(is_last_reply(&SourceReply::Error));
    assert_eq!(list_audio_sources(Some(replies)), vec!["mic", "line"]);
    assert!(list_audio_sources(Some(vec![SourceReply::Error])).is_empty());
    assert!(list_audio_sources(None).is_empty());
}

#[test]
fn default_source_is_what_the_server_told() {
    assert_eq!(default_audio_source(Some(Some("mic".to_string()))), Some("mic".to_string()));
    assert_eq!(default_audio_source(Some(None)), None);
    assert_eq!(default_audio_source(None), None);
}

#[test]
fn recording_asks_for_small_fragments() {
    assert_eq!(
        recording_buffer_attr(),
        BufferAttributes {
            maxlength: u32::MAX,
            tlength: u32::MAX,
            prebuf: u32::MAX,
            minreq: u32::MAX,
            fragsize: 960,
        }
    );
    assert_eq!(
        recording_sample_spec(),
        SampleSpec { format: SampleFormat::S16le, channels: 1, rate: 16_000 }
    );
}

#[test]
fn connection_is_awaited_used_or_given_up() {
    for state in [
        ContextState::Unconnected,
        ContextState::Connecting,
        ContextState::Authorizing,
        ContextState::SettingName,
    ] {
        assert!(matches!(context_step(state), ContextStep::Wait));
    }
    assert!(matches!(context_step(ContextState::Ready), ContextStep::Use));
    for (state, message) in [
        (ContextState::Failed, "PulseAudio context initialization failed: Failed"),
        (ContextState::Terminated, "PulseAudio context initialization failed: Terminated"),
    ] {
        match context_step(state) {
            ContextStep::GiveUp(told) => assert_eq!(told, message),
            other => panic!("not given up: {:?}", other),
        }
    }
}
