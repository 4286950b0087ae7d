use whisper_gtk::whisper::{
    default_whisper_model_path, inference_threads, list_whisper_models, list_whisper_models_in,
    preload_whisper_state, transcribe_with_state, validate_whisper_model_path, whisper_model_path,
    FileEntry, Segment, SharedEntry, WhisperError, DEFAULT_WHISPER_MODEL_PATH,
};

fn file(name: &str) -> FileEntry {
    FileEntry { name: Some(name.to_string()), is_file: true }
}

fn directory(name: &str, files: Vec<FileEntry>) -> SharedEntry {
    SharedEntry { name: Some(name.to_string()), is_dir: true, files: Some(files) }
}

#[test]
fn models_are_listed_in_order() {
    let entries = vec![
        directory("whisper.cpp-model-tiny", vec![file("ggml-tiny.bin")]),
        directory("fonts", vec![file("ggml-not.bin")]),
        directory(
            "whisper.cpp-model-base",
            vec![
                file("ggml-z.bin"),
                file("readme.txt"),
                file("ggml-a.bin"),
                file("ggml-a.txt"),
                file("a-ggml-.bin"),
                FileEntry { name: Some("ggml-dir.bin".to_string()), is_file: false },
                FileEntry { name: None, is_file: true },
            ],
        ),
        SharedEntry { name: None, is_dir: true, files: Some(vec![file("ggml-x.bin")]) },
        SharedEntry {
            name: Some("whisper.cpp-model-file".to_string()),
            is_dir: false,
            files: Some(vec![file("ggml-x.bin")]),
        },
        SharedEntry {
            name: Some("whisper.cpp-model-closed".to_string()),
            is_dir: true,
            files: None,
        },
    ];
    assert_eq!(
        list_whisper_models_in("/opt", &entries),
        vec![
            "/opt/whisper.cpp-model-base/ggml-a.bin",
            "/opt/whisper.cpp-model-base/ggml-z.bin",
            "/opt/whisper.cpp-model-tiny/ggml-tiny.bin",
        ]
    );
    assert_eq!(
        list_whisper_models(&entries)[0],
        "/usr/share/whisper.cpp-model-base/ggml-a.bin"
    );
    assert!(list_whisper_models(&vec![]).is_empty());
}

#[test]
fn directories_are_ordered_before_their_files() {
    let entries = vec![
        directory("whisper.cpp-model-a-b", vec![file("ggml-1.bin")]),
        directory("whisper.cpp-model-a", vec![file("ggml-2.bin")]),
    ];
    assert_eq!(
        list_whisper_models_in("/m", &entries),
        vec!["/m/whisper.cpp-model-a/ggml-2.bin", "/m/whisper.cpp-model-a-b/ggml-1.bin"]
    );
}

#[test]
fn preferred_model_comes_first() {
    let models = vec!["/a".to_string(), "/b".to_string()];
    assert_eq!(default_whisper_model_path(true, &models), DEFAULT_WHISPER_MODEL_PATH);
    assert_eq!(default_whisper_model_path(false, &models), "/a");
    assert_eq!(default_whisper_model_path(false, &vec![]), DEFAULT_WHISPER_MODEL_PATH);
}

#[test]
fn configured_model_comes_before_the_environment() {
    let some = |text: &str| Some(text.to_string());
    let path = |configured, variable| whisper_model_path(configured, variable, "/d".to_string());
    assert_eq!(path(some("/c"), Some(some("/v"))).unwrap(), "/c");
    assert_eq!(path(None, Some(some("/v"))).unwrap(), "/v");
    assert_eq!(path(None, None).unwrap(), "/d");
    assert!(matches!(path(None, Some(None)), Err(WhisperError::InvalidPath)));
    assert_eq!(path(some("/c"), Some(None)).unwrap(), "/c");
}

#[test]
fn models_have_to_load_and_start() {
    let bad = || Err("bad".to_string());
    let valid = |loaded, state| validate_whisper_model_path("/m".to_string(), loaded, state);
    assert!(valid(Ok(()), Ok(())).is_ok());
    assert_eq!(
        valid(bad(), bad()).unwrap_err().message(),
        "failed to load whisper model /m: bad"
    );
    assert_eq!(
        valid(Ok(()), bad()).unwrap_err().message(),
        "failed to create whisper state: bad"
    );
    assert_eq!(
        preload_whisper_state(Err(WhisperError::InvalidPath), Ok(()), Ok(()))
            .unwrap_err()
            .message(),
        "invalid whisper model path"
    );
    assert!(preload_whisper_state(Ok("/m".to_string()), Ok(()), Ok(())).is_ok());
}

#[test]
fn recognition_has_at_least_one_thread() {
    assert_eq!(inference_threads(0), 1);
    assert_eq!(inference_threads(1), 1);
    assert_eq!(inference_threads(12), 12);
    assert_eq!(inference_threads(0x1_0000_0005), 5);
}

fn segment(text: &str) -> Segment {
    Segment::Text(text.to_string())
}

#[test]
fn segments_are_joined_with_one_space() {
    let transcript = |segments: Vec<Segment>| transcribe_with_state(Ok(()), &segments).unwrap();
    assert_eq!(transcript(vec![segment(" Hello,"), segment(" world. ")]), "Hello, world.");
    assert_eq!(transcript(vec![segment("a"), segment(" "), segment("b")]), "a  b");
    assert_eq!(transcript(vec![segment(" "), segment("a"), segment("")]), "a");
    assert_eq!(transcript(vec![]), "");
    assert_eq!(transcript(vec![segment(" \n")]), "");
}

#[test]
fn first_bad_segment_is_told() {
    let error = |segments: Vec<Segment>| {
        transcribe_with_state(Ok(()), &segments).unwrap_err().message()
    };
    assert_eq!(
        error(vec![segment("a"), Segment::Missing, Segment::Invalid("x".to_string())]),
        "missing whisper segment at index 1"
    );
    assert_eq!(
        error(vec![Segment::Invalid("byte 3".to_string()), Segment::Missing]),
        "invalid utf-8 in whisper segment: byte 3"
    );
    assert_eq!(
        transcribe_with_state(Err("out of memory".to_string()), &vec![Segment::Missing])
            .unwrap_err()
            .message(),
        "whisper inference failed: out of memory"
    );
}
