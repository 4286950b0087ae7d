use whisper_gtk::config::{
    physical_core_count, physical_core_count_from_cpuinfo, AppConfig, ConfigFile, Host, OutputMode,
    StoredConfig,
};

fn host() -> Host {
    Host { cpuinfo: String::new(), parallelism: Some(8), audio_source: Some("mic".to_string()) }
}

#[test]
fn config_roundtrip() {
    let cfg = AppConfig {
        hotkey: "<Ctrl><Alt>F8".to_string(),
        audio_source: Some("alsa_input".to_string()),
        output_mode: OutputMode::ClipboardPaste,
        max_recording_secs: 42,
        model_path: None,
        whisper_threads: 4,
    };
    let decoded = AppConfig::load(ConfigFile::Holds(cfg.save()), &host());
    assert_eq!(cfg, decoded);
}

#[test]
fn config_persists_to_custom_path() {
    let cfg = AppConfig {
        hotkey: "<Super>F8".to_string(),
        audio_source: Some("default-source".to_string()),
        output_mode: OutputMode::ClipboardPaste,
        max_recording_secs: 55,
        model_path: None,
        whisper_threads: 4,
    };
    let stored = cfg.save();
    let other =
        Host { cpuinfo: String::new(), parallelism: Some(1), audio_source: None };
    assert_eq!(AppConfig::load(ConfigFile::Holds(stored), &other), cfg);
}

#[test]
fn config_normalize_clamps_max_recording_duration() {
    let mut too_low = AppConfig { max_recording_secs: 1, ..AppConfig::default(&host()) };
    too_low.normalize(&host());
    assert_eq!(too_low.max_recording_secs, 5);

    let mut too_high = AppConfig { max_recording_secs: 999, ..AppConfig::default(&host()) };
    too_high.normalize(&host());
    assert_eq!(too_high.max_recording_secs, 180);
}

#[test]
fn normalizing_replaces_a_blank_hotkey_and_no_threads() {
    let mut cfg = AppConfig {
        hotkey: " \t".to_string(),
        whisper_threads: 0,
        ..AppConfig::default(&host())
    };
    cfg.normalize(&host());
    assert_eq!(cfg.hotkey, "<F8>");
    assert_eq!(cfg.whisper_threads, 8);
    let once = cfg.clone();
    cfg.normalize(&host());
    assert_eq!(cfg, once);
}

#[test]
fn defaults_come_from_the_machine() {
    let cfg = AppConfig::load(ConfigFile::Unreadable, &host());
    assert_eq!(cfg.hotkey, "<F8>");
    assert_eq!(cfg.audio_source, Some("mic".to_string()));
    assert_eq!(cfg.output_mode, OutputMode::DirectTyping);
    assert_eq!(cfg.max_recording_secs, 30);
    assert_eq!(cfg.model_path, None);
    assert_eq!(cfg.whisper_threads, 8);
    assert_eq!(AppConfig::load(ConfigFile::Malformed, &host()), cfg);
}

#[test]
fn missing_entries_get_their_defaults() {
    let stored = StoredConfig {
        hotkey: None,
        audio_source: Some(None),
        output_mode: None,
        max_recording_secs: Some(200),
        model_path: None,
        whisper_threads: None,
    };
    let cfg = AppConfig::load(ConfigFile::Holds(stored), &host());
    assert_eq!(cfg.hotkey, "<F8>");
    assert_eq!(cfg.audio_source, None);
    assert_eq!(cfg.max_recording_secs, 180);
    assert_eq!(cfg.whisper_threads, 8);
}

#[test]
fn configuration_lies_below_the_first_place_that_is_named() {
    assert_eq!(
        AppConfig::path(Some(b"/xdg"), Some(b"/home/me")),
        b"/xdg/whisper-gtk/config.json".to_vec()
    );
    assert_eq!(
        AppConfig::path(None, Some(b"/home/me/")),
        b"/home/me/.config/whisper-gtk/config.json".to_vec()
    );
    assert_eq!(AppConfig::path(None, None), b"./whisper-gtk/config.json".to_vec());
    assert_eq!(AppConfig::path(Some(b""), None), b"whisper-gtk/config.json".to_vec());
}

#[test]
fn cores_are_told_apart_by_both_numbers() {
    let cpuinfo = "processor : 0\nphysical id : 0\ncore id : 0\n\n\
                   processor : 1\nphysical id : 0\ncore id : 0\n\n\
                   processor : 2\nphysical id : 0\ncore id : 1\n\n\
                   processor : 3\nphysical id : 1\ncore id : 0";
    assert_eq!(physical_core_count_from_cpuinfo(cpuinfo), Some(3));
    assert_eq!(physical_core_count_from_cpuinfo(&format!("{cpuinfo}\n")), Some(3));
    assert_eq!(physical_core_count(cpuinfo, Some(16)), 3);
}

#[test]
fn cores_fall_back_to_threads_and_to_one() {
    assert_eq!(physical_core_count_from_cpuinfo("model name : x\n"), None);
    assert_eq!(physical_core_count_from_cpuinfo("physical id : x\ncore id : 0\n"), None);
    assert_eq!(physical_core_count("", Some(6)), 6);
    assert_eq!(physical_core_count("", Some(0)), 1);
    assert_eq!(physical_core_count("", None), 1);
}

#[test]
fn blocks_can_be_reordered_and_repeated() {
    let a = "physical id : 0\ncore id : 0";
    let b = "physical id : 0\ncore id : 1\nphysical id : 2";
    let count = |parts: &[&str], blank: &str| {
        physical_core_count_from_cpuinfo(&parts.join(&format!("\n{blank}\n")))
    };
    for blank in ["", " \t"] {
        assert_eq!(count(&[a, b], blank), Some(2));
        assert_eq!(count(&[b, a], blank), Some(2));
        assert_eq!(count(&[a, b, a, b], blank), Some(2));
        assert_eq!(count(&[a, a], blank), Some(1));
    }
    assert_eq!(count(&[a, b], "flags : fpu"), Some(1));
}

#[test]
fn other_lines_do_not_count() {
    let plain = "physical id : 0\ncore id : 3";
    let more = "vendor\nphysical id : 0\ncore id : 3\ncpu cores : 4\ncore ids : 9";
    assert_eq!(physical_core_count_from_cpuinfo(plain), Some(1));
    assert_eq!(physical_core_count_from_cpuinfo(more), Some(1));
    assert_eq!(
        physical_core_count_from_cpuinfo("physical id : 0\ncore id : 3\ncore id : x"),
        None
    );
}
