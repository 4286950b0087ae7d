use whisper_gtk::hotkey::{
    hotkey_matches, normalize_mods, normalize_x11_mods, parse_x11_hotkey, Hotkey, X11Hotkey,
    CONTROL_MASK, LOCK_MASK, MOD1_MASK, MOD4_MASK, SHIFT_MASK,
};

const F8: u32 = 0xffc5;

#[test]
fn hotkey_match_ignores_lock_masks() {
    let hotkey = Hotkey { key: F8, mods: CONTROL_MASK };
    assert!(hotkey_matches(hotkey, F8, CONTROL_MASK | LOCK_MASK));
}

#[test]
fn hotkey_match_needs_key_and_modifiers() {
    let hotkey = Hotkey { key: F8, mods: CONTROL_MASK };
    assert!(!hotkey_matches(hotkey, F8 + 1, CONTROL_MASK));
    assert!(!hotkey_matches(hotkey, F8, CONTROL_MASK | SHIFT_MASK));
    assert!(!hotkey_matches(hotkey, F8, 0));
    assert_eq!(normalize_mods(0xffff_ffff), 0x1c00_000d);
    assert_eq!(normalize_x11_mods(0xffff_ffff), 0x4d);
}

#[test]
fn x11_hotkey_parser_accepts_gtk_accelerators_without_gtk_threading() {
    assert!(parse_x11_hotkey("<F8>").is_some());
    assert!(parse_x11_hotkey("<Control><Alt>F8").is_some());
    assert!(parse_x11_hotkey("Control+Alt+F8").is_some());
    assert!(parse_x11_hotkey("").is_none());
}

fn parts(accelerator: &str) -> Option<(String, u32)> {
    parse_x11_hotkey(accelerator).map(|c| (c.key, c.modifiers))
}

#[test]
fn accelerators_are_taken_apart() {
    assert_eq!(parts("<F8>"), Some(("F8".to_string(), 0)));
    assert_eq!(parts("<Control><Alt>F8"), Some(("F8".to_string(), CONTROL_MASK | MOD1_MASK)));
    assert_eq!(parts(" Control + Alt + F8 "), Some(("F8".to_string(), CONTROL_MASK | MOD1_MASK)));
    assert_eq!(parts("<SUPER> space"), Some(("space".to_string(), MOD4_MASK)));
    assert_eq!(parts("<Shift>a"), Some(("a".to_string(), SHIFT_MASK)));
    assert_eq!(parts("a+b"), Some(("b".to_string(), 0)));
}

#[test]
fn accelerators_without_a_key_are_refused() {
    assert_eq!(parts("   "), None);
    assert_eq!(parts("<Control>"), None);
    assert_eq!(parts("Control+Alt"), None);
    assert_eq!(parts("+"), None);
    assert_eq!(parts("<Nonsense>F8"), None);
    assert_eq!(parts("F\08"), None);
}

#[test]
fn unclosed_bracket_is_part_of_the_key() {
    assert_eq!(parts("<Control"), Some(("<Control".to_string(), 0)));
    assert_eq!(parts("<Control><F8"), Some(("<F8".to_string(), CONTROL_MASK)));
}

#[test]
fn only_known_keys_make_hotkeys() {
    let combination = parse_x11_hotkey("<Control>F8").unwrap();
    assert_eq!(
        combination.resolve(0xffc5),
        Some(X11Hotkey { keysym: 0xffc5, modifiers: CONTROL_MASK })
    );
    assert_eq!(combination.resolve(0), None);
}

#[test]
fn order_repetition_and_case_of_modifiers_do_not_matter() {
    let expected = Some(("F8".to_string(), CONTROL_MASK | MOD1_MASK));
    assert_eq!(parts("<Alt><Control>F8"), expected);
    assert_eq!(parts("<Control><Alt><Control><Alt>F8"), expected);
    assert_eq!(parts("<cONTROL><aLT>F8"), expected);
    assert_eq!(parts("<Ctrl><Mod1>F8"), expected);
}

#[test]
fn modifiers_alone_are_refused() {
    assert_eq!(parts("<Control><Alt>"), None);
    assert_eq!(parts("<Shift><Shift> \t"), None);
    assert_eq!(parts(" \n"), None);
}
