use whisper_gtk::controller::AppEvent;
use whisper_gtk::hotkey::{X11Hotkey, CONTROL_MASK, LOCK_MASK, MOD2_MASK, SHIFT_MASK};
use whisper_gtk::listener::{
    any_keysym_is_down, control_key_names, display_unavailable, keycode_is_down, mod1_key_names,
    mod4_key_names, required_modifiers_are_down, shift_key_names, ActiveGrab, HotkeyListener, KeyLookup,
    ModifierKeys, KEY_PRESS, KEY_RELEASE,
};

const HOTKEY: X11Hotkey = X11Hotkey { keysym: 0xffc5, modifiers: CONTROL_MASK };

fn no_keys() -> ModifierKeys {
    ModifierKeys { shift: vec![], control: vec![], mod1: vec![], mod4: vec![] }
}

#[test]
fn x11_keymap_helper_detects_pressed_keycodes() {
    let mut keymap = [0i8; 32];
    keymap[4] = 1 << 1;
    assert!(keycode_is_down(&keymap, 33));
    assert!(!keycode_is_down(&keymap, 34));
}

#[test]
fn keymap_covers_every_keycode() {
    let mut keymap = [0i8; 32];
    keymap[31] = -128;
    assert!(keycode_is_down(&keymap, 255));
    assert!(!keycode_is_down(&keymap, 254));
    assert!(!keycode_is_down(&keymap, 0));
}

#[test]
fn unknown_key_names_are_never_down() {
    let keymap = [-1i8; 32];
    assert!(!any_keysym_is_down(&keymap, &vec![KeyLookup { keysym: 0, keycode: 9 }]));
    assert!(any_keysym_is_down(
        &keymap,
        &vec![KeyLookup { keysym: 0, keycode: 9 }, KeyLookup { keysym: 1, keycode: 9 }]
    ));
}

#[test]
fn modifiers_have_their_keys() {
    assert_eq!(shift_key_names(), vec!["Shift_L", "Shift_R"]);
    assert_eq!(control_key_names(), vec!["Control_L", "Control_R"]);
    assert_eq!(mod1_key_names(), vec!["Alt_L", "Alt_R", "Meta_L", "Meta_R"]);
    assert_eq!(
        mod4_key_names(),
        vec!["Super_L", "Super_R", "Hyper_L", "Hyper_R", "Meta_L", "Meta_R"]
    );
    let mut keymap = [0i8; 32];
    keymap[4] = 1 << 5;
    let keys = ModifierKeys {
        control: vec![KeyLookup { keysym: 0xffe3, keycode: 37 }],
        ..no_keys()
    };
    assert!(required_modifiers_are_down(&keymap, CONTROL_MASK, &keys));
    assert!(!required_modifiers_are_down(&keymap, CONTROL_MASK | SHIFT_MASK, &keys));
    assert!(required_modifiers_are_down(&[0i8; 32], 0, &keys));
}

#[test]
fn grabs_cover_the_locks() {
    let grab = ActiveGrab { keycode: 74, modifiers: CONTROL_MASK };
    assert_eq!(
        grab.masks(),
        vec![
            CONTROL_MASK,
            CONTROL_MASK | LOCK_MASK,
            CONTROL_MASK | MOD2_MASK,
            CONTROL_MASK | LOCK_MASK | MOD2_MASK
        ]
    );
}

fn listening() -> HotkeyListener {
    let mut listener = HotkeyListener::new();
    let (event, regrab) = listener.configure(Some(HOTKEY));
    assert!(event.is_none());
    assert_eq!(regrab.uninstall, None);
    assert_eq!(regrab.install, Some(HOTKEY));
    assert_eq!(listener.resolved(74), Some(ActiveGrab { keycode: 74, modifiers: CONTROL_MASK }));
    listener
}

#[test]
fn press_and_release_are_told_once() {
    let mut listener = listening();
    assert!(matches!(
        listener.key_event(KEY_PRESS, HOTKEY.keysym, CONTROL_MASK | LOCK_MASK),
        Some(AppEvent::HotkeyPressed)
    ));
    assert!(listener.key_event(KEY_PRESS, HOTKEY.keysym, CONTROL_MASK).is_none());
    assert!(matches!(
        listener.key_event(KEY_RELEASE, HOTKEY.keysym, CONTROL_MASK),
        Some(AppEvent::HotkeyReleased)
    ));
    assert!(listener.key_event(KEY_RELEASE, HOTKEY.keysym, CONTROL_MASK).is_none());
}

#[test]
fn other_keys_are_nothing() {
    let mut listener = listening();
    assert!(listener.key_event(KEY_PRESS, HOTKEY.keysym + 1, CONTROL_MASK).is_none());
    assert!(listener.key_event(KEY_PRESS, HOTKEY.keysym, 0).is_none());
    assert!(listener.key_event(4, HOTKEY.keysym, CONTROL_MASK).is_none());
    assert!(HotkeyListener::new().key_event(KEY_PRESS, HOTKEY.keysym, CONTROL_MASK).is_none());
}

#[test]
fn replaced_hotkey_counts_as_released() {
    let mut listener = listening();
    assert!(listener.key_event(KEY_PRESS, HOTKEY.keysym, CONTROL_MASK).is_some());
    assert!(listener.configure(Some(HOTKEY)).0.is_none());
    let (event, regrab) = listener.configure(None);
    assert!(matches!(event, Some(AppEvent::HotkeyReleased)));
    assert_eq!(regrab.uninstall, Some(ActiveGrab { keycode: 74, modifiers: CONTROL_MASK }));
    assert_eq!(regrab.install, None);
    assert_eq!(listener.resolved(74), None);
}

#[test]
fn reading_the_keyboard_finds_a_lost_release() {
    let mut listener = listening();
    assert_eq!(listener.scan_wanted(), None);
    assert!(listener.key_event(KEY_PRESS, HOTKEY.keysym, CONTROL_MASK).is_some());
    assert!(listener.scan_wanted().is_some());
    assert!(listener.scanned(false, &[0i8; 32], &no_keys()).is_none());
    let mut down = [0i8; 32];
    down[9] = 1 << 2;
    down[4] = 1 << 5;
    let keys = ModifierKeys {
        control: vec![KeyLookup { keysym: 0xffe3, keycode: 37 }],
        ..no_keys()
    };
    assert!(listener.scanned(true, &down, &keys).is_none());
    assert!(matches!(
        listener.scanned(true, &[0i8; 32], &keys),
        Some(AppEvent::HotkeyReleased)
    ));
    assert!(listener.scanned(true, &[0i8; 32], &keys).is_none());
}

#[test]
fn key_without_a_code_is_not_grabbed() {
    let mut listener = HotkeyListener::new();
    let _ = listener.configure(Some(HOTKEY));
    assert_eq!(listener.resolved(0), None);
}

#[test]
fn missing_display_is_told() {
    assert!(matches!(
        display_unavailable(),
        AppEvent::Error(message) if message == "Failed to open X11 display for hotkey listener"
    ));
}
