//! The hotkey listener: which keys it grabs, and how it turns key events and
//! readings of the keyboard into presses and releases of the hotkey.

use vstd::prelude::*;

use crate::controller::AppEvent;
use crate::hotkey::{X11Hotkey, CONTROL_MASK, LOCK_MASK, MOD1_MASK, MOD2_MASK, MOD4_MASK, SHIFT_MASK, X11_MODS};
use crate::hotkey::normalize_x11_mods;

verus! {

/// The event type of a key press.
pub const KEY_PRESS: i32 = 2;

/// The event type of a key release.
pub const KEY_RELEASE: i32 = 3;

/// The pressed keys, one bit for each key code, in the order of the codes.
pub open spec fn pressed(keymap: Seq<i8>, keycode: u8) -> bool {
    (keymap[keycode as int / 8] as u8) & (1u8 << (keycode % 8)) != 0
}

/// Whether the key with this code is down.
pub fn keycode_is_down(keymap: &[i8; 32], keycode: u8) -> (down: bool)
    ensures
        down == pressed(keymap@, keycode),
{
    let index: usize = (keycode / 8) as usize;
    let bit: u8 = keycode % 8;
    (keymap[index] as u8) & (1u8 << bit) != 0
}

/// What the display server says of a key name: its symbol, 0 where there is
/// none, and the code of the key that gives the symbol.
#[derive(Clone, Copy, Debug, PartialEq, Eq, Structural)]
pub struct KeyLookup {
    pub keysym: u64,
    pub keycode: u8,
}

/// Whether one of some keys exists and is down.
pub open spec fn any_down(keymap: Seq<i8>, keys: Seq<KeyLookup>) -> bool {
    exists|i: int|
        0 <= i < keys.len() && (#[trigger] keys[i]).keysym != 0 && pressed(keymap, keys[i].keycode)
}

/// Whether one of the keys exists and is down.
pub fn any_keysym_is_down(keymap: &[i8; 32], keys: &Vec<KeyLookup>) -> (down: bool)
    ensures
        down == any_down(keymap@, keys@),
{
    for i in 0..keys.len()
        invariant
            forall|j: int|
                0 <= j < i ==> !((#[trigger] keys@[j]).keysym != 0 && pressed(
                    keymap@,
                    keys@[j].keycode,
                )),
    {
        let key = keys[i];
        if key.keysym != 0 && keycode_is_down(keymap, key.keycode) {
            return true;
        }
    }
    false
}

/// The names of the shift keys.
pub fn shift_key_names() -> (names: Vec<&'static str>)
    ensures
        names@ == seq!["Shift_L", "Shift_R"],
{
    vec!["Shift_L", "Shift_R"]
}

/// The names of the control keys.
pub fn control_key_names() -> (names: Vec<&'static str>)
    ensures
        names@ == seq!["Control_L", "Control_R"],
{
    vec!["Control_L", "Control_R"]
}

/// The names of the keys that can stand for alt.
pub fn mod1_key_names() -> (names: Vec<&'static str>)
    ensures
        names@ == seq!["Alt_L", "Alt_R", "Meta_L", "Meta_R"],
{
    vec!["Alt_L", "Alt_R", "Meta_L", "Meta_R"]
}

/// The names of the keys that can stand for super.
pub fn mod4_key_names() -> (names: Vec<&'static str>)
    ensures
        names@ == seq!["Super_L", "Super_R", "Hyper_L", "Hyper_R", "Meta_L", "Meta_R"],
{
    vec!["Super_L", "Super_R", "Hyper_L", "Hyper_R", "Meta_L", "Meta_R"]
}

/// What the display server says of the keys of each modifier.
#[derive(Clone, Debug)]
pub struct ModifierKeys {
    pub shift: Vec<KeyLookup>,
    pub control: Vec<KeyLookup>,
    pub mod1: Vec<KeyLookup>,
    pub mod4: Vec<KeyLookup>,
}

/// Whether for each of the modifier bits one of its keys is down.
pub open spec fn modifiers_down(keymap: Seq<i8>, modifiers: u32, keys: ModifierKeys) -> bool {
    &&& modifiers & SHIFT_MASK != 0 ==> any_down(keymap, keys.shift@)
    &&& modifiers & CONTROL_MASK != 0 ==> any_down(keymap, keys.control@)
    &&& modifiers & MOD1_MASK != 0 ==> any_down(keymap, keys.mod1@)
    &&& modifiers & MOD4_MASK != 0 ==> any_down(keymap, keys.mod4@)
}

/// Whether for each of the modifier bits one of its keys is down.
pub fn required_modifiers_are_down(
    keymap: &[i8; 32],
    modifiers: u32,
    keys: &ModifierKeys,
) -> (down: bool)
    ensures
        down == modifiers_down(keymap@, modifiers, *keys),
{
    (modifiers & SHIFT_MASK == 0 || any_keysym_is_down(keymap, &keys.shift)) && (modifiers
        & CONTROL_MASK == 0 || any_keysym_is_down(keymap, &keys.control)) && (modifiers & MOD1_MASK
        == 0 || any_keysym_is_down(keymap, &keys.mod1)) && (modifiers & MOD4_MASK == 0
        || any_keysym_is_down(keymap, &keys.mod4))
}

/// A grab of a key: the key's code, and the modifier bits that go with it.
#[derive(Clone, Copy, Debug, PartialEq, Eq, Structural)]
pub struct ActiveGrab {
    pub keycode: u8,
    pub modifiers: u32,
}

/// Whether the grabbed key and its modifiers are down.
pub open spec fn physically_down(keymap: Seq<i8>, grab: ActiveGrab, keys: ModifierKeys) -> bool {
    pressed(keymap, grab.keycode) && modifiers_down(keymap, grab.modifiers, keys)
}

/// Whether the grabbed key and its modifiers are down.
pub fn hotkey_is_physically_down(keymap: &[i8; 32], grab: ActiveGrab, keys: &ModifierKeys) -> (down:
    bool)
    ensures
        down == physically_down(keymap@, grab, *keys),
{
    keycode_is_down(keymap, grab.keycode) && required_modifiers_are_down(
        keymap,
        grab.modifiers,
        keys,
    )
}

impl ActiveGrab {
    /// The modifier states under which the key is grabbed: the hotkey's bits
    /// with caps lock and num lock each off and on.
    pub fn masks(&self) -> (masks: Vec<u32>)
        ensures
            masks@ == seq![
                self.modifiers | 0,
                self.modifiers | LOCK_MASK,
                self.modifiers | MOD2_MASK,
                self.modifiers | (LOCK_MASK | MOD2_MASK),
            ],
            masks@ == seq![
                self.modifiers | 0,
                self.modifiers | 2,
                self.modifiers | 16,
                self.modifiers | (2u32 | 16),
            ],
    {
        vec![
            self.modifiers | 0,
            self.modifiers | LOCK_MASK,
            self.modifiers | MOD2_MASK,
            self.modifiers | (LOCK_MASK | MOD2_MASK),
        ]
    }
}

/// The grab for a hotkey whose key has some code; the code 0 says that no key
/// gives the symbol, and then there is nothing to grab.
pub open spec fn grab_for(hotkey: X11Hotkey, keycode: u8) -> Option<ActiveGrab> {
    if keycode == 0 {
        None
    } else {
        Some(ActiveGrab { keycode, modifiers: hotkey.modifiers })
    }
}

/// The grab for a hotkey whose key has this code.
pub fn install_grab(hotkey: X11Hotkey, keycode: u8) -> (grab: Option<ActiveGrab>)
    ensures
        grab == grab_for(hotkey, keycode),
{
    if keycode == 0 {
        return None;
    }
    Some(ActiveGrab { keycode, modifiers: hotkey.modifiers })
}

/// The state of the listener: the hotkey it listens for, the grab it holds, and
/// whether it has reported a press without a release.
#[derive(Clone, Copy, Debug, PartialEq, Eq, Structural)]
pub struct HotkeyListener {
    pub active_hotkey: Option<X11Hotkey>,
    pub active_grab: Option<ActiveGrab>,
    pub hotkey_pressed: bool,
}

/// What can happen to the listener.
pub enum ListenerInput {
    /// The configuration was read, and asks for this hotkey.
    Configured { hotkey: Option<X11Hotkey> },
    /// The key of the active hotkey was found to have this code.
    Resolved { keycode: u8 },
    /// The keyboard was read while no event was waiting.
    Scanned { answered: bool, down: bool },
    /// A key event of some type came.
    Key { kind: i32, keysym: u64, state: u32 },
}

/// What the display connection has to do when the hotkey changes: release the
/// grab that was held, and grab the key of the new hotkey.
#[derive(Clone, Copy, Debug, PartialEq, Eq, Structural)]
pub struct Regrab {
    pub uninstall: Option<ActiveGrab>,
    pub install: Option<X11Hotkey>,
}

/// Whether a key event is one of the hotkey's key with just its modifiers.
pub open spec fn event_matches(hotkey: X11Hotkey, keysym: u64, state: u32) -> bool {
    keysym == hotkey.keysym && state & X11_MODS == hotkey.modifiers
}

/// The state that follows an input.
pub open spec fn next_state(state: HotkeyListener, input: ListenerInput) -> HotkeyListener {
    match input {
        ListenerInput::Configured { hotkey } => if hotkey == state.active_hotkey {
            state
        } else {
            HotkeyListener { active_hotkey: hotkey, active_grab: None, hotkey_pressed: false }
        },
        ListenerInput::Resolved { keycode } => match state.active_hotkey {
            Some(hotkey) => HotkeyListener { active_grab: grab_for(hotkey, keycode), ..state },
            None => state,
        },
        _ => match report(state, input) {
            Some(AppEvent::HotkeyPressed) => HotkeyListener { hotkey_pressed: true, ..state },
            Some(_) => HotkeyListener { hotkey_pressed: false, ..state },
            None => state,
        },
    }
}

/// What the listener reports on an input: a press of the hotkey that was up, or
/// a release of one that was down. A hotkey that is replaced while it is down
/// counts as released, and so does one that a reading of the keyboard finds up.
pub open spec fn report(state: HotkeyListener, input: ListenerInput) -> Option<AppEvent> {
    match input {
        ListenerInput::Configured { hotkey } => if hotkey != state.active_hotkey
            && state.hotkey_pressed {
            Some(AppEvent::HotkeyReleased)
        } else {
            None
        },
        ListenerInput::Resolved { .. } => None,
        ListenerInput::Scanned { answered, down } => if state.hotkey_pressed
            && state.active_grab is Some && answered && !down {
            Some(AppEvent::HotkeyReleased)
        } else {
            None
        },
        ListenerInput::Key { kind, keysym, state: mods } => match state.active_hotkey {
            Some(hotkey) => if !event_matches(hotkey, keysym, mods) {
                None
            } else if kind == KEY_PRESS && !state.hotkey_pressed {
                Some(AppEvent::HotkeyPressed)
            } else if kind == KEY_RELEASE && state.hotkey_pressed {
                Some(AppEvent::HotkeyReleased)
            } else {
                None
            },
            None => None,
        },
    }
}

impl HotkeyListener {
    /// A listener that listens for nothing yet.
    pub fn new() -> (listener: Self)
        ensures
            listener == (HotkeyListener {
                active_hotkey: None,
                active_grab: None,
                hotkey_pressed: false,
            }),
    {
        HotkeyListener { active_hotkey: None, active_grab: None, hotkey_pressed: false }
    }

    /// Takes the hotkey that the configuration asks for. Gives the event to
    /// report, and what has to be done with the grabs.
    pub fn configure(&mut self, hotkey: Option<X11Hotkey>) -> (outcome: (Option<AppEvent>, Regrab))
        ensures
            *final(self) == next_state(*old(self), ListenerInput::Configured { hotkey }),
            outcome.0 == report(*old(self), ListenerInput::Configured { hotkey }),
            outcome.1 == (if hotkey == old(self).active_hotkey {
                Regrab { uninstall: None, install: None }
            } else {
                Regrab { uninstall: old(self).active_grab, install: hotkey }
            }),
    {
        let same: bool = match (hotkey, self.active_hotkey) {
            (Some(wanted), Some(active)) => wanted == active,
            (None, None) => true,
            _ => false,
        };
        if same {
            return (None, Regrab { uninstall: None, install: None });
        }
        let event = if self.hotkey_pressed {
            Some(AppEvent::HotkeyReleased)
        } else {
            None
        };
        let uninstall = self.active_grab.take();
        self.hotkey_pressed = false;
        self.active_hotkey = hotkey;
        (event, Regrab { uninstall, install: hotkey })
    }

    /// Takes the code of the active hotkey's key. Gives the grab to install.
    pub fn resolved(&mut self, keycode: u8) -> (grab: Option<ActiveGrab>)
        ensures
            *final(self) == next_state(*old(self), ListenerInput::Resolved { keycode }),
            grab == (match old(self).active_hotkey {
                Some(hotkey) => grab_for(hotkey, keycode),
                None => None,
            }),
    {
        match self.active_hotkey {
            Some(hotkey) => {
                self.active_grab = install_grab(hotkey, keycode);
                self.active_grab
            },
            None => None,
        }
    }

    /// The grab for which the keyboard has to be read while no event waits: the
    /// one that is held, while the hotkey is down.
    pub fn scan_wanted(&self) -> (grab: Option<ActiveGrab>)
        ensures
            grab == (if self.hotkey_pressed {
                self.active_grab
            } else {
                None
            }),
    {
        if self.hotkey_pressed {
            self.active_grab
        } else {
            None
        }
    }

    /// Takes a reading of the keyboard; `answered` says whether the display
    /// server gave one. Gives the event to report.
    pub fn scanned(&mut self, answered: bool, keymap: &[i8; 32], keys: &ModifierKeys) -> (event:
        Option<AppEvent>)
        ensures
            old(self).active_grab matches Some(grab) ==> {
                let input = ListenerInput::Scanned {
                    answered,
                    down: physically_down(keymap@, grab, *keys),
                };
                *final(self) == next_state(*old(self), input) && event == report(*old(self), input)
            },
            old(self).active_grab is None ==> *final(self) == *old(self) && event is None,
    {
        if self.hotkey_pressed {
            if let Some(grab) = self.active_grab {
                if answered && !hotkey_is_physically_down(keymap, grab, keys) {
                    self.hotkey_pressed = false;
                    return Some(AppEvent::HotkeyReleased);
                }
            }
        }
        None
    }

    /// Takes an event: its type, the symbol of its key and its modifier state.
    /// Gives the event to report.
    pub fn key_event(&mut self, kind: i32, keysym: u64, state: u32) -> (event: Option<AppEvent>)
        ensures
            *final(self) == next_state(*old(self), ListenerInput::Key { kind, keysym, state }),
            event == report(*old(self), ListenerInput::Key { kind, keysym, state }),
    {
        if kind != KEY_PRESS && kind != KEY_RELEASE {
            return None;
        }
        let hotkey = match self.active_hotkey {
            Some(hotkey) => hotkey,
            None => {
                return None;
            },
        };
        if keysym == hotkey.keysym && normalize_x11_mods(state) == hotkey.modifiers {
            if kind == KEY_PRESS && !self.hotkey_pressed {
                self.hotkey_pressed = true;
                return Some(AppEvent::HotkeyPressed);
            }
            if kind == KEY_RELEASE && self.hotkey_pressed {
                self.hotkey_pressed = false;
                return Some(AppEvent::HotkeyReleased);
            }
        }
        None
    }
}

/// What is told where there is no display to listen on.
pub fn display_unavailable() -> (event: AppEvent)
    ensures
        event matches AppEvent::Error(message) && message@
            == "Failed to open X11 display for hotkey listener"@,
{
    AppEvent::Error("Failed to open X11 display for hotkey listener".to_owned())
}

/// The state after a run of inputs.
pub open spec fn state_after(state: HotkeyListener, inputs: Seq<ListenerInput>) -> HotkeyListener
    decreases inputs.len(),
{
    if inputs.len() == 0 {
        state
    } else {
        next_state(state_after(state, inputs.drop_last()), inputs.last())
    }
}

/// What the listener reports over a run of inputs.
pub open spec fn reports(state: HotkeyListener, inputs: Seq<ListenerInput>) -> Seq<AppEvent>
    decreases inputs.len(),
{
    if inputs.len() == 0 {
        Seq::empty()
    } else {
        let before = reports(state, inputs.drop_last());
        match report(state_after(state, inputs.drop_last()), inputs.last()) {
            Some(event) => before.push(event),
            None => before,
        }
    }
}

/// Whatever happens to a listener that starts with the hotkey up, its reports
/// alternate, a press first, and the hotkey counts as down exactly between a
/// press and the release that follows it.
pub proof fn reports_alternate(state: HotkeyListener, inputs: Seq<ListenerInput>)
    requires
        !state.hotkey_pressed,
    ensures
        forall|i: int|
            0 <= i < reports(state, inputs).len() ==> #[trigger] reports(state, inputs)[i] == (if i
                % 2 == 0 {
                AppEvent::HotkeyPressed
            } else {
                AppEvent::HotkeyReleased
            }),
        state_after(state, inputs).hotkey_pressed == (reports(state, inputs).len() % 2 == 1),
    decreases inputs.len(),
{
    if inputs.len() > 0 {
        reports_alternate(state, inputs.drop_last());
    }
}

/// A change of the configured hotkey never leaves the hotkey down, and gives up
/// the grab of the hotkey it replaces.
pub proof fn replaced_hotkey_is_released(state: HotkeyListener, hotkey: Option<X11Hotkey>)
    requires
        hotkey != state.active_hotkey,
    ensures
        !next_state(state, ListenerInput::Configured { hotkey }).hotkey_pressed,
        next_state(state, ListenerInput::Configured { hotkey }).active_grab is None,
        next_state(state, ListenerInput::Configured { hotkey }).active_hotkey == hotkey,
        (report(state, ListenerInput::Configured { hotkey }) == Some(AppEvent::HotkeyReleased))
            == state.hotkey_pressed,
{
}

/// With the hotkey down, a repeated press reports nothing; with it up, a
/// repeated release reports nothing.
pub proof fn repeats_are_silent(state: HotkeyListener, keysym: u64, mods: u32)
    ensures
        state.hotkey_pressed ==> report(
            state,
            ListenerInput::Key { kind: KEY_PRESS, keysym, state: mods },
        ) is None,
        !state.hotkey_pressed ==> report(
            state,
            ListenerInput::Key { kind: KEY_RELEASE, keysym, state: mods },
        ) is None,
{
}

impl HotkeyListener {
    /// Whether a grab that is held is one for the active hotkey, and a hotkey
    /// that is down is there.
    pub open spec fn consistent(self) -> bool {
        &&& self.active_grab matches Some(grab) ==> (self.active_hotkey matches Some(hotkey)
            && grab_for(hotkey, grab.keycode) == Some(grab))
        &&& self.hotkey_pressed ==> self.active_hotkey is Some
    }
}

/// Whatever happens, a listener never holds the grab of a hotkey that is not
/// active, and never takes a hotkey for down where none is active.
pub proof fn listener_stays_consistent(state: HotkeyListener, inputs: Seq<ListenerInput>)
    requires
        state.consistent(),
    ensures
        state_after(state, inputs).consistent(),
    decreases inputs.len(),
{
    if inputs.len() > 0 {
        listener_stays_consistent(state, inputs.drop_last());
    }
}

proof fn bits_agree(mods: u32, wanted: u32)
    ensures
        mods & 0x4d == wanted <==> wanted & 0x4d == wanted && (mods & 1 != 0 <==> wanted & 1 != 0)
            && (mods & 4 != 0 <==> wanted & 4 != 0) && (mods & 8 != 0 <==> wanted & 8 != 0) && (mods
            & 64 != 0 <==> wanted & 64 != 0),
{
    assert((mods & 0x4d == wanted) == (wanted & 0x4d == wanted && (mods & 1 != 0) == (wanted & 1
        != 0) && (mods & 4 != 0) == (wanted & 4 != 0) && (mods & 8 != 0) == (wanted & 8 != 0) && (
    mods & 64 != 0) == (wanted & 64 != 0))) by (bit_vector);
}

/// A key event is reported exactly when it is one of the hotkey's key, its shift,
/// control, alt and super bits are the hotkey's, and it turns the hotkey round: a
/// press of one that is up, or a release of one that is down. Its other bits play
/// no part. The report turns the listener round, and nothing else changes.
pub proof fn hotkey_events_are_reported(
    state: HotkeyListener,
    hotkey: X11Hotkey,
    kind: i32,
    keysym: u64,
    mods: u32,
)
    requires
        state.active_hotkey == Some(hotkey),
        hotkey.modifiers & 0x4d == hotkey.modifiers,
    ensures
        ({
            let input = ListenerInput::Key { kind, keysym, state: mods };
            let matching = keysym == hotkey.keysym && (mods & 1 != 0 <==> hotkey.modifiers & 1 != 0)
                && (mods & 4 != 0 <==> hotkey.modifiers & 4 != 0) && (mods & 8 != 0
                <==> hotkey.modifiers & 8 != 0) && (mods & 64 != 0 <==> hotkey.modifiers & 64 != 0);
            &&& matching && kind == 2 && !state.hotkey_pressed ==> report(state, input) == Some(
                AppEvent::HotkeyPressed,
            ) && next_state(state, input).hotkey_pressed
            &&& matching && kind == 3 && state.hotkey_pressed ==> report(state, input) == Some(
                AppEvent::HotkeyReleased,
            ) && !next_state(state, input).hotkey_pressed
            &&& !matching || (kind == 2 && state.hotkey_pressed) || (kind == 3
                && !state.hotkey_pressed) || (kind != 2 && kind != 3) ==> report(state, input)
                is None && next_state(state, input).hotkey_pressed == state.hotkey_pressed
            &&& next_state(state, input).active_hotkey == state.active_hotkey
            &&& next_state(state, input).active_grab == state.active_grab
        }),
{
    bits_agree(mods, hotkey.modifiers);
}

/// No key event is reported while there is no hotkey.
pub proof fn no_hotkey_no_report(state: HotkeyListener, kind: i32, keysym: u64, mods: u32)
    requires
        state.active_hotkey is None,
    ensures
        report(state, ListenerInput::Key { kind, keysym, state: mods }) is None,
        next_state(state, ListenerInput::Key { kind, keysym, state: mods }) == state,
{
}

/// Caps lock, num lock and all other bits that a hotkey cannot ask for change
/// nothing about a key event.
pub proof fn locks_do_not_matter(
    state: HotkeyListener,
    kind: i32,
    keysym: u64,
    mods: u32,
    locks: u32,
)
    requires
        locks & 0x4d == 0,
    ensures
        2u32 & 0x4d == 0 && 16u32 & 0x4d == 0,
        report(state, ListenerInput::Key { kind, keysym, state: mods | locks }) == report(
            state,
            ListenerInput::Key { kind, keysym, state: mods },
        ),
        next_state(state, ListenerInput::Key { kind, keysym, state: mods | locks }) == next_state(
            state,
            ListenerInput::Key { kind, keysym, state: mods },
        ),
{
    assert(2u32 & 0x4d == 0 && 16u32 & 0x4d == 0) by (bit_vector);
    assert((mods | locks) & 0x4d == mods & 0x4d) by (bit_vector)
        requires
            locks & 0x4d == 0,
    ;
}

/// A reading of the keyboard is reported exactly when it finds a hotkey up that
/// was down, under a grab; then the listener knows that it is up, and nothing else
/// changes.
pub proof fn readings_find_releases(state: HotkeyListener, answered: bool, down: bool)
    ensures
        ({
            let input = ListenerInput::Scanned { answered, down };
            let released = state.hotkey_pressed && state.active_grab is Some && answered && !down;
            &&& released ==> report(state, input) == Some(AppEvent::HotkeyReleased)
                && !next_state(state, input).hotkey_pressed
            &&& !released ==> report(state, input) is None && next_state(state, input) == state
            &&& next_state(state, input).active_hotkey == state.active_hotkey
            &&& next_state(state, input).active_grab == state.active_grab
        }),
{
}

/// The code of a key is grabbed with the modifiers of the hotkey, unless it is 0;
/// nothing is reported, and whether the hotkey is down stays as it was. The same
/// hotkey again changes nothing.
pub proof fn grabs_belong_to_the_hotkey(state: HotkeyListener, keycode: u8)
    ensures
        ({
            let input = ListenerInput::Resolved { keycode };
            let after = next_state(state, input);
            &&& report(state, input) is None
            &&& after.active_hotkey == state.active_hotkey
            &&& after.hotkey_pressed == state.hotkey_pressed
            &&& state.active_hotkey is Some && keycode != 0 ==> after.active_grab is Some && (
            after.active_grab->0).keycode == keycode && (after.active_grab->0).modifiers == (
            state.active_hotkey->0).modifiers
            &&& state.active_hotkey is Some && keycode == 0 ==> after.active_grab is None
        }),
        ({
            let input = ListenerInput::Configured { hotkey: state.active_hotkey };
            report(state, input) is None && next_state(state, input) == state
        }),
{
}

/// The state of the keyboard has a bit for each key, eight to a byte, the low bits
/// first.
pub proof fn keys_have_bits(keymap: Seq<i8>, keycode: u8)
    ensures
        ({
            let byte = keymap[keycode as int / 8] as u8;
            let bit = keycode % 8;
            &&& bit == 0 ==> (pressed(keymap, keycode) <==> byte % 2 == 1)
            &&& bit == 1 ==> (pressed(keymap, keycode) <==> byte / 2 % 2 == 1)
            &&& bit == 2 ==> (pressed(keymap, keycode) <==> byte / 4 % 2 == 1)
            &&& bit == 3 ==> (pressed(keymap, keycode) <==> byte / 8 % 2 == 1)
            &&& bit == 4 ==> (pressed(keymap, keycode) <==> byte / 16 % 2 == 1)
            &&& bit == 5 ==> (pressed(keymap, keycode) <==> byte / 32 % 2 == 1)
            &&& bit == 6 ==> (pressed(keymap, keycode) <==> byte / 64 % 2 == 1)
            &&& bit == 7 ==> (pressed(keymap, keycode) <==> byte / 128 == 1)
        }),
{
    let byte = keymap[keycode as int / 8] as u8;
    let bit: u8 = keycode % 8;
    assert((byte & (1u8 << 0u8) != 0) == (byte % 2 == 1) && (byte & (1u8 << 1u8) != 0) == (byte / 2
        % 2 == 1) && (byte & (1u8 << 2u8) != 0) == (byte / 4 % 2 == 1) && (byte & (1u8 << 3u8) != 0)
        == (byte / 8 % 2 == 1) && (byte & (1u8 << 4u8) != 0) == (byte / 16 % 2 == 1) && (byte & (1u8
        << 5u8) != 0) == (byte / 32 % 2 == 1) && (byte & (1u8 << 6u8) != 0) == (byte / 64 % 2 == 1)
        && (byte & (1u8 << 7u8) != 0) == (byte / 128 == 1)) by (bit_vector);
}

/// The hotkey is down exactly when its key is, and for each of its modifiers one
/// of the keys that exist and stand for it.
pub proof fn hotkey_is_down_with_its_modifiers(
    keymap: Seq<i8>,
    grab: ActiveGrab,
    keys: ModifierKeys,
)
    ensures
        physically_down(keymap, grab, keys) <==> {
            &&& pressed(keymap, grab.keycode)
            &&& grab.modifiers & 1 != 0 ==> exists|i: int|
                0 <= i < keys.shift@.len() && (#[trigger] keys.shift@[i]).keysym != 0 && pressed(
                    keymap,
                    keys.shift@[i].keycode,
                )
            &&& grab.modifiers & 4 != 0 ==> exists|i: int|
                0 <= i < keys.control@.len() && (#[trigger] keys.control@[i]).keysym != 0
                    && pressed(keymap, keys.control@[i].keycode)
            &&& grab.modifiers & 8 != 0 ==> exists|i: int|
                0 <= i < keys.mod1@.len() && (#[trigger] keys.mod1@[i]).keysym != 0 && pressed(
                    keymap,
                    keys.mod1@[i].keycode,
                )
            &&& grab.modifiers & 64 != 0 ==> exists|i: int|
                0 <= i < keys.mod4@.len() && (#[trigger] keys.mod4@[i]).keysym != 0 && pressed(
                    keymap,
                    keys.mod4@[i].keycode,
                )
        },
{
}

} // verus!
