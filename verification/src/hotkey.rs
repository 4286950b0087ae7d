//! Hotkeys: how an accelerator text names a key and its modifiers, and when a
//! key press matches.

use vstd::prelude::*;
use vstd::slice::slice_subrange;

use crate::text;

verus! {

/// The X11 modifier bit of the shift keys.
pub const SHIFT_MASK: u32 = 1;

/// The X11 modifier bit of the caps lock.
pub const LOCK_MASK: u32 = 2;

/// The X11 modifier bit of the control keys.
pub const CONTROL_MASK: u32 = 4;

/// The X11 modifier bit of the alt keys.
pub const MOD1_MASK: u32 = 8;

/// The X11 modifier bit of the num lock.
pub const MOD2_MASK: u32 = 16;

/// The X11 modifier bit of the super keys.
pub const MOD4_MASK: u32 = 64;

/// A key and its modifiers as the toolkit reports them: a key value and the
/// bits of a modifier state.
#[derive(Debug, Clone, Copy, PartialEq, Eq, Structural)]
pub struct Hotkey {
    pub key: u32,
    pub mods: u32,
}

/// The modifier bits that tell hotkeys apart: shift, control, alt, super, hyper
/// and meta. The lock bits are not among them.
pub const HOTKEY_MODS: u32 = 0x1c00_000d;

/// The modifier bits of `mods` that tell hotkeys apart.
pub fn normalize_mods(mods: u32) -> (normalized: u32)
    ensures
        normalized == mods & HOTKEY_MODS,
{
    mods & HOTKEY_MODS
}

/// Whether a key press with some modifier state is that of the hotkey.
pub fn hotkey_matches(candidate: Hotkey, key: u32, mods: u32) -> (matches: bool)
    ensures
        matches == (candidate.key == key && candidate.mods & HOTKEY_MODS == mods & HOTKEY_MODS),
{
    candidate.key == key && normalize_mods(candidate.mods) == normalize_mods(mods)
}

/// A key press matches a hotkey whatever the lock bits of its modifier state.
pub proof fn lock_bits_do_not_matter(mods: u32, locks: u32)
    requires
        locks & HOTKEY_MODS == 0,
    ensures
        (mods | locks) & HOTKEY_MODS == mods & HOTKEY_MODS,
{
    assert((mods | locks) & 0x1c00_000d == mods & 0x1c00_000d) by (bit_vector)
        requires
            locks & 0x1c00_000d == 0,
    ;
}

/// The X11 modifier bits that a hotkey can ask for.
pub const X11_MODS: u32 = 0x4d;

/// The modifier bits of an X11 event state that a hotkey can ask for.
pub fn normalize_x11_mods(mods: u32) -> (normalized: u32)
    ensures
        normalized == mods & X11_MODS,
{
    mods & X11_MODS
}

/// An X11 hotkey: a key symbol and the modifier bits that go with it.
#[derive(Clone, Copy, Debug, PartialEq, Eq, Structural)]
pub struct X11Hotkey {
    pub keysym: u64,
    pub modifiers: u32,
}

/// The modifier that a token of an accelerator names, in any letter case.
pub open spec fn modifier_mask(token: Seq<char>) -> Option<u32> {
    let name = text::lowercase(token);
    if name == "shift"@ {
        Some(SHIFT_MASK)
    } else if name == "control"@ || name == "ctrl"@ || name == "primary"@ {
        Some(CONTROL_MASK)
    } else if name == "alt"@ || name == "mod1"@ {
        Some(MOD1_MASK)
    } else if name == "super"@ || name == "meta"@ || name == "hyper"@ || name == "mod4"@ {
        Some(MOD4_MASK)
    } else {
        None
    }
}

/// What the bracketed tokens at the front of an accelerator give: the modifier
/// bits, the key where the last token is one, and the text behind the tokens.
pub struct Bracketed {
    pub modifiers: u32,
    pub key: Option<Seq<char>>,
    pub rest: Seq<char>,
}

/// Reads the bracketed tokens at the front of `text`. A token that names no
/// modifier is the key, and then nothing may follow it.
pub open spec fn bracketed(text: Seq<char>, modifiers: u32) -> Option<Bracketed>
    decreases text.len(),
    via bracketed_decreases
{
    let inner = text.skip(1);
    let end = text::first_index(inner, '>');
    if text.len() > 0 && text[0] == '<' && end < inner.len() {
        let token = inner.take(end);
        let rest = text::trimmed_start(inner.skip(end + 1));
        match modifier_mask(token) {
            Some(mask) => bracketed(rest, modifiers | mask),
            None => if rest.len() == 0 {
                Some(Bracketed { modifiers, key: Some(token), rest })
            } else {
                None
            },
        }
    } else {
        Some(Bracketed { modifiers, key: None, rest: text })
    }
}

#[via_fn]
proof fn bracketed_decreases(text: Seq<char>, modifiers: u32) {
    let inner = text.skip(1);
    let end = text::first_index(inner, '>');
    text::first_index_bounds(inner, '>');
    if text.len() > 0 && text[0] == '<' && end < inner.len() {
        text::trimmed_start_is_suffix(inner.skip(end + 1));
    }
}

/// Reads the pieces of a text that joins its tokens by plus signs: the modifier
/// bits, and the last token that names no modifier.
pub open spec fn joined(pieces: Seq<Seq<char>>, modifiers: u32) -> (u32, Option<Seq<char>>)
    decreases pieces.len(),
{
    if pieces.len() == 0 {
        (modifiers, None)
    } else {
        let (mods, key) = joined(pieces.drop_last(), modifiers);
        let token = text::trimmed(pieces.last());
        if token.len() == 0 {
            (mods, key)
        } else {
            match modifier_mask(token) {
                Some(mask) => (mods | mask, key),
                None => (mods, Some(token)),
            }
        }
    }
}

/// The key and the modifier bits that the text behind the brackets names.
pub open spec fn unbracketed(rest: Seq<char>, modifiers: u32) -> (u32, Option<Seq<char>>) {
    if rest.contains('+') {
        joined(text::split(rest, '+'), modifiers)
    } else {
        (modifiers, Some(rest))
    }
}

/// The key name and the modifier bits of an accelerator text, where it has a key
/// and that key could be the name of a key symbol (it holds no NUL).
pub open spec fn accelerator_parts(accelerator: Seq<char>) -> Option<(Seq<char>, u32)> {
    match bracketed(text::trimmed(accelerator), 0) {
        None => None,
        Some(front) => {
            let (modifiers, key) = if front.key is None && front.rest.len() > 0 {
                unbracketed(front.rest, front.modifiers)
            } else {
                (front.modifiers, front.key)
            };
            match key {
                Some(name) => if name.contains('\0') {
                    None
                } else {
                    Some((name, modifiers))
                },
                None => None,
            }
        },
    }
}

/// What an accelerator text asks for: the name of a key symbol, and modifier bits.
#[derive(Debug, Clone)]
pub struct X11KeyCombination {
    pub key: String,
    pub modifiers: u32,
}

impl X11KeyCombination {
    /// The hotkey, once the display server has told the symbol of the key's
    /// name. The symbol 0 says that there is no such key.
    pub fn resolve(&self, keysym: u64) -> (hotkey: Option<X11Hotkey>)
        ensures
            hotkey == (if keysym != 0 {
                Some(X11Hotkey { keysym, modifiers: self.modifiers })
            } else {
                None
            }),
    {
        if keysym != 0 {
            Some(X11Hotkey { keysym, modifiers: self.modifiers })
        } else {
            None
        }
    }
}

/// The modifier bit that a token of an accelerator names.
pub fn x11_modifier_token(token: &[char]) -> (mask: Option<u32>)
    ensures
        mask == modifier_mask(token@),
{
    let lower = text::lowercase_chars(token);
    let name = text::string_of(lower.as_slice());
    let name = name.as_str();
    if text::same_text(name, "shift") {
        Some(SHIFT_MASK)
    } else if text::same_text(name, "control") || text::same_text(name, "ctrl") || text::same_text(name, "primary") {
        Some(CONTROL_MASK)
    } else if text::same_text(name, "alt") || text::same_text(name, "mod1") {
        Some(MOD1_MASK)
    } else if text::same_text(name, "super") || text::same_text(name, "meta") || text::same_text(name, "hyper")
        || text::same_text(name, "mod4") {
        Some(MOD4_MASK)
    } else {
        None
    }
}

fn read_joined<'a>(rest: &'a [char], modifiers: u32) -> (read: (u32, Option<&'a [char]>))
    ensures
        read.0 == joined(text::split(rest@, '+'), modifiers).0,
        match read.1 {
            Some(key) => joined(text::split(rest@, '+'), modifiers).1 == Some(key@),
            None => joined(text::split(rest@, '+'), modifiers).1 is None,
        },
{
    let pieces = text::split_chars(rest, '+');
    let ghost all = text::split(rest@, '+');
    let mut mods: u32 = modifiers;
    let mut key: Option<&'a [char]> = None;
    assert(all.take(0) == Seq::<Seq<char>>::empty());
    for i in 0..pieces.len()
        invariant
            pieces@.len() == all.len(),
            forall|j: int| 0 <= j < pieces@.len() ==> (#[trigger] pieces@[j])@ == all[j],
            mods == joined(all.take(i as int), modifiers).0,
            match key {
                Some(k) => joined(all.take(i as int), modifiers).1 == Some(k@),
                None => joined(all.take(i as int), modifiers).1 is None,
            },
    {
        assert(all.take(i + 1).drop_last() == all.take(i as int));
        let token = text::trim_chars(pieces[i]);
        if token.len() > 0 {
            match x11_modifier_token(token) {
                Some(mask) => {
                    mods = mods | mask;
                },
                None => {
                    key = Some(token);
                },
            }
        }
    }
    assert(all.take(all.len() as int) == all);
    (mods, key)
}

/// Reads an accelerator text such as `<Control><Alt>F8` or `Control+Alt+F8`.
pub fn parse_x11_hotkey(accelerator: &str) -> (combination: Option<X11KeyCombination>)
    ensures
        match combination {
            Some(found) => accelerator_parts(accelerator@) == Some((found.key@, found.modifiers)),
            None => accelerator_parts(accelerator@) is None,
        },
        combination matches Some(found) ==> found.modifiers & X11_MODS == found.modifiers,
{
    proof {
        accelerator_modifiers_are_comparable(accelerator@);
    }
    let chars = text::chars_of(accelerator);
    let body = text::trim_chars(chars.as_slice());
    let mut modifiers: u32 = 0;
    let mut key: Option<&[char]> = None;
    let mut rest: &[char] = body;
    let ghost front = bracketed(body@, 0);
    let mut open: bool = true;
    while open
        invariant
            body@ == text::trimmed(accelerator@),
            front == bracketed(body@, 0),
            open ==> key is None && front == bracketed(rest@, modifiers),
            !open ==> (front matches Some(f) && f.modifiers == modifiers && f.rest == rest@ && match key {
                Some(k) => f.key == Some(k@),
                None => f.key is None,
            }),
        decreases rest@.len() + (if open { 1int } else { 0 }),
    {
        let len: usize = rest.len();
        if len == 0 || rest[0] != '<' {
            open = false;
        } else {
            let inner = slice_subrange(rest, 1, len);
            assert(inner@ == rest@.skip(1));
            match text::find_char(inner, '>') {
                None => {
                    open = false;
                },
                Some(end) => {
                    let token = slice_subrange(inner, 0, end);
                    let behind = slice_subrange(inner, end + 1, len - 1);
                    let next = text::trim_start_chars(behind);
                    assert(token@ == inner@.take(end as int));
                    assert(behind@ == inner@.skip(end + 1));
                    proof {
                        text::trimmed_start_is_suffix(behind@);
                    }
                    match x11_modifier_token(token) {
                        Some(mask) => {
                            modifiers = modifiers | mask;
                        },
                        None => {
                            if next.len() > 0 {
                                return None;
                            }
                            key = Some(token);
                            open = false;
                        },
                    }
                    rest = next;
                },
            }
        }
    }
    if key.is_none() && rest.len() > 0 {
        if text::find_char(rest, '+').is_some() {
            let (mods, last) = read_joined(rest, modifiers);
            modifiers = mods;
            key = last;
        } else {
            key = Some(rest);
        }
    }
    match key {
        Some(name) => {
            if text::find_char(name, '\0').is_some() {
                None
            } else {
                Some(X11KeyCombination { key: text::string_of(name), modifiers })
            }
        },
        None => None,
    }
}

proof fn masks_are_x11_mods(token: Seq<char>, modifiers: u32)
    requires
        modifiers & X11_MODS == modifiers,
    ensures
        modifier_mask(token) matches Some(mask) ==> (modifiers | mask) & X11_MODS == modifiers
            | mask,
{
    assert((modifiers | 1) & 0x4d == modifiers | 1 && (modifiers | 4) & 0x4d == modifiers | 4 && (
    modifiers | 8) & 0x4d == modifiers | 8 && (modifiers | 64) & 0x4d == modifiers | 64)
        by (bit_vector)
        requires
            modifiers & 0x4d == modifiers,
    ;
}

proof fn bracketed_modifiers(front: Seq<char>, modifiers: u32)
    requires
        modifiers & X11_MODS == modifiers,
    ensures
        bracketed(front, modifiers) matches Some(found) ==> found.modifiers & X11_MODS
            == found.modifiers,
    decreases front.len(),
{
    let inner = front.skip(1);
    let end = text::first_index(inner, '>');
    text::first_index_bounds(inner, '>');
    if front.len() > 0 && front[0] == '<' && end < inner.len() {
        let token = inner.take(end);
        let rest = text::trimmed_start(inner.skip(end + 1));
        text::trimmed_start_is_suffix(inner.skip(end + 1));
        masks_are_x11_mods(token, modifiers);
        if let Some(mask) = modifier_mask(token) {
            bracketed_modifiers(rest, modifiers | mask);
        }
    }
}

proof fn joined_modifiers(pieces: Seq<Seq<char>>, modifiers: u32)
    requires
        modifiers & X11_MODS == modifiers,
    ensures
        joined(pieces, modifiers).0 & X11_MODS == joined(pieces, modifiers).0,
    decreases pieces.len(),
{
    if pieces.len() > 0 {
        joined_modifiers(pieces.drop_last(), modifiers);
        masks_are_x11_mods(
            text::trimmed(pieces.last()),
            joined(pieces.drop_last(), modifiers).0,
        );
    }
}

/// An accelerator asks for no modifier bits but those that an event state is
/// compared by, so every hotkey that was read can be pressed.
pub proof fn accelerator_modifiers_are_comparable(accelerator: Seq<char>)
    ensures
        accelerator_parts(accelerator) matches Some((key, modifiers)) ==> modifiers & X11_MODS
            == modifiers,
{
    let body = text::trimmed(accelerator);
    assert(0u32 & 0x4d == 0) by (bit_vector);
    bracketed_modifiers(body, 0);
    if let Some(front) = bracketed(body, 0) {
        joined_modifiers(text::split(front.rest, '+'), front.modifiers);
    }
}

/// The whitespace around an accelerator does not matter.
pub proof fn accelerator_ignores_outer_whitespace(accelerator: Seq<char>)
    ensures
        accelerator_parts(text::trimmed(accelerator)) == accelerator_parts(accelerator),
{
    text::trimming_is_idempotent(accelerator);
}

/// The letter case in which an accelerator writes a modifier does not matter.
pub proof fn modifier_names_ignore_case(token: Seq<char>)
    ensures
        modifier_mask(text::lowercase(token)) == modifier_mask(token),
{
    assert(text::lowercase(text::lowercase(token)) == text::lowercase(token)) by {
        assert forall|i: int| 0 <= i < token.len() implies text::ascii_lower(
            text::ascii_lower(#[trigger] token[i]),
        ) == text::ascii_lower(token[i]) by {}
    }
}

/// Whether every token names a modifier.
pub open spec fn all_modifiers(tokens: Seq<Seq<char>>) -> bool {
    forall|i: int| 0 <= i < tokens.len() ==> modifier_mask(#[trigger] tokens[i]) is Some
}

/// Some tokens, each in brackets.
pub open spec fn in_brackets(tokens: Seq<Seq<char>>) -> Seq<char>
    decreases tokens.len(),
{
    if tokens.len() == 0 {
        Seq::empty()
    } else {
        seq!['<'] + tokens[0] + seq!['>'] + in_brackets(tokens.skip(1))
    }
}

/// The modifier bits that some tokens name together.
pub open spec fn masks_of(tokens: Seq<Seq<char>>) -> u32
    decreases tokens.len(),
{
    if tokens.len() == 0 {
        0
    } else {
        modifier_mask(tokens[0])->0 | masks_of(tokens.skip(1))
    }
}

proof fn modifiers_hold_no_bracket(token: Seq<char>)
    requires
        modifier_mask(token) is Some,
    ensures
        !token.contains('>'),
{
    reveal_strlit("shift");
    assert(forall|i: int| 0 <= i < "shift"@.len() ==> "shift"@[i] != '>');
    reveal_strlit("control");
    assert(forall|i: int| 0 <= i < "control"@.len() ==> "control"@[i] != '>');
    reveal_strlit("ctrl");
    assert(forall|i: int| 0 <= i < "ctrl"@.len() ==> "ctrl"@[i] != '>');
    reveal_strlit("primary");
    assert(forall|i: int| 0 <= i < "primary"@.len() ==> "primary"@[i] != '>');
    reveal_strlit("alt");
    assert(forall|i: int| 0 <= i < "alt"@.len() ==> "alt"@[i] != '>');
    reveal_strlit("mod1");
    assert(forall|i: int| 0 <= i < "mod1"@.len() ==> "mod1"@[i] != '>');
    reveal_strlit("super");
    assert(forall|i: int| 0 <= i < "super"@.len() ==> "super"@[i] != '>');
    reveal_strlit("meta");
    assert(forall|i: int| 0 <= i < "meta"@.len() ==> "meta"@[i] != '>');
    reveal_strlit("hyper");
    assert(forall|i: int| 0 <= i < "hyper"@.len() ==> "hyper"@[i] != '>');
    reveal_strlit("mod4");
    assert(forall|i: int| 0 <= i < "mod4"@.len() ==> "mod4"@[i] != '>');
    let name = text::lowercase(token);
    if token.contains('>') {
        let i = choose|i: int| 0 <= i < token.len() && token[i] == '>';
        assert(name[i] == '>');
    }
}

proof fn index_behind(token: Seq<char>, behind: Seq<char>, c: char)
    requires
        !token.contains(c),
    ensures
        text::first_index(token + seq![c] + behind, c) == token.len(),
    decreases token.len(),
{
    let all = token + seq![c] + behind;
    if token.len() > 0 {
        assert(token.contains(token[0]));
        assert(all[0] == token[0]);
        let rest = token.skip(1);
        assert(all.skip(1) =~= rest + seq![c] + behind);
        assert forall|i: int| 0 <= i < rest.len() implies #[trigger] rest[i] != c by {
            assert(rest[i] == token[i + 1]);
            assert(token.contains(token[i + 1]));
        }
        index_behind(rest, behind, c);
    } else {
        assert(all[0] == c);
    }
}

proof fn masks_add_up(a: u32, b: u32, c: u32)
    ensures
        (a | b) | c == a | (b | c),
        a | b == b | a,
        a | a == a,
        a | 0 == a,
{
    assert((a | b) | c == a | (b | c) && a | b == b | a && a | a == a && a | 0 == a)
        by (bit_vector);
}

proof fn brackets_are_read(tokens: Seq<Seq<char>>, rest: Seq<char>, modifiers: u32)
    requires
        all_modifiers(tokens),
        tokens.len() > 0,
    ensures
        bracketed(in_brackets(tokens) + rest, modifiers) == bracketed(
            text::trimmed_start(rest),
            modifiers | masks_of(tokens),
        ),
    decreases tokens.len(),
{
    let token = tokens[0];
    let others = tokens.skip(1);
    let mask = modifier_mask(token)->0;
    let behind = in_brackets(others) + rest;
    let all = in_brackets(tokens) + rest;
    let inner = all.skip(1);
    modifiers_hold_no_bracket(token);
    assert(all[0] == '<');
    assert(inner =~= token + seq!['>'] + behind);
    index_behind(token, behind, '>');
    assert(inner.take(token.len() as int) =~= token);
    assert(inner.skip(token.len() + 1int) =~= behind);
    assert(all_modifiers(others)) by {
        assert forall|i: int| 0 <= i < others.len() implies modifier_mask(
            #[trigger] others[i],
        ) is Some by {
            assert(others[i] == tokens[i + 1]);
        }
    }
    assert(bracketed(all, modifiers) == bracketed(text::trimmed_start(behind), modifiers | mask));
    masks_add_up(modifiers, mask, masks_of(others));
    if others.len() == 0 {
        assert(behind =~= rest);
        masks_add_up(mask, 0, 0);
    } else {
        assert(behind[0] == '<');
        assert(text::trimmed_start(behind) == behind);
        brackets_are_read(others, rest, modifiers | mask);
    }
}

proof fn brackets_end(tokens: Seq<Seq<char>>)
    requires
        tokens.len() > 0,
    ensures
        in_brackets(tokens).len() > 0,
        in_brackets(tokens)[0] == '<',
        in_brackets(tokens).last() == '>',
    decreases tokens.len(),
{
    if tokens.len() > 1 {
        brackets_end(tokens.skip(1));
    } else {
        assert(in_brackets(tokens.skip(1)) =~= Seq::<char>::empty());
    }
}

proof fn trimmed_behind(front: Seq<char>, rest: Seq<char>)
    requires
        front.len() > 0,
        !text::whitespace(front[0]),
        !text::whitespace(front.last()),
    ensures
        text::trimmed(front + rest) == front + text::trimmed_end(rest),
    decreases rest.len(),
{
    let all = front + rest;
    assert(all[0] == front[0]);
    assert(text::trimmed_start(all) == all);
    if rest.len() == 0 {
        assert(all =~= front);
        assert(front + text::trimmed_end(rest) =~= front);
    } else {
        assert(all.last() == rest.last());
        if text::whitespace(rest.last()) {
            assert(all.drop_last() =~= front + rest.drop_last());
            trimmed_behind(front, rest.drop_last());
            assert(text::trimmed_start(all.drop_last()) == all.drop_last()) by {
                assert(all.drop_last()[0] == front[0]);
            }
        }
    }
}

/// Modifiers in brackets at the front of an accelerator count by the bits that
/// they name together.
pub proof fn leading_modifiers_add_up(
    tokens: Seq<Seq<char>>,
    others: Seq<Seq<char>>,
    rest: Seq<char>,
)
    requires
        all_modifiers(tokens),
        all_modifiers(others),
        tokens.len() > 0,
        others.len() > 0,
        masks_of(tokens) == masks_of(others),
    ensures
        accelerator_parts(in_brackets(tokens) + rest) == accelerator_parts(
            in_brackets(others) + rest,
        ),
{
    brackets_end(tokens);
    brackets_end(others);
    trimmed_behind(in_brackets(tokens), rest);
    trimmed_behind(in_brackets(others), rest);
    brackets_are_read(tokens, text::trimmed_end(rest), 0);
    brackets_are_read(others, text::trimmed_end(rest), 0);
}

proof fn mask_is_among(tokens: Seq<Seq<char>>, i: int)
    requires
        0 <= i < tokens.len(),
    ensures
        modifier_mask(tokens[i])->0 | masks_of(tokens) == masks_of(tokens),
    decreases tokens.len(),
{
    let mask = modifier_mask(tokens[0])->0;
    let others = masks_of(tokens.skip(1));
    if i == 0 {
        masks_add_up(mask, mask, others);
    } else {
        let wanted = modifier_mask(tokens[i])->0;
        assert(tokens.skip(1)[i - 1] == tokens[i]);
        mask_is_among(tokens.skip(1), i - 1);
        masks_add_up(wanted, mask, others);
        masks_add_up(mask, wanted, others);
    }
}

proof fn masks_are_among(tokens: Seq<Seq<char>>, others: Seq<Seq<char>>)
    requires
        forall|i: int| 0 <= i < tokens.len() ==> others.contains(#[trigger] tokens[i]),
    ensures
        masks_of(tokens) | masks_of(others) == masks_of(others),
    decreases tokens.len(),
{
    if tokens.len() == 0 {
        masks_add_up(0, masks_of(others), 0);
        masks_add_up(masks_of(others), 0, 0);
    } else {
        assert(others.contains(tokens[0]));
        let j = choose|j: int| 0 <= j < others.len() && others[j] == tokens[0];
        mask_is_among(others, j);
        assert forall|i: int| 0 <= i < tokens.skip(1).len() implies others.contains(
            #[trigger] tokens.skip(1)[i],
        ) by {
            assert(tokens.skip(1)[i] == tokens[i + 1]);
        }
        masks_are_among(tokens.skip(1), others);
        masks_add_up(modifier_mask(tokens[0])->0, masks_of(tokens.skip(1)), masks_of(others));
    }
}

/// The order in which the modifiers stand at the front of an accelerator does not
/// matter, nor how often each stands there.
pub proof fn modifier_order_does_not_matter(
    tokens: Seq<Seq<char>>,
    others: Seq<Seq<char>>,
    rest: Seq<char>,
)
    requires
        all_modifiers(tokens),
        all_modifiers(others),
        forall|i: int| 0 <= i < tokens.len() ==> others.contains(#[trigger] tokens[i]),
        forall|i: int| 0 <= i < others.len() ==> tokens.contains(#[trigger] others[i]),
    ensures
        accelerator_parts(in_brackets(tokens) + rest) == accelerator_parts(
            in_brackets(others) + rest,
        ),
{
    masks_are_among(tokens, others);
    masks_are_among(others, tokens);
    masks_add_up(masks_of(tokens), masks_of(others), 0);
    if tokens.len() > 0 && others.len() > 0 {
        leading_modifiers_add_up(tokens, others, rest);
    } else if tokens.len() > 0 {
        assert(others.contains(tokens[0]));
    } else if others.len() > 0 {
        assert(tokens.contains(others[0]));
    } else {
        assert(in_brackets(tokens) =~= in_brackets(others));
    }
}

proof fn lowercase_has_masks(tokens: Seq<Seq<char>>)
    ensures
        masks_of(tokens.map_values(|token: Seq<char>| text::lowercase(token))) == masks_of(tokens),
    decreases tokens.len(),
{
    let lower = tokens.map_values(|token: Seq<char>| text::lowercase(token));
    if tokens.len() > 0 {
        modifier_names_ignore_case(tokens[0]);
        lowercase_has_masks(tokens.skip(1));
        assert(lower.skip(1) =~= tokens.skip(1).map_values(
            |token: Seq<char>| text::lowercase(token),
        ));
    }
}

/// The letter case of the modifiers at the front of an accelerator does not matter.
pub proof fn modifier_case_does_not_matter(tokens: Seq<Seq<char>>, rest: Seq<char>)
    requires
        all_modifiers(tokens),
    ensures
        accelerator_parts(
            in_brackets(tokens.map_values(|token: Seq<char>| text::lowercase(token))) + rest,
        ) == accelerator_parts(in_brackets(tokens) + rest),
{
    let lower = tokens.map_values(|token: Seq<char>| text::lowercase(token));
    if tokens.len() > 0 {
        lowercase_has_masks(tokens);
        assert forall|i: int| 0 <= i < lower.len() implies modifier_mask(
            #[trigger] lower[i],
        ) is Some by {
            modifier_names_ignore_case(tokens[i]);
        }
        leading_modifiers_add_up(lower, tokens, rest);
    } else {
        assert(in_brackets(lower) =~= in_brackets(tokens));
    }
}

/// Modifiers alone are no hotkey, nor is whitespace.
pub proof fn modifiers_alone_are_no_hotkey(tokens: Seq<Seq<char>>, rest: Seq<char>)
    requires
        all_modifiers(tokens),
        text::blank(rest),
    ensures
        accelerator_parts(in_brackets(tokens) + rest) is None,
{
    let none = Seq::<char>::empty();
    text::blank_text_trims_to_nothing(rest);
    assert(text::trimmed_start(none) == none);
    if tokens.len() > 0 {
        brackets_end(tokens);
        trimmed_behind(in_brackets(tokens), rest);
        text::trimmed_end_of_blank(rest);
        assert(text::trimmed_end(rest) =~= none);
        brackets_are_read(tokens, none, 0);
    } else {
        assert(in_brackets(tokens) + rest =~= rest);
        assert(text::trimmed(rest) =~= none);
    }
}

/// The modifiers have these names, in any letter case, and these bits.
pub proof fn modifiers_have_names(token: Seq<char>)
    ensures
        ({
            let name = text::lowercase(token);
            &&& name == "shift"@ <==> modifier_mask(token) == Some(1u32)
            &&& name == "control"@ || name == "ctrl"@ || name == "primary"@ <==> modifier_mask(
                token,
            ) == Some(4u32)
            &&& name == "alt"@ || name == "mod1"@ <==> modifier_mask(token) == Some(8u32)
            &&& name == "super"@ || name == "meta"@ || name == "hyper"@ || name == "mod4"@
                <==> modifier_mask(token) == Some(64u32)
            &&& modifier_mask(token) matches Some(mask) ==> mask == 1 || mask == 4 || mask == 8
                || mask == 64
        }),
{
    reveal_strlit("shift");
    reveal_strlit("control");
    reveal_strlit("ctrl");
    reveal_strlit("primary");
    reveal_strlit("alt");
    reveal_strlit("mod1");
    reveal_strlit("super");
    reveal_strlit("meta");
    reveal_strlit("hyper");
    reveal_strlit("mod4");
    assert("shift"@[0] == 's' && "shift"@[1] == 'h');
    assert("control"@[0] == 'c' && "ctrl"@[0] == 'c' && "primary"@[0] == 'p');
    assert("alt"@[0] == 'a' && "mod1"@[0] == 'm' && "mod1"@[3] == '1');
    assert("super"@[1] == 'u' && "meta"@[1] == 'e' && "hyper"@[0] == 'h' && "mod4"@[3] == '4');
    assert("super"@[0] == 's' && "meta"@[0] == 'm' && "mod4"@[0] == 'm');
}

proof fn brackets_are_joined(tokens: Seq<Seq<char>>)
    ensures
        in_brackets(tokens) == tokens.map_values(
            |token: Seq<char>| seq!['<'] + token + seq!['>'],
        ).flatten(),
    decreases tokens.len(),
{
    let closed = |token: Seq<char>| seq!['<'] + token + seq!['>'];
    let all = tokens.map_values(closed);
    if tokens.len() > 0 {
        brackets_are_joined(tokens.skip(1));
        assert(all.drop_first() =~= tokens.skip(1).map_values(closed));
    } else {
        assert(all.flatten() =~= Seq::<char>::empty());
    }
}

proof fn union_has_bits(a: u32, b: u32, bit: u32)
    ensures
        (a | b) & bit != 0 <==> a & bit != 0 || b & bit != 0,
        0u32 & bit == 0,
{
    assert(((a | b) & bit != 0) == (a & bit != 0 || b & bit != 0) && 0u32 & bit == 0)
        by (bit_vector);
}

proof fn single_bits()
    ensures
        1u32 & 1 != 0 && 1u32 & 4 == 0 && 1u32 & 8 == 0 && 1u32 & 64 == 0,
        4u32 & 1 == 0 && 4u32 & 4 != 0 && 4u32 & 8 == 0 && 4u32 & 64 == 0,
        8u32 & 1 == 0 && 8u32 & 4 == 0 && 8u32 & 8 != 0 && 8u32 & 64 == 0,
        64u32 & 1 == 0 && 64u32 & 4 == 0 && 64u32 & 8 == 0 && 64u32 & 64 != 0,
{
    assert(1u32 & 1 != 0 && 1u32 & 4 == 0 && 1u32 & 8 == 0 && 1u32 & 64 == 0 && 4u32 & 1 == 0
        && 4u32 & 4 != 0 && 4u32 & 8 == 0 && 4u32 & 64 == 0 && 8u32 & 1 == 0 && 8u32 & 4 == 0
        && 8u32 & 8 != 0 && 8u32 & 64 == 0 && 64u32 & 1 == 0 && 64u32 & 4 == 0 && 64u32 & 8 == 0
        && 64u32 & 64 != 0) by (bit_vector);
}

/// Whether one of the tokens names the modifier of this bit.
spec fn some_token_names(tokens: Seq<Seq<char>>, bit: u32) -> bool {
    exists|i: int| 0 <= i < tokens.len() && modifier_mask(#[trigger] tokens[i]) == Some(bit)
}

proof fn masks_have_bits(tokens: Seq<Seq<char>>, bit: u32)
    requires
        all_modifiers(tokens),
        bit == 1 || bit == 4 || bit == 8 || bit == 64,
    ensures
        masks_of(tokens) & bit != 0 <==> some_token_names(tokens, bit),
    decreases tokens.len(),
{
    single_bits();
    if tokens.len() == 0 {
        union_has_bits(0, 0, bit);
    } else {
        let others = tokens.skip(1);
        assert forall|i: int| 0 <= i < others.len() implies modifier_mask(
            #[trigger] others[i],
        ) is Some by {
            assert(others[i] == tokens[i + 1]);
        }
        masks_have_bits(others, bit);
        modifiers_have_names(tokens[0]);
        let mask = modifier_mask(tokens[0])->0;
        union_has_bits(mask, masks_of(others), bit);
        if some_token_names(others, bit) {
            let i = choose|i: int|
                0 <= i < others.len() && modifier_mask(#[trigger] others[i]) == Some(bit);
            assert(tokens[i + 1] == others[i]);
        }
        if some_token_names(tokens, bit) {
            let i = choose|i: int|
                0 <= i < tokens.len() && modifier_mask(#[trigger] tokens[i]) == Some(bit);
            if i > 0 {
                assert(others[i - 1] == tokens[i]);
            } else {
                assert(mask == bit);
            }
        }
    }
}

/// What stands behind the bracketed modifiers is read without the whitespace round
/// it, and with their bits.
proof fn text_behind_brackets(tokens: Seq<Seq<char>>, rest: Seq<char>)
    requires
        all_modifiers(tokens),
    ensures
        bracketed(text::trimmed(in_brackets(tokens) + rest), 0) == bracketed(
            text::trimmed(rest),
            masks_of(tokens),
        ),
{
    if tokens.len() == 0 {
        assert(in_brackets(tokens) + rest =~= rest);
    } else {
        brackets_end(tokens);
        trimmed_behind(in_brackets(tokens), rest);
        brackets_are_read(tokens, text::trimmed_end(rest), 0);
        text::ends_are_trimmed_in_any_order(rest);
        masks_add_up(masks_of(tokens), 0, 0);
        masks_add_up(0, masks_of(tokens), 0);
    }
}

/// A text in which no bracket is opened in front, or none is closed, has nothing in
/// brackets.
proof fn no_bracket_is_closed(body: Seq<char>, modifiers: u32)
    requires
        body.len() > 0,
        body[0] != '<' || !body.contains('>'),
    ensures
        bracketed(body, modifiers) == Some(Bracketed { modifiers, key: None, rest: body }),
{
    let inner = body.skip(1);
    text::first_index_bounds(inner, '>');
    if inner.contains('>') {
        let i = choose|i: int| 0 <= i < inner.len() && inner[i] == '>';
        assert(body[i + 1] == '>');
    }
}

/// A key name behind modifiers in brackets is read back as it was written, and so
/// are the modifiers: each of the four bits is there exactly where one of the
/// tokens names it, and no other bit is. Whitespace round the name does not matter.
pub proof fn accelerators_read_back(tokens: Seq<Seq<char>>, padded: Seq<char>, name: Seq<char>)
    requires
        forall|i: int| 0 <= i < tokens.len() ==> modifier_mask(#[trigger] tokens[i]) is Some,
        text::trimmed(padded) == name,
        name.len() > 0,
        name[0] != '<' || !name.contains('>'),
        !name.contains('+'),
        !name.contains('\0'),
    ensures
        ({
            let front = tokens.map_values(
                |token: Seq<char>| seq!['<'] + token + seq!['>'],
            ).flatten();
            match accelerator_parts(front + padded) {
                Some((key, modifiers)) => {
                    &&& key == name
                    &&& modifiers & 0x4d == modifiers
                    &&& modifiers & 1 != 0 <==> exists|i: int|
                        0 <= i < tokens.len() && modifier_mask(#[trigger] tokens[i]) == Some(1u32)
                    &&& modifiers & 4 != 0 <==> exists|i: int|
                        0 <= i < tokens.len() && modifier_mask(#[trigger] tokens[i]) == Some(4u32)
                    &&& modifiers & 8 != 0 <==> exists|i: int|
                        0 <= i < tokens.len() && modifier_mask(#[trigger] tokens[i]) == Some(8u32)
                    &&& modifiers & 64 != 0 <==> exists|i: int|
                        0 <= i < tokens.len() && modifier_mask(#[trigger] tokens[i]) == Some(64u32)
                },
                None => false,
            }
        }),
{
    brackets_are_joined(tokens);
    text_behind_brackets(tokens, padded);
    accelerator_modifiers_are_comparable(in_brackets(tokens) + padded);
    no_bracket_is_closed(name, masks_of(tokens));
    masks_have_bits(tokens, 1);
    masks_have_bits(tokens, 4);
    masks_have_bits(tokens, 8);
    masks_have_bits(tokens, 64);
    assert(accelerator_parts(in_brackets(tokens) + padded) == Some((name, masks_of(tokens))));
}

/// A key name alone is read back as it was written, with no modifiers; one with a
/// NUL in it is no key name. A bracket that nothing closes is part of the name.
pub proof fn key_names_read_back(name: Seq<char>)
    requires
        name.len() > 0,
        !text::whitespace(name[0]),
        !text::whitespace(name[name.len() - 1]),
        name[0] != '<' || !name.contains('>'),
        !name.contains('+'),
    ensures
        !name.contains('\0') ==> accelerator_parts(name) == Some((name, 0u32)),
        name.contains('\0') ==> accelerator_parts(name) is None,
{
    assert(text::trimmed(name) == name);
    no_bracket_is_closed(name, 0);
}

/// A key in brackets behind the modifiers is read back as it was written, and then
/// nothing but whitespace may follow it. It has the same modifiers as a key name
/// that stands there without brackets. With a NUL in it, it is no key.
pub proof fn bracketed_keys_read_back(
    tokens: Seq<Seq<char>>,
    key: Seq<char>,
    rest: Seq<char>,
    name: Seq<char>,
)
    requires
        forall|i: int| 0 <= i < tokens.len() ==> modifier_mask(#[trigger] tokens[i]) is Some,
        modifier_mask(key) is None,
        !key.contains('>'),
        name.len() > 0,
        !text::whitespace(name[0]),
        !text::whitespace(name[name.len() - 1]),
        name[0] != '<',
        !name.contains('+'),
        !name.contains('\0'),
    ensures
        ({
            let front = tokens.map_values(
                |token: Seq<char>| seq!['<'] + token + seq!['>'],
            ).flatten();
            let found = accelerator_parts(front + (seq!['<'] + key + seq!['>'] + rest));
            let plain = accelerator_parts(front + name);
            &&& text::trimmed(rest).len() == 0 && !key.contains('\0') ==> plain is Some && found
                == Some((key, (plain->0).1))
            &&& text::trimmed(rest).len() > 0 || key.contains('\0') ==> found is None
        }),
{
    brackets_are_joined(tokens);
    assert(text::trimmed(name) == name);
    text_behind_brackets(tokens, name);
    let open = seq!['<'] + key + seq!['>'];
    let behind = open + rest;
    text_behind_brackets(tokens, behind);
    trimmed_behind(open, rest);
    let left = text::trimmed_end(rest);
    let body = open + left;
    let inner = body.skip(1);
    assert(inner =~= key + seq!['>'] + left);
    index_behind(key, left, '>');
    assert(inner.take(key.len() as int) =~= key);
    assert(inner.skip(key.len() + 1int) =~= left);
    assert(body[0] == '<');
    text::ends_are_trimmed_in_any_order(rest);
    assert(text::trimmed_start(left) == text::trimmed(rest));
}

/// Whether a piece of a text names a key: it is neither blank nor a modifier.
spec fn names_key(piece: Seq<char>) -> bool {
    text::trimmed(piece).len() > 0 && modifier_mask(text::trimmed(piece)) is None
}

proof fn pieces_are_read(pieces: Seq<Seq<char>>, modifiers: u32, bit: u32)
    requires
        bit == 1 || bit == 4 || bit == 8 || bit == 64,
    ensures
        ({
            let (mods, key) = joined(pieces, modifiers);
            &&& mods & bit != 0 <==> modifiers & bit != 0 || exists|i: int|
                0 <= i < pieces.len() && modifier_mask(text::trimmed(#[trigger] pieces[i])) == Some(
                    bit,
                )
            &&& match key {
                Some(name) => exists|i: int|
                    0 <= i < pieces.len() && name == text::trimmed(#[trigger] pieces[i])
                        && names_key(pieces[i]) && forall|j: int|
                        i < j < pieces.len() ==> !names_key(#[trigger] pieces[j]),
                None => forall|j: int| 0 <= j < pieces.len() ==> !names_key(#[trigger] pieces[j]),
            }
        }),
    decreases pieces.len(),
{
    single_bits();
    if pieces.len() > 0 {
        let before = pieces.drop_last();
        let last = pieces.len() - 1;
        let token = text::trimmed(pieces[last]);
        let (mods, key) = joined(before, modifiers);
        pieces_are_read(before, modifiers, bit);
        modifiers_have_names(token);
        if let Some(mask) = modifier_mask(token) {
            union_has_bits(mods, mask, bit);
            assert(token.len() > 0) by {
                reveal_strlit("shift");
                reveal_strlit("control");
                reveal_strlit("ctrl");
                reveal_strlit("primary");
                reveal_strlit("alt");
                reveal_strlit("mod1");
                reveal_strlit("super");
                reveal_strlit("meta");
                reveal_strlit("hyper");
                reveal_strlit("mod4");
                assert(text::lowercase(token).len() == token.len());
            }
        }
        let (all_mods, all_key) = joined(pieces, modifiers);
        assert forall|i: int| 0 <= i < last implies before[i] == #[trigger] pieces[i] by {}
        assert((exists|i: int|
            0 <= i < pieces.len() && modifier_mask(text::trimmed(#[trigger] pieces[i])) == Some(
                bit,
            )) <==> (modifier_mask(token) == Some(bit) || exists|i: int|
            0 <= i < before.len() && modifier_mask(text::trimmed(#[trigger] before[i])) == Some(
                bit,
            ))) by {
            if exists|i: int|
                0 <= i < before.len() && modifier_mask(text::trimmed(#[trigger] before[i]))
                    == Some(bit) {
                let i = choose|i: int|
                    0 <= i < before.len() && modifier_mask(text::trimmed(#[trigger] before[i]))
                        == Some(bit);
                assert(pieces[i] == before[i]);
            }
            if modifier_mask(token) == Some(bit) {
                assert(modifier_mask(text::trimmed(pieces[last])) == Some(bit));
            }
        }
        if names_key(pieces[last]) {
            assert(all_key == Some(token));
            assert(forall|j: int| last < j < pieces.len() ==> !names_key(#[trigger] pieces[j]));
        } else {
            assert(all_key == key);
            if let Some(name) = key {
                let i = choose|i: int|
                    0 <= i < before.len() && name == text::trimmed(#[trigger] before[i])
                        && names_key(before[i]) && forall|j: int|
                        i < j < before.len() ==> !names_key(#[trigger] before[j]);
                assert(name == text::trimmed(pieces[i]));
                assert forall|j: int| i < j < pieces.len() implies !names_key(
                    #[trigger] pieces[j],
                ) by {
                    if j < last {
                        assert(pieces[j] == before[j]);
                    }
                }
            } else {
                assert forall|j: int| 0 <= j < pieces.len() implies !names_key(
                    #[trigger] pieces[j],
                ) by {
                    if j < last {
                        assert(pieces[j] == before[j]);
                    }
                }
            }
        }
    }
}

/// In a text that joins its tokens by plus signs, with or without modifiers in
/// brackets in front of it, the key is the last piece that is neither blank nor a
/// modifier, without the whitespace round it. The bits are those of the brackets
/// and of all pieces that name modifiers. Without such a piece, or where it has a NUL in
/// it, there is no key.
pub proof fn plus_signs_join(tokens: Seq<Seq<char>>, body: Seq<char>, bit: u32)
    requires
        forall|i: int| 0 <= i < tokens.len() ==> modifier_mask(#[trigger] tokens[i]) is Some,
        text::trimmed(body) == body,
        body.contains('+'),
        body[0] != '<' || !body.contains('>'),
        bit == 1 || bit == 4 || bit == 8 || bit == 64,
    ensures
        ({
            let front = tokens.map_values(
                |token: Seq<char>| seq!['<'] + token + seq!['>'],
            ).flatten();
            let pieces = text::split(body, '+');
            match accelerator_parts(front + body) {
                Some((key, modifiers)) => {
                    &&& exists|i: int|
                        0 <= i < pieces.len() && key == text::trimmed(#[trigger] pieces[i])
                            && key.len() > 0 && modifier_mask(key) is None && !key.contains('\0')
                            && forall|j: int|
                            i < j < pieces.len() ==> text::trimmed(#[trigger] pieces[j]).len() == 0
                                || modifier_mask(text::trimmed(pieces[j])) is Some
                    &&& modifiers & bit != 0 <==> (exists|i: int|
                        0 <= i < tokens.len() && modifier_mask(#[trigger] tokens[i]) == Some(bit))
                        || (exists|i: int|
                        0 <= i < pieces.len() && modifier_mask(text::trimmed(#[trigger] pieces[i]))
                            == Some(bit))
                    &&& modifiers & 0x4d == modifiers
                },
                None => (forall|j: int|
                    0 <= j < pieces.len() ==> text::trimmed(#[trigger] pieces[j]).len() == 0
                        || modifier_mask(text::trimmed(pieces[j])) is Some) || (exists|i: int|
                    0 <= i < pieces.len() && text::trimmed(#[trigger] pieces[i]).contains('\0')
                        && modifier_mask(text::trimmed(pieces[i])) is None && forall|j: int|
                        i < j < pieces.len() ==> text::trimmed(#[trigger] pieces[j]).len() == 0
                            || modifier_mask(text::trimmed(pieces[j])) is Some),
            }
        }),
{
    let pieces = text::split(body, '+');
    brackets_are_joined(tokens);
    text_behind_brackets(tokens, body);
    masks_have_bits(tokens, bit);
    accelerator_modifiers_are_comparable(in_brackets(tokens) + body);
    pieces_are_read(pieces, masks_of(tokens), bit);
    let (mods, key) = joined(pieces, masks_of(tokens));
    no_bracket_is_closed(body, masks_of(tokens));
    if let Some(name) = key {
        let i = choose|i: int|
            0 <= i < pieces.len() && name == text::trimmed(#[trigger] pieces[i]) && names_key(
                pieces[i],
            ) && forall|j: int| i < j < pieces.len() ==> !names_key(#[trigger] pieces[j]);
        assert forall|j: int| i < j < pieces.len() implies text::trimmed(#[trigger] pieces[j]).len()
            == 0 || modifier_mask(text::trimmed(pieces[j])) is Some by {
            assert(!names_key(pieces[j]));
        }
    } else {
        assert forall|j: int| 0 <= j < pieces.len() implies text::trimmed(
            #[trigger] pieces[j],
        ).len() == 0 || modifier_mask(text::trimmed(pieces[j])) is Some by {
            assert(!names_key(pieces[j]));
        }
    }
}

/// The modifier bits of the toolkit that tell hotkeys apart are those of shift,
/// control, alt, super, hyper and meta.
pub proof fn toolkit_bits_tell_hotkeys_apart(mods: u32)
    ensures
        mods & HOTKEY_MODS == mods & (1u32 | 4 | 8 | 0x400_0000 | 0x800_0000 | 0x1000_0000),
{
    assert(mods & 0x1c00_000d == mods & (1u32 | 4 | 8 | 0x400_0000 | 0x800_0000 | 0x1000_0000))
        by (bit_vector);
}

/// Whitespace behind modifiers in brackets does not matter, whatever follows it.
pub proof fn space_behind_brackets_does_not_matter(
    tokens: Seq<Seq<char>>,
    gap: Seq<char>,
    rest: Seq<char>,
)
    requires
        forall|i: int| 0 <= i < tokens.len() ==> modifier_mask(#[trigger] tokens[i]) is Some,
        forall|i: int| 0 <= i < gap.len() ==> text::whitespace(#[trigger] gap[i]),
    ensures
        ({
            let front = tokens.map_values(
                |token: Seq<char>| seq!['<'] + token + seq!['>'],
            ).flatten();
            accelerator_parts(front + (gap + rest)) == accelerator_parts(front + rest)
        }),
{
    brackets_are_joined(tokens);
    text_behind_brackets(tokens, gap + rest);
    text_behind_brackets(tokens, rest);
    text::leading_whitespace_goes(gap, rest);
}

/// The bits of the X11 modifiers, and those of the two locks.
pub proof fn modifiers_have_bits()
    ensures
        SHIFT_MASK == 1 && LOCK_MASK == 2 && CONTROL_MASK == 4 && MOD1_MASK == 8 && MOD2_MASK == 16
            && MOD4_MASK == 64,
        X11_MODS == SHIFT_MASK | CONTROL_MASK | MOD1_MASK | MOD4_MASK,
{
    assert(0x4du32 == 1u32 | 4 | 8 | 64) by (bit_vector);
}

} // verus!
