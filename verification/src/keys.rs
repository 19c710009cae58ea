//! the names the keymap binds: a pressed key, as the windowing layer
//! reports it, turned into the lowercase vocabulary of sdl's key names
//! that the editor's keymap binds ("left ctrl", "return", "keypad enter",
//! "f13", "a", ...). a name that changes silently breaks a keybinding, so
//! every name is pinned by the contract of `key_name`; and what a keyboard
//! event means to the editor (`key_events`).

use vstd::prelude::*;

use vstd::string::{StrSliceExecFns, StringExecFns};

verus! {

/// the named keys the editor has a name for; every other named key of the
/// windowing layer is `Other`, and has none
#[derive(Clone, Copy, Debug, PartialEq, Eq, Structural)]
pub enum NamedKey {
    Control,
    Shift,
    Alt,
    AltGraph,
    Super,
    Meta,
    Enter,
    Tab,
    Space,
    Backspace,
    Delete,
    Insert,
    Escape,
    Home,
    End,
    PageUp,
    PageDown,
    ArrowUp,
    ArrowDown,
    ArrowLeft,
    ArrowRight,
    CapsLock,
    NumLock,
    ScrollLock,
    PrintScreen,
    Pause,
    ContextMenu,
    F1,
    F2,
    F3,
    F4,
    F5,
    F6,
    F7,
    F8,
    F9,
    F10,
    F11,
    F12,
    F13,
    F14,
    F15,
    F16,
    F17,
    F18,
    F19,
    F20,
    F21,
    F22,
    F23,
    F24,
    Other
}

/// where on the keyboard a key sits
#[derive(Clone, Copy, Debug, PartialEq, Eq, Structural)]
pub enum KeyLocation {
    Standard,
    Left,
    Right,
    Numpad,
}

/// a key as the windowing layer reports it: a named key, the text the key
/// produces without modifiers, or something else (a dead key, an
/// unidentified one)
#[derive(Clone, Debug)]
pub enum Key {
    Named(NamedKey),
    Character(String),
    Other,
}

/// what `str::to_lowercase` gives for a string: its lowercase equivalent
/// by the unicode derived property `Lowercase`
pub uninterp spec fn lowercase(s: Seq<char>) -> Seq<char>;

/// `str::to_lowercase`; the claim is only that the result is the string's
/// lowercase equivalent, a function of the string alone
#[verifier::external_body]
fn to_lowercase(s: &str) -> (r: String)
    ensures
        r@ == lowercase(s@),
{
    s.to_lowercase()
}

/// the left or the right name of a modifier; only the right-hand key takes
/// the right name
pub open spec fn sided(location: KeyLocation, left: Seq<char>, right: Seq<char>) -> Seq<char> {
    if location == KeyLocation::Right {
        right
    } else {
        left
    }
}

/// the name of a named key: modifiers by side, enter by whether it sits on
/// the keypad, the rest by a fixed table; `None` for a key with no name
pub open spec fn named_key_name(key: NamedKey, location: KeyLocation) -> Option<Seq<char>> {
    match key {
        NamedKey::Control => Some(sided(location, "left ctrl"@, "right ctrl"@)),
        NamedKey::Shift => Some(sided(location, "left shift"@, "right shift"@)),
        NamedKey::Alt => Some(sided(location, "left alt"@, "right alt"@)),
        NamedKey::AltGraph => Some("right alt"@),
        NamedKey::Super => Some(sided(location, "left gui"@, "right gui"@)),
        NamedKey::Meta => Some(sided(location, "left gui"@, "right gui"@)),
        NamedKey::Enter => Some(
            if location == KeyLocation::Numpad {
                "keypad enter"@
            } else {
                "return"@
            },
        ),
        NamedKey::Tab => Some("tab"@),
        NamedKey::Space => Some("space"@),
        NamedKey::Backspace => Some("backspace"@),
        NamedKey::Delete => Some("delete"@),
        NamedKey::Insert => Some("insert"@),
        NamedKey::Escape => Some("escape"@),
        NamedKey::Home => Some("home"@),
        NamedKey::End => Some("end"@),
        NamedKey::PageUp => Some("pageup"@),
        NamedKey::PageDown => Some("pagedown"@),
        NamedKey::ArrowUp => Some("up"@),
        NamedKey::ArrowDown => Some("down"@),
        NamedKey::ArrowLeft => Some("left"@),
        NamedKey::ArrowRight => Some("right"@),
        NamedKey::CapsLock => Some("capslock"@),
        NamedKey::NumLock => Some("numlock"@),
        NamedKey::ScrollLock => Some("scrolllock"@),
        NamedKey::PrintScreen => Some("printscreen"@),
        NamedKey::Pause => Some("pause"@),
        NamedKey::ContextMenu => Some("application"@),
        NamedKey::F1 => Some("f1"@),
        NamedKey::F2 => Some("f2"@),
        NamedKey::F3 => Some("f3"@),
        NamedKey::F4 => Some("f4"@),
        NamedKey::F5 => Some("f5"@),
        NamedKey::F6 => Some("f6"@),
        NamedKey::F7 => Some("f7"@),
        NamedKey::F8 => Some("f8"@),
        NamedKey::F9 => Some("f9"@),
        NamedKey::F10 => Some("f10"@),
        NamedKey::F11 => Some("f11"@),
        NamedKey::F12 => Some("f12"@),
        NamedKey::F13 => Some("f13"@),
        NamedKey::F14 => Some("f14"@),
        NamedKey::F15 => Some("f15"@),
        NamedKey::F16 => Some("f16"@),
        NamedKey::F17 => Some("f17"@),
        NamedKey::F18 => Some("f18"@),
        NamedKey::F19 => Some("f19"@),
        NamedKey::F20 => Some("f20"@),
        NamedKey::F21 => Some("f21"@),
        NamedKey::F22 => Some("f22"@),
        NamedKey::F23 => Some("f23"@),
        NamedKey::F24 => Some("f24"@),
        NamedKey::Other => None,
    }
}

/// the name of a key that produces text: the text lowercased, with a
/// "keypad " prefix on the keypad, and a lone space named "space"
pub open spec fn char_key_name(text: Seq<char>, location: KeyLocation) -> Seq<char> {
    let lower = lowercase(text);
    if location == KeyLocation::Numpad {
        "keypad "@ + lower
    } else if lower == " "@ {
        "space"@
    } else {
        lower
    }
}

pub open spec fn key_name_spec(key: Key, location: KeyLocation) -> Option<Seq<char>> {
    match key {
        Key::Named(named) => named_key_name(named, location),
        Key::Character(text) => Some(char_key_name(text@, location)),
        Key::Other => None,
    }
}

fn sided_name(location: KeyLocation, left: &str, right: &str) -> (r: String)
    ensures
        r@ == sided(location, left@, right@),
{
    match location {
        KeyLocation::Right => right.to_owned(),
        _ => left.to_owned(),
    }
}

/// the name of a key whose text, lowercased, is `lower`: with a
/// "keypad " prefix on the keypad, and a lone space named "space"
pub fn char_key_name_of(lower: String, location: KeyLocation) -> (name: String)
    ensures
        name@ == (if location == KeyLocation::Numpad {
            "keypad "@ + lower@
        } else if lower@ == " "@ {
            "space"@
        } else {
            lower@
        }),
{
    if location == KeyLocation::Numpad {
        let mut out = "keypad ".to_owned();
        out.append(lower.as_str());
        out
    } else if lower == " ".to_owned() {
        "space".to_owned()
    } else {
        lower
    }
}

/// the keymap's name for `key` pressed at `location`, or `None` for a key
/// the keymap cannot bind
pub fn key_name(key: &Key, location: KeyLocation) -> (name: Option<String>)
    ensures
        match name {
            Some(s) => key_name_spec(*key, location) == Some(s@),
            None => key_name_spec(*key, location) is None,
        },
{
    match key {
        Key::Named(named) => {
            let name: &str = match named {
                NamedKey::Control => return Some(sided_name(location, "left ctrl", "right ctrl")),
                NamedKey::Shift => return Some(sided_name(location, "left shift", "right shift")),
                NamedKey::Alt => return Some(sided_name(location, "left alt", "right alt")),
                NamedKey::AltGraph => "right alt",
                NamedKey::Super => return Some(sided_name(location, "left gui", "right gui")),
                NamedKey::Meta => return Some(sided_name(location, "left gui", "right gui")),
                NamedKey::Enter => {
                    if location == KeyLocation::Numpad {
                        "keypad enter"
                    } else {
                        "return"
                    }
                },
                NamedKey::Tab => "tab",
                NamedKey::Space => "space",
                NamedKey::Backspace => "backspace",
                NamedKey::Delete => "delete",
                NamedKey::Insert => "insert",
                NamedKey::Escape => "escape",
                NamedKey::Home => "home",
                NamedKey::End => "end",
                NamedKey::PageUp => "pageup",
                NamedKey::PageDown => "pagedown",
                NamedKey::ArrowUp => "up",
                NamedKey::ArrowDown => "down",
                NamedKey::ArrowLeft => "left",
                NamedKey::ArrowRight => "right",
                NamedKey::CapsLock => "capslock",
                NamedKey::NumLock => "numlock",
                NamedKey::ScrollLock => "scrolllock",
                NamedKey::PrintScreen => "printscreen",
                NamedKey::Pause => "pause",
                NamedKey::ContextMenu => "application",
                NamedKey::F1 => "f1",
                NamedKey::F2 => "f2",
                NamedKey::F3 => "f3",
                NamedKey::F4 => "f4",
                NamedKey::F5 => "f5",
                NamedKey::F6 => "f6",
                NamedKey::F7 => "f7",
                NamedKey::F8 => "f8",
                NamedKey::F9 => "f9",
                NamedKey::F10 => "f10",
                NamedKey::F11 => "f11",
                NamedKey::F12 => "f12",
                NamedKey::F13 => "f13",
                NamedKey::F14 => "f14",
                NamedKey::F15 => "f15",
                NamedKey::F16 => "f16",
                NamedKey::F17 => "f17",
                NamedKey::F18 => "f18",
                NamedKey::F19 => "f19",
                NamedKey::F20 => "f20",
                NamedKey::F21 => "f21",
                NamedKey::F22 => "f22",
                NamedKey::F23 => "f23",
                NamedKey::F24 => "f24",
                NamedKey::Other => return None,
            };
            Some(name.to_owned())
        },
        Key::Character(text) => Some(char_key_name_of(to_lowercase(text.as_str()), location)),
        Key::Other => None,
    }
}

/// on the keypad, every named key but enter names like its standard twin,
/// so navigation with num lock off hits the same bindings
pub proof fn lemma_numpad_names_like_the_standard_keys(key: NamedKey)
    requires
        key != NamedKey::Enter,
    ensures
        named_key_name(key, KeyLocation::Numpad) == named_key_name(key, KeyLocation::Standard),
{
}

/// the keys whose name does not depend on where they sit: each is sdl's
/// name for it, lowercased, on every part of the keyboard
pub proof fn lemma_keys_named_as_sdl_names_them(location: KeyLocation)
    ensures
        key_name_spec(Key::Named(NamedKey::Tab), location) == Some("tab"@),
        key_name_spec(Key::Named(NamedKey::Space), location) == Some("space"@),
        key_name_spec(Key::Named(NamedKey::Backspace), location) == Some("backspace"@),
        key_name_spec(Key::Named(NamedKey::Delete), location) == Some("delete"@),
        key_name_spec(Key::Named(NamedKey::Insert), location) == Some("insert"@),
        key_name_spec(Key::Named(NamedKey::Escape), location) == Some("escape"@),
        key_name_spec(Key::Named(NamedKey::Home), location) == Some("home"@),
        key_name_spec(Key::Named(NamedKey::End), location) == Some("end"@),
        key_name_spec(Key::Named(NamedKey::PageUp), location) == Some("pageup"@),
        key_name_spec(Key::Named(NamedKey::PageDown), location) == Some("pagedown"@),
        key_name_spec(Key::Named(NamedKey::ArrowUp), location) == Some("up"@),
        key_name_spec(Key::Named(NamedKey::ArrowDown), location) == Some("down"@),
        key_name_spec(Key::Named(NamedKey::ArrowLeft), location) == Some("left"@),
        key_name_spec(Key::Named(NamedKey::ArrowRight), location) == Some("right"@),
        key_name_spec(Key::Named(NamedKey::CapsLock), location) == Some("capslock"@),
        key_name_spec(Key::Named(NamedKey::NumLock), location) == Some("numlock"@),
        key_name_spec(Key::Named(NamedKey::ScrollLock), location) == Some("scrolllock"@),
        key_name_spec(Key::Named(NamedKey::PrintScreen), location) == Some("printscreen"@),
        key_name_spec(Key::Named(NamedKey::Pause), location) == Some("pause"@),
        key_name_spec(Key::Named(NamedKey::ContextMenu), location) == Some("application"@),
        key_name_spec(Key::Named(NamedKey::AltGraph), location) == Some("right alt"@),
        key_name_spec(Key::Named(NamedKey::F1), location) == Some("f1"@),
        key_name_spec(Key::Named(NamedKey::F2), location) == Some("f2"@),
        key_name_spec(Key::Named(NamedKey::F3), location) == Some("f3"@),
        key_name_spec(Key::Named(NamedKey::F4), location) == Some("f4"@),
        key_name_spec(Key::Named(NamedKey::F5), location) == Some("f5"@),
        key_name_spec(Key::Named(NamedKey::F6), location) == Some("f6"@),
        key_name_spec(Key::Named(NamedKey::F7), location) == Some("f7"@),
        key_name_spec(Key::Named(NamedKey::F8), location) == Some("f8"@),
        key_name_spec(Key::Named(NamedKey::F9), location) == Some("f9"@),
        key_name_spec(Key::Named(NamedKey::F10), location) == Some("f10"@),
        key_name_spec(Key::Named(NamedKey::F11), location) == Some("f11"@),
        key_name_spec(Key::Named(NamedKey::F12), location) == Some("f12"@),
        key_name_spec(Key::Named(NamedKey::F13), location) == Some("f13"@),
        key_name_spec(Key::Named(NamedKey::F14), location) == Some("f14"@),
        key_name_spec(Key::Named(NamedKey::F15), location) == Some("f15"@),
        key_name_spec(Key::Named(NamedKey::F16), location) == Some("f16"@),
        key_name_spec(Key::Named(NamedKey::F17), location) == Some("f17"@),
        key_name_spec(Key::Named(NamedKey::F18), location) == Some("f18"@),
        key_name_spec(Key::Named(NamedKey::F19), location) == Some("f19"@),
        key_name_spec(Key::Named(NamedKey::F20), location) == Some("f20"@),
        key_name_spec(Key::Named(NamedKey::F21), location) == Some("f21"@),
        key_name_spec(Key::Named(NamedKey::F22), location) == Some("f22"@),
        key_name_spec(Key::Named(NamedKey::F23), location) == Some("f23"@),
        key_name_spec(Key::Named(NamedKey::F24), location) == Some("f24"@),
{
}

/// modifiers are named by their side (only the right-hand key takes the
/// right name), and enter by whether it sits on the keypad
pub proof fn lemma_sided_and_keypad_names(location: KeyLocation)
    ensures
        key_name_spec(Key::Named(NamedKey::Control), location) == Some(
            if location == KeyLocation::Right { "right ctrl"@ } else { "left ctrl"@ },
        ),
        key_name_spec(Key::Named(NamedKey::Shift), location) == Some(
            if location == KeyLocation::Right { "right shift"@ } else { "left shift"@ },
        ),
        key_name_spec(Key::Named(NamedKey::Alt), location) == Some(
            if location == KeyLocation::Right { "right alt"@ } else { "left alt"@ },
        ),
        key_name_spec(Key::Named(NamedKey::Super), location) == Some(
            if location == KeyLocation::Right { "right gui"@ } else { "left gui"@ },
        ),
        key_name_spec(Key::Named(NamedKey::Meta), location) == Some(
            if location == KeyLocation::Right { "right gui"@ } else { "left gui"@ },
        ),
        key_name_spec(Key::Named(NamedKey::Enter), location) == Some(
            if location == KeyLocation::Numpad { "keypad enter"@ } else { "return"@ },
        ),
        key_name_spec(Key::Named(NamedKey::Other), location) is None,
        key_name_spec(Key::Other, location) is None,
{
}

/// what a keyboard event means to the editor
#[derive(Clone, Debug, PartialEq, Eq)]
pub enum KeyEvent {
    Pressed(String),
    Released(String),
    /// text typed by the press
    Text(String),
}

/// the control characters: the c0 and c1 ranges and delete
pub open spec fn is_control(c: char) -> bool {
    (c as u32) <= 0x1f || (0x7f <= (c as u32) && (c as u32) <= 0x9f)
}

/// text that types something: not empty, and no control characters
pub open spec fn types_text(text: Seq<char>) -> bool {
    text.len() > 0 && forall|i: int| 0 <= i < text.len() ==> !is_control(#[trigger] text[i])
}

/// whether some char of `text` is a control character
fn has_control(text: &str) -> (found: bool)
    ensures
        found == exists|i: int| 0 <= i < text@.len() && is_control(#[trigger] text@[i]),
{
    let chars = crate::font::chars_of(text);
    let mut i: usize = 0;
    while i < chars.len()
        invariant
            chars@ == text@,
            i <= chars@.len(),
            forall|k: int| 0 <= k < i ==> !is_control(#[trigger] chars@[k]),
        decreases chars@.len() - i,
    {
        let c = chars[i] as u32;
        if c <= 0x1f || (0x7f <= c && c <= 0x9f) {
            assert(is_control(chars@[i as int]));
            return true;
        }
        i = i + 1;
    }
    false
}

/// the events one keyboard event becomes: a press the system made up
/// (x11 repeats held keys that way when focus returns) is dropped; a press
/// or release of a key with a name is reported by that name; and a press
/// that types text is also reported as text input, unless ctrl or super is
/// held (chords carry no text)
pub fn key_events(
    pressed: bool,
    synthetic: bool,
    name: Option<String>,
    text: Option<String>,
    ctrl: bool,
    sup: bool,
) -> (events: Vec<KeyEvent>)
    ensures
        events@.len() <= 2,
        pressed && synthetic ==> events@.len() == 0,
        !(pressed && synthetic) ==> {
            let named: Seq<KeyEvent> = match name {
                Some(n) => seq![if pressed { KeyEvent::Pressed(n) } else { KeyEvent::Released(n) }],
                None => Seq::empty(),
            };
            let typed: Seq<KeyEvent> = match text {
                Some(t) => if pressed && !ctrl && !sup && types_text(t@) {
                    seq![KeyEvent::Text(t)]
                } else {
                    Seq::empty()
                },
                None => Seq::empty(),
            };
            events@ == named + typed
        },
{
    let mut events: Vec<KeyEvent> = Vec::new();
    if pressed && synthetic {
        return events;
    }
    match name {
        Some(n) => {
            if pressed {
                events.push(KeyEvent::Pressed(n));
            } else {
                events.push(KeyEvent::Released(n));
            }
        },
        None => {},
    }
    let ghost named = events@;
    match text {
        Some(t) => {
            if pressed && !ctrl && !sup && t.as_str().unicode_len() > 0 && !has_control(t.as_str()) {
                events.push(KeyEvent::Text(t));
                assert(events@ =~= named + seq![KeyEvent::Text(t)]);
            } else {
                assert(events@ =~= named + Seq::<KeyEvent>::empty());
            }
        },
        None => {
            assert(events@ =~= named + Seq::<KeyEvent>::empty());
        },
    }
    events
}

} // verus!
