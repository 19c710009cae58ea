use wisp::keys::{char_key_name_of, key_name, Key, KeyLocation, NamedKey};

fn named(key: NamedKey) -> String {
    key_name(&Key::Named(key), KeyLocation::Standard).unwrap()
}

fn ch(s: &str) -> String {
    key_name(&Key::Character(s.to_string()), KeyLocation::Standard).unwrap()
}

#[test]
fn every_name_the_stock_keymap_binds() {
    assert_eq!(named(NamedKey::Enter), "return");
    assert_eq!(named(NamedKey::Escape), "escape");
    assert_eq!(named(NamedKey::Tab), "tab");
    assert_eq!(named(NamedKey::Backspace), "backspace");
    assert_eq!(named(NamedKey::Delete), "delete");
    assert_eq!(named(NamedKey::Insert), "insert");
    assert_eq!(named(NamedKey::Home), "home");
    assert_eq!(named(NamedKey::End), "end");
    assert_eq!(named(NamedKey::PageUp), "pageup");
    assert_eq!(named(NamedKey::PageDown), "pagedown");
    assert_eq!(named(NamedKey::ArrowUp), "up");
    assert_eq!(named(NamedKey::ArrowDown), "down");
    assert_eq!(named(NamedKey::ArrowLeft), "left");
    assert_eq!(named(NamedKey::ArrowRight), "right");
    let fkeys = [
        (NamedKey::F1, "f1"),
        (NamedKey::F2, "f2"),
        (NamedKey::F3, "f3"),
        (NamedKey::F4, "f4"),
        (NamedKey::F5, "f5"),
        (NamedKey::F6, "f6"),
        (NamedKey::F7, "f7"),
        (NamedKey::F8, "f8"),
        (NamedKey::F9, "f9"),
        (NamedKey::F10, "f10"),
        (NamedKey::F11, "f11"),
        (NamedKey::F12, "f12"),
    ];
    for (key, name) in fkeys {
        assert_eq!(named(key), name);
    }
    assert_eq!(named(NamedKey::Space), "space");
    assert_eq!(named(NamedKey::NumLock), "numlock");
    assert_eq!(named(NamedKey::ContextMenu), "application");
    assert_eq!(named(NamedKey::CapsLock), "capslock");
    assert_eq!(named(NamedKey::F13), "f13");
    assert_eq!(named(NamedKey::F24), "f24");
    for c in "abcdefghijklmnopqrstuvwxyz0123456789[]/\\-=".chars() {
        assert_eq!(ch(&c.to_string()), c.to_string());
    }
}

#[test]
fn modifier_names_match_the_keymap_modkey_map() {
    assert_eq!(key_name(&Key::Named(NamedKey::Control), KeyLocation::Left).unwrap(), "left ctrl");
    assert_eq!(key_name(&Key::Named(NamedKey::Control), KeyLocation::Right).unwrap(), "right ctrl");
    assert_eq!(key_name(&Key::Named(NamedKey::Shift), KeyLocation::Left).unwrap(), "left shift");
    assert_eq!(key_name(&Key::Named(NamedKey::Shift), KeyLocation::Right).unwrap(), "right shift");
    assert_eq!(key_name(&Key::Named(NamedKey::Alt), KeyLocation::Left).unwrap(), "left alt");
    assert_eq!(key_name(&Key::Named(NamedKey::Alt), KeyLocation::Right).unwrap(), "right alt");
    assert_eq!(key_name(&Key::Named(NamedKey::AltGraph), KeyLocation::Right).unwrap(), "right alt");
}

#[test]
fn uppercase_characters_are_lowered() {
    assert_eq!(ch("S"), "s");
    assert_eq!(ch("É"), "é");
}

#[test]
fn numpad_keys_get_the_keypad_prefix() {
    assert_eq!(key_name(&Key::Named(NamedKey::Enter), KeyLocation::Numpad).unwrap(), "keypad enter");
    assert_eq!(key_name(&Key::Character("7".to_string()), KeyLocation::Numpad).unwrap(), "keypad 7");
}

#[test]
fn keys_without_a_name_are_unbindable() {
    assert_eq!(key_name(&Key::Named(NamedKey::Other), KeyLocation::Standard), None);
    assert_eq!(key_name(&Key::Other, KeyLocation::Standard), None);
}

#[test]
fn a_typed_space_is_named_space_and_super_is_gui() {
    assert_eq!(ch(" "), "space");
    assert_eq!(key_name(&Key::Named(NamedKey::Super), KeyLocation::Right).unwrap(), "right gui");
    assert_eq!(key_name(&Key::Named(NamedKey::Meta), KeyLocation::Standard).unwrap(), "left gui");
    // only the right-hand key takes the right name
    assert_eq!(key_name(&Key::Named(NamedKey::Control), KeyLocation::Standard).unwrap(), "left ctrl");
}

use wisp::keys::{key_events, KeyEvent};

#[test]
fn a_press_reports_its_name_and_its_text() {
    assert_eq!(
        key_events(true, false, Some("a".into()), Some("A".into()), false, false),
        vec![KeyEvent::Pressed("a".into()), KeyEvent::Text("A".into())]
    );
    assert_eq!(
        key_events(false, false, Some("a".into()), Some("a".into()), false, false),
        vec![KeyEvent::Released("a".into())]
    );
}

#[test]
fn chords_and_control_chars_type_nothing() {
    assert_eq!(
        key_events(true, false, Some("s".into()), Some("s".into()), true, false),
        vec![KeyEvent::Pressed("s".into())]
    );
    assert_eq!(key_events(true, false, None, Some("\u{8}".into()), false, false), vec![]);
    assert_eq!(key_events(true, false, None, Some("".into()), false, false), vec![]);
    assert_eq!(key_events(true, false, None, Some("x".into()), false, true), vec![]);
}

#[test]
fn made_up_presses_are_dropped_but_releases_pass() {
    assert_eq!(key_events(true, true, Some("tab".into()), Some("\t".into()), false, false), vec![]);
    assert_eq!(
        key_events(false, true, Some("left alt".into()), None, false, false),
        vec![KeyEvent::Released("left alt".into())]
    );
}

#[test]
fn numpad_navigation_names_like_the_standard_keys() {
    assert_eq!(key_name(&Key::Named(NamedKey::Home), KeyLocation::Numpad).unwrap(), "home");
    assert_eq!(key_name(&Key::Named(NamedKey::ArrowLeft), KeyLocation::Numpad).unwrap(), "left");
}

#[test]
fn lowercased_text_becomes_the_key_name() {
    assert_eq!(char_key_name_of("a".to_string(), KeyLocation::Standard), "a");
    assert_eq!(char_key_name_of(" ".to_string(), KeyLocation::Left), "space");
    assert_eq!(char_key_name_of("7".to_string(), KeyLocation::Numpad), "keypad 7");
}
