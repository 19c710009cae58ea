use wisp::embed::{config_dir, needs_unpack, pick, seed_for, ships, state_dir};

fn b(s: &str) -> Option<Vec<u8>> {
    Some(s.as_bytes().to_vec())
}

#[test]
fn xdg_takes_the_variable_only_when_it_is_absolute() {
    let abs = pick(b("/tmp/xdg"), b("/home/x"), ".config");
    assert_eq!(abs.unwrap(), b"/tmp/xdg".to_vec());
    // the spec calls a relative value invalid and says to ignore it
    let rel = pick(b("relative"), b("/home/x"), ".config");
    assert_eq!(rel.unwrap(), b"/home/x/.config".to_vec());
    let empty = pick(b(""), b("/home/x"), ".config");
    assert_eq!(empty.unwrap(), b"/home/x/.config".to_vec());
    let unset = pick(None, b("/home/x"), ".local/state");
    assert_eq!(unset.unwrap(), b"/home/x/.local/state".to_vec());
    assert!(pick(None, None, ".config").is_none());
}

#[test]
fn a_home_ending_in_a_slash_gets_no_second_one() {
    assert_eq!(pick(None, b("/home/x/"), ".config").unwrap(), b"/home/x/.config".to_vec());
    assert!(pick(None, b(""), ".config").is_none());
}

#[test]
fn the_config_and_state_dirs_are_named_wisp() {
    assert_eq!(config_dir(None, b("/home/x")).unwrap(), b"/home/x/.config/wisp".to_vec());
    assert_eq!(config_dir(b("/etc/xdg"), b("/home/x")).unwrap(), b"/etc/xdg/wisp".to_vec());
    assert_eq!(state_dir(None, b("/home/x")).unwrap(), b"/home/x/.local/state/wisp".to_vec());
    assert_eq!(state_dir(None, None).err().unwrap(), "no home directory");
}

#[test]
fn a_current_stamp_means_hands_off() {
    assert!(!needs_unpack(Some("1.2.3"), "1.2.3"));
    assert!(needs_unpack(Some("0.0.0-old"), "1.2.3"));
    assert!(needs_unpack(None, "1.2.3"));
}

#[test]
fn the_seed_is_written_once_and_a_legacy_module_wins() {
    let stock: &[u8] = b"-- put user settings here\n";
    assert_eq!(seed_for(true, b("mine"), Some(stock)), None);
    assert_eq!(seed_for(false, b("-- years of tweaks\n"), Some(stock)).unwrap(), b"-- years of tweaks\n".to_vec());
    assert_eq!(seed_for(false, None, Some(stock)).unwrap(), stock.to_vec());
    assert_eq!(seed_for(false, None, None), None);
}

#[test]
fn the_user_module_is_never_unpacked() {
    assert!(!ships(b"user/init.lua"));
    assert!(!ships(b"user"));
    assert!(ships(b"users/init.lua"));
    assert!(ships(b"core/init.lua"));
    assert!(ships(b"plugins/user.lua"));
}
