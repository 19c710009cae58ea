use wisp::api::fuzzy_match;

// expectations computed by hand
#[test]
fn fuzzy_match_matches_lite_semantics() {
    // no pattern: score = 0 - remaining chars
    assert_eq!(fuzzy_match(b"hello", b""), Some(-5));
    // exact match: runs build up 0+10+20+30+40
    assert_eq!(fuzzy_match(b"hello", b"hello"), Some(100));
    // case-insensitive match costs 1 per differing char
    assert_eq!(fuzzy_match(b"Hello", b"hello"), Some(99));
    // pattern not consumed -> nil
    assert_eq!(fuzzy_match(b"abc", b"abcd"), None);
    assert_eq!(fuzzy_match(b"", b"x"), None);
    // skipped chars cost 10 each: skip x (-10), match a (run 0, +0),
    // then trailing yz costs -2 via the final strlen
    assert_eq!(fuzzy_match(b"xayz", b"a"), Some(-12));
    // spaces are skipped on both sides
    assert_eq!(fuzzy_match(b"  ab", b" a b"), Some(10));
}

#[test]
fn fuzzy_match_trailing_spaces_do_not_crash() {
    // trailing spaces must never walk past the end
    assert_eq!(fuzzy_match(b"a ", b"b"), None);
    let _ = fuzzy_match(b"   ", b"   ");
    let _ = fuzzy_match(b"a   ", b"ab  ");
}

#[test]
fn an_empty_pattern_scores_minus_the_length() {
    for s in [&b""[..], b"x", b"  spaced  ", &[0xff; 300]] {
        assert_eq!(fuzzy_match(s, b""), Some(-(s.len() as i32)));
    }
}

#[test]
fn a_run_restarts_after_a_mismatch() {
    // a, b match (0 + 10), x costs 10 and ends the run, c starts over (0)
    assert_eq!(fuzzy_match(b"abxc", b"abc"), Some(0));
}

#[test]
fn ordinary_inputs_fit_the_score() {
    assert!(wisp::api::fuzzy_match_fits(b"hello", b"hello"));
    assert!(wisp::api::fuzzy_match_fits(b"", b"x"));
    // an exact match of 30000 chars scores 10 * (0 + 1 + ... + 29999), past an i32
    let long = vec![b'a'; 30000];
    assert!(!wisp::api::fuzzy_match_fits(&long, &long));
}

#[test]
fn twenty_thousand_bytes_always_fit() {
    let long = vec![b'a'; 20000];
    assert!(wisp::api::fuzzy_match_fits(&long, &long));
    assert_eq!(wisp::api::fuzzy_match(&long, &long), Some(1_999_900_000));
}

#[test]
fn a_match_needs_the_pattern_in_order() {
    assert!(fuzzy_match(b"xAyB", b"a b").is_some());
    assert_eq!(fuzzy_match(b"ba", b"ab"), None);
    assert_eq!(fuzzy_match(b"abc", b"acb"), None);
}
