use ebay_scraper::text::{
    chars_of, contains_str, decimal_string, description_text, is_ascii_punctuation,
    is_whitespace, remove_punctuation, same_text, trim_string,
};

#[test]
fn remove_punctuation_strips_symbols_and_trims() {
    assert_eq!(remove_punctuation("  Nike Air-Max (size 42)!  "), "Nike AirMax size 42");
    assert_eq!(remove_punctuation("...hello, world..."), "hello world");
    assert_eq!(remove_punctuation("!!!"), "");
    assert_eq!(remove_punctuation(""), "");
}

#[test]
fn remove_punctuation_keeps_non_ascii_punctuation() {
    assert_eq!(remove_punctuation("« Élégant » — prix"), "« Élégant » — prix");
}

#[test]
fn remove_punctuation_trims_unicode_whitespace() {
    assert_eq!(remove_punctuation("\u{a0}\u{3000}abc\u{2003}\n"), "abc");
}

#[test]
fn remove_punctuation_is_idempotent_on_examples() {
    for s in ["  a.b , c ", "x", " -- ", "Héllo, wörld!"] {
        let once = remove_punctuation(s);
        assert_eq!(remove_punctuation(&once), once);
    }
}

#[test]
fn char_classes_match_std() {
    for c in ['!', '/', ':', '@', '[', '`', '{', '~', 'a', 'Z', '0', ' ', '€', '«'] {
        assert_eq!(is_ascii_punctuation(c), c.is_ascii_punctuation(), "{c:?}");
    }
    for c in ['\t', '\n', '\r', ' ', '\u{85}', '\u{a0}', '\u{1680}', '\u{2000}', '\u{200a}',
        '\u{200b}', '\u{2028}', '\u{202f}', '\u{205f}', '\u{3000}', 'a', '\u{feff}']
    {
        assert_eq!(is_whitespace(c), c.is_whitespace(), "{c:?}");
    }
}

#[test]
fn trim_matches_std() {
    for s in ["", "  ", " a ", "\tab c\n", "\u{3000}x\u{a0}", "no-trim"] {
        assert_eq!(trim_string(s), s.trim());
    }
}

#[test]
fn description_drops_first_word_and_normalizes_spaces() {
    let raw: Vec<char> = "  Description   great\tcondition \n  shipped fast ".chars().collect();
    assert_eq!(description_text(&raw), "great condition shipped fast");
    let one: Vec<char> = "only ".chars().collect();
    assert_eq!(description_text(&one), "");
    let none: Vec<char> = "   ".chars().collect();
    assert_eq!(description_text(&none), "");
}

#[test]
fn description_matches_split_skip_join() {
    let s = "a b  c\u{2003}d\n\ne";
    let expected = s.split_whitespace().skip(1).collect::<Vec<_>>().join(" ");
    let raw: Vec<char> = s.chars().collect();
    assert_eq!(description_text(&raw), expected);
}

#[test]
fn substring_and_equality() {
    assert!(contains_str("the connection is closed now", "connection is closed"));
    assert!(!contains_str("connection closed", "connection is closed"));
    assert!(contains_str("abc", ""));
    assert!(!contains_str("", "a"));
    assert!(same_text("script", "script"));
    assert!(!same_text("script", "scripts"));
    assert_eq!(chars_of("añb"), vec!['a', 'ñ', 'b']);
}

#[test]
fn decimal_numerals() {
    assert_eq!(decimal_string(0), "0");
    assert_eq!(decimal_string(7), "7");
    assert_eq!(decimal_string(10), "10");
    assert_eq!(decimal_string(1234567), "1234567");
    assert_eq!(decimal_string(usize::MAX), usize::MAX.to_string());
}
