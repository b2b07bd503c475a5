use listgen::text::{has_char, slice_bytes, trim};

#[test]
fn trim_removes_surrounding_white_space() {
    assert_eq!(trim("  a b \t\n"), "a b");
    assert_eq!(trim("a"), "a");
    assert_eq!(trim(""), "");
    assert_eq!(trim(" \t "), "");
    assert_eq!(trim(" é "), "é");
}

#[test]
fn trim_agrees_with_std() {
    for s in ["", " ", "  a b \t\n", "a", "\u{a0}x\u{3000}", " é ", "\u{2003}\u{2028}", "x\u{85}"] {
        assert_eq!(trim(s), s.trim());
    }
}

#[test]
fn trim_is_idempotent() {
    for s in ["  a  b  ", "\n\nx", "y\r\n"] {
        assert_eq!(trim(trim(s)), trim(s));
    }
}

#[test]
fn has_char_finds_a_character() {
    assert!(has_char("a/b", '/'));
    assert!(!has_char("a(b)", '/'));
    assert!(has_char("a(b)", '('));
    assert!(!has_char("", '('));
    assert!(has_char("añb", 'ñ'));
    assert!(!has_char("añb", 'n'));
}

#[test]
fn slice_bytes_cuts_between_boundaries() {
    assert_eq!(slice_bytes("héllo", 0, 3), "hé");
    assert_eq!(slice_bytes("héllo", 3, 6), "llo");
    assert_eq!(slice_bytes("héllo", 1, 1), "");
    assert_eq!(slice_bytes("héllo", 0, 6), "héllo");
    assert_eq!(slice_bytes("", 0, 0), "");
}
