use listgen::divider::{divide_parenthesis, divide_slash};
use listgen::splitter::{divide_string, takeout_string};

#[test]
fn divide_string_cuts_at_byte_offsets() {
    assert_eq!(divide_string("a/b/c", &[1, 3]), vec!["a", "b", "c"]);
    assert_eq!(divide_string("héllo / x", &[7]), vec!["héllo", "x"]);
    assert_eq!(divide_string(" one , two ", &[5]), vec!["one", "two"]);
}

#[test]
fn divide_string_without_places_trims_the_whole() {
    assert_eq!(divide_string("  abc ", &[]), vec!["abc"]);
    assert_eq!(divide_string("", &[]), vec![""]);
}

#[test]
fn divide_string_gives_empty_pieces_at_the_ends() {
    assert_eq!(divide_string("/a/", &[0, 2]), vec!["", "a", ""]);
    assert_eq!(divide_string("//", &[0, 1]), vec!["", "", ""]);
}

#[test]
fn takeout_string_removes_byte_ranges() {
    assert_eq!(takeout_string("a(b)c", &[(1, 3)]), "ac");
    assert_eq!(takeout_string("é(b)c", &[(2, 4)]), "éc");
    assert_eq!(takeout_string("abc", &[]), "abc");
    assert_eq!(takeout_string("abcdef", &[(0, 1), (4, 5)]), "cd");
}

#[test]
fn takeout_string_counts_both_ends_and_overlaps() {
    assert_eq!(takeout_string("abcdef", &[(1, 3), (2, 4)]), "af");
    assert_eq!(takeout_string("abc", &[(1, 1)]), "ac");
    assert_eq!(takeout_string("abc", &[(2, 1)]), "abc");
    assert_eq!(takeout_string("abc", &[(0, 100)]), "");
}

#[test]
fn takeout_string_goes_by_where_a_character_starts() {
    assert_eq!(takeout_string("aéb", &[(2, 2)]), "aéb");
    assert_eq!(takeout_string("aéb", &[(1, 1)]), "ab");
}

#[test]
fn divide_slash_splits_outside_parentheses_only() {
    assert_eq!(divide_slash("a/b"), vec!["a", "b"]);
    assert_eq!(divide_slash("cat(s)/dog"), vec!["cat(s)", "dog"]);
    assert_eq!(divide_slash("a(b/c)"), vec!["a(b/c)"]);
    assert_eq!(divide_slash(" a / b / c "), vec!["a", "b", "c"]);
    assert_eq!(divide_slash("a((b/c)/d)/e"), vec!["a((b/c)/d)", "e"]);
}

#[test]
fn divide_slash_without_slash_trims_the_input() {
    assert_eq!(divide_slash("  plain  "), vec!["plain"]);
    assert_eq!(divide_slash(""), vec![""]);
}

#[test]
fn divide_slash_handles_characters_of_several_bytes() {
    assert_eq!(divide_slash("é/ü"), vec!["é", "ü"]);
    assert_eq!(divide_slash("日本/語(é/x)/z"), vec!["日本", "語(é/x)", "z"]);
}

#[test]
fn divide_slash_counts_depth_below_zero() {
    assert_eq!(divide_slash("a)/b(/c"), vec!["a)/b(", "c"]);
    assert_eq!(divide_slash(")/"), vec![")/"]);
}

#[test]
fn divide_parenthesis_without_parenthesis_gives_the_input_unchanged() {
    assert_eq!(divide_parenthesis(" plain "), vec![" plain "]);
    assert_eq!(divide_parenthesis(""), vec![""]);
    assert_eq!(divide_parenthesis("a)b"), vec!["a)b"]);
}

#[test]
fn divide_parenthesis_gives_two_variants() {
    assert_eq!(divide_parenthesis("a(b)"), vec!["a(b)", "a"]);
    assert_eq!(divide_parenthesis("(the) cat"), vec!["(the) cat", "cat"]);
    assert_eq!(divide_parenthesis(" a (b) "), vec![" a (b) ", "a"]);
}

#[test]
fn divide_parenthesis_removes_all_top_level_groups() {
    assert_eq!(divide_parenthesis("a (b) c (d(e)) f"), vec!["a (b) c (d(e)) f", "a  c  f"]);
    assert_eq!(divide_parenthesis("(a)(b)"), vec!["(a)(b)", ""]);
    assert_eq!(divide_parenthesis("é(ü)ö(x)"), vec!["é(ü)ö(x)", "éö"]);
}

#[test]
fn divide_parenthesis_leaves_unclosed_and_unopened_parentheses() {
    assert_eq!(divide_parenthesis("a(b"), vec!["a(b", "a(b"]);
    assert_eq!(divide_parenthesis("a)b(c)d"), vec!["a)b(c)d", "a)b(c)d"]);
    assert_eq!(divide_parenthesis("a(b)c(d"), vec!["a(b)c(d", "ac(d"]);
    assert_eq!(divide_parenthesis("a(b(c)"), vec!["a(b(c)", "a(b(c)"]);
}
