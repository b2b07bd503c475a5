use listgen::parser::{parse_pairs, split_lines, ListItem};

fn fields(item: &ListItem) -> (Vec<&str>, Vec<&str>) {
    (
        item.questions.iter().map(|q| q.as_str()).collect(),
        item.answers.iter().map(|a| a.as_str()).collect(),
    )
}

#[test]
fn split_lines_ends_lines_at_line_feeds() {
    assert_eq!(split_lines("a\nb"), vec!["a", "b"]);
    assert_eq!(split_lines("a\nb\n"), vec!["a", "b"]);
    assert_eq!(split_lines("a\n\nb"), vec!["a", "", "b"]);
    assert_eq!(split_lines("\n"), vec![""]);
    assert_eq!(split_lines(""), Vec::<&str>::new());
    assert_eq!(split_lines("one line"), vec!["one line"]);
}

#[test]
fn split_lines_drops_a_carriage_return_before_a_line_feed() {
    assert_eq!(split_lines("a\r\nb\r\n"), vec!["a", "b"]);
    assert_eq!(split_lines("\r\n"), vec![""]);
    assert_eq!(split_lines("a\r"), vec!["a\r"]);
    assert_eq!(split_lines("a\rb\n"), vec!["a\rb"]);
    assert_eq!(split_lines("a\r\r\n"), vec!["a\r"]);
}

#[test]
fn split_lines_agrees_with_std() {
    for s in [
        "", "\n", "a", "a\n", "a\nb", "a\r\nb\r\n", "a\r", "\r\n", "a\n\nb", "a\rb\n",
        "é\r\n\r\nx", "\n\n", "\r", "x\n\ry",
    ] {
        let expected: Vec<&str> = s.lines().collect();
        assert_eq!(split_lines(s), expected);
    }
}

#[test]
fn parse_pairs_reads_each_line() {
    let items = parse_pairs("cat = feline\ndog/hound = canine (animal)\n", '=', false).unwrap();
    assert_eq!(items.len(), 2);
    assert_eq!(fields(&items[0]), (vec!["cat"], vec!["feline"]));
    assert_eq!(
        fields(&items[1]),
        (vec!["dog", "hound"], vec!["canine (animal)", "canine"])
    );
}

#[test]
fn parse_pairs_keeps_the_unexpanded_field_on_request() {
    let items = parse_pairs("a/b = c(d)", '=', true).unwrap();
    assert_eq!(items.len(), 1);
    assert_eq!(fields(&items[0]), (vec!["a", "b", "a/b"], vec!["c(d)", "c", "c(d)"]));
}

#[test]
fn parse_pairs_accepts_any_separator() {
    let items = parse_pairs("a : b = c", ':', false).unwrap();
    assert_eq!(items.len(), 1);
    assert_eq!(fields(&items[0]), (vec!["a"], vec!["b = c"]));
    let items = parse_pairs("é → è\nü/u → y", '→', false).unwrap();
    assert_eq!(items.len(), 2);
    assert_eq!(fields(&items[0]), (vec!["é"], vec!["è"]));
    assert_eq!(fields(&items[1]), (vec!["ü", "u"], vec!["y"]));
    assert!(parse_pairs("a : b", '→', false).is_err());
}

#[test]
fn parse_pairs_of_empty_input_has_no_item() {
    assert_eq!(parse_pairs("", '=', false).unwrap().len(), 0);
}

#[test]
fn parse_pairs_allows_empty_fields() {
    let items = parse_pairs("=", '=', false).unwrap();
    assert_eq!(fields(&items[0]), (vec![""], vec![""]));
}

#[test]
fn every_item_has_a_question_and_an_answer() {
    let items = parse_pairs("a=b\n = \n(x)=/\n", '=', false).unwrap();
    assert_eq!(items.len(), 3);
    for item in items.iter() {
        assert!(item.questions.len() >= 1);
        assert!(item.answers.len() >= 1);
    }
}

#[test]
fn line_with_two_separators_is_rejected() {
    let res = parse_pairs("a=b=c", '=', false);
    assert_eq!(
        res.err(),
        Some("Invalid number of seperators '=' on line: 'a=b=c'!".to_string())
    );
}

#[test]
fn line_without_separator_is_rejected() {
    let res = parse_pairs("a = b\nno separator here\nc = d", '=', false);
    assert_eq!(
        res.err(),
        Some("Invalid number of seperators '=' on line: 'no separator here'!".to_string())
    );
}

#[test]
fn blank_line_is_rejected() {
    let res = parse_pairs("a = b\n\nc = d", '=', false);
    assert_eq!(
        res.err(),
        Some("Invalid number of seperators '=' on line: ''!".to_string())
    );
}

#[test]
fn first_malformed_line_is_reported() {
    let res = parse_pairs("a=b\nx\ny=z=w\n", '=', true);
    assert_eq!(
        res.err(),
        Some("Invalid number of seperators '=' on line: 'x'!".to_string())
    );
}

#[test]
fn separator_inside_parentheses_counts() {
    let res = parse_pairs("a (=) = b", '=', false);
    assert_eq!(
        res.err(),
        Some("Invalid number of seperators '=' on line: 'a (=) = b'!".to_string())
    );
}
