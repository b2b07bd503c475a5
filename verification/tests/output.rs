use listgen::combiner::{combine, CombinedMapping, Entry};
use listgen::formatter::{format_line, render, render_in_order};
use listgen::generator::{generate, parse_separator};
use listgen::order::{sort_order, text_before};
use listgen::parser::parse_pairs;

fn strings(texts: &[&str]) -> Vec<String> {
    texts.iter().map(|t| t.to_string()).collect()
}

fn entry(key: &str, values: &[&str]) -> Entry {
    Entry { key: key.to_string(), values: strings(values) }
}

#[test]
fn text_before_orders_by_bytes() {
    assert!(text_before("a", "b"));
    assert!(!text_before("b", "a"));
    assert!(!text_before("a", "a"));
    assert!(text_before("a", "ab"));
    assert!(!text_before("ab", "a"));
    assert!(text_before("", "a"));
    assert!(!text_before("", ""));
    assert!(text_before("B", "a"));
    assert!(text_before("z", "é"));
    assert!(text_before("abc", "abd"));
}

#[test]
fn text_before_agrees_with_std() {
    let texts = ["", "a", "A", "ab", "b", "é", "z", "日本", "a b", "a/b", "\u{10000}", "\u{ffff}"];
    for a in texts {
        for b in texts {
            assert_eq!(text_before(a, b), a < b);
        }
    }
}

#[test]
fn sort_order_lists_indices_by_key() {
    assert_eq!(sort_order(&strings(&["b", "a", "c"])), vec![1, 0, 2]);
    assert_eq!(sort_order(&strings(&["a", "b", "c"])), vec![0, 1, 2]);
    assert_eq!(sort_order(&strings(&["c", "b", "a"])), vec![2, 1, 0]);
    assert_eq!(sort_order(&strings(&[])), Vec::<usize>::new());
    assert_eq!(sort_order(&strings(&["x"])), vec![0]);
}

#[test]
fn sort_order_keeps_equal_keys_in_place() {
    assert_eq!(sort_order(&strings(&["b", "a", "c", "a", "b"])), vec![1, 3, 0, 4, 2]);
}

#[test]
fn sort_order_agrees_with_a_stable_sort() {
    let keys = strings(&["pear", "apple", "fig", "apple", "", "zebra", "fig", "éclair", "Apple"]);
    let mut expected: Vec<usize> = (0..keys.len()).collect();
    expected.sort_by(|a, b| keys[*a].cmp(&keys[*b]));
    assert_eq!(sort_order(&keys), expected);
}

#[test]
fn format_line_joins_the_values() {
    assert_eq!(format_line(&entry("cat", &["feline", "kitty"]), '='), "cat = feline / kitty\n");
    assert_eq!(format_line(&entry("cat", &["feline"]), ':'), "cat : feline\n");
    assert_eq!(format_line(&entry("a", &["1", "2", "3"]), '→'), "a → 1 / 2 / 3\n");
}

#[test]
fn format_line_without_values_ends_after_the_separator() {
    assert_eq!(format_line(&entry("k", &[]), '='), "k = \n");
}

#[test]
fn render_in_order_follows_the_order() {
    let entries = vec![entry("b", &["2"]), entry("a", &["1"])];
    assert_eq!(render_in_order(&entries, &vec![1, 0], '='), "a = 1\nb = 2\n");
    assert_eq!(render_in_order(&entries, &vec![0], '='), "b = 2\n");
    assert_eq!(render_in_order(&entries, &vec![], '='), "");
}

#[test]
fn render_sorts_by_key() {
    let mut mapping = CombinedMapping::new();
    mapping.merge(&"pear".to_string(), &strings(&["p"]));
    mapping.merge(&"apple".to_string(), &strings(&["a", "b"]));
    mapping.merge(&"fig".to_string(), &strings(&["f"]));
    assert_eq!(render(&mapping, '='), "apple = a / b\nfig = f\npear = p\n");
}

#[test]
fn render_of_empty_mapping_is_empty() {
    assert_eq!(render(&CombinedMapping::new(), '='), "");
}

#[test]
fn output_is_sorted_without_regard_to_case() {
    let items = parse_pairs("Banana = yellow\napple = red\nCherry = dark red", '=', false).unwrap();
    let mapping = combine(&items);
    assert_eq!(
        render(&mapping, '='),
        "apple = red\nbanana = yellow\ncherry = dark red\n"
    );
}

#[test]
fn render_compares_keys_in_lower_case() {
    let mut mapping = CombinedMapping::new();
    mapping.merge(&"b".to_string(), &strings(&["1"]));
    mapping.merge(&"C".to_string(), &strings(&["2"]));
    mapping.merge(&"a".to_string(), &strings(&["3"]));
    mapping.merge(&"B".to_string(), &strings(&["4"]));
    assert_eq!(render(&mapping, '='), "a = 3\nb = 1\nB = 4\nC = 2\n");
}

#[test]
fn generate_expands_combines_and_sorts() {
    let input = "cat/kitten = feline (animal)\nDog = hound\n";
    assert_eq!(
        generate(input, '=', false),
        Ok("cat = feline (animal) / feline\ndog = hound\nkitten = feline (animal) / feline\n"
            .to_string())
    );
}

#[test]
fn generate_keeps_unexpanded_fields_on_request() {
    let input = "to go/walk : gehen (laufen)";
    assert_eq!(
        generate(input, ':', true),
        Ok("to go : gehen (laufen) / gehen\n\
            to go/walk : gehen (laufen) / gehen\n\
            walk : gehen (laufen) / gehen\n"
            .to_string())
    );
}

#[test]
fn generate_of_empty_input_is_empty() {
    assert_eq!(generate("", '=', false), Ok(String::new()));
}

#[test]
fn generate_reports_the_malformed_line() {
    assert_eq!(
        generate("a = b\na=b=c\n", '=', false),
        Err("Invalid number of seperators '=' on line: 'a=b=c'!".to_string())
    );
}

#[test]
fn two_runs_give_the_same_output() {
    let input = "b/B/a = 1/2 (3)\nA (x)/c = 2/4\nc = 5\n";
    let first = generate(input, '=', true);
    let second = generate(input, '=', true);
    assert!(first.is_ok());
    assert_eq!(first, second);
    let bad = "b = 1\nc\n";
    assert_eq!(generate(bad, '=', true), generate(bad, '=', true));
}

#[test]
fn generate_does_not_depend_on_the_order_of_the_keys() {
    let first = generate("a = 1\nb = 2\nc = 3\n", '=', false);
    let second = generate("c = 3\na = 1\nb = 2\n", '=', false);
    assert_eq!(first, second);
    assert_eq!(first, Ok("a = 1\nb = 2\nc = 3\n".to_string()));
}

#[test]
fn parse_separator_takes_one_character() {
    assert_eq!(parse_separator("="), Ok('='));
    assert_eq!(parse_separator(":"), Ok(':'));
    assert_eq!(parse_separator("→"), Ok('→'));
}

#[test]
fn parse_separator_refuses_other_lengths() {
    assert_eq!(
        parse_separator("=="),
        Err("Seperator can only be 1 character while input is '=='.".to_string())
    );
    assert_eq!(
        parse_separator(""),
        Err("Seperator can only be 1 character while input is ''.".to_string())
    );
}
