use listgen::combiner::{combine, CombinedMapping, Entry};
use listgen::parser::{parse_pairs, ListItem};

fn strings(texts: &[&str]) -> Vec<String> {
    texts.iter().map(|t| t.to_string()).collect()
}

fn rows(entries: &Vec<Entry>) -> Vec<(&str, Vec<&str>)> {
    entries
        .iter()
        .map(|e| (e.key.as_str(), e.values.iter().map(|v| v.as_str()).collect()))
        .collect()
}

#[test]
fn new_mapping_is_empty() {
    assert_eq!(CombinedMapping::new().entries().len(), 0);
}

#[test]
fn merge_inserts_a_new_key() {
    let mut mapping = CombinedMapping::new();
    mapping.merge(&"cat".to_string(), &strings(&["feline", "kitty"]));
    assert_eq!(rows(mapping.entries()), vec![("cat", vec!["feline", "kitty"])]);
}

#[test]
fn merge_appends_new_answers_to_a_known_key() {
    let mut mapping = CombinedMapping::new();
    mapping.merge(&"cat".to_string(), &strings(&["feline"]));
    mapping.merge(&"dog".to_string(), &strings(&["hound"]));
    mapping.merge(&"cat".to_string(), &strings(&["kitty", "feline", "puss"]));
    assert_eq!(
        rows(mapping.entries()),
        vec![("cat", vec!["feline", "kitty", "puss"]), ("dog", vec!["hound"])]
    );
}

#[test]
fn merge_keeps_each_answer_once() {
    let mut mapping = CombinedMapping::new();
    mapping.merge(&"k".to_string(), &strings(&["x", "x", "y", "x"]));
    assert_eq!(rows(mapping.entries()), vec![("k", vec!["x", "y"])]);
}

#[test]
fn merge_without_answers_still_makes_the_key() {
    let mut mapping = CombinedMapping::new();
    mapping.merge(&"k".to_string(), &strings(&[]));
    assert_eq!(rows(mapping.entries()), vec![("k", Vec::<&str>::new())]);
}

#[test]
fn merge_does_not_change_case() {
    let mut mapping = CombinedMapping::new();
    mapping.merge(&"Cat".to_string(), &strings(&["A"]));
    mapping.merge(&"cat".to_string(), &strings(&["a"]));
    assert_eq!(rows(mapping.entries()), vec![("Cat", vec!["A"]), ("cat", vec!["a"])]);
}

#[test]
fn merge_each_merges_under_every_question() {
    let mut mapping = CombinedMapping::new();
    mapping.merge_each(&strings(&["a", "b", "a"]), &strings(&["x", "y"]));
    assert_eq!(
        rows(mapping.entries()),
        vec![("a", vec!["x", "y"]), ("b", vec!["x", "y"])]
    );
}

#[test]
fn add_item_lowers_questions_and_answers() {
    let mut mapping = CombinedMapping::new();
    let item = ListItem { questions: strings(&["Cat", "CAT"]), answers: strings(&["Feline", "ÉTÉ"]) };
    mapping.add_item(&item);
    assert_eq!(rows(mapping.entries()), vec![("cat", vec!["feline", "été"])]);
}

#[test]
fn lines_that_differ_in_case_combine_into_one_entry() {
    let items = parse_pairs("cat = feline\nCAT = kitty", '=', false).unwrap();
    let mapping = combine(&items);
    assert_eq!(rows(mapping.entries()), vec![("cat", vec!["feline", "kitty"])]);
}

#[test]
fn answers_that_differ_in_case_are_kept_once() {
    let items = parse_pairs("cat = Feline/FELINE\ncat = feline/Kitty", '=', false).unwrap();
    let mapping = combine(&items);
    assert_eq!(rows(mapping.entries()), vec![("cat", vec!["feline", "kitty"])]);
}

#[test]
fn combine_keeps_questions_in_the_order_first_seen() {
    let items = parse_pairs("b/a = 1\nc/a = 2\n", '=', false).unwrap();
    let mapping = combine(&items);
    assert_eq!(
        rows(mapping.entries()),
        vec![("b", vec!["1"]), ("a", vec!["1", "2"]), ("c", vec!["2"])]
    );
}

#[test]
fn combine_of_nothing_is_empty() {
    assert_eq!(combine(&Vec::new()).entries().len(), 0);
}

#[test]
fn no_entry_holds_an_answer_twice_and_no_key_occurs_twice() {
    let text = "a/A/b = x/X/y\nB/c = Y/z/x\na(b)/c = x (y)/z\n";
    let items = parse_pairs(text, '=', true).unwrap();
    let mapping = combine(&items);
    let entries = mapping.entries();
    for (i, entry) in entries.iter().enumerate() {
        for other in entries[..i].iter() {
            assert_ne!(entry.key, other.key);
        }
        for (j, value) in entry.values.iter().enumerate() {
            assert!(!entry.values[..j].contains(value));
        }
    }
}

#[test]
fn merge_finds_keys_among_many() {
    let mut mapping = CombinedMapping::new();
    let mut expected: Vec<(String, Vec<String>)> = Vec::new();
    let mut seed: u32 = 12345;
    for round in 0..3000 {
        seed = seed.wrapping_mul(1664525).wrapping_add(1013904223);
        let key = format!("k{}", (seed >> 16) % 700);
        let value = format!("v{}", round % 5);
        mapping.merge(&key, &vec![value.clone()]);
        match expected.iter_mut().find(|(k, _)| *k == key) {
            Some((_, values)) => {
                if !values.contains(&value) {
                    values.push(value);
                }
            }
            None => expected.push((key, vec![value])),
        }
    }
    let entries = mapping.entries();
    assert_eq!(entries.len(), expected.len());
    for (entry, (key, values)) in entries.iter().zip(expected.iter()) {
        assert_eq!(&entry.key, key);
        assert_eq!(&entry.values, values);
    }
}
