use listgen::expander::recurse_parts;
use listgen::generator::generate;

fn model_alternatives(s: &str) -> Vec<String> {
    let mut depth: i64 = 0;
    let mut from = 0;
    let mut parts = Vec::new();
    for (at, c) in s.char_indices() {
        match c {
            '(' => depth += 1,
            ')' => depth -= 1,
            '/' if depth == 0 => {
                parts.push(s[from..at].trim().to_string());
                from = at + 1;
            }
            _ => {}
        }
    }
    parts.push(s[from..].trim().to_string());
    parts
}

fn model_short_form(s: &str) -> Vec<String> {
    if !s.contains('(') {
        return vec![s.to_string()];
    }
    let chars: Vec<char> = s.chars().collect();
    let mut stays = vec![true; chars.len()];
    let mut depth: i64 = 0;
    let mut open = 0;
    for (k, c) in chars.iter().enumerate() {
        if *c == '(' {
            if depth == 0 {
                open = k;
            }
            depth += 1;
        } else if *c == ')' {
            if depth == 1 {
                for m in open..=k {
                    stays[m] = false;
                }
            }
            depth -= 1;
        }
    }
    let rest: String = chars.iter().zip(stays).filter(|(_, stay)| *stay).map(|(c, _)| *c).collect();
    vec![s.to_string(), rest.trim().to_string()]
}

fn model_variants(s: &str, slash: bool, depth: u16, keep: bool) -> Vec<String> {
    let parts = if slash { model_alternatives(s) } else { model_short_form(s) };
    if parts.len() == 1 || depth >= 16 {
        return parts;
    }
    let mut all = Vec::new();
    for part in parts {
        all.extend(model_variants(&part, !slash, depth + 1, keep));
    }
    if depth > 0 || keep {
        all.push(s.to_string());
    }
    all
}

fn model_output(input: &str, separator: char, keep: bool) -> Result<String, String> {
    let mut rows: Vec<(String, Vec<String>)> = Vec::new();
    for line in input.lines() {
        let fields: Vec<&str> = line.split(separator).collect();
        if fields.len() != 2 {
            return Err(format!(
                "Invalid number of seperators '{}' on line: '{}'!",
                separator, line
            ));
        }
        let question = fields[0].trim();
        let answer = fields[1].trim();
        let questions = model_variants(question, question.contains('/'), 0, keep);
        let answers = model_variants(answer, answer.contains('/'), 0, keep);
        for q in questions {
            let key = q.to_lowercase();
            let at = match rows.iter().position(|(k, _)| *k == key) {
                Some(at) => at,
                None => {
                    rows.push((key, Vec::new()));
                    rows.len() - 1
                }
            };
            for a in answers.iter() {
                let value = a.to_lowercase();
                if !rows[at].1.contains(&value) {
                    rows[at].1.push(value);
                }
            }
        }
    }
    rows.sort_by_key(|(key, _)| key.to_lowercase());
    let mut text = String::new();
    for (key, values) in rows {
        text.push_str(&format!("{} {} {}\n", key, separator, values.join(" / ")));
    }
    Ok(text)
}

fn next(seed: &mut u32) -> usize {
    *seed = seed.wrapping_mul(1664525).wrapping_add(1013904223);
    (*seed >> 16) as usize
}

fn random_field(seed: &mut u32, alphabet: &[char]) -> String {
    let len = next(seed) % 12;
    (0..len).map(|_| alphabet[next(seed) % alphabet.len()]).collect()
}

#[test]
fn variants_agree_with_the_model() {
    let alphabet = ['a', 'B', 'c', ' ', '/', '/', '(', ')', '(', ')', 'é', '\t'];
    let mut seed: u32 = 7;
    for _ in 0..4000 {
        let field = random_field(&mut seed, &alphabet);
        let slash = next(&mut seed) % 2 == 0;
        let keep = next(&mut seed) % 2 == 0;
        let depth = [0, 0, 1, 14, 15, 16, 17][next(&mut seed) % 7];
        assert_eq!(
            recurse_parts(&field, slash, depth, keep),
            model_variants(&field, slash, depth, keep),
            "field {:?}, slash {}, depth {}, keep {}",
            field,
            slash,
            depth,
            keep
        );
    }
}

#[test]
fn output_agrees_with_the_model() {
    let alphabet = ['a', 'A', 'b', 'B', ' ', '/', '(', ')', 'é', 'É'];
    let mut seed: u32 = 99;
    for round in 0..300 {
        let keep = round % 2 == 0;
        let lines = next(&mut seed) % 8;
        let mut input = String::new();
        for _ in 0..lines {
            input.push_str(&random_field(&mut seed, &alphabet));
            input.push_str(" = ");
            input.push_str(&random_field(&mut seed, &alphabet));
            input.push_str(if next(&mut seed) % 3 == 0 { "\r\n" } else { "\n" });
        }
        assert_eq!(generate(&input, '=', keep), model_output(&input, '=', keep), "{:?}", input);
    }
}

#[test]
fn malformed_input_agrees_with_the_model() {
    let alphabet = ['a', 'b', ' ', '=', '=', '\n', '/', '('];
    let mut seed: u32 = 3;
    for _ in 0..500 {
        let len = next(&mut seed) % 20;
        let input: String = (0..len).map(|_| alphabet[next(&mut seed) % alphabet.len()]).collect();
        assert_eq!(generate(&input, '=', false), model_output(&input, '=', false), "{:?}", input);
    }
}
