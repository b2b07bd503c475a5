//! Reading the lines of a text as pairs of a question and an answer.

use crate::expander::{
    expand, lemma_expand_nonempty, lemma_plain_field_one_variant, recurse_parts,
};
use crate::text::{
    char_indices, find_all, has_char, indexes, lemma_positions, lemma_trimmed,
    lemma_trimmed_idempotent, positions, substring, trim, trimmed,
};
use vstd::prelude::*;
use vstd::string::StringExecFns;

verus! {

/// The variants of the question and of the answer of one line.
pub struct ListItem {
    pub questions: Vec<String>,
    pub answers: Vec<String>,
}

/// What a `ListItem` holds, as sequences of characters.
pub struct Item {
    pub questions: Seq<Seq<char>>,
    pub answers: Seq<Seq<char>>,
}

impl View for ListItem {
    type V = Item;

    open spec fn view(&self) -> Item {
        Item { questions: self.questions.deep_view(), answers: self.answers.deep_view() }
    }
}

impl DeepView for ListItem {
    type V = Item;

    open spec fn deep_view(&self) -> Item {
        self.view()
    }
}

impl ListItem {
    /// Both fields have at least one variant.
    pub open spec fn wf(&self) -> bool {
        self.questions@.len() >= 1 && self.answers@.len() >= 1
    }
}

/// Line `i` of `s`, where `feeds` are the positions of its line feeds: the
/// characters after the line feed before it, up to its own line feed, without
/// a carriage return that stands directly before that line feed. What follows
/// the last line feed is taken as it is.
pub open spec fn line_at(s: Seq<char>, feeds: Seq<int>, i: int) -> Seq<char> {
    let from = if i <= 0 {
        0
    } else {
        feeds[i - 1] + 1
    };
    if i >= feeds.len() {
        s.subrange(from, s.len() as int)
    } else if from < feeds[i] && s[feeds[i] - 1] == '\r' {
        s.subrange(from, feeds[i] - 1)
    } else {
        s.subrange(from, feeds[i])
    }
}

/// The number of lines of `s` with line feeds at `feeds`: one for each line
/// feed, and one more where characters follow the last of them.
pub open spec fn line_count(s: Seq<char>, feeds: Seq<int>) -> nat {
    let rest = if feeds.len() == 0 {
        0
    } else {
        feeds.last() + 1
    };
    if rest < s.len() {
        feeds.len() + 1
    } else {
        feeds.len()
    }
}

/// The lines of `s`. A line ends at a line feed, or at a carriage return
/// directly followed by one; neither belongs to the line. The last line needs
/// no line ending, and the empty text has no line.
pub open spec fn lines_of(s: Seq<char>) -> Seq<Seq<char>> {
    let feeds = positions(s, '\n', s.len() as int);
    Seq::new(line_count(s, feeds), |i: int| line_at(s, feeds, i))
}

/// Splits `input` into its lines.
pub fn split_lines(input: &str) -> (res: Vec<&str>)
    ensures
        res.deep_view() == lines_of(input@),
{
    let cs = char_indices(input);
    let feeds = find_all(&cs, '\n', Ghost(input@));
    let ghost points = positions(input@, '\n', input@.len() as int);
    proof {
        lemma_positions(input@, '\n', input@.len() as int);
    }
    let mut res: Vec<&str> = Vec::new();
    let mut from: usize = 0;
    let mut i: usize = 0;
    while i < feeds.len()
        invariant
            indexes(cs@, input@),
            points == positions(input@, '\n', input@.len() as int),
            feeds@.len() == points.len(),
            forall|j: int| 0 <= j < feeds@.len() ==> (#[trigger] feeds@[j]) == points[j],
            forall|j: int| 0 <= j < points.len() ==> 0 <= (#[trigger] points[j]) < input@.len(),
            forall|j: int, m: int| 0 <= j < m < points.len() ==> points[j] < points[m],
            i <= feeds@.len(),
            from == (if i == 0 {
                0
            } else {
                points[i - 1] + 1
            }),
            from <= input@.len(),
            res@.len() == i,
            forall|j: int| 0 <= j < i ==> (#[trigger] res@[j])@ == line_at(input@, points, j),
        decreases feeds@.len() - i,
    {
        let feed = feeds[i];
        proof {
            assert(feed == points[i as int]);
            assert(feed < cs.len());
            if i > 0 {
                assert(points[i - 1] < points[i as int]);
            }
        }
        let to = if from < feed && cs[feed - 1].1 == '\r' {
            feed - 1
        } else {
            feed
        };
        res.push(substring(input, &cs, from, to));
        from = feed + 1;
        i += 1;
    }
    if from < cs.len() {
        res.push(substring(input, &cs, from, cs.len()));
    }
    proof {
        assert(res.deep_view() =~= lines_of(input@));
    }
    res
}

/// The line has the separator exactly once.
pub open spec fn has_one_separator(line: Seq<char>, separator: char) -> bool {
    positions(line, separator, line.len() as int).len() == 1
}

/// The question of a line with one separator: what stands before the
/// separator, trimmed.
pub open spec fn question_of(line: Seq<char>, separator: char) -> Seq<char> {
    trimmed(line.take(positions(line, separator, line.len() as int)[0]))
}

/// The answer of a line with one separator: what stands after the separator,
/// trimmed.
pub open spec fn answer_of(line: Seq<char>, separator: char) -> Seq<char> {
    trimmed(line.skip(positions(line, separator, line.len() as int)[0] + 1))
}

/// The variants of a field of a line: it is split at slashes first where it
/// holds a slash, and at parentheses first otherwise.
pub open spec fn variants_of(field: Seq<char>, keep_original: bool) -> Seq<Seq<char>> {
    expand(field, field.contains('/'), 0, keep_original)
}

/// A field of a line with neither a slash nor an opening parenthesis has
/// exactly one variant: the field, trimmed.
pub proof fn lemma_plain_field(field: Seq<char>, keep_original: bool)
    requires
        !field.contains('/'),
        !field.contains('('),
    ensures
        variants_of(trimmed(field), keep_original) == seq![trimmed(field)],
{
    let t = trimmed(field);
    let (a, b) = lemma_trimmed(field);
    lemma_trimmed_idempotent(field);
    assert forall|c: char| t.contains(c) implies field.contains(c) by {
        let i = choose|i: int| 0 <= i < t.len() && t[i] == c;
        assert(field[a + i] == c);
    }
    lemma_plain_field_one_variant(t, t.contains('/'), 0, keep_original);
}

/// The item of a line with one separator.
pub open spec fn item_of(line: Seq<char>, separator: char, keep_original: bool) -> Item {
    Item {
        questions: variants_of(question_of(line, separator), keep_original),
        answers: variants_of(answer_of(line, separator), keep_original),
    }
}

/// The item of a line has at least one question and at least one answer.
pub proof fn lemma_item_has_variants(line: Seq<char>, separator: char, keep_original: bool)
    ensures
        item_of(line, separator, keep_original).questions.len() >= 1,
        item_of(line, separator, keep_original).answers.len() >= 1,
{
    let question = question_of(line, separator);
    let answer = answer_of(line, separator);
    lemma_expand_nonempty(question, question.contains('/'), 0, keep_original);
    lemma_expand_nonempty(answer, answer.contains('/'), 0, keep_original);
}

/// The index of the first of `lines` that does not have the separator exactly
/// once, if there is one.
pub open spec fn first_malformed(lines: Seq<Seq<char>>, separator: char) -> Option<int>
    decreases lines.len(),
{
    if lines.len() == 0 {
        None
    } else {
        match first_malformed(lines.drop_last(), separator) {
            Some(i) => Some(i),
            None => if has_one_separator(lines.last(), separator) {
                None
            } else {
                Some(lines.len() - 1)
            },
        }
    }
}

/// The message for a line that does not have the separator exactly once.
pub open spec fn line_error(separator: char, line: Seq<char>) -> Seq<char> {
    "Invalid number of seperators '"@ + seq![separator] + "' on line: '"@ + line + "'!"@
}

/// What parsing `input` gives: the items of its lines in order, or the
/// message for the first line that does not have the separator exactly once.
pub open spec fn parsed(input: Seq<char>, separator: char, keep_original: bool) -> Result<
    Seq<Item>,
    Seq<char>,
> {
    let lines = lines_of(input);
    match first_malformed(lines, separator) {
        Some(i) => Err(line_error(separator, lines[i])),
        None => Ok(Seq::new(lines.len(), |i: int| item_of(lines[i], separator, keep_original))),
    }
}

/// `first_malformed` finds a line that does not have the separator exactly
/// once, before which every line has it once; it finds none exactly when
/// every line has it once.
pub proof fn lemma_first_malformed(lines: Seq<Seq<char>>, separator: char)
    ensures
        match first_malformed(lines, separator) {
            Some(i) => {
                &&& 0 <= i < lines.len()
                &&& !has_one_separator(lines[i], separator)
                &&& forall|j: int| 0 <= j < i ==> has_one_separator(#[trigger] lines[j], separator)
            },
            None => forall|j: int|
                0 <= j < lines.len() ==> has_one_separator(#[trigger] lines[j], separator),
        },
    decreases lines.len(),
{
    if lines.len() > 0 {
        lemma_first_malformed(lines.drop_last(), separator);
        let front = lines.drop_last();
        assert forall|j: int| 0 <= j < front.len() implies front[j] == lines[j] by {}
        match first_malformed(front, separator) {
            Some(i) => {
                assert(front[i] == lines[i]);
                assert forall|j: int| 0 <= j < i implies has_one_separator(
                    #[trigger] lines[j],
                    separator,
                ) by {
                    assert(front[j] == lines[j]);
                }
            },
            None => {
                assert forall|j: int| 0 <= j < lines.len() - 1 implies has_one_separator(
                    #[trigger] lines[j],
                    separator,
                ) by {
                    assert(front[j] == lines[j]);
                }
            },
        }
    }
}

/// The variants of a field that was cut out of a line.
fn expand_field(field: &str, keep_original: bool) -> (res: Vec<String>)
    ensures
        res.deep_view() == variants_of(trimmed(field@), keep_original),
        res@.len() >= 1,
{
    let field = trim(field);
    recurse_parts(field, has_char(field, '/'), 0, keep_original)
}

/// The message for `line`.
fn line_error_message(separator: char, line: &str) -> (msg: String)
    ensures
        msg@ == line_error(separator, line@),
{
    let mut msg = "Invalid number of seperators '".to_owned();
    msg.push(separator);
    msg.append("' on line: '");
    msg.append(line);
    msg.append("'!");
    msg
}

/// Parses every line of `input` as a question and an answer with `separator`
/// between them, and expands both. The first line that does not hold the
/// separator exactly once, a blank line among them, ends the parse with its
/// message, and no item is returned.
pub fn parse_pairs(input: &str, separator: char, keep_original: bool) -> (res: Result<
    Vec<ListItem>,
    String,
>)
    ensures
        match res {
            Ok(items) => {
                &&& parsed(input@, separator, keep_original) == Ok::<Seq<Item>, Seq<char>>(
                    items.deep_view(),
                )
                &&& forall|i: int| 0 <= i < items@.len() ==> (#[trigger] items@[i]).wf()
            },
            Err(msg) => parsed(input@, separator, keep_original) == Err::<Seq<Item>, Seq<char>>(
                msg@,
            ),
        },
{
    let lines = split_lines(input);
    let ghost all = lines.deep_view();
    let mut results: Vec<ListItem> = Vec::new();
    let mut n: usize = 0;
    while n < lines.len()
        invariant
            all == lines.deep_view(),
            all == lines_of(input@),
            n <= lines@.len(),
            first_malformed(all.take(n as int), separator) is None,
            results@.len() == n,
            forall|i: int|
                0 <= i < n ==> (#[trigger] results@[i])@ == item_of(
                    all[i],
                    separator,
                    keep_original,
                ),
            forall|i: int| 0 <= i < n ==> (#[trigger] results@[i]).wf(),
        decreases lines@.len() - n,
    {
        let line = lines[n];
        let cs = char_indices(line);
        let found = find_all(&cs, separator, Ghost(line@));
        proof {
            lemma_positions(line@, separator, line@.len() as int);
            assert(all.take(n as int + 1).drop_last() =~= all.take(n as int));
            assert(all.take(n as int + 1).last() == line@);
        }
        if found.len() != 1 {
            proof {
                lemma_malformed_prefix(all, separator, n as int + 1);
            }
            return Err(line_error_message(separator, line));
        }
        let at = found[0];
        proof {
            assert(at == positions(line@, separator, line@.len() as int)[0]);
            assert(at < cs.len());
        }
        let question = substring(line, &cs, 0, at);
        let answer = substring(line, &cs, at + 1, cs.len());
        results.push(
            ListItem {
                questions: expand_field(question, keep_original),
                answers: expand_field(answer, keep_original),
            },
        );
        n += 1;
    }
    proof {
        assert(all.take(n as int) =~= all);
        assert(results.deep_view() =~= Seq::new(
            all.len(),
            |i: int| item_of(all[i], separator, keep_original),
        ));
    }
    Ok(results)
}

/// A malformed line found among the first `k` lines is the first malformed
/// line of all.
proof fn lemma_malformed_prefix(lines: Seq<Seq<char>>, separator: char, k: int)
    requires
        0 <= k <= lines.len(),
        first_malformed(lines.take(k), separator) is Some,
    ensures
        first_malformed(lines, separator) == first_malformed(lines.take(k), separator),
    decreases lines.len() - k,
{
    if k < lines.len() {
        assert(lines.take(k + 1).drop_last() =~= lines.take(k));
        lemma_malformed_prefix(lines, separator, k + 1);
    } else {
        assert(lines.take(k) =~= lines);
    }
}

} // verus!
