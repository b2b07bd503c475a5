//! Merging the items of all lines into one mapping from question to answers.

use crate::order::{
    before, indices, is_ordering, lemma_bytes_lt_irreflexive, lemma_ordering_insert,
    lemma_text_lt_chain, lemma_text_lt_total, lists, text_before, text_lt,
};
use crate::parser::{Item, ListItem};
use crate::text::lowercase;
use vstd::prelude::*;
use vstd::utf8::*;

verus! {

/// One question with its answers.
pub struct Entry {
    pub key: String,
    pub values: Vec<String>,
}

/// What an `Entry` holds, as sequences of characters.
pub struct Row {
    pub key: Seq<char>,
    pub values: Seq<Seq<char>>,
}

impl View for Entry {
    type V = Row;

    open spec fn view(&self) -> Row {
        Row { key: self.key@, values: self.values.deep_view() }
    }
}

impl DeepView for Entry {
    type V = Row;

    open spec fn deep_view(&self) -> Row {
        self.view()
    }
}

/// `values` followed by `answer`, unless it is among them already.
pub open spec fn with_answer(values: Seq<Seq<char>>, answer: Seq<char>) -> Seq<Seq<char>> {
    if values.contains(answer) {
        values
    } else {
        values.push(answer)
    }
}

/// `values` followed by those of `answers` that are new, each once, in the
/// order in which they first occur.
pub open spec fn with_answers(values: Seq<Seq<char>>, answers: Seq<Seq<char>>) -> Seq<Seq<char>>
    decreases answers.len(),
{
    if answers.len() == 0 {
        values
    } else {
        with_answer(with_answers(values, answers.drop_last()), answers.last())
    }
}

/// Whether one of `rows` has the key `key`.
pub open spec fn has_key(rows: Seq<Row>, key: Seq<char>) -> bool {
    exists|i: int| 0 <= i < rows.len() && (#[trigger] rows[i]).key == key
}

/// The index of a row with the key `key`.
pub open spec fn row_index(rows: Seq<Row>, key: Seq<char>) -> int {
    choose|i: int| 0 <= i < rows.len() && (#[trigger] rows[i]).key == key
}

/// `rows` after the answers were merged under `key`: the row of that key
/// gains the answers that it does not have yet; where no row has the key, a
/// new last row holds the answers, each once.
pub open spec fn merged(rows: Seq<Row>, key: Seq<char>, answers: Seq<Seq<char>>) -> Seq<Row> {
    if has_key(rows, key) {
        let i = row_index(rows, key);
        rows.update(i, Row { key, values: with_answers(rows[i].values, answers) })
    } else {
        rows.push(Row { key, values: with_answers(Seq::empty(), answers) })
    }
}

/// `rows` after the answers were merged under each of `questions` in turn.
pub open spec fn merged_each(
    rows: Seq<Row>,
    questions: Seq<Seq<char>>,
    answers: Seq<Seq<char>>,
) -> Seq<Row>
    decreases questions.len(),
{
    if questions.len() == 0 {
        rows
    } else {
        merged(merged_each(rows, questions.drop_last(), answers), questions.last(), answers)
    }
}

/// Each of `texts` in lower case.
pub open spec fn lowered(texts: Seq<Seq<char>>) -> Seq<Seq<char>> {
    Seq::new(texts.len(), |i: int| lowercase(texts[i]))
}

/// `rows` after `item` was added: its answers, in lower case, are merged
/// under each of its questions, in lower case.
pub open spec fn with_item(rows: Seq<Row>, item: Item) -> Seq<Row> {
    merged_each(rows, lowered(item.questions), lowered(item.answers))
}

/// The rows that `items` combine to, added in order.
pub open spec fn combined(items: Seq<Item>) -> Seq<Row>
    decreases items.len(),
{
    if items.len() == 0 {
        Seq::empty()
    } else {
        with_item(combined(items.drop_last()), items.last())
    }
}

/// No two rows have the same key, and no row has the same answer twice.
pub open spec fn rows_wf(rows: Seq<Row>) -> bool {
    &&& forall|i: int, j: int|
        0 <= i < j < rows.len() ==> (#[trigger] rows[i]).key != (#[trigger] rows[j]).key
    &&& forall|i: int| 0 <= i < rows.len() ==> (#[trigger] rows[i]).values.no_duplicates()
}

/// Merging new answers keeps a list of answers free of duplicates.
pub proof fn lemma_with_answers_no_duplicates(values: Seq<Seq<char>>, answers: Seq<Seq<char>>)
    requires
        values.no_duplicates(),
    ensures
        with_answers(values, answers).no_duplicates(),
    decreases answers.len(),
{
    if answers.len() > 0 {
        lemma_with_answers_no_duplicates(values, answers.drop_last());
    }
}

/// Merging keeps the keys distinct and the answers free of duplicates.
pub proof fn lemma_merged_wf(rows: Seq<Row>, key: Seq<char>, answers: Seq<Seq<char>>)
    requires
        rows_wf(rows),
    ensures
        rows_wf(merged(rows, key, answers)),
{
    if has_key(rows, key) {
        let i = row_index(rows, key);
        lemma_with_answers_no_duplicates(rows[i].values, answers);
    } else {
        lemma_with_answers_no_duplicates(Seq::empty(), answers);
    }
}

/// Merging under several questions keeps the rows well formed.
pub proof fn lemma_merged_each_wf(
    rows: Seq<Row>,
    questions: Seq<Seq<char>>,
    answers: Seq<Seq<char>>,
)
    requires
        rows_wf(rows),
    ensures
        rows_wf(merged_each(rows, questions, answers)),
    decreases questions.len(),
{
    if questions.len() > 0 {
        lemma_merged_each_wf(rows, questions.drop_last(), answers);
        lemma_merged_wf(
            merged_each(rows, questions.drop_last(), answers),
            questions.last(),
            answers,
        );
    }
}

/// Whatever the items, the rows that they combine to have distinct keys, and
/// no row has the same answer twice.
pub proof fn lemma_combined_wf(items: Seq<Item>)
    ensures
        rows_wf(combined(items)),
    decreases items.len(),
{
    if items.len() > 0 {
        lemma_combined_wf(items.drop_last());
        lemma_merged_each_wf(
            combined(items.drop_last()),
            lowered(items.last().questions),
            lowered(items.last().answers),
        );
    }
}

/// The keys of `rows`.
pub open spec fn keys_of(rows: Seq<Row>) -> Seq<Seq<char>> {
    Seq::new(rows.len(), |i: int| rows[i].key)
}

/// A mapping from question to answers, in the order in which the questions
/// were first seen. No question occurs twice, and no answer occurs twice
/// under one question.
pub struct CombinedMapping {
    entries: Vec<Entry>,
    /// The indices of `entries` in ascending order of their keys.
    by_key: Vec<usize>,
}

impl View for CombinedMapping {
    type V = Seq<Row>;

    closed spec fn view(&self) -> Seq<Row> {
        self.entries.deep_view()
    }
}

/// Whether `answer` is among `values`.
fn holds(values: &Vec<String>, answer: &String) -> (res: bool)
    ensures
        res == values.deep_view().contains(answer@),
{
    let mut m: usize = 0;
    while m < values.len()
        invariant
            m <= values@.len(),
            forall|t: int| 0 <= t < m ==> (#[trigger] values.deep_view()[t]) != answer@,
        decreases values@.len() - m,
    {
        if values[m] == *answer {
            assert(values.deep_view()[m as int] == answer@);
            return true;
        }
        m += 1;
    }
    false
}

/// Appends to `values` those of `answers` that it does not hold yet.
fn add_new(values: &mut Vec<String>, answers: &Vec<String>)
    ensures
        final(values).deep_view() == with_answers(old(values).deep_view(), answers.deep_view()),
{
    let mut j: usize = 0;
    proof {
        assert(answers.deep_view().take(0) =~= Seq::empty());
    }
    while j < answers.len()
        invariant
            j <= answers@.len(),
            values.deep_view() == with_answers(
                old(values).deep_view(),
                answers.deep_view().take(j as int),
            ),
        decreases answers@.len() - j,
    {
        let ghost before = values.deep_view();
        let present = holds(values, &answers[j]);
        if !present {
            values.push(answers[j].clone());
        }
        proof {
            let upto = answers.deep_view().take(j as int + 1);
            assert(upto.drop_last() =~= answers.deep_view().take(j as int));
            assert(upto.last() == answers@[j as int]@);
            if !present {
                assert(values.deep_view() =~= before.push(answers@[j as int]@));
            }
        }
        j += 1;
    }
    proof {
        assert(answers.deep_view().take(j as int) =~= answers.deep_view());
    }
}

/// Where `key` stands among the sorted keys of `entries`: the index of its
/// entry, or the place in `by_key` at which a new entry with it belongs.
fn find(entries: &Vec<Entry>, by_key: &Vec<usize>, key: &String) -> (res: Result<usize, usize>)
    requires
        is_ordering(keys_of(entries.deep_view()), indices(by_key@)),
    ensures
        match res {
            Ok(i) => i < entries@.len() && entries@[i as int].key@ == key@,
            Err(at) => {
                &&& !has_key(entries.deep_view(), key@)
                &&& at <= by_key@.len()
                &&& forall|a: int|
                    0 <= a < at ==> !text_lt(
                        key@,
                        keys_of(entries.deep_view())[#[trigger] indices(by_key@)[a]],
                    )
                &&& at < by_key@.len() ==> text_lt(
                    key@,
                    keys_of(entries.deep_view())[indices(by_key@)[at as int]],
                )
            },
        },
{
    let ghost keys = keys_of(entries.deep_view());
    let ghost p = indices(by_key@);
    let mut lo: usize = 0;
    let mut hi: usize = by_key.len();
    while lo < hi
        invariant
            keys == keys_of(entries.deep_view()),
            p == indices(by_key@),
            is_ordering(keys, p),
            lo <= hi <= by_key@.len(),
            forall|a: int| 0 <= a < lo ==> text_lt(keys[#[trigger] p[a]], key@),
            forall|a: int| hi <= a < p.len() ==> text_lt(key@, keys[#[trigger] p[a]]),
        decreases hi - lo,
    {
        let mid = lo + (hi - lo) / 2;
        let i = by_key[mid];
        proof {
            assert(p[mid as int] == i);
            assert(keys[i as int] == entries@[i as int].key@);
        }
        if entries[i].key == *key {
            return Ok(i);
        }
        let below = text_before(entries[i].key.as_str(), key.as_str());
        proof {
            lemma_text_lt_total(keys[i as int], key@);
            if below {
                assert forall|a: int| 0 <= a < mid + 1 implies text_lt(
                    keys[#[trigger] p[a]],
                    key@,
                ) by {
                    if a < mid {
                        assert(before(keys, p[a], p[mid as int]));
                        lemma_text_lt_chain(keys[p[a]], keys[i as int], key@);
                    }
                }
            } else {
                assert forall|a: int| mid <= a < p.len() implies text_lt(
                    key@,
                    keys[#[trigger] p[a]],
                ) by {
                    if a > mid {
                        assert(before(keys, p[mid as int], p[a]));
                        lemma_text_lt_chain(key@, keys[i as int], keys[p[a]]);
                    }
                }
            }
        }
        if below {
            lo = mid + 1;
        } else {
            hi = mid;
        }
    }
    proof {
        let rows = entries.deep_view();
        assert forall|i: int| 0 <= i < rows.len() implies (#[trigger] rows[i]).key != key@ by {
            assert(lists(p, i));
            let a = choose|a: int| 0 <= a < p.len() && p[a] == i;
            assert(keys[p[a]] == rows[i].key);
            lemma_bytes_lt_irreflexive(encode_utf8(key@));
        }
        assert forall|a: int| 0 <= a < lo implies !text_lt(key@, keys[#[trigger] p[a]]) by {
            lemma_text_lt_chain(key@, keys[p[a]], key@);
            lemma_bytes_lt_irreflexive(encode_utf8(key@));
        }
    }
    Err(lo)
}

impl CombinedMapping {
    #[verifier::type_invariant]
    spec fn inv(self) -> bool {
        &&& rows_wf(self.entries.deep_view())
        &&& is_ordering(keys_of(self.entries.deep_view()), indices(self.by_key@))
    }

    /// The mapping without any question.
    pub fn new() -> (res: Self)
        ensures
            res@ == Seq::<Row>::empty(),
            rows_wf(res@),
    {
        let res = CombinedMapping { entries: Vec::new(), by_key: Vec::new() };
        proof {
            assert(res.entries.deep_view() =~= Seq::<Row>::empty());
        }
        res
    }

    /// Merges `answers` under `key`: an entry with that key gains the answers
    /// that it does not have yet, in their order; without such an entry, a
    /// new last entry holds them, each once.
    pub fn merge(&mut self, key: &String, answers: &Vec<String>)
        ensures
            final(self)@ == merged(old(self)@, key@, answers.deep_view()),
            rows_wf(final(self)@),
    {
        proof {
            use_type_invariant(&*self);
            lemma_merged_wf(self@, key@, answers.deep_view());
        }
        let ghost rows = self@;
        let found = find(&self.entries, &self.by_key, key);
        let mut taken = CombinedMapping::new();
        core::mem::swap(self, &mut taken);
        let CombinedMapping { mut entries, mut by_key } = taken;
        let ghost order = indices(by_key@);
        match found {
            Ok(i) => {
                assert(rows[i as int].key == key@);
                assert(row_index(rows, key@) == i);
                add_new(&mut entries[i].values, answers);
                proof {
                    assert(keys_of(entries.deep_view()) =~= keys_of(rows));
                }
            },
            Err(at) => {
                let mut values: Vec<String> = Vec::new();
                proof {
                    assert(values.deep_view() =~= Seq::<Seq<char>>::empty());
                    lemma_ordering_insert(keys_of(rows), order, key@, at as int);
                }
                add_new(&mut values, answers);
                by_key.insert(at, entries.len());
                entries.push(Entry { key: key.clone(), values });
                proof {
                    assert(keys_of(entries.deep_view()) =~= keys_of(rows).push(key@));
                    assert(indices(by_key@) =~= order.insert(at as int, rows.len() as int));
                }
            },
        }
        proof {
            assert(entries.deep_view() =~= merged(rows, key@, answers.deep_view()));
        }
        *self = CombinedMapping { entries, by_key };
    }

    /// Merges `answers` under each of `questions` in turn.
    pub fn merge_each(&mut self, questions: &Vec<String>, answers: &Vec<String>)
        ensures
            final(self)@ == merged_each(old(self)@, questions.deep_view(), answers.deep_view()),
            rows_wf(final(self)@),
    {
        proof {
            use_type_invariant(&*self);
            assert(questions.deep_view().take(0) =~= Seq::empty());
        }
        let mut i: usize = 0;
        while i < questions.len()
            invariant
                i <= questions@.len(),
                rows_wf(self@),
                self@ == merged_each(
                    old(self)@,
                    questions.deep_view().take(i as int),
                    answers.deep_view(),
                ),
            decreases questions@.len() - i,
        {
            self.merge(&questions[i], answers);
            proof {
                let upto = questions.deep_view().take(i as int + 1);
                assert(upto.drop_last() =~= questions.deep_view().take(i as int));
                assert(upto.last() == questions@[i as int]@);
            }
            i += 1;
        }
        proof {
            assert(questions.deep_view().take(i as int) =~= questions.deep_view());
        }
    }

    /// Adds an item: its answers, in lower case, are merged under each of its
    /// questions, in lower case.
    pub fn add_item(&mut self, item: &ListItem)
        ensures
            final(self)@ == with_item(old(self)@, item@),
            rows_wf(final(self)@),
    {
        let questions = lower_all(&item.questions);
        let answers = lower_all(&item.answers);
        self.merge_each(&questions, &answers);
    }

    /// The entries, in the order in which their questions were first seen.
    pub fn entries(&self) -> (res: &Vec<Entry>)
        ensures
            res.deep_view() == self@,
            rows_wf(self@),
    {
        proof {
            use_type_invariant(self);
        }
        &self.entries
    }
}

/// Each of `texts` in lower case.
fn lower_all(texts: &Vec<String>) -> (res: Vec<String>)
    ensures
        res.deep_view() == lowered(texts.deep_view()),
{
    let mut res: Vec<String> = Vec::new();
    let mut i: usize = 0;
    while i < texts.len()
        invariant
            i <= texts@.len(),
            res@.len() == i,
            forall|t: int| 0 <= t < i ==> (#[trigger] res@[t])@ == lowercase(texts@[t]@),
        decreases texts@.len() - i,
    {
        res.push(texts[i].as_str().to_lowercase());
        i += 1;
    }
    proof {
        assert(res.deep_view() =~= lowered(texts.deep_view()));
    }
    res
}

/// Combines `items` into one mapping: every question variant, in lower case,
/// maps to the answer variants, in lower case, of all items that have it.
pub fn combine(items: &Vec<ListItem>) -> (res: CombinedMapping)
    ensures
        res@ == combined(items.deep_view()),
        rows_wf(res@),
{
    let mut res = CombinedMapping::new();
    let mut n: usize = 0;
    proof {
        assert(items.deep_view().take(0) =~= Seq::empty());
    }
    while n < items.len()
        invariant
            n <= items@.len(),
            rows_wf(res@),
            res@ == combined(items.deep_view().take(n as int)),
        decreases items@.len() - n,
    {
        res.add_item(&items[n]);
        proof {
            let upto = items.deep_view().take(n as int + 1);
            assert(upto.drop_last() =~= items.deep_view().take(n as int));
            assert(upto.last() == items@[n as int]@);
        }
        n += 1;
    }
    proof {
        assert(items.deep_view().take(n as int) =~= items.deep_view());
    }
    res
}

} // verus!
