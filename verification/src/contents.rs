//! What a combined mapping holds: under each question the answers of every
//! item that has the question, and nothing else.

use crate::combiner::{
    combined, has_key, lemma_combined_wf, lemma_merged_each_wf, lemma_merged_wf, lowered, merged,
    merged_each, row_index, rows_wf, with_answer, with_answers, with_item, Row,
};
use crate::parser::Item;
use crate::text::lowercase;
use vstd::prelude::*;

verus! {

/// The answers that `rows` hold under `key`; none where no row has the key.
pub open spec fn values_of(rows: Seq<Row>, key: Seq<char>) -> Seq<Seq<char>> {
    if has_key(rows, key) {
        rows[row_index(rows, key)].values
    } else {
        Seq::empty()
    }
}

/// Merging answers keeps what was there, in its place, adds each of the
/// answers, and adds nothing else.
pub proof fn lemma_with_answers(values: Seq<Seq<char>>, answers: Seq<Seq<char>>)
    ensures
        values.len() <= with_answers(values, answers).len(),
        with_answers(values, answers).take(values.len() as int) == values,
        forall|t: int|
            0 <= t < answers.len() ==> with_answers(values, answers).contains(
                #[trigger] answers[t],
            ),
        forall|x: Seq<char>|
            with_answers(values, answers).contains(x) ==> values.contains(x) || answers.contains(
                x,
            ),
    decreases answers.len(),
{
    let all = with_answers(values, answers);
    if answers.len() == 0 {
        assert(all.take(values.len() as int) =~= values);
    } else {
        let front = answers.drop_last();
        let before = with_answers(values, front);
        lemma_with_answers(values, front);
        assert(all == with_answer(before, answers.last()));
        assert(all.take(values.len() as int) =~= before.take(values.len() as int));
        assert forall|v: Seq<char>| before.contains(v) implies all.contains(v) by {
            let i = choose|i: int| 0 <= i < before.len() && before[i] == v;
            assert(all[i] == v);
        }
        assert forall|t: int| 0 <= t < answers.len() implies all.contains(
            #[trigger] answers[t],
        ) by {
            if t < front.len() {
                assert(front[t] == answers[t]);
                assert(before.contains(front[t]));
            } else if !before.contains(answers.last()) {
                assert(all[all.len() - 1] == answers[t]);
            }
        }
        assert forall|x: Seq<char>| all.contains(x) implies values.contains(x)
            || answers.contains(x) by {
            let i = choose|i: int| 0 <= i < all.len() && all[i] == x;
            if i < before.len() {
                assert(before[i] == x);
                assert(before.contains(x));
                if front.contains(x) {
                    let t = choose|t: int| 0 <= t < front.len() && front[t] == x;
                    assert(answers[t] == x);
                }
            } else {
                assert(answers[answers.len() - 1] == x);
            }
        }
    }
}

/// After a merge under `key`, the rows have that key with its old answers
/// and the new ones merged; every other key has what it had.
pub proof fn lemma_merged(rows: Seq<Row>, key: Seq<char>, answers: Seq<Seq<char>>)
    requires
        rows_wf(rows),
    ensures
        has_key(merged(rows, key, answers), key),
        values_of(merged(rows, key, answers), key) == with_answers(values_of(rows, key), answers),
        forall|other: Seq<char>|
            other != key ==> has_key(merged(rows, key, answers), other) == has_key(rows, other)
                && values_of(merged(rows, key, answers), other) == values_of(rows, other),
{
    let now = merged(rows, key, answers);
    lemma_merged_wf(rows, key, answers);
    let at = if has_key(rows, key) {
        row_index(rows, key)
    } else {
        rows.len() as int
    };
    assert(now[at].key == key);
    assert(has_key(now, key));
    assert(row_index(now, key) == at);
    assert forall|other: Seq<char>| other != key implies has_key(now, other) == has_key(
        rows,
        other,
    ) && values_of(now, other) == values_of(rows, other) by {
        if has_key(rows, other) {
            let i = row_index(rows, other);
            assert(now[i] == rows[i]);
            assert(has_key(now, other));
            assert(row_index(now, other) == i);
        }
        if has_key(now, other) {
            let i = row_index(now, other);
            assert(i != at);
            assert(now[i] == rows[i]);
            assert(has_key(rows, other));
        }
    }
}

/// After a merge under several questions, each of them has each of the
/// answers, and every key still has what it had before.
pub proof fn lemma_merged_each_holds(
    rows: Seq<Row>,
    questions: Seq<Seq<char>>,
    answers: Seq<Seq<char>>,
)
    requires
        rows_wf(rows),
    ensures
        forall|key: Seq<char>|
            has_key(rows, key) ==> has_key(#[trigger] merged_each(rows, questions, answers), key),
        forall|key: Seq<char>, x: Seq<char>|
            values_of(rows, key).contains(x) ==> #[trigger] values_of(
                merged_each(rows, questions, answers),
                key,
            ).contains(x),
        forall|t: int, u: int|
            0 <= t < questions.len() && 0 <= u < answers.len() ==> has_key(
                merged_each(rows, questions, answers),
                #[trigger] questions[t],
            ) && values_of(merged_each(rows, questions, answers), questions[t]).contains(
                #[trigger] answers[u],
            ),
        forall|t: int|
            0 <= t < questions.len() ==> has_key(
                merged_each(rows, questions, answers),
                #[trigger] questions[t],
            ),
    decreases questions.len(),
{
    let now = merged_each(rows, questions, answers);
    if questions.len() > 0 {
        let front = questions.drop_last();
        let key = questions.last();
        let mid = merged_each(rows, front, answers);
        lemma_merged_each_holds(rows, front, answers);
        lemma_merged_each_wf(rows, front, answers);
        lemma_merged(mid, key, answers);
        lemma_with_answers(values_of(mid, key), answers);
        assert forall|k: Seq<char>, x: Seq<char>| values_of(mid, k).contains(x) implies values_of(
            now,
            k,
        ).contains(x) by {
            if k == key {
                let v = values_of(mid, key);
                let i = choose|i: int| 0 <= i < v.len() && v[i] == x;
                assert(with_answers(v, answers).take(v.len() as int)[i] == x);
                assert(with_answers(v, answers)[i] == x);
            }
        }
        assert forall|k: Seq<char>| has_key(mid, k) implies has_key(now, k) by {}
        assert forall|t: int, u: int|
            0 <= t < questions.len() && 0 <= u < answers.len() implies has_key(
            now,
            #[trigger] questions[t],
        ) && values_of(now, questions[t]).contains(#[trigger] answers[u]) by {
            if t < front.len() {
                assert(front[t] == questions[t]);
                assert(has_key(mid, front[t]));
                assert(values_of(mid, front[t]).contains(answers[u]));
            }
        }
        assert forall|t: int| 0 <= t < questions.len() implies has_key(
            now,
            #[trigger] questions[t],
        ) by {
            if t < front.len() {
                assert(front[t] == questions[t]);
                assert(has_key(mid, front[t]));
            }
        }
    }
}

/// A merge under several questions adds no key but the questions, and no
/// answer but the given ones, and these under the questions only.
pub proof fn lemma_merged_each_adds(
    rows: Seq<Row>,
    questions: Seq<Seq<char>>,
    answers: Seq<Seq<char>>,
)
    requires
        rows_wf(rows),
    ensures
        forall|key: Seq<char>|
            has_key(#[trigger] merged_each(rows, questions, answers), key) ==> has_key(rows, key)
                || questions.contains(key),
        forall|key: Seq<char>, x: Seq<char>|
            (#[trigger] values_of(merged_each(rows, questions, answers), key).contains(x))
                ==> values_of(rows, key).contains(x) || (questions.contains(key)
                && answers.contains(x)),
    decreases questions.len(),
{
    let now = merged_each(rows, questions, answers);
    if questions.len() > 0 {
        let front = questions.drop_last();
        let key = questions.last();
        let mid = merged_each(rows, front, answers);
        lemma_merged_each_adds(rows, front, answers);
        lemma_merged_each_wf(rows, front, answers);
        lemma_merged(mid, key, answers);
        lemma_with_answers(values_of(mid, key), answers);
        assert(questions[questions.len() - 1] == key);
        assert forall|k: Seq<char>| front.contains(k) implies questions.contains(k) by {
            let t = choose|t: int| 0 <= t < front.len() && front[t] == k;
            assert(questions[t] == k);
        }
        assert forall|k: Seq<char>| has_key(now, k) implies has_key(rows, k)
            || questions.contains(k) by {
            if k != key {
                assert(has_key(mid, k));
            }
        }
        assert forall|k: Seq<char>, x: Seq<char>| (#[trigger] values_of(now, k).contains(x))
            implies values_of(rows, k).contains(x) || (questions.contains(k) && answers.contains(
            x,
        )) by {
            if k != key {
                assert(values_of(mid, k).contains(x));
            } else if values_of(mid, key).contains(x) {
            }
        }
    }
}

/// Every question of every item, in lower case, is a key of the combined
/// rows, and holds every answer of that item, in lower case.
pub proof fn lemma_combined_holds(items: Seq<Item>, n: int, t: int, u: int)
    requires
        0 <= n < items.len(),
        0 <= t < items[n].questions.len(),
        0 <= u < items[n].answers.len(),
    ensures
        has_key(combined(items), lowercase(items[n].questions[t])),
        values_of(combined(items), lowercase(items[n].questions[t])).contains(
            lowercase(items[n].answers[u]),
        ),
    decreases items.len(),
{
    let front = items.drop_last();
    let last = items.last();
    let key = lowercase(items[n].questions[t]);
    let answer = lowercase(items[n].answers[u]);
    lemma_combined_wf(front);
    lemma_merged_each_holds(combined(front), lowered(last.questions), lowered(last.answers));
    if n < items.len() - 1 {
        assert(front[n] == items[n]);
        lemma_combined_holds(front, n, t, u);
    } else {
        assert(lowered(last.questions)[t] == key);
        assert(lowered(last.answers)[u] == answer);
    }
}

/// Every question of every item, in lower case, is a key of the combined
/// rows, also where the item has no answer.
pub proof fn lemma_combined_has_key(items: Seq<Item>, n: int, t: int)
    requires
        0 <= n < items.len(),
        0 <= t < items[n].questions.len(),
    ensures
        has_key(combined(items), lowercase(items[n].questions[t])),
    decreases items.len(),
{
    let front = items.drop_last();
    let last = items.last();
    lemma_combined_wf(front);
    lemma_merged_each_holds(combined(front), lowered(last.questions), lowered(last.answers));
    if n < items.len() - 1 {
        assert(front[n] == items[n]);
        lemma_combined_has_key(front, n, t);
    } else {
        assert(lowered(last.questions)[t] == lowercase(items[n].questions[t]));
    }
}

/// `key` is a question of item `n`, in lower case.
pub open spec fn asks(items: Seq<Item>, n: int, key: Seq<char>) -> bool {
    0 <= n < items.len() && lowered(items[n].questions).contains(key)
}

/// Every key of the combined rows is a question of some item, in lower
/// case, and every answer under it is an answer of an item with that
/// question, in lower case.
pub proof fn lemma_combined_adds(items: Seq<Item>)
    ensures
        forall|key: Seq<char>|
            has_key(#[trigger] combined(items), key) ==> exists|n: int| asks(items, n, key),
        forall|key: Seq<char>, x: Seq<char>|
            (#[trigger] values_of(combined(items), key).contains(x)) ==> exists|n: int|
                asks(items, n, key) && lowered(items[n].answers).contains(x),
    decreases items.len(),
{
    if items.len() > 0 {
        let front = items.drop_last();
        let last = items.last();
        let n = items.len() - 1;
        lemma_combined_adds(front);
        lemma_combined_wf(front);
        lemma_merged_each_adds(combined(front), lowered(last.questions), lowered(last.answers));
        assert(combined(items) == with_item(combined(front), last));
        assert forall|key: Seq<char>| has_key(#[trigger] combined(items), key) implies exists|
            m: int,
        | asks(items, m, key) by {
            if has_key(combined(front), key) {
                let m = choose|m: int| asks(front, m, key);
                assert(front[m] == items[m]);
                assert(asks(items, m, key));
            } else {
                assert(asks(items, n, key));
            }
        }
        assert forall|key: Seq<char>, x: Seq<char>| (#[trigger] values_of(
            combined(items),
            key,
        ).contains(x)) implies exists|m: int|
            asks(items, m, key) && lowered(items[m].answers).contains(x) by {
            if values_of(combined(front), key).contains(x) {
                let m = choose|m: int| asks(front, m, key) && lowered(front[m].answers).contains(x);
                assert(front[m] == items[m]);
                assert(asks(items, m, key) && lowered(items[m].answers).contains(x));
            } else {
                assert(asks(items, n, key) && lowered(items[n].answers).contains(x));
            }
        }
    } else {
        assert forall|key: Seq<char>| !has_key(combined(items), key) by {}
    }
}

} // verus!
