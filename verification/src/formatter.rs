//! Writing a mapping out as text, one line for each question, sorted.

use crate::combiner::{CombinedMapping, Entry, Row};
use crate::order::{
    before, indices, lemma_before_is_strict, lemma_ordering_exists, lists, ordering, sort_order,
    text_lt,
};
use crate::text::lowercase;
use vstd::prelude::*;
use vstd::string::StringExecFns;

verus! {

/// `values` with `" / "` between them.
pub open spec fn joined(values: Seq<Seq<char>>) -> Seq<char>
    decreases values.len(),
{
    if values.len() == 0 {
        Seq::empty()
    } else if values.len() == 1 {
        values[0]
    } else {
        joined(values.drop_last()) + " / "@ + values.last()
    }
}

/// The line of a row: its key, the separator between two spaces, its values
/// with `" / "` between them, and a line feed.
pub open spec fn line_of(row: Row, separator: char) -> Seq<char> {
    row.key + seq![' ', separator, ' '] + joined(row.values) + seq!['\n']
}

/// The lines of `rows`, one after the other.
pub open spec fn rendered(rows: Seq<Row>, separator: char) -> Seq<char>
    decreases rows.len(),
{
    if rows.len() == 0 {
        Seq::empty()
    } else {
        rendered(rows.drop_last(), separator) + line_of(rows.last(), separator)
    }
}

/// The keys by which rows are sorted: their keys in lower case.
pub open spec fn sort_keys(rows: Seq<Row>) -> Seq<Seq<char>> {
    Seq::new(rows.len(), |i: int| lowercase(rows[i].key))
}

/// `rows` in the order given by `order`.
pub open spec fn arranged(rows: Seq<Row>, order: Seq<int>) -> Seq<Row> {
    Seq::new(order.len(), |a: int| rows[order[a]])
}

/// `rows` in ascending order of their keys in lower case. Rows whose keys
/// are the same in lower case stay in the order that they have in `rows`.
pub open spec fn sorted_rows(rows: Seq<Row>) -> Seq<Row> {
    arranged(rows, ordering(sort_keys(rows)))
}

/// The sorted rows are the given rows, each once, and their keys in lower
/// case never descend.
pub proof fn lemma_sorted_rows(rows: Seq<Row>)
    ensures
        sorted_rows(rows).len() == rows.len(),
        forall|i: int| 0 <= i < rows.len() ==> sorted_rows(rows).contains(#[trigger] rows[i]),
        forall|a: int, b: int|
            0 <= a < b < rows.len() ==> !text_lt(
                lowercase(sorted_rows(rows)[b].key),
                lowercase(sorted_rows(rows)[a].key),
            ),
{
    let keys = sort_keys(rows);
    let order = ordering(keys);
    let sorted = sorted_rows(rows);
    lemma_ordering_exists(keys);
    assert forall|i: int| 0 <= i < rows.len() implies sorted.contains(#[trigger] rows[i]) by {
        assert(lists(order, i));
        let a = choose|a: int| 0 <= a < order.len() && order[a] == i;
        assert(sorted[a] == rows[i]);
    }
    assert forall|a: int, b: int| 0 <= a < b < rows.len() implies !text_lt(
        lowercase(sorted[b].key),
        lowercase(sorted[a].key),
    ) by {
        assert(before(keys, order[a], order[b]));
        lemma_before_is_strict(keys, order[a], order[b], order[a]);
    }
}

/// The line of `entry`.
pub fn format_line(entry: &Entry, separator: char) -> (line: String)
    ensures
        line@ == line_of(entry@, separator),
{
    let mut line = String::new();
    line.append(entry.key.as_str());
    line.push(' ');
    line.push(separator);
    line.push(' ');
    let ghost head = line@;
    let ghost values = entry.values.deep_view();
    let mut i: usize = 0;
    proof {
        assert(head =~= entry.key@ + seq![' ', separator, ' ']);
        assert(values.take(0) =~= Seq::<Seq<char>>::empty());
    }
    while i < entry.values.len()
        invariant
            i <= entry.values@.len(),
            values == entry.values.deep_view(),
            line@ == head + joined(values.take(i as int)),
        decreases entry.values@.len() - i,
    {
        if i != 0 {
            line.append(" / ");
        }
        line.append(entry.values[i].as_str());
        proof {
            let upto = values.take(i as int + 1);
            assert(upto.drop_last() =~= values.take(i as int));
            assert(upto.last() == entry.values@[i as int]@);
            assert(line@ =~= head + joined(upto));
        }
        i += 1;
    }
    line.push('\n');
    proof {
        assert(values.take(i as int) =~= values);
        assert(line@ =~= line_of(entry@, separator));
    }
    line
}

/// The lines of `entries`, in the order given by `order`.
pub fn render_in_order(entries: &Vec<Entry>, order: &Vec<usize>, separator: char) -> (text: String)
    requires
        forall|a: int| 0 <= a < order@.len() ==> (#[trigger] order@[a]) < entries@.len(),
    ensures
        text@ == rendered(arranged(entries.deep_view(), indices(order@)), separator),
{
    let ghost rows = arranged(entries.deep_view(), indices(order@));
    let mut text = String::new();
    let mut a: usize = 0;
    proof {
        assert(rows.take(0) =~= Seq::<Row>::empty());
    }
    while a < order.len()
        invariant
            a <= order@.len(),
            rows == arranged(entries.deep_view(), indices(order@)),
            forall|b: int| 0 <= b < order@.len() ==> (#[trigger] order@[b]) < entries@.len(),
            text@ == rendered(rows.take(a as int), separator),
        decreases order@.len() - a,
    {
        let line = format_line(&entries[order[a]], separator);
        text.append(line.as_str());
        proof {
            let upto = rows.take(a as int + 1);
            assert(upto.drop_last() =~= rows.take(a as int));
            assert(upto.last() == entries@[order@[a as int] as int]@);
        }
        a += 1;
    }
    proof {
        assert(rows.take(a as int) =~= rows);
    }
    text
}

/// The keys of `entries` in lower case.
fn fold_keys(entries: &Vec<Entry>) -> (keys: Vec<String>)
    ensures
        keys.deep_view() == sort_keys(entries.deep_view()),
{
    let mut keys: Vec<String> = Vec::new();
    let mut i: usize = 0;
    while i < entries.len()
        invariant
            i <= entries@.len(),
            keys@.len() == i,
            forall|t: int| 0 <= t < i ==> (#[trigger] keys@[t])@ == lowercase(entries@[t].key@),
        decreases entries@.len() - i,
    {
        keys.push(entries[i].key.as_str().to_lowercase());
        i += 1;
    }
    proof {
        assert(keys.deep_view() =~= sort_keys(entries.deep_view()));
    }
    keys
}

/// Writes `mapping` out: one line for each question, in ascending order of
/// the questions in lower case.
pub fn render(mapping: &CombinedMapping, separator: char) -> (text: String)
    ensures
        text@ == rendered(sorted_rows(mapping@), separator),
{
    let entries = mapping.entries();
    let keys = fold_keys(entries);
    let order = sort_order(&keys);
    proof {
        assert forall|a: int| 0 <= a < order@.len() implies (#[trigger] order@[a])
            < entries@.len() by {
            assert(indices(order@)[a] == order@[a]);
        }
    }
    render_in_order(entries, &order, separator)
}

} // verus!
