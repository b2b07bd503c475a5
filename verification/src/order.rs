//! The order of texts by their bytes, and sorting by it.

use vstd::prelude::*;
use vstd::utf8::*;

verus! {

/// `a` comes before `b` in the order of byte strings: `a` is a proper prefix
/// of `b`, or `a` has the smaller byte where the two first differ.
pub open spec fn bytes_lt(a: Seq<u8>, b: Seq<u8>) -> bool
    decreases a.len(),
{
    if b.len() == 0 {
        false
    } else if a.len() == 0 {
        true
    } else if a[0] != b[0] {
        a[0] < b[0]
    } else {
        bytes_lt(a.drop_first(), b.drop_first())
    }
}

/// `a` comes before `b` in the order of strings, which is that of the bytes
/// of their UTF-8 forms.
pub open spec fn text_lt(a: Seq<char>, b: Seq<char>) -> bool {
    bytes_lt(encode_utf8(a), encode_utf8(b))
}

/// Nothing comes before itself.
pub proof fn lemma_bytes_lt_irreflexive(a: Seq<u8>)
    ensures
        !bytes_lt(a, a),
    decreases a.len(),
{
    if a.len() > 0 {
        lemma_bytes_lt_irreflexive(a.drop_first());
    }
}

/// The order is transitive.
pub proof fn lemma_bytes_lt_transitive(a: Seq<u8>, b: Seq<u8>, c: Seq<u8>)
    requires
        bytes_lt(a, b),
        bytes_lt(b, c),
    ensures
        bytes_lt(a, c),
    decreases a.len(),
{
    if a.len() > 0 && a[0] == b[0] && b[0] == c[0] {
        lemma_bytes_lt_transitive(a.drop_first(), b.drop_first(), c.drop_first());
    }
}

/// Of two different byte strings, one comes before the other.
pub proof fn lemma_bytes_lt_total(a: Seq<u8>, b: Seq<u8>)
    ensures
        bytes_lt(a, b) || bytes_lt(b, a) || a == b,
    decreases a.len(),
{
    if a.len() > 0 && b.len() > 0 && a[0] == b[0] {
        lemma_bytes_lt_total(a.drop_first(), b.drop_first());
        if a.drop_first() == b.drop_first() {
            assert(a =~= seq![a[0]] + a.drop_first());
            assert(b =~= seq![b[0]] + b.drop_first());
        }
    } else if a.len() == 0 && b.len() == 0 {
        assert(a =~= b);
    }
}

/// Equal beginnings do not decide the order: what follows them does.
pub proof fn lemma_bytes_lt_skip(a: Seq<u8>, b: Seq<u8>, k: int)
    requires
        0 <= k <= a.len(),
        k <= b.len(),
        a.take(k) == b.take(k),
    ensures
        bytes_lt(a, b) == bytes_lt(a.skip(k), b.skip(k)),
    decreases k,
{
    if k == 0 {
        assert(a.skip(0) =~= a);
        assert(b.skip(0) =~= b);
    } else {
        assert(a[0] == a.take(k)[0]);
        assert(b[0] == b.take(k)[0]);
        assert(a.drop_first().take(k - 1) =~= a.take(k).drop_first());
        assert(b.drop_first().take(k - 1) =~= b.take(k).drop_first());
        lemma_bytes_lt_skip(a.drop_first(), b.drop_first(), k - 1);
        assert(a.drop_first().skip(k - 1) =~= a.skip(k));
        assert(b.drop_first().skip(k - 1) =~= b.skip(k));
    }
}

/// Of two different strings, one comes before the other.
pub proof fn lemma_text_lt_total(a: Seq<char>, b: Seq<char>)
    ensures
        text_lt(a, b) || text_lt(b, a) || a == b,
{
    lemma_bytes_lt_total(encode_utf8(a), encode_utf8(b));
    encode_utf8_decode_utf8(a);
    encode_utf8_decode_utf8(b);
}

/// A text that comes before, or equals, one that comes before a third comes
/// before the third; and so does one that comes before a text that comes
/// before, or equals, the third.
pub proof fn lemma_text_lt_chain(a: Seq<char>, b: Seq<char>, c: Seq<char>)
    ensures
        (text_lt(a, b) || a == b) && text_lt(b, c) ==> text_lt(a, c),
        text_lt(a, b) && (text_lt(b, c) || b == c) ==> text_lt(a, c),
{
    if text_lt(a, b) && text_lt(b, c) {
        lemma_bytes_lt_transitive(encode_utf8(a), encode_utf8(b), encode_utf8(c));
    }
}

/// Whether `a` comes before `b` in the order of strings.
pub fn text_before(a: &str, b: &str) -> (res: bool)
    ensures
        res == text_lt(a@, b@),
{
    let x = a.as_bytes();
    let y = b.as_bytes();
    let mut k: usize = 0;
    while k < x.len() && k < y.len()
        invariant
            k <= x@.len(),
            k <= y@.len(),
            x@ == encode_utf8(a@),
            y@ == encode_utf8(b@),
            x@.take(k as int) == y@.take(k as int),
        decreases x@.len() - k,
    {
        if x[k] != y[k] {
            proof {
                lemma_bytes_lt_skip(x@, y@, k as int);
            }
            return x[k] < y[k];
        }
        proof {
            assert(x@.take(k as int + 1) =~= x@.take(k as int).push(x@[k as int]));
            assert(y@.take(k as int + 1) =~= y@.take(k as int).push(y@[k as int]));
        }
        k += 1;
    }
    proof {
        lemma_bytes_lt_skip(x@, y@, k as int);
    }
    k < y.len()
}

/// The entry with index `i` comes before the entry with index `j`: its key
/// comes first, or the keys are equal and `i` is the smaller index.
pub open spec fn before(keys: Seq<Seq<char>>, i: int, j: int) -> bool {
    text_lt(keys[i], keys[j]) || (keys[i] == keys[j] && i < j)
}

/// The index `i` occurs in `order`.
pub open spec fn lists(order: Seq<int>, i: int) -> bool {
    exists|a: int| 0 <= a < order.len() && order[a] == i
}

/// `order` lists every index of `keys` once, in ascending order of the keys;
/// indices with equal keys ascend.
pub open spec fn is_ordering(keys: Seq<Seq<char>>, order: Seq<int>) -> bool {
    &&& order.len() == keys.len()
    &&& forall|a: int| 0 <= a < order.len() ==> 0 <= (#[trigger] order[a]) < keys.len()
    &&& forall|i: int| 0 <= i < keys.len() ==> #[trigger] lists(order, i)
    &&& forall|a: int, b: int| 0 <= a < b < order.len() ==> before(keys, order[a], order[b])
}

/// The indices of `keys` in ascending order of the keys.
pub open spec fn ordering(keys: Seq<Seq<char>>) -> Seq<int> {
    choose|order: Seq<int>| is_ordering(keys, order)
}

/// The indices that a vector of indices holds.
pub open spec fn indices(order: Seq<usize>) -> Seq<int> {
    order.map_values(|i: usize| i as int)
}

/// No index comes before itself, and `before` is transitive.
pub proof fn lemma_before_is_strict(keys: Seq<Seq<char>>, i: int, j: int, k: int)
    ensures
        !before(keys, i, i),
        before(keys, i, j) && before(keys, j, k) ==> before(keys, i, k),
        before(keys, i, j) ==> !before(keys, j, i),
{
    lemma_bytes_lt_irreflexive(encode_utf8(keys[i]));
    if before(keys, i, j) {
        if text_lt(keys[i], keys[j]) && text_lt(keys[j], keys[i]) {
            lemma_bytes_lt_transitive(
                encode_utf8(keys[i]),
                encode_utf8(keys[j]),
                encode_utf8(keys[i]),
            );
        }
        if before(keys, j, k) {
            if text_lt(keys[i], keys[j]) && text_lt(keys[j], keys[k]) {
                lemma_bytes_lt_transitive(
                    encode_utf8(keys[i]),
                    encode_utf8(keys[j]),
                    encode_utf8(keys[k]),
                );
            }
        }
    }
}

/// Of two different indices, one comes before the other.
pub proof fn lemma_before_is_total(keys: Seq<Seq<char>>, i: int, j: int)
    ensures
        before(keys, i, j) || before(keys, j, i) || i == j,
{
    lemma_text_lt_total(keys[i], keys[j]);
}

/// The keys have one ascending order only: the sorted output does not depend
/// on how it was computed.
pub proof fn lemma_ordering_unique(keys: Seq<Seq<char>>, p: Seq<int>, q: Seq<int>)
    requires
        is_ordering(keys, p),
        is_ordering(keys, q),
    ensures
        p == q,
{
    assert forall|a: int| 0 <= a < p.len() implies p[a] == q[a] by {
        lemma_same_upto(keys, p, q, a);
    }
    assert(p =~= q);
}

proof fn lemma_same_upto(keys: Seq<Seq<char>>, p: Seq<int>, q: Seq<int>, a: int)
    requires
        is_ordering(keys, p),
        is_ordering(keys, q),
        0 <= a < p.len(),
    ensures
        forall|c: int| 0 <= c <= a ==> p[c] == q[c],
    decreases a,
{
    if a > 0 {
        lemma_same_upto(keys, p, q, a - 1);
    }
    lemma_before_is_total(keys, p[a], q[a]);
    lemma_not_misplaced(keys, p, q, a);
    lemma_not_misplaced(keys, q, p, a);
}

/// Where two orderings agree below `a`, the entry that `q` has at `a` does
/// not come before the one that `p` has there: it would have no place in `p`.
proof fn lemma_not_misplaced(keys: Seq<Seq<char>>, p: Seq<int>, q: Seq<int>, a: int)
    requires
        is_ordering(keys, p),
        is_ordering(keys, q),
        0 <= a < p.len(),
        forall|c: int| 0 <= c < a ==> p[c] == q[c],
    ensures
        !before(keys, q[a], p[a]),
{
    if before(keys, q[a], p[a]) {
        let x = q[a];
        assert(lists(p, x));
        let m = choose|m: int| 0 <= m < p.len() && p[m] == x;
        lemma_before_is_strict(keys, x, p[a], x);
        if m < a {
            assert(q[m] == x);
            assert(before(keys, q[m], q[a]));
        } else if m > a {
            assert(before(keys, p[a], p[m]));
        }
    }
}

/// Putting the index of a new last key at its place keeps an ordering: the
/// place is behind every entry whose key does not come after the new key, and
/// in front of one whose key does.
pub proof fn lemma_ordering_insert(keys: Seq<Seq<char>>, p: Seq<int>, key: Seq<char>, at: int)
    requires
        is_ordering(keys, p),
        0 <= at <= p.len(),
        forall|a: int| 0 <= a < at ==> !text_lt(key, keys[#[trigger] p[a]]),
        at < p.len() ==> text_lt(key, keys[p[at]]),
    ensures
        is_ordering(keys.push(key), p.insert(at, keys.len() as int)),
{
    let n = keys.len() as int;
    let more = keys.push(key);
    let q = p.insert(at, n);
    assert forall|a: int, b: int| 0 <= a < b < p.len() implies before(more, p[a], p[b]) by {
        assert(before(keys, p[a], p[b]));
    }
    assert forall|a: int, b: int| 0 <= a < b < q.len() implies before(more, q[a], q[b]) by {
        if b == at {
            assert(q[a] == p[a]);
            lemma_text_lt_total(more[p[a]], key);
        } else if a == at {
            assert(q[b] == p[b - 1]);
            if b - 1 > at {
                assert(before(more, p[at], p[b - 1]));
                lemma_before_is_strict(more, n, p[at], p[b - 1]);
            }
        } else {
            let a0 = if a < at {
                a
            } else {
                a - 1
            };
            let b0 = if b < at {
                b
            } else {
                b - 1
            };
            assert(q[a] == p[a0]);
            assert(q[b] == p[b0]);
        }
    }
    assert forall|i: int| 0 <= i < more.len() implies #[trigger] lists(q, i) by {
        if i == n {
            assert(q[at] == i);
        } else {
            assert(lists(p, i));
            let a0 = choose|a: int| 0 <= a < p.len() && p[a] == i;
            if a0 < at {
                assert(q[a0] == i);
            } else {
                assert(q[a0 + 1] == i);
            }
        }
    }
    assert forall|a: int| 0 <= a < q.len() implies 0 <= (#[trigger] q[a]) < more.len() by {
        if a < at {
            assert(q[a] == p[a]);
        } else if a > at {
            assert(q[a] == p[a - 1]);
        }
    }
}

/// A place for `key` in the ordering `p`, at or behind `from`.
proof fn lemma_insertion_point(keys: Seq<Seq<char>>, p: Seq<int>, key: Seq<char>, from: int) -> (at:
    int)
    requires
        0 <= from <= p.len(),
        forall|a: int| 0 <= a < from ==> !text_lt(key, keys[#[trigger] p[a]]),
    ensures
        from <= at <= p.len(),
        forall|a: int| 0 <= a < at ==> !text_lt(key, keys[#[trigger] p[a]]),
        at < p.len() ==> text_lt(key, keys[p[at]]),
    decreases p.len() - from,
{
    if from == p.len() || text_lt(key, keys[p[from]]) {
        from
    } else {
        lemma_insertion_point(keys, p, key, from + 1)
    }
}

/// Whatever the keys, they have an ascending order, and `ordering` is it.
pub proof fn lemma_ordering_exists(keys: Seq<Seq<char>>)
    ensures
        is_ordering(keys, ordering(keys)),
    decreases keys.len(),
{
    if keys.len() == 0 {
        assert(is_ordering(keys, Seq::<int>::empty()));
    } else {
        let front = keys.drop_last();
        lemma_ordering_exists(front);
        let at = lemma_insertion_point(front, ordering(front), keys.last(), 0);
        lemma_ordering_insert(front, ordering(front), keys.last(), at);
        assert(front.push(keys.last()) =~= keys);
    }
}

/// `run` lists every index from `lo` up to, not including, `hi` once, in
/// ascending order of the keys.
spec fn is_run(keys: Seq<Seq<char>>, run: Seq<int>, lo: int, hi: int) -> bool {
    &&& run.len() == hi - lo
    &&& forall|a: int| 0 <= a < run.len() ==> lo <= (#[trigger] run[a]) < hi
    &&& forall|i: int| lo <= i < hi ==> #[trigger] lists(run, i)
    &&& forall|a: int, b: int| 0 <= a < b < run.len() ==> before(keys, run[a], run[b])
}

/// Merges two runs that follow each other into one.
fn merge_runs(
    keys: &Vec<String>,
    left: &Vec<usize>,
    right: &Vec<usize>,
    Ghost(lo): Ghost<int>,
    Ghost(mid): Ghost<int>,
    Ghost(hi): Ghost<int>,
) -> (out: Vec<usize>)
    requires
        0 <= lo <= mid <= hi <= keys@.len(),
        is_run(keys.deep_view(), indices(left@), lo, mid),
        is_run(keys.deep_view(), indices(right@), mid, hi),
    ensures
        is_run(keys.deep_view(), indices(out@), lo, hi),
{
    let ghost all = keys.deep_view();
    let ghost l = indices(left@);
    let ghost r = indices(right@);
    let mut out: Vec<usize> = Vec::new();
    let mut i: usize = 0;
    let mut j: usize = 0;
    while i < left.len() || j < right.len()
        invariant
            all == keys.deep_view(),
            l == indices(left@),
            r == indices(right@),
            0 <= lo <= mid <= hi <= keys@.len(),
            is_run(all, l, lo, mid),
            is_run(all, r, mid, hi),
            i <= left@.len(),
            j <= right@.len(),
            out@.len() == i + j,
            forall|a: int| 0 <= a < out@.len() ==> lo <= (#[trigger] indices(out@)[a]) < hi,
            forall|a: int| 0 <= a < i ==> lists(indices(out@), #[trigger] l[a]),
            forall|b: int| 0 <= b < j ==> lists(indices(out@), #[trigger] r[b]),
            forall|a: int, b: int|
                0 <= a < b < out@.len() ==> before(all, indices(out@)[a], indices(out@)[b]),
            forall|a: int|
                0 <= a < out@.len() && i < left@.len() ==> before(
                    all,
                    #[trigger] indices(out@)[a],
                    l[i as int],
                ),
            forall|a: int|
                0 <= a < out@.len() && j < right@.len() ==> before(
                    all,
                    #[trigger] indices(out@)[a],
                    r[j as int],
                ),
        decreases left@.len() - i + right@.len() - j,
    {
        let ghost was = indices(out@);
        let from_right = if i == left.len() {
            true
        } else if j == right.len() {
            false
        } else {
            proof {
                assert(l[i as int] == left@[i as int]);
                assert(r[j as int] == right@[j as int]);
            }
            text_before(keys[right[j]].as_str(), keys[left[i]].as_str())
        };
        let next = if from_right {
            right[j]
        } else {
            left[i]
        };
        proof {
            if from_right {
                assert(r[j as int] == next);
            } else {
                assert(l[i as int] == next);
            }
            if i < left@.len() && j < right@.len() {
                lemma_text_lt_total(all[l[i as int]], all[r[j as int]]);
                assert(if from_right {
                    before(all, r[j as int], l[i as int])
                } else {
                    before(all, l[i as int], r[j as int])
                });
            }
        }
        out.push(next);
        if from_right {
            j += 1;
        } else {
            i += 1;
        }
        proof {
            let now = indices(out@);
            let x = next as int;
            assert(now =~= was.push(x));
            assert forall|a: int| 0 <= a < i implies lists(now, #[trigger] l[a]) by {
                if !from_right && a == i - 1 {
                    assert(now[now.len() - 1] == l[a]);
                } else {
                    assert(lists(was, l[a]));
                    let t = choose|t: int| 0 <= t < was.len() && was[t] == l[a];
                    assert(now[t] == l[a]);
                }
            }
            assert forall|b: int| 0 <= b < j implies lists(now, #[trigger] r[b]) by {
                if from_right && b == j - 1 {
                    assert(now[now.len() - 1] == r[b]);
                } else {
                    assert(lists(was, r[b]));
                    let t = choose|t: int| 0 <= t < was.len() && was[t] == r[b];
                    assert(now[t] == r[b]);
                }
            }
            assert forall|a: int, b: int| 0 <= a < b < now.len() implies before(
                all,
                now[a],
                now[b],
            ) by {
                assert(now[a] == was[a]);
                if b < was.len() {
                    assert(now[b] == was[b]);
                }
            }
            assert forall|a: int| 0 <= a < now.len() && i < left@.len() implies before(
                all,
                #[trigger] now[a],
                l[i as int],
            ) by {
                if !from_right {
                    assert(before(all, l[i - 1], l[i as int]));
                }
                if a < was.len() {
                    assert(now[a] == was[a]);
                    if !from_right {
                        lemma_before_is_strict(all, was[a], x, l[i as int]);
                    }
                }
            }
            assert forall|a: int| 0 <= a < now.len() && j < right@.len() implies before(
                all,
                #[trigger] now[a],
                r[j as int],
            ) by {
                if from_right {
                    assert(before(all, r[j - 1], r[j as int]));
                }
                if a < was.len() {
                    assert(now[a] == was[a]);
                    if from_right {
                        lemma_before_is_strict(all, was[a], x, r[j as int]);
                    }
                }
            }
        }
    }
    proof {
        assert forall|t: int| lo <= t < hi implies #[trigger] lists(indices(out@), t) by {
            if t < mid {
                assert(lists(l, t));
                let a = choose|a: int| 0 <= a < l.len() && l[a] == t;
                assert(lists(indices(out@), l[a]));
            } else {
                assert(lists(r, t));
                let b = choose|b: int| 0 <= b < r.len() && r[b] == t;
                assert(lists(indices(out@), r[b]));
            }
        }
    }
    out
}

/// The indices from `lo` up to, not including, `hi`, sorted by key.
fn sort_range(keys: &Vec<String>, lo: usize, hi: usize) -> (run: Vec<usize>)
    requires
        lo <= hi <= keys@.len(),
    ensures
        is_run(keys.deep_view(), indices(run@), lo as int, hi as int),
    decreases hi - lo,
{
    let mut run: Vec<usize> = Vec::new();
    if hi - lo == 0 {
        return run;
    }
    if hi - lo == 1 {
        run.push(lo);
        proof {
            assert(indices(run@)[0] == lo);
            assert(lists(indices(run@), lo as int));
        }
        return run;
    }
    let mid = lo + (hi - lo) / 2;
    let left = sort_range(keys, lo, mid);
    let right = sort_range(keys, mid, hi);
    merge_runs(keys, &left, &right, Ghost(lo as int), Ghost(mid as int), Ghost(hi as int))
}

/// The indices of `keys`, sorted by key; indices with equal keys stay in
/// ascending order.
pub fn sort_order(keys: &Vec<String>) -> (order: Vec<usize>)
    ensures
        indices(order@) == ordering(keys.deep_view()),
        is_ordering(keys.deep_view(), indices(order@)),
{
    let order = sort_range(keys, 0, keys.len());
    proof {
        assert(is_ordering(keys.deep_view(), indices(order@)));
        lemma_ordering_unique(keys.deep_view(), indices(order@), ordering(keys.deep_view()));
    }
    order
}

} // verus!
