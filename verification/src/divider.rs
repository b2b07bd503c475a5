//! The two ways of splitting a field: at the slashes outside parentheses, and
//! by leaving out its parenthetical groups.

use crate::splitter::{
    covered, divide_string, divided, kept, piece, piece_end, piece_start, takeout_string,
    valid_places,
};
use crate::text::{
    byte_offset, char_indices, has_char, indexes, lemma_bytes_between, lemma_offset_end,
    lemma_offset_is_boundary, lemma_offset_monotonic, lemma_offset_step, trim, trimmed,
};
use vstd::prelude::*;
use vstd::utf8::*;

verus! {

/// What a character adds to the nesting depth: one for `(`, minus one for `)`.
pub open spec fn depth_step(c: char) -> int {
    if c == '(' {
        1
    } else if c == ')' {
        -1
    } else {
        0
    }
}

/// The nesting depth in front of character `k` of `s`: the number of `(`
/// minus the number of `)` among the characters before it. It is negative
/// where more parentheses were closed than opened.
pub open spec fn depth_at(s: Seq<char>, k: int) -> int
    decreases k,
{
    if k <= 0 {
        0
    } else {
        depth_at(s, k - 1) + depth_step(s[k - 1])
    }
}

/// Character `k` of `s` is a slash at depth zero.
pub open spec fn is_split_point(s: Seq<char>, k: int) -> bool {
    0 <= k < s.len() && s[k] == '/' && depth_at(s, k) == 0
}

/// The split points among the first `k` characters of `s`, in ascending
/// order.
pub open spec fn split_points(s: Seq<char>, k: int) -> Seq<int>
    decreases k,
{
    if k <= 0 {
        Seq::empty()
    } else if is_split_point(s, k - 1) {
        split_points(s, k - 1).push(k - 1)
    } else {
        split_points(s, k - 1)
    }
}

/// The characters between split point `i - 1` and split point `i`, where the
/// start and the end of `s` stand for the points that are missing.
pub open spec fn segment(s: Seq<char>, points: Seq<int>, i: int) -> Seq<char> {
    s.subrange(
        if i <= 0 {
            0
        } else {
            points[i - 1] + 1
        },
        if i >= points.len() {
            s.len() as int
        } else {
            points[i]
        },
    )
}

/// The alternatives of `s`: the trimmed segments between its split points.
pub open spec fn slash_parts(s: Seq<char>) -> Seq<Seq<char>> {
    let points = split_points(s, s.len() as int);
    Seq::new(points.len() + 1, |i: int| trimmed(segment(s, points, i)))
}

/// The split points among the first `k` characters are split points, lie
/// below `k`, and ascend.
pub proof fn lemma_split_points(s: Seq<char>, k: int)
    requires
        0 <= k <= s.len(),
    ensures
        forall|i: int|
            0 <= i < split_points(s, k).len() ==> 0 <= (#[trigger] split_points(s, k)[i]) < k
                && is_split_point(s, split_points(s, k)[i]),
        forall|i: int, j: int|
            0 <= i < j < split_points(s, k).len() ==> split_points(s, k)[i] < split_points(
                s,
                k,
            )[j],
        split_points(s, k).len() <= k,
    decreases k,
{
    if k > 0 {
        lemma_split_points(s, k - 1);
    }
}

/// A string without a slash has no split point, and is its own only segment.
pub proof fn lemma_no_slash_one_part(s: Seq<char>)
    requires
        !s.contains('/'),
    ensures
        slash_parts(s) == seq![trimmed(s)],
{
    lemma_no_slash_no_points(s, s.len() as int);
    let points = split_points(s, s.len() as int);
    assert(segment(s, points, 0) =~= s);
    assert(slash_parts(s) =~= seq![trimmed(s)]);
}

proof fn lemma_no_slash_no_points(s: Seq<char>, k: int)
    requires
        !s.contains('/'),
        0 <= k <= s.len(),
    ensures
        split_points(s, k).len() == 0,
    decreases k,
{
    if k > 0 {
        lemma_no_slash_no_points(s, k - 1);
        assert(s[k - 1] != '/') by {
            if s[k - 1] == '/' {
                assert(s.contains(s[k - 1]));
            }
        }
    }
}

/// Splits `input` at every slash that stands outside parentheses, and trims
/// the parts.
pub fn divide_slash(input: &str) -> (res: Vec<String>)
    ensures
        res.deep_view() == slash_parts(input@),
{
    let cs = char_indices(input);
    let mut depth: i128 = 0;
    let mut places: Vec<usize> = Vec::new();
    let mut k: usize = 0;
    while k < cs.len()
        invariant
            indexes(cs@, input@),
            k <= cs.len(),
            depth == depth_at(input@, k as int),
            -(k as int) <= depth <= k as int,
            places@.len() == split_points(input@, k as int).len(),
            forall|i: int|
                0 <= i < places@.len() ==> (#[trigger] places@[i]) == byte_offset(
                    input@,
                    split_points(input@, k as int)[i],
                ),
        decreases cs.len() - k,
    {
        let c = cs[k].1;
        if c == '(' {
            depth += 1;
        } else if c == ')' {
            depth -= 1;
        } else if depth == 0 && c == '/' {
            places.push(cs[k].0);
        }
        k += 1;
    }
    proof {
        lemma_places_of_points(input@, places@);
    }
    divide_string(input, places.as_slice())
}

/// Cutting at the byte offsets of the split points gives the segments
/// between the split points.
proof fn lemma_places_of_points(s: Seq<char>, places: Seq<usize>)
    requires
        places.len() == split_points(s, s.len() as int).len(),
        forall|i: int|
            0 <= i < places.len() ==> (#[trigger] places[i]) == byte_offset(
                s,
                split_points(s, s.len() as int)[i],
            ),
    ensures
        valid_places(s, places),
        divided(s, places) == slash_parts(s),
{
    let points = split_points(s, s.len() as int);
    let n = s.len() as int;
    lemma_split_points(s, n);
    lemma_offset_end(s);
    assert forall|i: int| 0 <= i < places.len() implies {
        &&& (#[trigger] places[i]) < encode_utf8(s).len()
        &&& is_char_boundary(encode_utf8(s), places[i] as int)
        &&& is_char_boundary(encode_utf8(s), places[i] + 1)
        &&& places[i] + 1 == byte_offset(s, points[i] + 1)
    } by {
        let p = points[i];
        assert(is_split_point(s, p));
        lemma_offset_step(s, p);
        lemma_offset_is_boundary(s, p);
        lemma_offset_is_boundary(s, p + 1);
        lemma_offset_monotonic(s, p + 1, n);
    }
    assert forall|i: int, j: int| 0 <= i < j < places.len() implies places[i] < places[j] by {
        lemma_offset_monotonic(s, points[i], points[j]);
    }
    assert forall|i: int| 0 <= i <= places.len() implies piece(s, places, i) == segment(
        s,
        points,
        i,
    ) by {
        let a = if i <= 0 {
            0
        } else {
            points[i - 1] + 1
        };
        let b = if i >= points.len() {
            n
        } else {
            points[i]
        };
        if i > 0 {
            assert(places[i - 1] + 1 == byte_offset(s, points[i - 1] + 1));
        }
        if 0 < i < points.len() {
            assert(points[i - 1] < points[i]);
        }
        assert(piece_start(places, i) == byte_offset(s, a));
        assert(piece_end(s, places, i) == byte_offset(s, b));
        lemma_bytes_between(s, a, b);
    }
    assert(divided(s, places) =~= slash_parts(s));
}

/// Characters `i` to `j` of `s` form a parenthetical group at the top level:
/// a `(` at depth zero and the `)` that first brings the depth back to zero.
pub open spec fn is_group(s: Seq<char>, i: int, j: int) -> bool {
    &&& 0 <= i < j < s.len()
    &&& s[i] == '('
    &&& depth_at(s, i) == 0
    &&& s[j] == ')'
    &&& depth_at(s, j) == 1
    &&& forall|m: int| i < m <= j ==> depth_at(s, m) >= 1
}

/// Character `k` of `s` belongs to a top-level group, parentheses included.
pub open spec fn in_group(s: Seq<char>, k: int) -> bool {
    exists|i: int, j: int| is_group(s, i, j) && i <= k <= j
}

/// The first `k` characters of `s` without those that belong to a top-level
/// group.
pub open spec fn outside_groups(s: Seq<char>, k: int) -> Seq<char>
    decreases k,
{
    if k <= 0 {
        Seq::empty()
    } else if in_group(s, k - 1) {
        outside_groups(s, k - 1)
    } else {
        outside_groups(s, k - 1).push(s[k - 1])
    }
}

/// `s` without its top-level groups. A `(` that is never closed opens no
/// group, and stays.
pub open spec fn without_groups(s: Seq<char>) -> Seq<char> {
    outside_groups(s, s.len() as int)
}

/// The variants of `s` by its parentheses: `s` alone where it has no `(`,
/// else `s` followed by what is left of it without its top-level groups,
/// trimmed.
pub open spec fn parenthesis_parts(s: Seq<char>) -> Seq<Seq<char>> {
    if s.contains('(') {
        seq![s, trimmed(without_groups(s))]
    } else {
        seq![s]
    }
}

/// The byte ranges `parts` are those of the groups `groups`.
spec fn ranges_of(s: Seq<char>, parts: Seq<(usize, usize)>, groups: Seq<(int, int)>) -> bool {
    &&& parts.len() == groups.len()
    &&& forall|t: int|
        0 <= t < groups.len() ==> {
            &&& is_group(s, (#[trigger] groups[t]).0, groups[t].1)
            &&& parts[t].0 == byte_offset(s, groups[t].0)
            &&& parts[t].1 == byte_offset(s, groups[t].1)
        }
}

/// `groups` holds every group that closes before character `k`.
spec fn all_groups_before(s: Seq<char>, groups: Seq<(int, int)>, k: int) -> bool {
    &&& forall|t: int| 0 <= t < groups.len() ==> (#[trigger] groups[t]).1 < k
    &&& forall|i: int, j: int| is_group(s, i, j) && j < k ==> groups.contains((i, j))
}

/// A group is open in front of character `k`, and it began at `open`.
spec fn open_since(s: Seq<char>, open: int, k: int) -> bool {
    &&& 0 <= open < k
    &&& s[open] == '('
    &&& depth_at(s, open) == 0
    &&& forall|m: int| open < m <= k ==> depth_at(s, m) >= 1
}

/// Removing the byte ranges of all groups removes the groups.
proof fn lemma_ranges_remove_groups(
    s: Seq<char>,
    parts: Seq<(usize, usize)>,
    groups: Seq<(int, int)>,
    k: int,
)
    requires
        ranges_of(s, parts, groups),
        all_groups_before(s, groups, s.len() as int),
        0 <= k <= s.len(),
    ensures
        kept(s, parts, k) == outside_groups(s, k),
    decreases k,
{
    if k > 0 {
        lemma_ranges_remove_groups(s, parts, groups, k - 1);
        let m = k - 1;
        if in_group(s, m) {
            let (i, j) = choose|i: int, j: int| is_group(s, i, j) && i <= m <= j;
            assert(groups.contains((i, j)));
            let t = choose|t: int| 0 <= t < groups.len() && groups[t] == (i, j);
            lemma_offset_monotonic(s, i, m);
            lemma_offset_monotonic(s, m, j);
            assert(parts[t].0 <= byte_offset(s, m) <= parts[t].1);
            assert(covered(parts, byte_offset(s, m)));
        }
        if covered(parts, byte_offset(s, m)) {
            let t = choose|t: int|
                0 <= t < parts.len() && (#[trigger] parts[t]).0 <= byte_offset(s, m)
                    <= parts[t].1;
            let i = groups[t].0;
            let j = groups[t].1;
            assert(is_group(s, i, j));
            if m < i {
                lemma_offset_monotonic(s, m, i);
            }
            if j < m {
                lemma_offset_monotonic(s, j, m);
            }
            assert(in_group(s, m));
        }
    }
}

/// Gives `input` as it is and, where it holds a `(`, also what is left of it
/// without its top-level parenthetical groups, trimmed.
pub fn divide_parenthesis(input: &str) -> (res: Vec<String>)
    ensures
        res.deep_view() == parenthesis_parts(input@),
{
    let mut res: Vec<String> = Vec::new();
    res.push(input.to_owned());
    if !has_char(input, '(') {
        proof {
            assert(res.deep_view() =~= parenthesis_parts(input@));
        }
        return res;
    }
    let cs = char_indices(input);
    let mut depth: i128 = 0;
    let mut start: usize = 0;
    let ghost mut open: int = 0;
    let ghost mut groups: Seq<(int, int)> = Seq::empty();
    let mut takeout_parts: Vec<(usize, usize)> = Vec::new();
    let mut k: usize = 0;
    while k < cs.len()
        invariant
            indexes(cs@, input@),
            k <= cs.len(),
            depth == depth_at(input@, k as int),
            -(k as int) <= depth <= k as int,
            depth >= 1 ==> open_since(input@, open, k as int) && start == byte_offset(
                input@,
                open,
            ),
            ranges_of(input@, takeout_parts@, groups),
            all_groups_before(input@, groups, k as int),
        decreases cs.len() - k,
    {
        let c = cs[k].1;
        let ghost before = groups;
        if c == '(' {
            if depth == 0 {
                start = cs[k].0;
                proof {
                    open = k as int;
                }
            }
            depth += 1;
        } else if c == ')' {
            if depth == 1 {
                takeout_parts.push((start, cs[k].0));
                proof {
                    groups = groups.push((open, k as int));
                    assert(is_group(input@, open, k as int));
                    assert forall|t: int| 0 <= t < groups.len() implies {
                        &&& is_group(input@, (#[trigger] groups[t]).0, groups[t].1)
                        &&& takeout_parts@[t].0 == byte_offset(input@, groups[t].0)
                        &&& takeout_parts@[t].1 == byte_offset(input@, groups[t].1)
                    } by {
                        if t < before.len() {
                            assert(groups[t] == before[t]);
                        }
                    }
                }
            }
            depth -= 1;
        }
        proof {
            let s = input@;
            assert forall|i: int, j: int| is_group(s, i, j) && j < k + 1 implies groups.contains(
                (i, j),
            ) by {
                if j < k {
                    assert(before.contains((i, j)));
                    let t = choose|t: int| 0 <= t < before.len() && before[t] == (i, j);
                    assert(groups[t] == (i, j));
                } else {
                    assert(depth_at(s, k as int) == 1 && s[k as int] == ')');
                    assert(open_since(s, open, k as int));
                    if i < open {
                        assert(depth_at(s, open) >= 1);
                    }
                    if open < i {
                        assert(depth_at(s, i) >= 1);
                    }
                    assert(groups[groups.len() - 1] == (i, j));
                }
            }
            assert forall|t: int| 0 <= t < groups.len() implies (#[trigger] groups[t]).1 < k
                + 1 by {
                if t < before.len() {
                    assert(groups[t] == before[t]);
                }
            }
        }
        k += 1;
    }
    proof {
        lemma_ranges_remove_groups(input@, takeout_parts@, groups, input@.len() as int);
    }
    let rest = takeout_string(input, takeout_parts.as_slice());
    res.push(trim(rest.as_str()).to_owned());
    proof {
        assert(res.deep_view() =~= parenthesis_parts(input@));
    }
    res
}

} // verus!
