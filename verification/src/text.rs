//! Strings as sequences of characters, and where each character starts in
//! the UTF-8 form of its string.

use vstd::prelude::*;
use vstd::string::StringSliceAdditionalSpecFns;
use vstd::utf8::*;

verus! {

/// The byte offset at which character `k` of `s` starts in the UTF-8 form of
/// `s`: the length of the encoding of the `k` characters before it. For
/// `k == s.len()` this is the length of the whole encoding.
pub open spec fn byte_offset(s: Seq<char>, k: int) -> int {
    encode_utf8(s.take(k)).len() as int
}

/// The number of bytes that `c` takes in UTF-8.
pub open spec fn utf8_width(c: char) -> int {
    encode_scalar(c as u32).len() as int
}

/// The encoding of a concatenation is the concatenation of the encodings.
pub proof fn lemma_encode_concat(a: Seq<char>, b: Seq<char>)
    ensures
        encode_utf8(a + b) == encode_utf8(a) + encode_utf8(b),
    decreases a.len(),
{
    if a.len() == 0 {
        assert(a + b =~= b);
        assert(encode_utf8(a) + encode_utf8(b) =~= encode_utf8(b));
    } else {
        lemma_encode_concat(a.drop_first(), b);
        assert((a + b).drop_first() =~= a.drop_first() + b);
        assert((a + b)[0] == a[0]);
        assert(encode_utf8(a + b) =~= encode_utf8(a) + encode_utf8(b));
    }
}

/// Every character takes between one and four bytes, and exactly one when it
/// is an ASCII character.
pub proof fn lemma_width_bounds(c: char)
    ensures
        1 <= utf8_width(c) <= 4,
        (c as u32) < 0x80 <==> utf8_width(c) == 1,
{
}

/// Passing over character `k` advances the offset by that character's width.
pub proof fn lemma_offset_step(s: Seq<char>, k: int)
    requires
        0 <= k < s.len(),
    ensures
        byte_offset(s, k + 1) == byte_offset(s, k) + utf8_width(s[k]),
{
    let one = seq![s[k]];
    assert(s.take(k + 1) =~= s.take(k) + one);
    lemma_encode_concat(s.take(k), one);
    assert(one.drop_first() =~= Seq::<char>::empty());
    assert(encode_utf8(one) =~= encode_scalar(s[k] as u32)) by {
        reveal_with_fuel(encode_utf8, 2);
    }
}

/// Offsets grow with the index.
pub proof fn lemma_offset_monotonic(s: Seq<char>, a: int, b: int)
    requires
        0 <= a <= b <= s.len(),
    ensures
        byte_offset(s, a) + (b - a) <= byte_offset(s, b),
    decreases b - a,
{
    if a < b {
        lemma_offset_monotonic(s, a, b - 1);
        lemma_offset_step(s, b - 1);
        lemma_width_bounds(s[b - 1]);
    }
}

/// The offset of the end of `s` is the length of its encoding.
pub proof fn lemma_offset_end(s: Seq<char>)
    ensures
        byte_offset(s, 0) == 0,
        byte_offset(s, s.len() as int) == encode_utf8(s).len(),
{
    assert(s.take(s.len() as int) =~= s);
    assert(s.take(0) =~= Seq::<char>::empty());
}

/// The bytes between the offsets of two characters encode the characters
/// between them.
pub proof fn lemma_bytes_between(s: Seq<char>, a: int, b: int)
    requires
        0 <= a <= b <= s.len(),
    ensures
        byte_offset(s, a) <= byte_offset(s, b) <= encode_utf8(s).len(),
        encode_utf8(s).subrange(byte_offset(s, a), byte_offset(s, b)) == encode_utf8(
            s.subrange(a, b),
        ),
        decode_utf8(encode_utf8(s).subrange(byte_offset(s, a), byte_offset(s, b))) == s.subrange(
            a,
            b,
        ),
{
    let head = s.take(a);
    let mid = s.subrange(a, b);
    let tail = s.skip(b);
    assert(s =~= head + mid + tail);
    assert(s.take(b) =~= head + mid);
    lemma_encode_concat(head, mid);
    lemma_encode_concat(head + mid, tail);
    assert(encode_utf8(s).subrange(byte_offset(s, a), byte_offset(s, b)) =~= encode_utf8(mid));
    encode_utf8_decode_utf8(mid);
}

/// The offset of every character, and of the end, is a character boundary of
/// the encoding.
pub proof fn lemma_offset_is_boundary(s: Seq<char>, k: int)
    requires
        0 <= k <= s.len(),
    ensures
        is_char_boundary(encode_utf8(s), byte_offset(s, k)),
    decreases k,
{
    encode_utf8_valid_utf8(s);
    lemma_offset_end(s);
    if k > 0 {
        let rest = s.drop_first();
        encode_utf8_first_scalar(s);
        assert(pop_first_scalar(encode_utf8(s)) =~= encode_utf8(rest));
        lemma_offset_is_boundary(rest, k - 1);
        assert(s.take(k) =~= seq![s[0]] + rest.take(k - 1));
        lemma_encode_concat(seq![s[0]], rest.take(k - 1));
        assert(seq![s[0]].drop_first() =~= Seq::<char>::empty());
        assert(encode_utf8(seq![s[0]]) =~= encode_scalar(s[0] as u32)) by {
            reveal_with_fuel(encode_utf8, 2);
        }
        assert(byte_offset(s, k) == length_of_first_scalar(encode_utf8(s)) + byte_offset(
            rest,
            k - 1,
        ));
        lemma_width_bounds(s[0]);
        lemma_offset_monotonic(s, k, s.len() as int);
    }
}

/// Whether `c` has the Unicode property `White_Space`: the answer of
/// `char::is_whitespace`, which depends on `c` alone.
pub uninterp spec fn is_white_space(c: char) -> bool;

/// `char::is_whitespace` tells whether a character has the property
/// `White_Space`. Nothing is claimed about which characters have it.
pub assume_specification[ char::is_whitespace ](c: char) -> (b: bool)
    ensures
        b == is_white_space(c),
;

/// The lower-case form of a string: what `str::to_lowercase` returns for it,
/// which depends on the characters of the string alone.
pub uninterp spec fn lowercase(s: Seq<char>) -> Seq<char>;

/// `str::to_lowercase` returns the lower-case form of the string as a new
/// `String`. Nothing is claimed about the mapping itself.
pub assume_specification[ str::to_lowercase ](s: &str) -> (r: String)
    ensures
        r@ == lowercase(s@),
;

/// `String::push` appends one character to the end of the string.
pub assume_specification[ String::push ](s: &mut String, c: char)
    ensures
        final(s)@ == old(s)@.push(c),
;

/// `cs` lists the characters of `s`, each with the byte offset at which it
/// starts.
pub open spec fn indexes(cs: Seq<(usize, char)>, s: Seq<char>) -> bool {
    &&& cs.len() == s.len()
    &&& forall|k: int|
        0 <= k < cs.len() ==> (#[trigger] cs[k]).0 == byte_offset(s, k) && cs[k].1 == s[k]
}

/// `str::char_indices` yields every character of the string in order, each
/// with the byte position at which it starts; they are collected in a vector.
#[verifier::external_body]
pub(crate) fn char_indices(s: &str) -> (cs: Vec<(usize, char)>)
    ensures
        indexes(cs@, s@),
{
    s.char_indices().collect()
}

/// The part of `s` between two byte positions that are character boundaries.
pub fn slice_bytes<'a>(s: &'a str, from: usize, to: usize) -> (r: &'a str)
    requires
        from <= to <= encode_utf8(s@).len(),
        is_char_boundary(encode_utf8(s@), from as int),
        is_char_boundary(encode_utf8(s@), to as int),
    ensures
        encode_utf8(r@) == encode_utf8(s@).subrange(from as int, to as int),
        r@ == decode_utf8(encode_utf8(s@).subrange(from as int, to as int)),
{
    let ghost bytes = encode_utf8(s@);
    proof {
        encode_utf8_valid_utf8(s@);
    }
    let (head, _) = s.split_at(to);
    proof {
        valid_utf8_split(bytes, to as int);
        assert(head.spec_bytes() == bytes.subrange(0, to as int));
        if from < to {
            is_char_boundary_iff_not_is_continuation_byte(bytes, from as int);
            is_char_boundary_iff_not_is_continuation_byte(head.spec_bytes(), from as int);
        } else {
            is_char_boundary_start_end_of_seq(head.spec_bytes());
        }
    }
    let (_, r) = head.split_at(from);
    proof {
        assert(r.spec_bytes() =~= bytes.subrange(from as int, to as int));
        encode_utf8_decode_utf8(r@);
    }
    r
}

/// The byte offset of character `k` of `s`, or of the end of `s` for
/// `k == s@.len()`.
pub(crate) fn offset_at(s: &str, cs: &Vec<(usize, char)>, k: usize) -> (off: usize)
    requires
        indexes(cs@, s@),
        k <= s@.len(),
    ensures
        off == byte_offset(s@, k as int),
        off <= encode_utf8(s@).len(),
        is_char_boundary(encode_utf8(s@), off as int),
{
    proof {
        lemma_offset_end(s@);
        lemma_offset_is_boundary(s@, k as int);
        lemma_offset_monotonic(s@, k as int, s@.len() as int);
    }
    if k < cs.len() {
        cs[k].0
    } else {
        s.as_bytes().len()
    }
}

/// The characters of `s` from index `a` up to, not including, index `b`.
pub(crate) fn substring<'a>(s: &'a str, cs: &Vec<(usize, char)>, a: usize, b: usize) -> (r:
    &'a str)
    requires
        indexes(cs@, s@),
        a <= b <= s@.len(),
    ensures
        r@ == s@.subrange(a as int, b as int),
{
    let from = offset_at(s, cs, a);
    let to = offset_at(s, cs, b);
    proof {
        lemma_bytes_between(s@, a as int, b as int);
    }
    slice_bytes(s, from, to)
}

/// Whether `c` occurs in `s`.
pub fn has_char(s: &str, c: char) -> (b: bool)
    ensures
        b == s@.contains(c),
{
    let cs = char_indices(s);
    let mut k: usize = 0;
    while k < cs.len()
        invariant
            indexes(cs@, s@),
            k <= cs.len(),
            forall|j: int| 0 <= j < k ==> s@[j] != c,
        decreases cs.len() - k,
    {
        if cs[k].1 == c {
            return true;
        }
        k += 1;
    }
    false
}

/// `s` without the white space at its start.
pub open spec fn trim_start(s: Seq<char>) -> Seq<char>
    decreases s.len(),
{
    if s.len() > 0 && is_white_space(s[0]) {
        trim_start(s.drop_first())
    } else {
        s
    }
}

/// `s` without the white space at its end.
pub open spec fn trim_end(s: Seq<char>) -> Seq<char>
    decreases s.len(),
{
    if s.len() > 0 && is_white_space(s.last()) {
        trim_end(s.drop_last())
    } else {
        s
    }
}

/// `s` without the white space at its start and at its end.
pub open spec fn trimmed(s: Seq<char>) -> Seq<char> {
    trim_end(trim_start(s))
}

/// What is left without leading white space is the end of `s` from some
/// index on, and does not start with white space.
pub proof fn lemma_trim_start(s: Seq<char>) -> (from: int)
    ensures
        0 <= from <= s.len(),
        trim_start(s) == s.skip(from),
        from < s.len() ==> !is_white_space(s[from]),
    decreases s.len(),
{
    if s.len() > 0 && is_white_space(s[0]) {
        let from = lemma_trim_start(s.drop_first());
        assert(s.drop_first().skip(from) =~= s.skip(from + 1));
        from + 1
    } else {
        assert(s.skip(0) =~= s);
        0
    }
}

/// What is left without trailing white space is the start of `s` up to some
/// index, and does not end with white space.
pub proof fn lemma_trim_end(s: Seq<char>) -> (to: int)
    ensures
        0 <= to <= s.len(),
        trim_end(s) == s.take(to),
        to > 0 ==> !is_white_space(s[to - 1]),
    decreases s.len(),
{
    if s.len() > 0 && is_white_space(s.last()) {
        let to = lemma_trim_end(s.drop_last());
        assert(s.drop_last().take(to) =~= s.take(to));
        to
    } else {
        assert(s.take(s.len() as int) =~= s);
        s.len() as int
    }
}

/// The trimmed form of `s` is a part of `s` that neither starts nor ends with
/// white space.
pub proof fn lemma_trimmed(s: Seq<char>) -> (bounds: (int, int))
    ensures
        0 <= bounds.0 <= bounds.1 <= s.len(),
        trimmed(s) == s.subrange(bounds.0, bounds.1),
        bounds.0 < bounds.1 ==> !is_white_space(s[bounds.0]) && !is_white_space(s[bounds.1 - 1]),
{
    let from = lemma_trim_start(s);
    let to = lemma_trim_end(s.skip(from));
    assert(s.skip(from).take(to) =~= s.subrange(from, from + to));
    (from, from + to)
}

/// Trimming what is trimmed changes nothing.
pub proof fn lemma_trimmed_idempotent(s: Seq<char>)
    ensures
        trimmed(trimmed(s)) == trimmed(s),
{
    let t = trimmed(s);
    let (a, b) = lemma_trimmed(s);
    if a < b {
        assert(t[0] == s[a]);
        assert(t.last() == s[b - 1]);
    }
}

/// The part of `s` that is left when leading and trailing white space is
/// removed.
pub fn trim(s: &str) -> (r: &str)
    ensures
        r@ == trimmed(s@),
{
    let cs = char_indices(s);
    let n = cs.len();
    let mut lo: usize = 0;
    proof {
        assert(s@.skip(0) =~= s@);
    }
    while lo < n && cs[lo].1.is_whitespace()
        invariant
            indexes(cs@, s@),
            n == cs.len(),
            lo <= n,
            trim_start(s@) == trim_start(s@.skip(lo as int)),
        decreases n - lo,
    {
        proof {
            assert(s@.skip(lo as int).drop_first() =~= s@.skip(lo as int + 1));
        }
        lo += 1;
    }
    assert(trim_start(s@) == s@.skip(lo as int));
    let mut hi: usize = n;
    proof {
        assert(s@.skip(lo as int) =~= s@.subrange(lo as int, hi as int));
    }
    while hi > lo && cs[hi - 1].1.is_whitespace()
        invariant
            indexes(cs@, s@),
            n == cs.len(),
            lo <= hi <= n,
            trimmed(s@) == trim_end(s@.subrange(lo as int, hi as int)),
        decreases hi,
    {
        proof {
            assert(s@.subrange(lo as int, hi as int).drop_last() =~= s@.subrange(
                lo as int,
                hi as int - 1,
            ));
        }
        hi -= 1;
    }
    substring(s, &cs, lo, hi)
}

/// The indices below `k` at which `c` occurs in `s`, in ascending order.
pub open spec fn positions(s: Seq<char>, c: char, k: int) -> Seq<int>
    decreases k,
{
    if k <= 0 {
        Seq::empty()
    } else if s[k - 1] == c {
        positions(s, c, k - 1).push(k - 1)
    } else {
        positions(s, c, k - 1)
    }
}

/// `positions` lists occurrences of `c` below `k`, in ascending order, and
/// leaves none out.
pub proof fn lemma_positions(s: Seq<char>, c: char, k: int)
    requires
        0 <= k <= s.len(),
    ensures
        positions(s, c, k).len() <= k,
        forall|i: int|
            0 <= i < positions(s, c, k).len() ==> 0 <= (#[trigger] positions(s, c, k)[i]) < k
                && s[positions(s, c, k)[i]] == c,
        forall|i: int, j: int|
            0 <= i < j < positions(s, c, k).len() ==> positions(s, c, k)[i] < positions(
                s,
                c,
                k,
            )[j],
        forall|m: int| 0 <= m < k && s[m] == c ==> positions(s, c, k).contains(m),
    decreases k,
{
    if k > 0 {
        lemma_positions(s, c, k - 1);
        let before = positions(s, c, k - 1);
        let now = positions(s, c, k);
        assert forall|m: int| 0 <= m < k && s[m] == c implies now.contains(m) by {
            if m < k - 1 {
                let i = choose|i: int| 0 <= i < before.len() && before[i] == m;
                assert(now[i] == m);
            } else {
                assert(now[now.len() - 1] == m);
            }
        }
    }
}

/// The indices at which `c` occurs among the characters listed in `cs`.
pub(crate) fn find_all(cs: &Vec<(usize, char)>, c: char, Ghost(s): Ghost<Seq<char>>) -> (found:
    Vec<usize>)
    requires
        indexes(cs@, s),
    ensures
        found@.len() == positions(s, c, s.len() as int).len(),
        forall|i: int|
            0 <= i < found@.len() ==> (#[trigger] found@[i]) == positions(
                s,
                c,
                s.len() as int,
            )[i],
{
    let mut found: Vec<usize> = Vec::new();
    let mut k: usize = 0;
    while k < cs.len()
        invariant
            indexes(cs@, s),
            k <= cs.len(),
            found@.len() == positions(s, c, k as int).len(),
            forall|i: int|
                0 <= i < found@.len() ==> (#[trigger] found@[i]) == positions(s, c, k as int)[i],
        decreases cs.len() - k,
    {
        if cs[k].1 == c {
            found.push(k);
        }
        k += 1;
    }
    found
}

} // verus!
