//! Cutting a string at byte positions, and removing byte ranges from it.

use crate::text::{byte_offset, char_indices, indexes, slice_bytes, trim, trimmed};
use vstd::prelude::*;
use vstd::utf8::*;

verus! {

/// The byte position at which piece `i` starts: the start of the string, or
/// one past the place before it.
pub open spec fn piece_start(places: Seq<usize>, i: int) -> int {
    if i <= 0 {
        0
    } else {
        places[i - 1] + 1
    }
}

/// The byte position at which piece `i` ends: the place with that index, or
/// the end of the string for the last piece.
pub open spec fn piece_end(s: Seq<char>, places: Seq<usize>, i: int) -> int {
    if i >= places.len() {
        encode_utf8(s).len() as int
    } else {
        places[i] as int
    }
}

/// The places at which a string can be cut: each is the position of a
/// character that takes one byte, and they are given in ascending order.
pub open spec fn valid_places(s: Seq<char>, places: Seq<usize>) -> bool {
    &&& forall|i: int|
        0 <= i < places.len() ==> {
            &&& (#[trigger] places[i]) < encode_utf8(s).len()
            &&& is_char_boundary(encode_utf8(s), places[i] as int)
            &&& is_char_boundary(encode_utf8(s), places[i] + 1)
        }
    &&& forall|i: int, j: int| 0 <= i < j < places.len() ==> places[i] < places[j]
}

/// Piece `i` of `s` cut at `places`, before trimming: the characters encoded
/// by the bytes between the place before it and its own place.
pub open spec fn piece(s: Seq<char>, places: Seq<usize>, i: int) -> Seq<char> {
    decode_utf8(encode_utf8(s).subrange(piece_start(places, i), piece_end(s, places, i)))
}

/// The trimmed pieces of `s` cut at `places`; the byte at each place belongs
/// to no piece.
pub open spec fn divided(s: Seq<char>, places: Seq<usize>) -> Seq<Seq<char>> {
    Seq::new(places.len() + 1, |i: int| trimmed(piece(s, places, i)))
}

/// Cuts `string` at the byte positions `places` and trims each piece.
pub fn divide_string(string: &str, places: &[usize]) -> (res: Vec<String>)
    requires
        valid_places(string@, places@),
    ensures
        res.deep_view() == divided(string@, places@),
{
    let mut res: Vec<String> = Vec::new();
    let mut start: usize = 0;
    let mut i: usize = 0;
    let len = string.as_bytes().len();
    proof {
        encode_utf8_valid_utf8(string@);
        is_char_boundary_start_end_of_seq(encode_utf8(string@));
    }
    while i < places.len()
        invariant
            valid_places(string@, places@),
            valid_utf8(encode_utf8(string@)),
            len == encode_utf8(string@).len(),
            i <= places@.len(),
            start == piece_start(places@, i as int),
            start <= encode_utf8(string@).len(),
            is_char_boundary(encode_utf8(string@), start as int),
            res@.len() == i,
            forall|j: int| 0 <= j < i ==> (#[trigger] res@[j])@ == divided(string@, places@)[j],
        decreases places@.len() - i,
    {
        let end = places[i];
        proof {
            if i > 0 {
                assert(places@[i - 1] < places@[i as int]);
            }
        }
        let part = slice_bytes(string, start, end);
        res.push(trim(part).to_owned());
        start = end + 1;
        i += 1;
    }
    let part = slice_bytes(string, start, len);
    res.push(trim(part).to_owned());
    proof {
        assert(res.deep_view() =~= divided(string@, places@));
    }
    res
}

/// Whether the byte position `off` lies in one of the ranges `places`, whose
/// two ends both count.
pub open spec fn covered(places: Seq<(usize, usize)>, off: int) -> bool {
    exists|j: int| 0 <= j < places.len() && (#[trigger] places[j]).0 <= off <= places[j].1
}

/// The first `k` characters of `s` without those that start in one of the
/// ranges `places`.
pub open spec fn kept(s: Seq<char>, places: Seq<(usize, usize)>, k: int) -> Seq<char>
    decreases k,
{
    if k <= 0 {
        Seq::empty()
    } else if covered(places, byte_offset(s, k - 1)) {
        kept(s, places, k - 1)
    } else {
        kept(s, places, k - 1).push(s[k - 1])
    }
}

/// `s` without the characters that start in one of the byte ranges `places`.
pub open spec fn taken_out(s: Seq<char>, places: Seq<(usize, usize)>) -> Seq<char> {
    kept(s, places, s.len() as int)
}

/// Whether `off` lies in one of the ranges.
fn in_ranges(places: &[(usize, usize)], off: usize) -> (b: bool)
    ensures
        b == covered(places@, off as int),
{
    let mut j: usize = 0;
    while j < places.len()
        invariant
            j <= places@.len(),
            forall|m: int| 0 <= m < j ==> !((#[trigger] places@[m]).0 <= off <= places@[m].1),
        decreases places@.len() - j,
    {
        if off >= places[j].0 && off <= places[j].1 {
            return true;
        }
        j += 1;
    }
    false
}

/// Removes from `string` every character that starts in one of the byte
/// ranges `places`; both ends of a range belong to it.
pub fn takeout_string(string: &str, places: &[(usize, usize)]) -> (res: String)
    ensures
        res@ == taken_out(string@, places@),
{
    let cs = char_indices(string);
    let mut res = String::new();
    let mut k: usize = 0;
    while k < cs.len()
        invariant
            indexes(cs@, string@),
            k <= cs.len(),
            res@ == kept(string@, places@, k as int),
        decreases cs.len() - k,
    {
        if !in_ranges(places, cs[k].0) {
            res.push(cs[k].1);
        }
        k += 1;
    }
    res
}

} // verus!
