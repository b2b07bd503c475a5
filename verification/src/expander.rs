//! Expanding a field into all of its variants, by splitting at slashes and at
//! parentheses in turn.

use crate::divider::{
    divide_parenthesis, divide_slash, lemma_no_slash_one_part, parenthesis_parts, slash_parts,
};
use crate::text::trimmed;
use vstd::prelude::*;

verus! {

/// The depth at which expansion stops descending.
pub const MAX_DEPTH: u16 = 16;

/// The parts of `s` in the given mode: its alternatives where `slash` is set,
/// else its variants by parentheses.
pub open spec fn split_by(s: Seq<char>, slash: bool) -> Seq<Seq<char>> {
    if slash {
        slash_parts(s)
    } else {
        parenthesis_parts(s)
    }
}

/// Whether a level that has split `s` lists `s` itself after its variants:
/// every level below the top does, the top only on request.
pub open spec fn keeps_own_form(depth: int, keep_original: bool) -> bool {
    depth > 0 || keep_original
}

/// The variants of `s`. It is split in the given mode; a single part, or
/// any parts at `MAX_DEPTH`, are the result. Otherwise each part is expanded
/// in the other mode one level deeper, the results are joined in order, and
/// `s` itself follows where `keeps_own_form` says so.
pub open spec fn expand(s: Seq<char>, slash: bool, depth: int, keep_original: bool) -> Seq<
    Seq<char>,
>
    decreases MAX_DEPTH - depth, 0int,
{
    let parts = split_by(s, slash);
    if parts.len() == 1 || depth >= MAX_DEPTH {
        parts
    } else {
        let below = expand_each(parts, !slash, depth + 1, keep_original);
        if keeps_own_form(depth, keep_original) {
            below.push(s)
        } else {
            below
        }
    }
}

/// The variants of each of `parts` at `depth`, joined in order.
pub open spec fn expand_each(
    parts: Seq<Seq<char>>,
    slash: bool,
    depth: int,
    keep_original: bool,
) -> Seq<Seq<char>>
    decreases MAX_DEPTH - depth, parts.len() + 1,
{
    if parts.len() == 0 {
        Seq::empty()
    } else {
        expand_each(parts.drop_last(), slash, depth, keep_original) + expand(
            parts.last(),
            slash,
            depth,
            keep_original,
        )
    }
}

/// A split gives at least one part.
pub proof fn lemma_split_nonempty(s: Seq<char>, slash: bool)
    ensures
        split_by(s, slash).len() >= 1,
{
}

/// Every field has at least one variant.
pub proof fn lemma_expand_nonempty(s: Seq<char>, slash: bool, depth: int, keep_original: bool)
    requires
        depth >= 0,
    ensures
        expand(s, slash, depth, keep_original).len() >= 1,
    decreases MAX_DEPTH - depth, 0int,
{
    let parts = split_by(s, slash);
    lemma_split_nonempty(s, slash);
    if !(parts.len() == 1 || depth >= MAX_DEPTH) {
        lemma_expand_each_nonempty(parts, !slash, depth + 1, keep_original);
    }
}

/// Expanding some parts gives at least as many variants as there are parts.
pub proof fn lemma_expand_each_nonempty(
    parts: Seq<Seq<char>>,
    slash: bool,
    depth: int,
    keep_original: bool,
)
    requires
        depth >= 0,
    ensures
        expand_each(parts, slash, depth, keep_original).len() >= parts.len(),
    decreases MAX_DEPTH - depth, parts.len() + 1,
{
    if parts.len() > 0 {
        lemma_expand_each_nonempty(parts.drop_last(), slash, depth, keep_original);
        lemma_expand_nonempty(parts.last(), slash, depth, keep_original);
    }
}

/// A field with neither a slash nor an opening parenthesis has exactly one
/// variant, its trimmed form. In parenthesis mode the field comes back as it
/// is, so there the statement is for a field without surrounding white space.
pub proof fn lemma_plain_field_one_variant(
    s: Seq<char>,
    slash: bool,
    depth: int,
    keep_original: bool,
)
    requires
        !s.contains('/'),
        !s.contains('('),
        slash || trimmed(s) == s,
    ensures
        expand(s, slash, depth, keep_original) == seq![trimmed(s)],
{
    if slash {
        lemma_no_slash_one_part(s);
    }
}

/// At `MAX_DEPTH` and beyond, a field is split once and no part is expanded
/// further.
pub proof fn lemma_expand_stops_at_bound(
    s: Seq<char>,
    slash: bool,
    depth: int,
    keep_original: bool,
)
    requires
        depth >= MAX_DEPTH,
    ensures
        expand(s, slash, depth, keep_original) == split_by(s, slash),
{
}

/// Expands `input` into its variants, splitting at slashes where `slash` is
/// set and at parentheses otherwise, and the other way round on each part,
/// down to `MAX_DEPTH`.
pub fn recurse_parts(input: &str, slash: bool, depth: u16, keep_original: bool) -> (res: Vec<
    String,
>)
    ensures
        res.deep_view() == expand(input@, slash, depth as int, keep_original),
        res@.len() >= 1,
    decreases MAX_DEPTH - depth,
{
    let parts = if slash {
        divide_slash(input)
    } else {
        divide_parenthesis(input)
    };
    proof {
        lemma_expand_nonempty(input@, slash, depth as int, keep_original);
    }
    if parts.len() == 1 || depth >= MAX_DEPTH {
        return parts;
    }
    let mut results: Vec<String> = Vec::new();
    let mut i: usize = 0;
    while i < parts.len()
        invariant
            depth < MAX_DEPTH,
            i <= parts@.len(),
            results.deep_view() == expand_each(
                parts.deep_view().take(i as int),
                !slash,
                depth + 1,
                keep_original,
            ),
        decreases parts@.len() - i,
    {
        let ghost before = results.deep_view();
        let mut variants = recurse_parts(parts[i].as_str(), !slash, depth + 1, keep_original);
        let ghost found = variants.deep_view();
        results.append(&mut variants);
        proof {
            let upto = parts.deep_view().take(i as int + 1);
            assert(upto.drop_last() =~= parts.deep_view().take(i as int));
            assert(upto.last() == parts@[i as int]@);
            assert(results.deep_view() =~= before + found);
        }
        i += 1;
    }
    proof {
        assert(parts.deep_view().take(i as int) =~= parts.deep_view());
    }
    if depth > 0 || keep_original {
        let ghost before = results.deep_view();
        results.push(input.to_owned());
        proof {
            assert(results.deep_view() =~= before.push(input@));
        }
    }
    results
}

} // verus!
