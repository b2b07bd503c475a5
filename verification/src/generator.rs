//! From the text of the input to the text of the output.

use crate::combiner::{combine, combined};
use crate::formatter::{render, rendered, sorted_rows};
use crate::parser::{parse_pairs, parsed};
use crate::text::char_indices;
use vstd::prelude::*;
use vstd::string::StringExecFns;

verus! {

/// The message for a separator that is not one character.
pub open spec fn separator_error(text: Seq<char>) -> Seq<char> {
    "Seperator can only be 1 character while input is '"@ + text + "'."@
}

/// The separator that `text` configures: its only character. A text of no
/// character, or of more than one, is refused with its message.
pub open spec fn separator_of(text: Seq<char>) -> Result<char, Seq<char>> {
    if text.len() == 1 {
        Ok(text[0])
    } else {
        Err(separator_error(text))
    }
}

/// Reads the separator from its configured text.
pub fn parse_separator(text: &str) -> (res: Result<char, String>)
    ensures
        match res {
            Ok(c) => separator_of(text@) == Ok::<char, Seq<char>>(c),
            Err(msg) => separator_of(text@) == Err::<char, Seq<char>>(msg@),
        },
{
    let cs = char_indices(text);
    if cs.len() == 1 {
        Ok(cs[0].1)
    } else {
        let mut msg = "Seperator can only be 1 character while input is '".to_owned();
        msg.append(text);
        msg.append("'.");
        Err(msg)
    }
}

/// The output for `input`: the sorted lines of the mapping that its items
/// combine to, or the message of its first malformed line.
pub open spec fn generated(input: Seq<char>, separator: char, keep_original: bool) -> Result<
    Seq<char>,
    Seq<char>,
> {
    match parsed(input, separator, keep_original) {
        Ok(items) => Ok(rendered(sorted_rows(combined(items)), separator)),
        Err(msg) => Err(msg),
    }
}

/// `out` is the result of a run on `input`.
pub open spec fn is_output(
    input: Seq<char>,
    separator: char,
    keep_original: bool,
    out: Result<Seq<char>, Seq<char>>,
) -> bool {
    out == generated(input, separator, keep_original)
}

/// Two runs on the same input, with the same separator and the same choice
/// about unexpanded fields, give the same output or the same message.
pub proof fn lemma_runs_agree(
    input: Seq<char>,
    separator: char,
    keep_original: bool,
    first: Result<Seq<char>, Seq<char>>,
    second: Result<Seq<char>, Seq<char>>,
)
    requires
        is_output(input, separator, keep_original, first),
        is_output(input, separator, keep_original, second),
    ensures
        first == second,
{
}

/// Parses `input`, combines its items and writes the mapping out.
pub fn generate(input: &str, separator: char, keep_original: bool) -> (res: Result<
    String,
    String,
>)
    ensures
        is_output(
            input@,
            separator,
            keep_original,
            match res {
                Ok(text) => Ok(text@),
                Err(msg) => Err(msg@),
            },
        ),
{
    match parse_pairs(input, separator, keep_original) {
        Ok(items) => {
            let mapping = combine(&items);
            Ok(render(&mapping, separator))
        },
        Err(msg) => Err(msg),
    }
}

} // verus!
