//! Decoding a text line by line: the URLs of each line are decoded by the
//! URL pattern, and the lines are put together again with the line ending of
//! the text.

use crate::code::{decode_url_in_code, lenient_outcome};
use crate::eol::{detect_lf_crlf, line_ending, EndOfLine};
use crate::outside::{lines_of, split_lines};
use vstd::prelude::*;
use vstd::string::{StringExecFns, StringSliceAdditionalSpecFns};
use vstd::utf8::encode_utf8;

verus! {

/// A line that decoding changed.
#[derive(Debug)]
pub struct LineChange {
    /// The number of the line, counted from 1.
    pub line_number: usize,
    /// The line as it was.
    pub before: String,
    /// The line as it is decoded.
    pub after: String,
}

/// A text decoded line by line.
#[derive(Debug)]
pub struct DecodedText {
    /// The decoded lines, joined by the line ending of the text, with no
    /// line ending after the last of them.
    pub text: String,
    /// The lines that were changed, in order.
    pub changes: Vec<LineChange>,
}

/// What one line decodes to, and whether it is changed.
pub open spec fn decoded_line(line: Seq<char>, escape_space: bool) -> (Seq<char>, bool) {
    match lenient_outcome(line, encode_utf8(line), escape_space) {
        Some(pair) => pair,
        None => (line, false),
    }
}

/// The first `n` lines decoded and joined by `eol`.
pub open spec fn joined_lines(
    lines: Seq<Seq<char>>,
    eol: Seq<char>,
    n: int,
    escape_space: bool,
) -> Seq<char>
    decreases n,
{
    if n <= 0 {
        Seq::empty()
    } else if n == 1 {
        decoded_line(lines[0], escape_space).0
    } else {
        joined_lines(lines, eol, n - 1, escape_space) + eol + decoded_line(
            lines[n - 1],
            escape_space,
        ).0
    }
}

/// A change as a number and two texts.
pub open spec fn change_view(change: LineChange) -> (int, Seq<char>, Seq<char>) {
    (change.line_number as int, change.before@, change.after@)
}

/// The changes among the first `n` lines.
pub open spec fn changes_among(lines: Seq<Seq<char>>, n: int, escape_space: bool) -> Seq<
    (int, Seq<char>, Seq<char>),
>
    decreases n,
{
    if n <= 0 {
        Seq::empty()
    } else {
        let line = decoded_line(lines[n - 1], escape_space);
        if line.1 {
            changes_among(lines, n - 1, escape_space).push((n, lines[n - 1], line.0))
        } else {
            changes_among(lines, n - 1, escape_space)
        }
    }
}

/// Decodes the URLs in each line of `content`. Returns the decoded lines
/// joined by the line ending of `content`, and the lines that were changed.
pub fn decode_lines(content: &str, escape_space: bool) -> (decoded: DecodedText)
    ensures
        decoded.text@ == joined_lines(
            lines_of(content@),
            line_ending(content.spec_bytes()).chars(),
            lines_of(content@).len() as int,
            escape_space,
        ),
        decoded.changes@.map_values(|c: LineChange| change_view(c)) == changes_among(
            lines_of(content@),
            lines_of(content@).len() as int,
            escape_space,
        ),
{
    let eol = detect_lf_crlf(content);
    let lines = split_lines(content);
    let ghost all = lines_of(content@);
    let mut text = String::new();
    let mut changes: Vec<LineChange> = Vec::new();
    let mut i: usize = 0;
    while i < lines.len()
        invariant
            i <= lines.len(),
            lines@.len() == all.len(),
            forall|j: int| 0 <= j < lines@.len() ==> (#[trigger] lines@[j])@ == all[j],
            text@ == joined_lines(all, eol.chars(), i as int, escape_space),
            changes@.map_values(|c: LineChange| change_view(c)) == changes_among(
                all,
                i as int,
                escape_space,
            ),
        decreases lines.len() - i,
    {
        if i > 0 {
            text.append(eol.as_str());
        }
        let line = lines[i].as_str();
        let (after, replaced) = decode_url_in_code(line, escape_space);
        text.append(after.as_str());
        if replaced {
            let ghost before_changes = changes@;
            let change = LineChange { line_number: i + 1, before: lines[i].clone(), after };
            changes.push(change);
            assert(changes@.map_values(|c: LineChange| change_view(c)) =~= before_changes.map_values(
                |c: LineChange| change_view(c),
            ).push(change_view(change)));
        }
        proof {
            if i == 0 {
                assert(Seq::<char>::empty() + after@ =~= after@);
            }
        }
        i += 1;
    }
    DecodedText { text, changes }
}

} // verus!
