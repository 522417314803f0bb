//! The calls that leave this library. Their contracts are taken from the
//! documentation of the functions called and are not proved here.

use vstd::prelude::*;
use std::path::PathBuf;
use std::string::FromUtf8Error;
use vstd::string::StringSliceAdditionalSpecFns;
use vstd::utf8::{decode_utf8, is_char_boundary, valid_utf8};

verus! {

/// `memchr::memchr`: the index of the first byte of `haystack` that equals
/// `needle`, or `None` where no byte of it does.
pub assume_specification[ memchr::memchr ](needle: u8, haystack: &[u8]) -> (found: Option<usize>)
    ensures
        match found {
            Some(i) => {
                &&& i < haystack@.len()
                &&& haystack@[i as int] == needle
                &&& forall|j: int| 0 <= j < i ==> haystack@[j] != needle
            },
            None => forall|j: int| 0 <= j < haystack@.len() ==> haystack@[j] != needle,
        },
;

/// `simdutf8::basic::from_utf8`: succeeds exactly on the byte sequences that
/// are valid UTF-8.
#[verifier::external_body]
pub(crate) fn is_valid_utf8(bytes: &[u8]) -> (ok: bool)
    ensures
        ok == valid_utf8(bytes@),
{
    simdutf8::basic::from_utf8(bytes).is_ok()
}

/// `std::string::FromUtf8Error`: why bytes were refused as a `String`.
#[verifier::external_type_specification]
#[verifier::external_body]
pub struct ExFromUtf8Error(FromUtf8Error);

/// `std::path::PathBuf`: an owned path.
#[verifier::external_type_specification]
#[verifier::external_body]
pub struct ExPathBuf(PathBuf);

/// `String::from_utf8`: succeeds exactly on valid UTF-8, with the string
/// that the bytes encode.
pub assume_specification[ String::from_utf8 ](vec: Vec<u8>) -> (r: Result<String, FromUtf8Error>)
    ensures
        r is Ok <==> valid_utf8(vec@),
        r matches Ok(text) ==> text@ == decode_utf8(vec@),
;

/// `Path::strip_prefix`, asked only whether it succeeds: whether `base` is a
/// prefix of `path`, component by component. What a component is depends on
/// the platform, so nothing is stated of the answer.
#[verifier::external_body]
pub(crate) fn strip_prefix_ok(path: &PathBuf, base: &PathBuf) -> bool {
    path.strip_prefix(base).is_ok()
}

/// What `regex::Regex::find_iter` yields for the pattern and the haystack:
/// the byte ranges of the matches, one after the other, or `None` where
/// `regex::Regex::new` refuses the pattern.
pub uninterp spec fn regex_matches(pattern: Seq<char>, haystack: Seq<char>) -> Option<
    Seq<(usize, usize)>,
>;

/// The ranges lie in `bytes`, each starts and ends between two characters,
/// and each starts where the one before it ends or later.
pub open spec fn matches_in_order(ms: Seq<(usize, usize)>, bytes: Seq<u8>) -> bool {
    &&& forall|i: int|
        0 <= i < ms.len() ==> {
            &&& (#[trigger] ms[i]).0 <= ms[i].1 <= bytes.len()
            &&& is_char_boundary(bytes, ms[i].0 as int)
            &&& is_char_boundary(bytes, ms[i].1 as int)
        }
    &&& forall|i: int, j: int| 0 <= i < j < ms.len() ==> (#[trigger] ms[i]).1 <= (#[trigger] ms[j]).0
}

/// `regex::Regex::new` and `regex::Regex::find_iter`: the successive matches
/// of the pattern in the haystack, by the byte offsets of their start and
/// end. The matches do not overlap, and their offsets fall between
/// characters.
#[verifier::external_body]
pub(crate) fn find_matches(pattern: &str, haystack: &str) -> (found: Option<Vec<(usize, usize)>>)
    ensures
        match found {
            Some(ms) => regex_matches(pattern@, haystack@) == Some(ms@) && matches_in_order(
                ms@,
                haystack.spec_bytes(),
            ),
            None => regex_matches(pattern@, haystack@) is None,
        },
{
    let re = regex::Regex::new(pattern).ok()?;
    Some(re.find_iter(haystack).map(|m| (m.start(), m.end())).collect())
}

/// What `urlencoding::decode` gives for the text: the decoded text, or
/// `None` where it fails.
pub uninterp spec fn percent_decoded(text: Seq<char>) -> Option<Seq<char>>;

/// `urlencoding::decode`: the text with its percent escapes decoded, where
/// that is valid UTF-8.
#[verifier::external_body]
pub(crate) fn percent_decode(text: &str) -> (decoded: Option<String>)
    ensures
        match decoded {
            Some(d) => percent_decoded(text@) == Some(d@),
            None => percent_decoded(text@) is None,
        },
{
    urlencoding::decode(text).ok().map(|d| d.into_owned())
}

/// The text `s` with `to` in place of each `from`.
pub open spec fn char_replaced(s: Seq<char>, from: char, to: Seq<char>) -> Seq<char>
    decreases s.len(),
{
    if s.len() == 0 {
        Seq::empty()
    } else if s[0] == from {
        to + char_replaced(s.skip(1), from, to)
    } else {
        seq![s[0]] + char_replaced(s.skip(1), from, to)
    }
}

/// `str::replace` with a character as its pattern: a new string with `to`
/// in place of each `from`.
#[verifier::external_body]
pub(crate) fn replace_char(text: &str, from: char, to: &str) -> (replaced: String)
    ensures
        replaced@ == char_replaced(text@, from, to@),
{
    text.replace(from, to)
}

/// Index of the first line feed of `s`, or the length of `s` if there is
/// none.
pub open spec fn first_line_feed(s: Seq<char>) -> int
    decreases s.len(),
{
    if s.len() == 0 || s[0] == '\n' {
        0
    } else {
        1 + first_line_feed(s.skip(1))
    }
}

/// The lines of the text `s`: each ends before a line feed or at the end of
/// the text, and a carriage return just before the line feed is not part of
/// the line. After the last line feed, a line follows only where the text
/// goes on.
pub open spec fn lines_of(s: Seq<char>) -> Seq<Seq<char>>
    decreases s.len(),
    via lines_of_decreases
{
    if s.len() == 0 {
        Seq::empty()
    } else {
        let i = first_line_feed(s);
        if i >= s.len() {
            seq![s]
        } else {
            let line = if i > 0 && s[i - 1] == '\r' {
                s.take(i - 1)
            } else {
                s.take(i)
            };
            seq![line] + lines_of(s.skip(i + 1))
        }
    }
}

#[via_fn]
proof fn lines_of_decreases(s: Seq<char>) {
    lemma_first_line_feed(s);
}

/// The first line feed lies in the text or at its end.
pub proof fn lemma_first_line_feed(s: Seq<char>)
    ensures
        0 <= first_line_feed(s) <= s.len(),
    decreases s.len(),
{
    if s.len() > 0 && s[0] != '\n' {
        lemma_first_line_feed(s.skip(1));
    }
}

/// `str::lines`: the lines of the text, without their line endings, which
/// are a line feed or a carriage return followed by a line feed.
#[verifier::external_body]
pub(crate) fn split_lines(text: &str) -> (lines: Vec<String>)
    ensures
        lines@.len() == lines_of(text@).len(),
        forall|i: int| 0 <= i < lines@.len() ==> (#[trigger] lines@[i])@ == lines_of(text@)[i],
{
    text.lines().map(|line| line.to_owned()).collect()
}

} // verus!
