//! Decoding the URLs that a pattern finds in a text: each match of the URL
//! pattern is percent-decoded as text, and what lies between the matches is
//! kept.

use crate::outside::{
    char_replaced, find_matches, matches_in_order, percent_decode, percent_decoded,
    regex_matches, replace_char,
};
use crate::decode::{decode_str, outcome, string_outcome};
use crate::error::Error;
use crate::scan::{occurs_at, starts_with};
use vstd::prelude::*;
use vstd::slice::slice_subrange;
use vstd::string::{StrSliceExecFns, StringExecFns, StringSliceAdditionalSpecFns};
use vstd::utf8::{
    decode_utf8, encode_utf8_decode_utf8, encode_utf8_valid_utf8, is_char_boundary,
    is_char_boundary_iff_not_is_continuation_byte, is_char_boundary_start_end_of_seq, valid_utf8,
    valid_utf8_split,
};

verus! {

/// The pattern of a URL: `http://` or `https://`, URL characters, and a last
/// character that can end a URL.
pub const URL_PATTERN: &'static str =
    "https?://[-A-Za-z0-9+&@#/%?=~_|!:,.;]+[-A-Za-z0-9+&@#/%=~_|]";

/// What is written in place of the URL `url`, and whether it differs from
/// `url`; `None` where `strict` is set and `url` cannot be decoded.
///
/// A URL without `%` is kept. Else it is decoded (or kept, where it cannot be
/// decoded and `strict` is not set), and its spaces are escaped again where
/// `escape_space` is set.
pub open spec fn rewritten(url: Seq<char>, escape_space: bool, strict: bool) -> Option<
    (Seq<char>, bool),
> {
    if !url.contains('%') {
        Some((url, false))
    } else if strict && percent_decoded(url) is None {
        None
    } else {
        let decoded = match percent_decoded(url) {
            Some(d) => d,
            None => url,
        };
        let result = if escape_space {
            char_replaced(decoded, ' ', seq!['%', '2', '0'])
        } else {
            decoded
        };
        if result == url {
            Some((url, false))
        } else {
            Some((result, true))
        }
    }
}

/// The text that the bytes from `from` up to `to` encode.
pub open spec fn text_between(bytes: Seq<u8>, from: int, to: int) -> Seq<char> {
    decode_utf8(bytes.subrange(from, to))
}

/// Where the `n`-th match ends, 0 for `n == 0`.
pub open spec fn match_end(ms: Seq<(usize, usize)>, n: int) -> int {
    if n <= 0 {
        0
    } else {
        ms[n - 1].1 as int
    }
}

/// What is written up to the end of the `n`-th match, and whether any URL so
/// far was changed; `None` where one of them could not be rewritten.
pub open spec fn spliced(
    bytes: Seq<u8>,
    ms: Seq<(usize, usize)>,
    n: int,
    escape_space: bool,
    strict: bool,
) -> Option<(Seq<char>, bool)>
    decreases n,
{
    if n <= 0 {
        Some((Seq::empty(), false))
    } else {
        match spliced(bytes, ms, n - 1, escape_space, strict) {
            None => None,
            Some(before) => match rewritten(
                text_between(bytes, ms[n - 1].0 as int, ms[n - 1].1 as int),
                escape_space,
                strict,
            ) {
                None => None,
                Some(url) => Some(
                    (
                        before.0 + text_between(bytes, match_end(ms, n - 1), ms[n - 1].0 as int)
                            + url.0,
                        before.1 || url.1,
                    ),
                ),
            },
        }
    }
}

/// The text of `bytes` with each match rewritten, and whether any was
/// changed; `None` where one of them could not be rewritten.
pub open spec fn all_rewritten(
    bytes: Seq<u8>,
    ms: Seq<(usize, usize)>,
    escape_space: bool,
    strict: bool,
) -> Option<(Seq<char>, bool)> {
    match spliced(bytes, ms, ms.len() as int, escape_space, strict) {
        None => None,
        Some(all) => Some(
            (
                all.0 + text_between(bytes, match_end(ms, ms.len() as int), bytes.len() as int),
                all.1,
            ),
        ),
    }
}

/// Whether the text holds a `%`.
fn has_percent(text: &str) -> (found: bool)
    ensures
        found == text@.contains('%'),
{
    let n = text.unicode_len();
    let mut i: usize = 0;
    while i < n
        invariant
            i <= n == text@.len(),
            forall|j: int| 0 <= j < i ==> text@[j] != '%',
        decreases n - i,
    {
        if text.get_char(i) == '%' {
            return true;
        }
        i += 1;
    }
    false
}

/// Rewrites one URL.
pub fn rewrite_url(url: &str, escape_space: bool, strict: bool) -> (r: Option<(String, bool)>)
    ensures
        match r {
            Some(pair) => rewritten(url@, escape_space, strict) == Some((pair.0@, pair.1)),
            None => rewritten(url@, escape_space, strict) is None,
        },
{
    if !has_percent(url) {
        return Some((url.to_owned(), false));
    }
    let decoded = match percent_decode(url) {
        Some(d) => d,
        None => {
            if strict {
                return None;
            }
            url.to_owned()
        },
    };
    let result = if escape_space {
        proof {
            reveal_strlit("%20");
            assert("%20"@ =~= seq!['%', '2', '0']);
        }
        replace_char(decoded.as_str(), ' ', "%20")
    } else {
        decoded
    };
    let unchanged = url.to_owned();
    if result == unchanged {
        Some((unchanged, false))
    } else {
        Some((result, true))
    }
}

/// In valid UTF-8, an offset between two characters is also one in what
/// follows an earlier such offset.
proof fn lemma_boundary_in_tail(bytes: Seq<u8>, k: int, j: int)
    requires
        valid_utf8(bytes),
        0 <= k <= j <= bytes.len(),
        is_char_boundary(bytes, k),
        is_char_boundary(bytes, j),
    ensures
        valid_utf8(bytes.skip(k)),
        is_char_boundary(bytes.skip(k), j - k),
{
    let tail = bytes.skip(k);
    valid_utf8_split(bytes, k);
    assert(bytes.subrange(k, bytes.len() as int) =~= tail);
    if j < bytes.len() {
        is_char_boundary_iff_not_is_continuation_byte(bytes, j);
        is_char_boundary_iff_not_is_continuation_byte(tail, j - k);
        assert(tail[j - k] == bytes[j]);
    } else {
        is_char_boundary_start_end_of_seq(tail);
    }
}

/// Once a URL could not be rewritten, nothing is written for the text.
proof fn lemma_spliced_stays_none(
    bytes: Seq<u8>,
    ms: Seq<(usize, usize)>,
    k: int,
    n: int,
    escape_space: bool,
    strict: bool,
)
    requires
        0 <= k <= n,
        spliced(bytes, ms, k, escape_space, strict) is None,
    ensures
        spliced(bytes, ms, n, escape_space, strict) is None,
    decreases n - k,
{
    if k < n {
        lemma_spliced_stays_none(bytes, ms, k, n - 1, escape_space, strict);
    }
}

/// Rewrites the URLs that stand in `code` at the byte ranges `matches`, and
/// keeps what lies between them. Returns the new text and whether any URL was
/// changed, or `None` where `strict` is set and a URL could not be decoded.
pub fn replace_matches(
    code: &str,
    matches: &Vec<(usize, usize)>,
    escape_space: bool,
    strict: bool,
) -> (r: Option<(String, bool)>)
    requires
        matches_in_order(matches@, code.spec_bytes()),
    ensures
        match r {
            Some(pair) => all_rewritten(code.spec_bytes(), matches@, escape_space, strict) == Some(
                (pair.0@, pair.1),
            ),
            None => all_rewritten(code.spec_bytes(), matches@, escape_space, strict) is None,
        },
        !strict ==> r is Some,
{
    let ghost bytes = code.spec_bytes();
    let mut out = String::new();
    let mut replaced = false;
    let mut rest: &str = code;
    let mut consumed: usize = 0;
    let mut i: usize = 0;
    proof {
        encode_utf8_valid_utf8(code@);
        is_char_boundary_start_end_of_seq(bytes);
        assert(bytes.skip(0) =~= bytes);
    }
    while i < matches.len()
        invariant
            i <= matches.len(),
            bytes == code.spec_bytes(),
            valid_utf8(bytes),
            matches_in_order(matches@, bytes),
            consumed == match_end(matches@, i as int),
            consumed <= bytes.len(),
            is_char_boundary(bytes, consumed as int),
            rest.spec_bytes() == bytes.skip(consumed as int),
            spliced(bytes, matches@, i as int, escape_space, strict) == Some((out@, replaced)),
        decreases matches.len() - i,
    {
        let (start, end) = matches[i];
        proof {
            if i > 0 {
                assert(matches@[i - 1].1 <= matches@[i as int].0);
            }
            lemma_boundary_in_tail(bytes, consumed as int, start as int);
            lemma_boundary_in_tail(bytes, start as int, end as int);
        }
        let (gap, tail) = rest.split_at(start - consumed);
        proof {
            assert(tail.spec_bytes() =~= bytes.skip(start as int));
            assert(gap.spec_bytes() =~= bytes.subrange(consumed as int, start as int));
        }
        let (url, after) = tail.split_at(end - start);
        proof {
            assert(after.spec_bytes() =~= bytes.skip(end as int));
            assert(url.spec_bytes() =~= bytes.subrange(start as int, end as int));
            encode_utf8_decode_utf8(gap@);
            encode_utf8_decode_utf8(url@);
        }
        match rewrite_url(url, escape_space, strict) {
            None => {
                proof {
                    lemma_spliced_stays_none(
                        bytes,
                        matches@,
                        i + 1,
                        matches@.len() as int,
                        escape_space,
                        strict,
                    );
                }
                return None;
            },
            Some((new_url, changed)) => {
                out.append(gap);
                out.append(new_url.as_str());
                if changed {
                    replaced = true;
                }
            },
        }
        rest = after;
        consumed = end;
        i += 1;
    }
    proof {
        assert(rest.spec_bytes() =~= bytes.subrange(consumed as int, bytes.len() as int));
        encode_utf8_decode_utf8(rest@);
    }
    out.append(rest);
    Some((out, replaced))
}

/// What decoding by the pattern gives for a text: each URL that can be
/// decoded is, and the text is kept where the pattern is refused.
pub open spec fn lenient_outcome(code: Seq<char>, bytes: Seq<u8>, escape_space: bool) -> Option<
    (Seq<char>, bool),
> {
    match regex_matches(URL_PATTERN@, code) {
        Some(ms) => all_rewritten(bytes, ms, escape_space, false),
        None => Some((code, false)),
    }
}

/// Finds the URLs in `code` by the URL pattern and decodes them. Returns the
/// new text and whether any URL was changed. A URL that cannot be decoded is
/// kept; so is the whole text where the pattern is refused.
pub fn decode_url_in_code(code: &str, escape_space: bool) -> (r: (String, bool))
    ensures
        Some((r.0@, r.1)) == lenient_outcome(code@, code.spec_bytes(), escape_space),
{
    match find_matches(URL_PATTERN, code) {
        Some(ms) => match replace_matches(code, &ms, escape_space, false) {
            Some(pair) => pair,
            None => (code.to_owned(), false),
        },
        None => (code.to_owned(), false),
    }
}

/// The bytes of `http`, without which no URL can stand in a text.
pub open spec fn http_bytes() -> Seq<u8> {
    seq![0x68u8, 0x74u8, 0x74u8, 0x70u8]
}

/// The bytes of `needle` stand somewhere in `haystack`.
pub open spec fn occurs_in(haystack: Seq<u8>, needle: Seq<u8>) -> bool {
    exists|i: int| occurs_at(haystack, i, needle)
}

/// Whether the bytes of `needle` stand somewhere in `haystack`.
pub fn contains_bytes(haystack: &[u8], needle: &[u8]) -> (found: bool)
    ensures
        found == occurs_in(haystack@, needle@),
{
    let n = haystack.len();
    let mut i: usize = 0;
    while i < n
        invariant
            i <= n == haystack@.len(),
            forall|j: int| 0 <= j < i ==> !occurs_at(haystack@, j, needle@),
        decreases n - i,
    {
        if starts_with(slice_subrange(haystack, i, n), needle) {
            assert(haystack@.subrange(i as int, n as int).subrange(0, needle@.len() as int)
                =~= haystack@.subrange(i as int, i + needle@.len()));
            assert(occurs_at(haystack@, i as int, needle@));
            return true;
        }
        assert(!occurs_at(haystack@, i as int, needle@)) by {
            if occurs_at(haystack@, i as int, needle@) {
                assert(haystack@.subrange(i as int, n as int).subrange(0, needle@.len() as int)
                    =~= haystack@.subrange(i as int, i + needle@.len()));
            }
        }
        i += 1;
    }
    if needle.len() == 0 {
        assert(haystack@.subrange(n as int, n as int) =~= needle@);
        assert(occurs_at(haystack@, n as int, needle@));
        return true;
    }
    assert forall|j: int| !occurs_at(haystack@, j, needle@) by {
        if j >= n {
            assert(j + needle@.len() > haystack@.len());
        }
    }
    false
}

/// As `decode_url_in_code`, but a text without `http` is handed back at
/// once, without a search.
pub fn decode_url_in_code_safe(code: &str, escape_space: bool) -> (r: (String, bool))
    ensures
        Some((r.0@, r.1)) == if occurs_in(code.spec_bytes(), http_bytes()) {
            lenient_outcome(code@, code.spec_bytes(), escape_space)
        } else {
            Some((code@, false))
        },
{
    let http: [u8; 4] = [0x68, 0x74, 0x74, 0x70];
    assert(http@ =~= http_bytes());
    if !contains_bytes(code.as_bytes(), http.as_slice()) {
        return (code.to_owned(), false);
    }
    decode_url_in_code(code, escape_space)
}

/// What strict decoding gives for a text: the new text and whether any URL
/// was changed, or `None` where a URL cannot be decoded.
pub open spec fn strict_outcome(code: Seq<char>, bytes: Seq<u8>, escape_space: bool) -> Option<
    (Seq<char>, bool),
> {
    if !occurs_in(bytes, http_bytes()) {
        Some((code, false))
    } else {
        match regex_matches(URL_PATTERN@, code) {
            Some(ms) => all_rewritten(bytes, ms, escape_space, true),
            None => Some((code, false)),
        }
    }
}

/// As `decode_url_in_code_safe`, but fails where a URL cannot be decoded.
pub fn decode_url_strict(code: &str, escape_space: bool) -> (r: Result<(String, bool), ()>)
    ensures
        outcome(r) == strict_outcome(code@, code.spec_bytes(), escape_space),
{
    let http: [u8; 4] = [0x68, 0x74, 0x74, 0x70];
    assert(http@ =~= http_bytes());
    if !contains_bytes(code.as_bytes(), http.as_slice()) {
        return Ok((code.to_owned(), false));
    }
    match find_matches(URL_PATTERN, code) {
        Some(ms) => match replace_matches(code, &ms, escape_space, true) {
            Some(pair) => Ok(pair),
            None => Err(()),
        },
        None => Ok((code.to_owned(), false)),
    }
}

/// How the result of the streaming decoder compares with that of the
/// pattern decoder on one input.
#[derive(Debug, Clone, Copy, PartialEq, Eq, Structural)]
pub enum Verdict {
    /// Both decoded, to the same text and the same flag.
    Agree,
    /// Both failed.
    BothFail,
    /// The pattern decoder failed and the streaming decoder did not.
    SafetyViolation,
    /// The streaming decoder failed and the pattern decoder did not.
    FalseNegative,
    /// Both decoded, to different texts.
    OutputMismatch,
    /// Both decoded to the same text, with different flags.
    FlagMismatch,
}

/// The verdict on the two outcomes.
pub open spec fn verdict_on(
    by_pattern: Option<(Seq<char>, bool)>,
    by_stream: Option<(Seq<char>, bool)>,
) -> Verdict {
    match (by_pattern, by_stream) {
        (None, Some(_)) => Verdict::SafetyViolation,
        (Some(_), None) => Verdict::FalseNegative,
        (None, None) => Verdict::BothFail,
        (Some(r), Some(m)) => if r.0 != m.0 {
            Verdict::OutputMismatch
        } else if r.1 != m.1 {
            Verdict::FlagMismatch
        } else {
            Verdict::Agree
        },
    }
}

/// Compares the result of the pattern decoder with that of the streaming
/// decoder.
pub fn judge(by_pattern: &Result<(String, bool), ()>, by_stream: &Result<(String, bool), Error>) -> (v:
    Verdict)
    ensures
        v == verdict_on(outcome(*by_pattern), outcome(*by_stream)),
{
    match (by_pattern, by_stream) {
        (Err(_), Ok(_)) => Verdict::SafetyViolation,
        (Ok(_), Err(_)) => Verdict::FalseNegative,
        (Err(_), Err(_)) => Verdict::BothFail,
        (Ok(r), Ok(m)) => {
            if r.0 != m.0 {
                Verdict::OutputMismatch
            } else if r.1 != m.1 {
                Verdict::FlagMismatch
            } else {
                Verdict::Agree
            }
        },
    }
}

/// Decodes `input_str` with both decoders and compares the results.
pub fn test_scenario(input_str: &str, escape_space: bool) -> (v: Verdict)
    ensures
        v == verdict_on(
            strict_outcome(input_str@, input_str.spec_bytes(), escape_space),
            string_outcome(input_str.spec_bytes(), escape_space),
        ),
{
    let by_stream = decode_str(input_str, escape_space, false);
    let by_pattern = decode_url_strict(input_str, escape_space);
    judge(&by_pattern, &by_stream)
}

} // verus!
