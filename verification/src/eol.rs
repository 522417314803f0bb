//! The line ending of a text.

use vstd::prelude::*;
use vstd::string::StringSliceAdditionalSpecFns;

verus! {

/// The byte of a line feed.
pub const LINE_FEED: u8 = 0x0a;

/// The byte of a carriage return.
pub const CARRIAGE_RETURN: u8 = 0x0d;

/// How the lines of a text end.
#[derive(Debug, Clone, Copy, PartialEq, Eq, Structural)]
pub enum EndOfLine {
    LF,
    CRLF,
}

impl EndOfLine {
    /// The characters of the line ending.
    pub open spec fn chars(self) -> Seq<char> {
        match self {
            EndOfLine::LF => seq!['\n'],
            EndOfLine::CRLF => seq!['\r', '\n'],
        }
    }

    /// The line ending as text.
    pub fn as_str(&self) -> (text: &'static str)
        ensures
            text@ == self.chars(),
    {
        proof {
            reveal_strlit("\n");
            reveal_strlit("\r\n");
        }
        match self {
            EndOfLine::LF => {
                assert("\n"@ =~= seq!['\n']);
                "\n"
            },
            EndOfLine::CRLF => {
                assert("\r\n"@ =~= seq!['\r', '\n']);
                "\r\n"
            },
        }
    }
}

/// Index of the last line feed among the first `n` bytes of `s`, -1 if there
/// is none.
pub open spec fn last_line_feed(s: Seq<u8>, n: int) -> int
    decreases n,
{
    if n <= 0 {
        -1
    } else if s[n - 1] == LINE_FEED {
        n - 1
    } else {
        last_line_feed(s, n - 1)
    }
}

/// The line ending of the text `s`: that of its last line feed, which is
/// CRLF where a carriage return stands before it. A text without a line feed
/// counts as LF.
pub open spec fn line_ending(s: Seq<u8>) -> EndOfLine {
    let p = last_line_feed(s, s.len() as int);
    if p > 0 && s[p - 1] == CARRIAGE_RETURN {
        EndOfLine::CRLF
    } else {
        EndOfLine::LF
    }
}

/// The line ending of the bytes of a text.
pub fn detect_line_ending(bytes: &[u8]) -> (eol: EndOfLine)
    ensures
        eol == line_ending(bytes@),
{
    let mut n: usize = bytes.len();
    while n > 0 && bytes[n - 1] != LINE_FEED
        invariant
            n <= bytes.len(),
            last_line_feed(bytes@, bytes@.len() as int) == last_line_feed(bytes@, n as int),
        decreases n,
    {
        n -= 1;
    }
    if n > 1 && bytes[n - 2] == CARRIAGE_RETURN {
        EndOfLine::CRLF
    } else {
        EndOfLine::LF
    }
}

/// Whether the text uses LF or CRLF.
pub fn detect_lf_crlf(s: &str) -> (eol: EndOfLine)
    ensures
        eol == line_ending(s.spec_bytes()),
{
    detect_line_ending(s.as_bytes())
}

} // verus!
