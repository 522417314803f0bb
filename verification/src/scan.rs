//! Finding URL spans: the scheme prefixes that open one, the run of URL bytes
//! that it covers, and the trailing punctuation that does not belong to it.

use crate::tables::{is_url_char, is_url_end_char, CharTables};
use vstd::prelude::*;
use vstd::slice::slice_subrange;

verus! {

/// The byte `h`, with which every scheme prefix starts.
pub const SCHEME_FIRST_BYTE: u8 = 0x68;

/// Length of the longest scheme prefix. With fewer bytes than this after an
/// `h`, a prefix cannot be ruled out yet.
pub const MAX_SCHEME_LEN: usize = 8;

/// The bytes of `http://`.
pub open spec fn http_scheme() -> Seq<u8> {
    seq![0x68u8, 0x74u8, 0x74u8, 0x70u8, 0x3au8, 0x2fu8, 0x2fu8]
}

/// The bytes of `https://`.
pub open spec fn https_scheme() -> Seq<u8> {
    seq![0x68u8, 0x74u8, 0x74u8, 0x70u8, 0x73u8, 0x3au8, 0x2fu8, 0x2fu8]
}

/// The bytes of `t` stand in `s` from index `i` on.
pub open spec fn occurs_at(s: Seq<u8>, i: int, t: Seq<u8>) -> bool {
    &&& 0 <= i
    &&& i + t.len() <= s.len()
    &&& s.subrange(i, i + t.len()) == t
}

/// Length of the scheme prefix that stands in `s` at index `i`, 0 if none does.
pub open spec fn scheme_len_at(s: Seq<u8>, i: int) -> int {
    if occurs_at(s, i, http_scheme()) {
        7
    } else if occurs_at(s, i, https_scheme()) {
        8
    } else {
        0
    }
}

/// The scheme prefix that `s` starts with, by its length.
pub open spec fn url_prefix_len(s: Seq<u8>) -> Option<usize> {
    if scheme_len_at(s, 0) == 7 {
        Some(7usize)
    } else if scheme_len_at(s, 0) == 8 {
        Some(8usize)
    } else {
        None
    }
}

/// The first index from `i` on that holds no URL byte, or the length of `s`
/// if there is none.
pub open spec fn url_run_end(s: Seq<u8>, i: int) -> int
    decreases s.len() - i,
{
    if i < 0 || i >= s.len() || !is_url_char(s[i]) {
        i
    } else {
        url_run_end(s, i + 1)
    }
}

/// Length of `s` without its trailing bytes that cannot end a URL.
pub open spec fn trimmed_len(s: Seq<u8>) -> int
    decreases s.len(),
{
    if s.len() == 0 {
        0
    } else if is_url_end_char(s.last()) {
        s.len() as int
    } else {
        trimmed_len(s.drop_last())
    }
}

/// `s` holds URL bytes only from index `from` up to index `to`.
pub open spec fn all_url_chars(s: Seq<u8>, from: int, to: int) -> bool {
    forall|j: int| from <= j < to ==> is_url_char(#[trigger] s[j])
}

/// Whether `slice` starts with the bytes of `prefix`.
pub fn starts_with(slice: &[u8], prefix: &[u8]) -> (r: bool)
    ensures
        r == occurs_at(slice@, 0, prefix@),
{
    if slice.len() < prefix.len() {
        return false;
    }
    let mut i: usize = 0;
    while i < prefix.len()
        invariant
            i <= prefix.len() <= slice.len(),
            forall|j: int| 0 <= j < i ==> slice@[j] == prefix@[j],
        decreases prefix.len() - i,
    {
        if slice[i] != prefix[i] {
            assert(slice@.subrange(0, prefix@.len() as int)[i as int] != prefix@[i as int]);
            return false;
        }
        i += 1;
    }
    assert(slice@.subrange(0, prefix@.len() as int) =~= prefix@);
    true
}

/// The length of the scheme prefix that `slice` starts with.
pub fn check_url_prefix(slice: &[u8]) -> (r: Option<usize>)
    ensures
        r == url_prefix_len(slice@),
{
    let http: [u8; 7] = [0x68, 0x74, 0x74, 0x70, 0x3a, 0x2f, 0x2f];
    let https: [u8; 8] = [0x68, 0x74, 0x74, 0x70, 0x73, 0x3a, 0x2f, 0x2f];
    assert(http@ =~= http_scheme());
    assert(https@ =~= https_scheme());
    if starts_with(slice, http.as_slice()) {
        Some(7)
    } else if starts_with(slice, https.as_slice()) {
        Some(8)
    } else {
        None
    }
}

/// Splits `slice` into the URL proper and the trailing bytes that cannot end
/// a URL.
pub fn trim_url_end<'a>(tables: &CharTables, slice: &'a [u8]) -> (parts: (&'a [u8], &'a [u8]))
    requires
        tables.wf(),
    ensures
        parts.0@ == slice@.take(trimmed_len(slice@)),
        parts.1@ == slice@.skip(trimmed_len(slice@)),
{
    let mut end: usize = slice.len();
    assert(slice@.take(end as int) =~= slice@);
    while end > 0 && !tables.is_url_end_char(slice[end - 1])
        invariant
            tables.wf(),
            end <= slice.len(),
            trimmed_len(slice@) == trimmed_len(slice@.take(end as int)),
        decreases end,
    {
        assert(slice@.take(end as int).drop_last() =~= slice@.take(end - 1));
        end -= 1;
    }
    assert(end > 0 ==> slice@.take(end as int).last() == slice@[end - 1]);
    (slice_subrange(slice, 0, end), slice_subrange(slice, end, slice.len()))
}

/// The run from `i` ends at or after `i`, inside `s`, covers URL bytes only,
/// and stops at the end of `s` or before a byte that is no URL byte.
pub proof fn lemma_url_run_end(s: Seq<u8>, i: int)
    requires
        0 <= i <= s.len(),
    ensures
        i <= url_run_end(s, i) <= s.len(),
        all_url_chars(s, i, url_run_end(s, i)),
        url_run_end(s, i) < s.len() ==> !is_url_char(s[url_run_end(s, i)]),
    decreases s.len() - i,
{
    if i < s.len() && is_url_char(s[i]) {
        lemma_url_run_end(s, i + 1);
    }
}

/// A run of URL bytes from `i` up to `e`, ended by the end of `s` or by a
/// byte that is no URL byte, is the run from `i`.
pub proof fn lemma_url_run_found(s: Seq<u8>, i: int, e: int)
    requires
        0 <= i <= e <= s.len(),
        all_url_chars(s, i, e),
        e == s.len() || !is_url_char(s[e]),
    ensures
        url_run_end(s, i) == e,
    decreases e - i,
{
    if i < e {
        lemma_url_run_found(s, i + 1, e);
    }
}

/// The bytes cut off by trimming cannot end a URL, and the byte before them,
/// if there is one, can.
pub proof fn lemma_trimmed_len(s: Seq<u8>)
    ensures
        0 <= trimmed_len(s) <= s.len(),
        forall|j: int| trimmed_len(s) <= j < s.len() ==> !is_url_end_char(#[trigger] s[j]),
        trimmed_len(s) > 0 ==> is_url_end_char(s[trimmed_len(s) - 1]),
    decreases s.len(),
{
    if s.len() > 0 && !is_url_end_char(s.last()) {
        let t = s.drop_last();
        lemma_trimmed_len(t);
        assert forall|j: int| trimmed_len(s) <= j < s.len() implies !is_url_end_char(
            #[trigger] s[j],
        ) by {
            if j < t.len() {
                assert(s[j] == t[j]);
            }
        }
    }
}

} // verus!
