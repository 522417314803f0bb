//! The percent decoder: rewrites one URL span, turning each `%XX` triplet into
//! the byte it stands for.

use crate::tables::{from_hex, hex_digit_value, is_hex, is_hex_digit, CharTables};
use vstd::prelude::*;

verus! {

/// The byte `%`.
pub const PERCENT: u8 = 0x25;

/// The byte of a space.
pub const SPACE: u8 = 0x20;

/// A `%` at index `i` of `s`, followed inside `s` by two hex digits.
pub open spec fn triplet_at(s: Seq<u8>, i: int) -> bool {
    &&& 0 <= i
    &&& i + 2 < s.len()
    &&& s[i] == PERCENT
    &&& is_hex_digit(s[i + 1])
    &&& is_hex_digit(s[i + 2])
}

/// The byte that the triplet at index `i` of `s` stands for.
pub open spec fn triplet_value(s: Seq<u8>, i: int) -> u8 {
    (hex_digit_value(s[i + 1]) * 16 + hex_digit_value(s[i + 2])) as u8
}

/// A triplet is left as it is when it stands for a space and spaces are to
/// stay escaped.
pub open spec fn stays_escaped(v: u8, escape_space: bool) -> bool {
    escape_space && v == SPACE
}

/// What decoding writes for the bytes of `s` from index `i` on.
pub open spec fn decode_from(s: Seq<u8>, i: int, escape_space: bool) -> Seq<u8>
    decreases s.len() - i,
{
    if i < 0 || i >= s.len() {
        Seq::empty()
    } else if triplet_at(s, i) {
        let v = triplet_value(s, i);
        if stays_escaped(v, escape_space) {
            s.subrange(i, i + 3) + decode_from(s, i + 3, escape_space)
        } else {
            seq![v] + decode_from(s, i + 3, escape_space)
        }
    } else {
        seq![s[i]] + decode_from(s, i + 1, escape_space)
    }
}

/// Whether decoding the bytes of `s` from index `i` on replaces any triplet.
pub open spec fn changed_from(s: Seq<u8>, i: int, escape_space: bool) -> bool
    decreases s.len() - i,
{
    if i < 0 || i >= s.len() {
        false
    } else if triplet_at(s, i) {
        !stays_escaped(triplet_value(s, i), escape_space) || changed_from(s, i + 3, escape_space)
    } else {
        changed_from(s, i + 1, escape_space)
    }
}

/// The decoded form of the span `s`.
pub open spec fn decode_span(s: Seq<u8>, escape_space: bool) -> Seq<u8> {
    decode_from(s, 0, escape_space)
}

/// Whether decoding the span `s` replaces any triplet.
pub open spec fn span_changed(s: Seq<u8>, escape_space: bool) -> bool {
    changed_from(s, 0, escape_space)
}

/// Appends `bytes` to `out`.
pub fn append_bytes(out: &mut Vec<u8>, bytes: &[u8])
    ensures
        final(out)@ == old(out)@ + bytes@,
{
    out.extend_from_slice(bytes);
    assert(out@ =~= old(out)@ + bytes@);
}

proof fn lemma_combine_nibbles(hi: u8, lo: u8)
    by (bit_vector)
    requires
        hi < 16,
        lo < 16,
    ensures
        (hi << 4) | lo == hi * 16 + lo,
{
}

/// Decodes the span `url_bytes` onto the end of `out_vec` and reports whether
/// any triplet was replaced.
pub fn decode_chunk(
    tables: &CharTables,
    url_bytes: &[u8],
    out_vec: &mut Vec<u8>,
    escape_space: bool,
) -> (changed: bool)
    requires
        tables.wf(),
    ensures
        final(out_vec)@ == old(out_vec)@ + decode_span(url_bytes@, escape_space),
        changed == span_changed(url_bytes@, escape_space),
{
    let len = url_bytes.len();
    let mut i: usize = 0;
    let mut changed = false;
    out_vec.reserve(len);
    while i < len
        invariant
            tables.wf(),
            len == url_bytes@.len(),
            i <= len,
            out_vec@ + decode_from(url_bytes@, i as int, escape_space) == old(out_vec)@
                + decode_span(url_bytes@, escape_space),
            (changed || changed_from(url_bytes@, i as int, escape_space)) == span_changed(
                url_bytes@,
                escape_space,
            ),
        decreases len - i,
    {
        let ghost before = out_vec@;
        let ghost rest = decode_from(url_bytes@, i as int, escape_space);
        let b = url_bytes[i];
        if b == PERCENT && len - i > 2 {
            let h1 = url_bytes[i + 1];
            let h2 = url_bytes[i + 2];
            if is_hex(tables, h1) && is_hex(tables, h2) {
                let hi = from_hex(tables, h1);
                let lo = from_hex(tables, h2);
                proof {
                    lemma_combine_nibbles(hi, lo);
                }
                let decoded_byte = (hi << 4) | lo;
                assert(decoded_byte == triplet_value(url_bytes@, i as int));
                if escape_space && decoded_byte == SPACE {
                    out_vec.push(b);
                    out_vec.push(h1);
                    out_vec.push(h2);
                    assert(out_vec@ =~= before + url_bytes@.subrange(i as int, i + 3));
                } else {
                    out_vec.push(decoded_byte);
                    changed = true;
                }
                i += 3;
                assert(out_vec@ + decode_from(url_bytes@, i as int, escape_space) =~= before + rest);
                continue ;
            }
        }
        out_vec.push(b);
        i += 1;
        assert(out_vec@ + decode_from(url_bytes@, i as int, escape_space) =~= before + rest);
    }
    assert(out_vec@ =~= out_vec@ + Seq::<u8>::empty());
    changed
}

/// Decoding from index `i` of `s` is decoding `s` without its first `k`
/// bytes from index `i - k`.
pub proof fn lemma_decode_shift(s: Seq<u8>, k: int, i: int, escape_space: bool)
    requires
        0 <= k <= i,
        k <= s.len(),
    ensures
        decode_from(s, i, escape_space) == decode_from(s.skip(k), i - k, escape_space),
        changed_from(s, i, escape_space) == changed_from(s.skip(k), i - k, escape_space),
    decreases s.len() - i,
{
    let t = s.skip(k);
    if i < s.len() {
        assert(triplet_at(s, i) == triplet_at(t, i - k));
        if triplet_at(s, i) {
            assert(triplet_value(s, i) == triplet_value(t, i - k));
            assert(s.subrange(i, i + 3) =~= t.subrange(i - k, i - k + 3));
            lemma_decode_shift(s, k, i + 3, escape_space);
        } else {
            lemma_decode_shift(s, k, i + 1, escape_space);
        }
    }
}

/// Where no triplet of `s` lies across index `c`, decoding `s` from `i <= c`
/// is decoding its first `c` bytes from `i`, followed by decoding `s` from `c`.
pub proof fn lemma_decode_prefix_split(s: Seq<u8>, c: int, i: int, escape_space: bool)
    requires
        0 <= i <= c <= s.len(),
        !triplet_at(s, c - 1),
        !triplet_at(s, c - 2),
    ensures
        decode_from(s, i, escape_space) == decode_from(s.take(c), i, escape_space) + decode_from(
            s,
            c,
            escape_space,
        ),
        changed_from(s, i, escape_space) == (changed_from(s.take(c), i, escape_space)
            || changed_from(s, c, escape_space)),
    decreases c - i,
{
    let a = s.take(c);
    let tail = decode_from(s, c, escape_space);
    if i == c {
        assert(decode_from(a, i, escape_space) + tail =~= tail);
    } else {
        if triplet_at(s, i) {
            assert(i + 3 <= c);
            assert(triplet_at(a, i));
            assert(triplet_value(s, i) == triplet_value(a, i));
            assert(s.subrange(i, i + 3) =~= a.subrange(i, i + 3));
            lemma_decode_prefix_split(s, c, i + 3, escape_space);
            let mid = decode_from(a, i + 3, escape_space);
            if stays_escaped(triplet_value(s, i), escape_space) {
                assert((s.subrange(i, i + 3) + mid) + tail =~= s.subrange(i, i + 3) + (mid
                    + tail));
            } else {
                assert((seq![triplet_value(s, i)] + mid) + tail =~= seq![triplet_value(s, i)] + (
                mid + tail));
            }
        } else {
            assert(!triplet_at(a, i));
            lemma_decode_prefix_split(s, c, i + 1, escape_space);
            let mid = decode_from(a, i + 1, escape_space);
            assert((seq![s[i]] + mid) + tail =~= seq![s[i]] + (mid + tail));
        }
    }
}

/// Where no triplet of `x + y` lies across the seam, decoding `x + y` is
/// decoding `x`, followed by decoding `y`.
pub proof fn lemma_decode_concat(x: Seq<u8>, y: Seq<u8>, escape_space: bool)
    requires
        !triplet_at(x + y, x.len() - 1),
        !triplet_at(x + y, x.len() - 2),
    ensures
        decode_span(x + y, escape_space) == decode_span(x, escape_space) + decode_span(
            y,
            escape_space,
        ),
        span_changed(x + y, escape_space) == (span_changed(x, escape_space) || span_changed(
            y,
            escape_space,
        )),
{
    let s = x + y;
    let c = x.len() as int;
    lemma_decode_prefix_split(s, c, 0, escape_space);
    lemma_decode_shift(s, c, c, escape_space);
    assert(s.take(c) =~= x);
    assert(s.skip(c) =~= y);
}

/// A stretch without `%` is written as it stands.
pub proof fn lemma_decode_plain(s: Seq<u8>, i: int, escape_space: bool)
    requires
        0 <= i <= s.len(),
        forall|j: int| i <= j < s.len() ==> s[j] != PERCENT,
    ensures
        decode_from(s, i, escape_space) == s.skip(i),
        !changed_from(s, i, escape_space),
    decreases s.len() - i,
{
    if i < s.len() {
        lemma_decode_plain(s, i + 1, escape_space);
        assert(seq![s[i]] + s.skip(i + 1) =~= s.skip(i));
    } else {
        assert(s.skip(i) =~= Seq::<u8>::empty());
    }
}

/// The number of triplets that decoding `s` from index `i` on replaces.
pub open spec fn replaced_from(s: Seq<u8>, i: int, escape_space: bool) -> nat
    decreases s.len() - i,
{
    if i < 0 || i >= s.len() {
        0
    } else if triplet_at(s, i) {
        if stays_escaped(triplet_value(s, i), escape_space) {
            replaced_from(s, i + 3, escape_space)
        } else {
            1 + replaced_from(s, i + 3, escape_space)
        }
    } else {
        replaced_from(s, i + 1, escape_space)
    }
}

/// Each replaced triplet gives exactly one byte, and every other byte is
/// kept: the output is shorter than the input by two bytes for each replaced
/// triplet. Something was replaced exactly when that count is not zero, and
/// where nothing was replaced the output is the input.
pub proof fn lemma_decode_accounting(s: Seq<u8>, i: int, escape_space: bool)
    requires
        0 <= i <= s.len(),
    ensures
        decode_from(s, i, escape_space).len() + 2 * replaced_from(s, i, escape_space) == s.len()
            - i,
        changed_from(s, i, escape_space) == (replaced_from(s, i, escape_space) > 0),
        !changed_from(s, i, escape_space) ==> decode_from(s, i, escape_space) == s.skip(i),
    decreases s.len() - i,
{
    if i < s.len() {
        if triplet_at(s, i) {
            lemma_decode_accounting(s, i + 3, escape_space);
            if !changed_from(s, i, escape_space) {
                assert(s.subrange(i, i + 3) + s.skip(i + 3) =~= s.skip(i));
            }
        } else {
            lemma_decode_accounting(s, i + 1, escape_space);
            if !changed_from(s, i, escape_space) {
                assert(seq![s[i]] + s.skip(i + 1) =~= s.skip(i));
            }
        }
    } else {
        assert(s.skip(i) =~= Seq::<u8>::empty());
    }
}

/// The changed flag of a span is true exactly when the decoded span differs
/// from the span.
pub proof fn lemma_changed_iff_differs(s: Seq<u8>, escape_space: bool)
    ensures
        span_changed(s, escape_space) <==> decode_span(s, escape_space) != s,
{
    lemma_decode_accounting(s, 0, escape_space);
    assert(s.skip(0) =~= s);
}

/// Decoding a span is a function of the span and the flag alone, and a span
/// without `%` is left as it is, with the changed flag false.
pub proof fn lemma_span_without_percent(s: Seq<u8>, escape_space: bool)
    requires
        forall|j: int| 0 <= j < s.len() ==> s[j] != PERCENT,
    ensures
        decode_span(s, escape_space) == s,
        !span_changed(s, escape_space),
{
    lemma_decode_plain(s, 0, escape_space);
    assert(s.skip(0) =~= s);
}

} // verus!
