//! What holds of every stream: the capacity of the window does not show in
//! the result, a stream is changed exactly where a triplet is replaced, and
//! percent-encoded bytes are decoded back to themselves.

use crate::percent::{
    decode_span, lemma_decode_accounting, lemma_decode_concat, lemma_decode_shift,
    lemma_span_without_percent, span_changed, triplet_at, triplet_value, PERCENT, SPACE,
};
use crate::scan::{
    all_url_chars, http_scheme, lemma_trimmed_len, lemma_url_run_end, lemma_url_run_found,
    scheme_len_at, trimmed_len, url_run_end, SCHEME_FIRST_BYTE,
};
use crate::tables::{is_hex_digit, is_url_char, is_url_end_char};
use crate::text::{
    close_span, decode_text, forced_cut, lemma_join_laws, lemma_plain_run, lemma_span_closes,
    piece, plain_options, resolve_from, stream_result, text_changed, Emitted, Options,
};
use vstd::prelude::*;
use vstd::utf8::{
    length_of_first_scalar, partial_valid_utf8_extend_ascii_block, pop_first_scalar,
    valid_first_scalar, valid_utf8, valid_utf8_concat,
};

verus! {

/// Trimming `x + y` trims `y`, and goes on into `x` only where nothing of
/// `y` is left.
pub proof fn lemma_trimmed_concat(x: Seq<u8>, y: Seq<u8>)
    ensures
        trimmed_len(x + y) == if trimmed_len(y) > 0 {
            x.len() + trimmed_len(y)
        } else {
            trimmed_len(x)
        },
    decreases y.len(),
{
    if y.len() == 0 {
        assert(x + y =~= x);
    } else {
        assert((x + y).last() == y.last());
        assert((x + y).drop_last() =~= x + y.drop_last());
        if !is_url_end_char(y.last()) {
            lemma_trimmed_concat(x, y.drop_last());
        }
    }
}

/// Without validation, the trailing bytes that trimming sets aside decode to
/// themselves: a span decodes to its trimmed part decoded, followed by them.
pub proof fn lemma_decode_trim(x: Seq<u8>, escape_space: bool)
    ensures
        decode_span(x, escape_space) == decode_span(x.take(trimmed_len(x)), escape_space) + x.skip(
            trimmed_len(x),
        ),
        span_changed(x, escape_space) == span_changed(x.take(trimmed_len(x)), escape_space),
{
    lemma_trimmed_len(x);
    let t = trimmed_len(x);
    let core = x.take(t);
    let suffix = x.skip(t);
    assert(core + suffix =~= x);
    assert forall|j: int| 0 <= j < suffix.len() implies suffix[j] != PERCENT by {
        assert(!is_url_end_char(x[t + j]));
    }
    if suffix.len() > 0 {
        assert(!is_url_end_char(x[t]));
        assert(!is_hex_digit(x[t]));
    }
    lemma_decode_concat(core, suffix, escape_space);
    lemma_span_without_percent(suffix, escape_space);
}

/// Without validation, closing a span in one go writes what a piece of it
/// and the closing of the rest write, where no triplet lies across the seam.
pub proof fn lemma_close_split(x: Seq<u8>, y: Seq<u8>, escape_space: bool)
    requires
        !triplet_at(x + y, x.len() - 1),
        !triplet_at(x + y, x.len() - 2),
    ensures
        close_span(x + y, plain_options(escape_space)).bytes == piece(
            x,
            plain_options(escape_space),
        ).bytes + close_span(y, plain_options(escape_space)).bytes,
        close_span(x + y, plain_options(escape_space)).changed == (piece(
            x,
            plain_options(escape_space),
        ).changed || close_span(y, plain_options(escape_space)).changed),
{
    let opts = plain_options(escape_space);
    let s = x + y;
    let n = x.len() as int;
    lemma_trimmed_concat(x, y);
    lemma_trimmed_len(y);
    lemma_trimmed_len(x);
    let ty = trimmed_len(y);
    if ty > 0 {
        let core = x + y.take(ty);
        assert(s.take(x.len() + ty) =~= core);
        assert(s.skip(x.len() + ty) =~= y.skip(ty));
        assert(!triplet_at(core, n - 1)) by {
            if triplet_at(core, n - 1) {
                assert(core[n - 1] == s[n - 1]);
                assert(core[n] == s[n]);
                assert(core[n + 1] == s[n + 1]);
            }
        }
        assert(!triplet_at(core, n - 2)) by {
            if triplet_at(core, n - 2) {
                assert(core[n - 2] == s[n - 2]);
                assert(core[n - 1] == s[n - 1]);
                assert(core[n] == s[n]);
            }
        }
        lemma_decode_concat(x, y.take(ty), escape_space);
        assert(close_span(s, opts).bytes =~= piece(x, opts).bytes + close_span(y, opts).bytes);
    } else {
        let tx = trimmed_len(x);
        assert(s.take(tx) =~= x.take(tx));
        assert(s.skip(tx) =~= x.skip(tx) + y);
        lemma_decode_trim(x, escape_space);
        assert(y.take(0) =~= Seq::<u8>::empty());
        assert(y.skip(0) =~= y);
        assert(decode_span(Seq::<u8>::empty(), escape_space) =~= Seq::<u8>::empty());
        assert(close_span(s, opts).bytes =~= piece(x, opts).bytes + close_span(y, opts).bytes);
    }
}

/// No triplet lies across a forced cut of a window of three bytes or more.
pub proof fn lemma_forced_cut_is_safe(s: Seq<u8>, cap: int)
    requires
        3 <= cap <= s.len(),
    ensures
        1 <= forced_cut(s.take(cap)) <= cap,
        !triplet_at(s, forced_cut(s.take(cap)) - 1),
        !triplet_at(s, forced_cut(s.take(cap)) - 2),
{
    let window = s.take(cap);
    assert(window[cap - 1] == s[cap - 1]);
    assert(window[cap - 2] == s[cap - 2]);
    assert(!is_hex_digit(PERCENT));
}

/// Without validation, the capacity of the window does not show in what is
/// written: from any index on, a window of `cap` bytes writes what a window
/// larger than the stream writes, and replaces a triplet where that one does.
pub proof fn lemma_capacity_from(w: Seq<u8>, p: int, inside: bool, escape_space: bool, cap: int)
    requires
        cap >= 3,
    ensures
        resolve_from(w, p, inside, plain_options(escape_space), cap).bytes == resolve_from(
            w,
            p,
            inside,
            plain_options(escape_space),
            (w.len() + 1) as int,
        ).bytes,
        resolve_from(w, p, inside, plain_options(escape_space), cap).changed == resolve_from(
            w,
            p,
            inside,
            plain_options(escape_space),
            (w.len() + 1) as int,
        ).changed,
    decreases w.len() - p, (if inside { 1int } else { 0int }),
{
    let opts = plain_options(escape_space);
    let big: int = (w.len() + 1) as int;
    if 0 <= p < w.len() {
        if inside || scheme_len_at(w, p) > 0 {
            lemma_url_run_end(w, p);
            let e = url_run_end(w, p);
            if e - p >= cap {
                let c = forced_cut(w.subrange(p, p + cap));
                let span = w.subrange(p, e);
                assert(span.take(cap) =~= w.subrange(p, p + cap));
                lemma_forced_cut_is_safe(span, cap);
                let x = w.subrange(p, p + c);
                let y = w.subrange(p + c, e);
                assert(x + y =~= span);
                lemma_close_split(x, y, escape_space);
                lemma_capacity_from(w, p + c, true, escape_space, cap);
                assert(all_url_chars(w, p + c, e));
                lemma_url_run_found(w, p + c, e);
                let rest = resolve_from(w, e, false, opts, big);
                let first = piece(x, opts);
                let last = close_span(y, opts);
                if p + c < e {
                    assert((first.bytes + last.bytes) + rest.bytes =~= first.bytes + (last.bytes
                        + rest.bytes));
                } else {
                    assert(y =~= Seq::<u8>::empty());
                    assert(trimmed_len(y) == 0);
                    assert(y.take(0) =~= Seq::<u8>::empty());
                    assert(y.skip(0) =~= Seq::<u8>::empty());
                    assert(decode_span(Seq::<u8>::empty(), escape_space) =~= Seq::<u8>::empty());
                    assert(last.bytes =~= Seq::<u8>::empty());
                    assert(!last.changed);
                    crate::text::lemma_span_is_over(w, e, opts, big);
                    assert((first.bytes + last.bytes) + rest.bytes =~= first.bytes + rest.bytes);
                }
            } else if e > p {
                lemma_capacity_from(w, e, false, escape_space, cap);
            } else {
                lemma_capacity_from(w, p, false, escape_space, cap);
            }
        } else {
            lemma_capacity_from(w, p + 1, false, escape_space, cap);
        }
    }
}

/// Without validation, a decoder with a window of any capacity of three
/// bytes or more writes the decoded text, and reports a change where the
/// text has one: cutting a span that fills the window changes neither.
pub proof fn lemma_capacity_is_free(input: Seq<u8>, escape_space: bool, cap: int)
    requires
        cap >= 3,
    ensures
        stream_result(input, plain_options(escape_space), cap).bytes == decode_text(
            input,
            escape_space,
        ),
        stream_result(input, plain_options(escape_space), cap).changed == text_changed(
            input,
            escape_space,
        ),
{
    lemma_capacity_from(input, 0, false, escape_space, cap);
}

/// A piece is never written longer than it was read; it is written shorter
/// where it is changed, and as it was read where it is not.
pub proof fn lemma_piece_accounting(x: Seq<u8>, opts: Options)
    ensures
        piece(x, opts).bytes.len() <= x.len(),
        piece(x, opts).changed ==> piece(x, opts).bytes.len() < x.len(),
        !piece(x, opts).changed ==> piece(x, opts).bytes == x,
{
    lemma_decode_accounting(x, 0, opts.escape_space);
    assert(x.skip(0) =~= x);
}

/// The same of the last piece of a span.
pub proof fn lemma_close_accounting(x: Seq<u8>, opts: Options)
    ensures
        close_span(x, opts).bytes.len() <= x.len(),
        close_span(x, opts).changed ==> close_span(x, opts).bytes.len() < x.len(),
        !close_span(x, opts).changed ==> close_span(x, opts).bytes == x,
{
    lemma_trimmed_len(x);
    let t = trimmed_len(x);
    lemma_piece_accounting(x.take(t), opts);
    assert(x.take(t) + x.skip(t) =~= x);
}

/// From any index on, the stream is never written longer than it was read;
/// it is written shorter where it is changed, and as it was read where it is
/// not.
pub proof fn lemma_stream_accounting(w: Seq<u8>, p: int, inside: bool, opts: Options, cap: int)
    requires
        0 <= p <= w.len(),
        cap >= 1,
    ensures
        resolve_from(w, p, inside, opts, cap).bytes.len() <= w.len() - p,
        resolve_from(w, p, inside, opts, cap).changed ==> resolve_from(
            w,
            p,
            inside,
            opts,
            cap,
        ).bytes.len() < w.len() - p,
        !resolve_from(w, p, inside, opts, cap).changed ==> resolve_from(
            w,
            p,
            inside,
            opts,
            cap,
        ).bytes == w.skip(p),
    decreases w.len() - p, (if inside { 1int } else { 0int }),
{
    if p < w.len() {
        if inside || scheme_len_at(w, p) > 0 {
            lemma_url_run_end(w, p);
            let e = url_run_end(w, p);
            if e - p >= cap {
                let c = forced_cut(w.subrange(p, p + cap));
                lemma_piece_accounting(w.subrange(p, p + c), opts);
                lemma_stream_accounting(w, p + c, true, opts, cap);
                assert(w.subrange(p, p + c) + w.skip(p + c) =~= w.skip(p));
            } else if e > p {
                lemma_close_accounting(w.subrange(p, e), opts);
                lemma_stream_accounting(w, e, false, opts, cap);
                assert(w.subrange(p, e) + w.skip(e) =~= w.skip(p));
            } else {
                lemma_stream_accounting(w, p, false, opts, cap);
            }
        } else {
            lemma_stream_accounting(w, p + 1, false, opts, cap);
            assert(seq![w[p]] + w.skip(p + 1) =~= w.skip(p));
        }
    } else {
        assert(w.skip(p) =~= Seq::<u8>::empty());
    }
}

/// The changed flag of a stream is true exactly when what is written
/// differs from what was read.
pub proof fn lemma_changed_iff_stream_differs(input: Seq<u8>, opts: Options, cap: int)
    requires
        cap >= 1,
    ensures
        stream_result(input, opts, cap).changed <==> stream_result(input, opts, cap).bytes
            != input,
{
    lemma_stream_accounting(input, 0, false, opts, cap);
    assert(input.skip(0) =~= input);
}

/// The changed flag of a text is true exactly when the decoded text differs
/// from the text.
pub proof fn lemma_changed_iff_text_differs(input: Seq<u8>, escape_space: bool)
    ensures
        text_changed(input, escape_space) <==> decode_text(input, escape_space) != input,
{
    lemma_changed_iff_stream_differs(input, plain_options(escape_space), (input.len() + 1) as int);
}

/// A piece without `%` is not changed.
proof fn lemma_piece_without_percent(x: Seq<u8>, opts: Options)
    requires
        forall|j: int| 0 <= j < x.len() ==> x[j] != PERCENT,
    ensures
        !piece(x, opts).changed,
{
    lemma_span_without_percent(x, opts.escape_space);
}

/// Where no `%` follows, nothing is changed.
pub proof fn lemma_unchanged_from(w: Seq<u8>, p: int, inside: bool, opts: Options, cap: int)
    requires
        0 <= p <= w.len(),
        cap >= 1,
        forall|j: int| p <= j < w.len() ==> w[j] != PERCENT,
    ensures
        !resolve_from(w, p, inside, opts, cap).changed,
    decreases w.len() - p, (if inside { 1int } else { 0int }),
{
    if p < w.len() {
        if inside || scheme_len_at(w, p) > 0 {
            lemma_url_run_end(w, p);
            let e = url_run_end(w, p);
            if e - p >= cap {
                let c = forced_cut(w.subrange(p, p + cap));
                lemma_piece_without_percent(w.subrange(p, p + c), opts);
                lemma_unchanged_from(w, p + c, true, opts, cap);
            } else if e > p {
                let span = w.subrange(p, e);
                lemma_trimmed_len(span);
                lemma_piece_without_percent(span.take(trimmed_len(span)), opts);
                lemma_unchanged_from(w, e, false, opts, cap);
            } else {
                lemma_unchanged_from(w, p, false, opts, cap);
            }
        } else {
            lemma_unchanged_from(w, p + 1, false, opts, cap);
        }
    }
}

/// A stream that holds no `%` is written as it was read, byte for byte, with
/// the changed flag false, whatever the options and the capacity.
pub proof fn lemma_stream_without_percent(input: Seq<u8>, opts: Options, cap: int)
    requires
        cap >= 1,
        forall|j: int| 0 <= j < input.len() ==> input[j] != PERCENT,
    ensures
        stream_result(input, opts, cap).bytes == input,
        !stream_result(input, opts, cap).changed,
{
    lemma_unchanged_from(input, 0, false, opts, cap);
    lemma_stream_accounting(input, 0, false, opts, cap);
    assert(input.skip(0) =~= input);
}

/// A text that holds no `%` decodes to itself, with the changed flag false.
pub proof fn lemma_text_without_percent(input: Seq<u8>, escape_space: bool)
    requires
        forall|j: int| 0 <= j < input.len() ==> input[j] != PERCENT,
    ensures
        decode_text(input, escape_space) == input,
        !text_changed(input, escape_space),
{
    lemma_stream_without_percent(input, plain_options(escape_space), (input.len() + 1) as int);
}

/// The upper-case hex digit of a value below 16.
pub open spec fn hex_digit_of(v: int) -> u8 {
    if v < 10 {
        (0x30 + v) as u8
    } else {
        (0x41 + v - 10) as u8
    }
}

/// The triplet that stands for the byte `b`.
pub open spec fn percent_encode_byte(b: u8) -> Seq<u8> {
    seq![PERCENT, hex_digit_of(b as int / 16), hex_digit_of(b as int % 16)]
}

/// The bytes of `v`, each written as a triplet.
pub open spec fn percent_encode(v: Seq<u8>) -> Seq<u8>
    decreases v.len(),
{
    if v.len() == 0 {
        Seq::empty()
    } else {
        percent_encode_byte(v[0]) + percent_encode(v.skip(1))
    }
}

/// Decoding takes each triplet to exactly the byte it stands for: bytes
/// written as triplets decode to themselves, one byte for each triplet, and
/// the same on every run. Where spaces stay escaped, this holds of bytes
/// among which there is no space.
pub proof fn lemma_round_trip(v: Seq<u8>, escape_space: bool)
    requires
        escape_space ==> forall|j: int| 0 <= j < v.len() ==> v[j] != SPACE,
    ensures
        percent_encode(v).len() == 3 * v.len(),
        decode_span(percent_encode(v), escape_space) == v,
        span_changed(percent_encode(v), escape_space) == (v.len() > 0),
    decreases v.len(),
{
    if v.len() > 0 {
        let rest = v.skip(1);
        let s = percent_encode(v);
        let head = percent_encode_byte(v[0]);
        lemma_round_trip(rest, escape_space);
        assert(s[0] == head[0]);
        assert(s[1] == head[1]);
        assert(s[2] == head[2]);
        assert(triplet_at(s, 0));
        assert(triplet_value(s, 0) == v[0]);
        assert(s.skip(3) =~= percent_encode(rest));
        lemma_decode_shift(s, 3, 3, escape_space);
        assert(seq![v[0]] + rest =~= v);
    } else {
        assert(decode_span(percent_encode(v), escape_space) =~= v);
    }
}

/// The bytes of an encoding are `%` and hex digits, so all of them are URL
/// bytes, and the last of them can end a URL.
pub proof fn lemma_encoded_bytes(v: Seq<u8>)
    ensures
        percent_encode(v).len() == 3 * v.len(),
        all_url_chars(percent_encode(v), 0, percent_encode(v).len() as int),
        v.len() > 0 ==> is_url_end_char(percent_encode(v).last()),
    decreases v.len(),
{
    if v.len() > 0 {
        let rest = v.skip(1);
        let head = percent_encode_byte(v[0]);
        let s = percent_encode(v);
        lemma_encoded_bytes(rest);
        assert forall|j: int| 0 <= j < s.len() implies is_url_char(#[trigger] s[j]) by {
            if j < 3 {
                assert(s[j] == head[j]);
            } else {
                assert(s[j] == percent_encode(rest)[j - 3]);
            }
        }
        if rest.len() > 0 {
            assert(s.last() == percent_encode(rest).last());
        } else {
            assert(s.last() == head[2]);
        }
    }
}

/// A URL whose path is written in triplets decodes, as a text, to the URL
/// with the bytes that the triplets stand for: one byte for each triplet.
/// Where spaces stay escaped, this holds of bytes among which there is no
/// space.
pub proof fn lemma_url_round_trip(v: Seq<u8>, escape_space: bool)
    requires
        escape_space ==> forall|j: int| 0 <= j < v.len() ==> v[j] != SPACE,
    ensures
        decode_text(http_scheme() + percent_encode(v), escape_space) == http_scheme() + v,
        text_changed(http_scheme() + percent_encode(v), escape_space) == (v.len() > 0),
{
    let opts = plain_options(escape_space);
    let scheme = http_scheme();
    let enc = percent_encode(v);
    let w = scheme + enc;
    let n = w.len() as int;
    let cap = n + 1;
    lemma_encoded_bytes(v);
    lemma_round_trip(v, escape_space);
    assert(w.subrange(0, 7) =~= scheme);
    assert(scheme_len_at(w, 0) > 0);
    assert forall|j: int| 0 <= j < n implies is_url_char(#[trigger] w[j]) by {
        if j >= 7 {
            assert(w[j] == enc[j - 7]);
        }
    }
    lemma_span_closes(w, 0, n, false, opts, cap);
    assert(w.subrange(0, n) =~= w);
    assert(is_url_end_char(w.last())) by {
        if v.len() > 0 {
            assert(w.last() == enc.last());
        } else {
            assert(w.last() == scheme[6]);
        }
    }
    assert(trimmed_len(w) == n);
    assert(w.take(n) =~= w);
    assert(w.skip(n) =~= Seq::<u8>::empty());
    assert(!triplet_at(w, 6));
    assert(!triplet_at(w, 5));
    lemma_decode_concat(scheme, enc, escape_space);
    lemma_span_without_percent(scheme, escape_space);
    assert(close_span(w, opts).bytes =~= scheme + v);
    assert(resolve_from(w, n, false, opts, cap) == Emitted::nothing());
    assert(stream_result(w, opts, cap).bytes =~= scheme + v);
}

/// Bytes below 128 are valid UTF-8.
pub proof fn lemma_ascii_is_utf8(s: Seq<u8>)
    requires
        forall|j: int| 0 <= j < s.len() ==> s[j] < 0x80,
    ensures
        valid_utf8(s),
{
    assert(s.subrange(0, 0) =~= Seq::<u8>::empty());
    partial_valid_utf8_extend_ascii_block(s, 0, s.len() as int);
    assert(s.subrange(0, s.len() as int) =~= s);
}

/// What follows bytes below 128 at the start of valid UTF-8 is valid UTF-8.
pub proof fn lemma_utf8_after_ascii(t: Seq<u8>, n: int)
    requires
        valid_utf8(t),
        0 <= n <= t.len(),
        forall|j: int| 0 <= j < n ==> t[j] < 0x80,
    ensures
        valid_utf8(t.skip(n)),
    decreases n,
{
    if n == 0 {
        assert(t.skip(0) =~= t);
    } else {
        lemma_utf8_after_ascii(t, n - 1);
        let u = t.skip(n - 1);
        assert(u[0] == t[n - 1]);
        assert(pop_first_scalar(u) =~= t.skip(n));
    }
}

/// Valid UTF-8 that is not empty starts with one character: its bytes are
/// valid UTF-8, what follows them is, and none of them but the first can be
/// the `h` of a scheme prefix.
pub proof fn lemma_first_character(t: Seq<u8>)
    requires
        valid_utf8(t),
        t.len() > 0,
    ensures
        1 <= length_of_first_scalar(t) <= t.len(),
        valid_utf8(t.subrange(0, length_of_first_scalar(t))),
        valid_utf8(t.skip(length_of_first_scalar(t))),
        forall|j: int| 1 <= j < length_of_first_scalar(t) ==> t[j] != SCHEME_FIRST_BYTE,
{
    reveal_with_fuel(valid_utf8, 2);
    let k = length_of_first_scalar(t);
    assert(valid_first_scalar(t));
    assert(1 <= k <= t.len());
    let s = t.subrange(0, k);
    assert(pop_first_scalar(t) =~= t.skip(k));
    assert(s[0] == t[0]);
    if k >= 2 {
        assert(s[1] == t[1]);
    }
    if k >= 3 {
        assert(s[2] == t[2]);
    }
    if k >= 4 {
        assert(s[3] == t[3]);
    }
    assert(length_of_first_scalar(s) == k);
    assert(valid_first_scalar(s));
    assert(pop_first_scalar(s) =~= Seq::<u8>::empty());
    assert(valid_utf8(Seq::<u8>::empty()));
}

/// URL bytes are below 128.
proof fn lemma_url_chars_are_ascii(s: Seq<u8>, from: int, to: int)
    requires
        all_url_chars(s, from, to),
    ensures
        forall|j: int| from <= j < to ==> s[j] < 0x80,
{
    assert forall|j: int| from <= j < to implies s[j] < 0x80 by {
        assert(is_url_char(s[j]));
    }
}

/// With validation, a piece made of URL bytes is written as valid UTF-8.
proof fn lemma_piece_is_utf8(x: Seq<u8>, opts: Options)
    requires
        opts.validate_utf8,
        all_url_chars(x, 0, x.len() as int),
    ensures
        valid_utf8(piece(x, opts).bytes),
{
    lemma_url_chars_are_ascii(x, 0, x.len() as int);
    lemma_ascii_is_utf8(x);
}

/// With validation, the last piece of a span is written as valid UTF-8.
proof fn lemma_close_is_utf8(x: Seq<u8>, opts: Options)
    requires
        opts.validate_utf8,
        all_url_chars(x, 0, x.len() as int),
    ensures
        valid_utf8(close_span(x, opts).bytes),
{
    lemma_trimmed_len(x);
    let t = trimmed_len(x);
    let core = x.take(t);
    let suffix = x.skip(t);
    assert forall|j: int| 0 <= j < core.len() implies is_url_char(#[trigger] core[j]) by {
        assert(is_url_char(x[j]));
    }
    lemma_piece_is_utf8(core, opts);
    lemma_url_chars_are_ascii(x, 0, x.len() as int);
    assert forall|j: int| 0 <= j < suffix.len() implies suffix[j] < 0x80 by {
        assert(suffix[j] == x[t + j]);
    }
    lemma_ascii_is_utf8(suffix);
    valid_utf8_concat(piece(core, opts).bytes, suffix);
}

/// With validation, what is written from an index on is valid UTF-8 where
/// what is read from that index on is.
pub proof fn lemma_validated_from(w: Seq<u8>, p: int, inside: bool, opts: Options, cap: int)
    requires
        opts.validate_utf8,
        cap >= 1,
        0 <= p <= w.len(),
        valid_utf8(w.skip(p)),
    ensures
        valid_utf8(resolve_from(w, p, inside, opts, cap).bytes),
    decreases w.len() - p, (if inside { 1int } else { 0int }),
{
    let t = w.skip(p);
    if p < w.len() {
        if inside || scheme_len_at(w, p) > 0 {
            lemma_url_run_end(w, p);
            let e = url_run_end(w, p);
            lemma_url_chars_are_ascii(w, p, e);
            if e - p >= cap {
                let c = forced_cut(w.subrange(p, p + cap));
                let x = w.subrange(p, p + c);
                assert forall|j: int| 0 <= j < x.len() implies is_url_char(#[trigger] x[j]) by {
                    assert(is_url_char(w[p + j]));
                }
                lemma_piece_is_utf8(x, opts);
                assert forall|j: int| 0 <= j < c implies t[j] < 0x80 by {
                    assert(t[j] == w[p + j]);
                }
                lemma_utf8_after_ascii(t, c);
                assert(t.skip(c) =~= w.skip(p + c));
                lemma_validated_from(w, p + c, true, opts, cap);
                valid_utf8_concat(
                    piece(x, opts).bytes,
                    resolve_from(w, p + c, true, opts, cap).bytes,
                );
            } else if e > p {
                let x = w.subrange(p, e);
                assert forall|j: int| 0 <= j < x.len() implies is_url_char(#[trigger] x[j]) by {
                    assert(is_url_char(w[p + j]));
                }
                lemma_close_is_utf8(x, opts);
                assert forall|j: int| 0 <= j < e - p implies t[j] < 0x80 by {
                    assert(t[j] == w[p + j]);
                }
                lemma_utf8_after_ascii(t, e - p);
                assert(t.skip(e - p) =~= w.skip(e));
                lemma_validated_from(w, e, false, opts, cap);
                valid_utf8_concat(
                    close_span(x, opts).bytes,
                    resolve_from(w, e, false, opts, cap).bytes,
                );
            } else {
                lemma_validated_from(w, p, false, opts, cap);
            }
        } else {
            lemma_first_character(t);
            let k = length_of_first_scalar(t);
            assert forall|j: int| p <= j < p + k implies scheme_len_at(w, j) == 0 by {
                if j > p {
                    assert(t[j - p] == w[j]);
                    if scheme_len_at(w, j) > 0 {
                        assert(w.subrange(j, j + scheme_len_at(w, j))[0] == w[j]);
                    }
                }
            }
            lemma_plain_run(w, p, p + k, opts, cap);
            assert(t.subrange(0, k) =~= w.subrange(p, p + k));
            assert(t.skip(k) =~= w.skip(p + k));
            lemma_validated_from(w, p + k, false, opts, cap);
            valid_utf8_concat(w.subrange(p, p + k), resolve_from(w, p + k, false, opts, cap).bytes);
        }
    }
}

/// With validation, a stream that is valid UTF-8 is written as valid UTF-8,
/// whatever triplets it holds and whatever the capacity of the window.
pub proof fn lemma_validated_output_is_utf8(input: Seq<u8>, opts: Options, cap: int)
    requires
        opts.validate_utf8,
        cap >= 1,
        valid_utf8(input),
    ensures
        valid_utf8(stream_result(input, opts, cap).bytes),
{
    assert(input.skip(0) =~= input);
    lemma_validated_from(input, 0, false, opts, cap);
}

} // verus!
