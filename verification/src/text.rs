//! What a whole stream decodes to: the text outside URL spans is kept, each
//! span is percent-decoded, and a span that outgrows the working buffer is
//! decoded in pieces.

use crate::percent::{decode_span, span_changed, PERCENT};
use crate::scan::{
    all_url_chars, lemma_url_run_end, lemma_url_run_found, scheme_len_at, trimmed_len,
    url_run_end,
};
use crate::tables::is_url_char;
use vstd::prelude::*;
use vstd::utf8::valid_utf8;

verus! {

/// How spans are rewritten.
#[derive(Clone, Copy, Debug, PartialEq, Eq, Structural)]
pub struct Options {
    /// Leave `%20` as it is instead of writing a space.
    pub escape_space: bool,
    /// Keep a piece undecoded where its decoded form is not valid UTF-8.
    pub validate_utf8: bool,
}

/// What a logger is told of one piece of a span: the bytes read, the bytes
/// written for them, and whether a triplet was replaced.
pub struct SpanNote {
    pub read: Seq<u8>,
    pub written: Seq<u8>,
    pub changed: bool,
}

/// What a stretch of input comes to: the bytes written for it, whether a
/// triplet was replaced in it, and the pieces of spans that a logger is told
/// of, in order.
pub struct Emitted {
    pub bytes: Seq<u8>,
    pub changed: bool,
    pub notes: Seq<SpanNote>,
}

impl Emitted {
    /// Nothing written.
    pub open spec fn nothing() -> Emitted {
        Emitted { bytes: Seq::empty(), changed: false, notes: Seq::empty() }
    }

    /// Bytes written as they were read, outside every span.
    pub open spec fn verbatim(bytes: Seq<u8>) -> Emitted {
        Emitted { bytes, changed: false, notes: Seq::empty() }
    }

    /// What two stretches come to, one after the other.
    pub open spec fn join(self, next: Emitted) -> Emitted {
        Emitted {
            bytes: self.bytes + next.bytes,
            changed: self.changed || next.changed,
            notes: self.notes + next.notes,
        }
    }
}

/// Whether a piece of a span is written decoded: always without validation,
/// and with it where the decoded form is valid UTF-8.
pub open spec fn piece_is_decoded(bytes: Seq<u8>, opts: Options) -> bool {
    !opts.validate_utf8 || valid_utf8(decode_span(bytes, opts.escape_space))
}

/// What a logger is told of the piece `bytes`.
pub open spec fn piece_note(bytes: Seq<u8>, opts: Options) -> SpanNote {
    if piece_is_decoded(bytes, opts) {
        SpanNote {
            read: bytes,
            written: decode_span(bytes, opts.escape_space),
            changed: span_changed(bytes, opts.escape_space),
        }
    } else {
        SpanNote { read: bytes, written: bytes, changed: false }
    }
}

/// What one piece of a span comes to: its decoded form, or the piece itself
/// where it is not written decoded. A logger is told of it.
pub open spec fn piece(bytes: Seq<u8>, opts: Options) -> Emitted {
    let note = piece_note(bytes, opts);
    Emitted { bytes: note.written, changed: note.changed, notes: seq![note] }
}

/// What is written for the last piece of a span: its trailing bytes that
/// cannot end a URL are kept, and what stands before them is a piece.
pub open spec fn close_span(span: Seq<u8>, opts: Options) -> Emitted {
    let t = trimmed_len(span);
    piece(span.take(t), opts).join(Emitted::verbatim(span.skip(t)))
}

/// Where a full window of URL bytes is cut: before a `%` among its last two
/// bytes, so that no triplet is parted, else at its end. A cut is never empty.
pub open spec fn forced_cut(window: Seq<u8>) -> int {
    let n = window.len() as int;
    let cut = if n >= 1 && window[n - 1] == PERCENT {
        n - 1
    } else if n >= 2 && window[n - 2] == PERCENT {
        n - 2
    } else {
        n
    };
    if cut == 0 {
        n
    } else {
        cut
    }
}

/// What the bytes of `w` from index `p` on come to, where `inside` says
/// whether index `p` continues a span, and a window holds `cap` bytes.
///
/// Outside a span, a byte at which no scheme prefix stands is written as it
/// is. A span runs as far as URL bytes go. Where it ends within the window,
/// it is closed. Where it fills the window, the window is cut and what stands
/// before the cut is written as a piece, so that the span goes on behind the
/// cut.
pub open spec fn resolve_from(w: Seq<u8>, p: int, inside: bool, opts: Options, cap: int) -> Emitted
    decreases w.len() - p, (if inside { 1int } else { 0int }),
    via resolve_from_decreases
{
    if p < 0 || p >= w.len() || cap < 1 {
        Emitted::nothing()
    } else if inside || scheme_len_at(w, p) > 0 {
        let e = url_run_end(w, p);
        if e - p >= cap {
            let c = forced_cut(w.subrange(p, p + cap));
            piece(w.subrange(p, p + c), opts).join(resolve_from(w, p + c, true, opts, cap))
        } else if e > p {
            close_span(w.subrange(p, e), opts).join(resolve_from(w, e, false, opts, cap))
        } else {
            resolve_from(w, p, false, opts, cap)
        }
    } else {
        Emitted::verbatim(seq![w[p]]).join(resolve_from(w, p + 1, false, opts, cap))
    }
}

#[via_fn]
proof fn resolve_from_decreases(w: Seq<u8>, p: int, inside: bool, opts: Options, cap: int) {
    if 0 <= p < w.len() && cap >= 1 {
        lemma_url_run_end(w, p);
    }
}

/// What the stream `input` comes to with a decoder whose window holds `cap`
/// bytes: the bytes written, whether any triplet was replaced, and the pieces
/// of spans that a logger is told of.
pub open spec fn stream_result(input: Seq<u8>, opts: Options, cap: int) -> Emitted {
    resolve_from(input, 0, false, opts, cap)
}

/// The options of plain decoding, without validation.
pub open spec fn plain_options(escape_space: bool) -> Options {
    Options { escape_space, validate_utf8: false }
}

/// The decoded form of the text `input`: what is written with a window
/// larger than the text, so that every span is decoded as a whole.
pub open spec fn decode_text(input: Seq<u8>, escape_space: bool) -> Seq<u8> {
    stream_result(input, plain_options(escape_space), (input.len() + 1) as int).bytes
}

/// Whether decoding the text `input` replaces any triplet.
pub open spec fn text_changed(input: Seq<u8>, escape_space: bool) -> bool {
    stream_result(input, plain_options(escape_space), (input.len() + 1) as int).changed
}

/// Joining is associative, and writing nothing changes nothing.
pub proof fn lemma_join_laws(a: Emitted, b: Emitted, c: Emitted)
    ensures
        a.join(b).join(c) == a.join(b.join(c)),
        a.join(Emitted::nothing()) == a,
        Emitted::nothing().join(a) == a,
{
    assert((a.bytes + b.bytes) + c.bytes =~= a.bytes + (b.bytes + c.bytes));
    assert(a.bytes + Seq::<u8>::empty() =~= a.bytes);
    assert(Seq::<u8>::empty() + a.bytes =~= a.bytes);
    assert((a.notes + b.notes) + c.notes =~= a.notes + (b.notes + c.notes));
    assert(a.notes + Seq::<SpanNote>::empty() =~= a.notes);
    assert(Seq::<SpanNote>::empty() + a.notes =~= a.notes);
}

/// Text in which no scheme prefix starts is written as it stands.
pub proof fn lemma_plain_run(w: Seq<u8>, p: int, q: int, opts: Options, cap: int)
    requires
        0 <= p <= q <= w.len(),
        cap >= 1,
        forall|j: int| p <= j < q ==> scheme_len_at(w, j) == 0,
    ensures
        resolve_from(w, p, false, opts, cap) == Emitted::verbatim(w.subrange(p, q)).join(
            resolve_from(w, q, false, opts, cap),
        ),
    decreases q - p,
{
    let rest = resolve_from(w, q, false, opts, cap);
    if p == q {
        assert(w.subrange(p, q) =~= Seq::<u8>::empty());
        lemma_join_laws(rest, rest, rest);
    } else {
        lemma_plain_run(w, p + 1, q, opts, cap);
        assert(seq![w[p]] + w.subrange(p + 1, q) =~= w.subrange(p, q));
        lemma_join_laws(
            Emitted::verbatim(seq![w[p]]),
            Emitted::verbatim(w.subrange(p + 1, q)),
            rest,
        );
    }
}

/// A span that ends inside the window is closed at its end.
pub proof fn lemma_span_closes(w: Seq<u8>, p: int, e: int, inside: bool, opts: Options, cap: int)
    requires
        0 <= p < e <= w.len(),
        cap >= 1,
        inside || scheme_len_at(w, p) > 0,
        all_url_chars(w, p, e),
        e == w.len() || !is_url_char(w[e]),
        e - p < cap,
    ensures
        resolve_from(w, p, inside, opts, cap) == close_span(w.subrange(p, e), opts).join(
            resolve_from(w, e, false, opts, cap),
        ),
{
    lemma_url_run_found(w, p, e);
}

/// A span that goes on with no URL byte is over: nothing is written for it,
/// and no logger is told of it.
pub proof fn lemma_span_is_over(w: Seq<u8>, p: int, opts: Options, cap: int)
    requires
        0 <= p <= w.len(),
        p == w.len() || !is_url_char(w[p]),
    ensures
        resolve_from(w, p, true, opts, cap) == resolve_from(w, p, false, opts, cap),
{
    if p < w.len() && cap >= 1 {
        lemma_url_run_found(w, p, p);
        if scheme_len_at(w, p) > 0 {
            lemma_scheme_first_is_url_char(w, p);
        }
    }
}

/// A scheme prefix starts with a URL byte, and is made of URL bytes.
pub proof fn lemma_scheme_first_is_url_char(w: Seq<u8>, p: int)
    requires
        scheme_len_at(w, p) > 0,
    ensures
        0 <= p,
        p + scheme_len_at(w, p) <= w.len(),
        all_url_chars(w, p, p + scheme_len_at(w, p)),
{
    let k = scheme_len_at(w, p);
    let t = w.subrange(p, p + k);
    assert forall|j: int| p <= j < p + k implies is_url_char(#[trigger] w[j]) by {
        assert(w[j] == t[j - p]);
    }
}

/// A window full of URL bytes is cut, and the span goes on behind the cut.
pub proof fn lemma_span_forced(w: Seq<u8>, p: int, inside: bool, opts: Options, cap: int)
    requires
        0 <= p,
        cap >= 1,
        p + cap <= w.len(),
        inside || scheme_len_at(w, p) > 0,
        all_url_chars(w, p, p + cap),
    ensures
        1 <= forced_cut(w.subrange(p, p + cap)) <= cap,
        resolve_from(w, p, inside, opts, cap) == piece(
            w.subrange(p, p + forced_cut(w.subrange(p, p + cap))),
            opts,
        ).join(resolve_from(w, p + forced_cut(w.subrange(p, p + cap)), true, opts, cap)),
{
    lemma_url_run_end(w, p);
    let e = url_run_end(w, p);
    if e < p + cap {
        assert(is_url_char(w[e]));
    }
}

} // verus!
