//! Decoding a stream that is not yet complete: what has been written so far
//! stays right whatever bytes follow.

use crate::scan::{
    all_url_chars, http_scheme, https_scheme, occurs_at, scheme_len_at, MAX_SCHEME_LEN,
    SCHEME_FIRST_BYTE,
};
use crate::tables::is_url_char;
use crate::text::{
    close_span, forced_cut, lemma_join_laws, lemma_plain_run, lemma_span_closes,
    lemma_span_forced, lemma_span_is_over, piece, resolve_from, stream_result, Emitted, Options,
};
use vstd::prelude::*;

verus! {

/// The stream `w` starts with the bytes of `fed`.
pub open spec fn extends(w: Seq<u8>, fed: Seq<u8>) -> bool {
    fed.len() <= w.len() && w.take(fed.len() as int) == fed
}

/// Having read `fed` and written `acc`, a decoder that goes on at index `p`
/// (inside a span or not) writes the result of every stream that starts with
/// `fed`.
pub open spec fn resumes(
    fed: Seq<u8>,
    acc: Emitted,
    p: int,
    inside: bool,
    opts: Options,
    cap: int,
) -> bool {
    forall|w: Seq<u8>| #[trigger]
        extends(w, fed) ==> stream_result(w, opts, cap) == acc.join(
            resolve_from(w, p, inside, opts, cap),
        )
}

/// A stream shares the bytes of what it extends.
pub proof fn lemma_extends_index(w: Seq<u8>, fed: Seq<u8>)
    requires
        extends(w, fed),
    ensures
        forall|j: int| 0 <= j < fed.len() ==> #[trigger] w[j] == fed[j],
        forall|a: int, b: int| 0 <= a <= b <= fed.len() ==> #[trigger] w.subrange(a, b) == fed.subrange(a, b),
{
    let n = fed.len() as int;
    assert forall|j: int| 0 <= j < fed.len() implies #[trigger] w[j] == fed[j] by {
        assert(w.take(n)[j] == w[j]);
    }
    assert forall|a: int, b: int| 0 <= a <= b <= fed.len() implies #[trigger] w.subrange(a, b)
        == fed.subrange(a, b) by {
        assert(w.subrange(a, b) =~= fed.subrange(a, b));
    }
}

/// Nothing read, nothing written: the decoder starts outside a span.
pub proof fn lemma_resume_start(opts: Options, cap: int)
    ensures
        resumes(Seq::empty(), Emitted::nothing(), 0, false, opts, cap),
{
    assert forall|w: Seq<u8>| #[trigger] extends(w, Seq::empty()) implies stream_result(w, opts, cap)
        == Emitted::nothing().join(resolve_from(w, 0, false, opts, cap)) by {
        let r = resolve_from(w, 0, false, opts, cap);
        lemma_join_laws(r, r, r);
    }
}

/// Reading more bytes takes back nothing.
pub proof fn lemma_resume_extend(
    fed: Seq<u8>,
    more: Seq<u8>,
    acc: Emitted,
    p: int,
    inside: bool,
    opts: Options,
    cap: int,
)
    requires
        resumes(fed, acc, p, inside, opts, cap),
    ensures
        resumes(fed + more, acc, p, inside, opts, cap),
{
    assert forall|w: Seq<u8>| #[trigger] extends(w, fed + more) implies stream_result(w, opts, cap)
        == acc.join(resolve_from(w, p, inside, opts, cap)) by {
        assert(w.take(fed.len() as int) =~= (fed + more).take(fed.len() as int));
        assert((fed + more).take(fed.len() as int) =~= fed);
        assert(extends(w, fed));
    }
}

/// No scheme prefix starts at a byte that is not `h`, nor at an `h` that is
/// followed by enough bytes to see that none does, whatever follows.
pub proof fn lemma_no_scheme_later(w: Seq<u8>, fed: Seq<u8>, j: int)
    requires
        extends(w, fed),
        0 <= j < fed.len(),
        fed[j] != SCHEME_FIRST_BYTE || (j + MAX_SCHEME_LEN <= fed.len() && scheme_len_at(fed, j)
            == 0),
    ensures
        scheme_len_at(w, j) == 0,
{
    lemma_extends_index(w, fed);
    if occurs_at(w, j, http_scheme()) {
        assert(w.subrange(j, j + 7)[0] == w[j]);
        assert(fed.subrange(j, j + 7) == w.subrange(j, j + 7));
    }
    if occurs_at(w, j, https_scheme()) {
        assert(w.subrange(j, j + 8)[0] == w[j]);
        assert(fed.subrange(j, j + 8) == w.subrange(j, j + 8));
    }
}

/// Bytes among which no scheme prefix can start are written as they stand.
pub proof fn lemma_resume_plain(
    fed: Seq<u8>,
    acc: Emitted,
    p: int,
    q: int,
    opts: Options,
    cap: int,
)
    requires
        cap >= 1,
        0 <= p <= q <= fed.len(),
        resumes(fed, acc, p, false, opts, cap),
        forall|j: int|
            p <= j < q ==> #[trigger] fed[j] != SCHEME_FIRST_BYTE || (j + MAX_SCHEME_LEN
                <= fed.len() && scheme_len_at(fed, j) == 0),
    ensures
        resumes(fed, acc.join(Emitted::verbatim(fed.subrange(p, q))), q, false, opts, cap),
{
    let step = Emitted::verbatim(fed.subrange(p, q));
    assert forall|w: Seq<u8>| #[trigger] extends(w, fed) implies stream_result(w, opts, cap)
        == acc.join(step).join(resolve_from(w, q, false, opts, cap)) by {
        lemma_extends_index(w, fed);
        assert forall|j: int| p <= j < q implies scheme_len_at(w, j) == 0 by {
            assert(fed[j] != SCHEME_FIRST_BYTE || (j + MAX_SCHEME_LEN <= fed.len()
                && scheme_len_at(fed, j) == 0));
            lemma_no_scheme_later(w, fed, j);
        }
        lemma_plain_run(w, p, q, opts, cap);
        assert(w.subrange(p, q) == fed.subrange(p, q));
        lemma_join_laws(acc, step, resolve_from(w, q, false, opts, cap));
    }
}

/// At a scheme prefix the decoder is inside a span.
pub proof fn lemma_resume_enter(fed: Seq<u8>, acc: Emitted, p: int, opts: Options, cap: int)
    requires
        resumes(fed, acc, p, false, opts, cap),
        scheme_len_at(fed, p) > 0,
    ensures
        resumes(fed, acc, p, true, opts, cap),
{
    assert forall|w: Seq<u8>| #[trigger] extends(w, fed) implies stream_result(w, opts, cap)
        == acc.join(resolve_from(w, p, true, opts, cap)) by {
        lemma_extends_index(w, fed);
        let k = scheme_len_at(fed, p);
        assert(w.subrange(p, p + k) == fed.subrange(p, p + k));
        assert(scheme_len_at(w, p) > 0);
        assert(resolve_from(w, p, true, opts, cap) == resolve_from(w, p, false, opts, cap));
    }
}

/// A span that ends before a byte already read is closed there.
pub proof fn lemma_resume_close(
    fed: Seq<u8>,
    acc: Emitted,
    p: int,
    e: int,
    opts: Options,
    cap: int,
)
    requires
        cap >= 1,
        0 <= p < e < fed.len(),
        resumes(fed, acc, p, true, opts, cap),
        all_url_chars(fed, p, e),
        !is_url_char(fed[e]),
        e - p < cap,
    ensures
        resumes(fed, acc.join(close_span(fed.subrange(p, e), opts)), e, false, opts, cap),
{
    let step = close_span(fed.subrange(p, e), opts);
    assert forall|w: Seq<u8>| #[trigger] extends(w, fed) implies stream_result(w, opts, cap)
        == acc.join(step).join(resolve_from(w, e, false, opts, cap)) by {
        lemma_extends_index(w, fed);
        assert(all_url_chars(w, p, e)) by {
            assert forall|j: int| p <= j < e implies is_url_char(#[trigger] w[j]) by {
                assert(is_url_char(fed[j]));
            }
        }
        lemma_span_closes(w, p, e, true, opts, cap);
        assert(w.subrange(p, e) == fed.subrange(p, e));
        lemma_join_laws(acc, step, resolve_from(w, e, false, opts, cap));
    }
}

/// A span that goes on with a byte that is no URL byte is over.
pub proof fn lemma_resume_leave(fed: Seq<u8>, acc: Emitted, p: int, opts: Options, cap: int)
    requires
        0 <= p < fed.len(),
        resumes(fed, acc, p, true, opts, cap),
        !is_url_char(fed[p]),
    ensures
        resumes(fed, acc, p, false, opts, cap),
{
    assert forall|w: Seq<u8>| #[trigger] extends(w, fed) implies stream_result(w, opts, cap)
        == acc.join(resolve_from(w, p, false, opts, cap)) by {
        lemma_extends_index(w, fed);
        lemma_span_is_over(w, p, opts, cap);
    }
}

/// A window full of URL bytes is cut, and the decoder stays inside the span.
pub proof fn lemma_resume_forced(fed: Seq<u8>, acc: Emitted, p: int, opts: Options, cap: int)
    requires
        cap >= 1,
        0 <= p,
        p + cap <= fed.len(),
        resumes(fed, acc, p, true, opts, cap),
        all_url_chars(fed, p, p + cap),
    ensures
        1 <= forced_cut(fed.subrange(p, p + cap)) <= cap,
        resumes(
            fed,
            acc.join(piece(fed.subrange(p, p + forced_cut(fed.subrange(p, p + cap))), opts)),
            p + forced_cut(fed.subrange(p, p + cap)),
            true,
            opts,
            cap,
        ),
{
    let c = forced_cut(fed.subrange(p, p + cap));
    let step = piece(fed.subrange(p, p + c), opts);
    assert(1 <= c <= cap);
    assert forall|w: Seq<u8>| #[trigger] extends(w, fed) implies stream_result(w, opts, cap)
        == acc.join(step).join(resolve_from(w, p + c, true, opts, cap)) by {
        lemma_extends_index(w, fed);
        assert(all_url_chars(w, p, p + cap)) by {
            assert forall|j: int| p <= j < p + cap implies is_url_char(#[trigger] w[j]) by {
                assert(is_url_char(fed[j]));
            }
        }
        lemma_span_forced(w, p, true, opts, cap);
        assert(w.subrange(p, p + cap) == fed.subrange(p, p + cap));
        assert(w.subrange(p, p + c) == fed.subrange(p, p + c));
        lemma_join_laws(acc, step, resolve_from(w, p + c, true, opts, cap));
    }
}

/// At the end of the stream, outside a span, the few bytes that were held
/// back are written as they stand.
pub proof fn lemma_finish_outside(fed: Seq<u8>, acc: Emitted, p: int, opts: Options, cap: int)
    requires
        cap >= 1,
        0 <= p <= fed.len(),
        fed.len() - p < MAX_SCHEME_LEN,
        scheme_len_at(fed, p) == 0,
        resumes(fed, acc, p, false, opts, cap),
    ensures
        stream_result(fed, opts, cap) == acc.join(Emitted::verbatim(fed.skip(p))),
{
    let n = fed.len() as int;
    assert(fed.take(n) =~= fed);
    assert(extends(fed, fed));
    lemma_plain_run(fed, p, n, opts, cap);
    assert(fed.subrange(p, n) =~= fed.skip(p));
    let step = Emitted::verbatim(fed.skip(p));
    lemma_join_laws(step, step, step);
}

/// At the end of the stream, inside a span, the span is closed.
pub proof fn lemma_finish_inside(fed: Seq<u8>, acc: Emitted, p: int, opts: Options, cap: int)
    requires
        cap >= 1,
        0 <= p < fed.len(),
        fed.len() - p < cap,
        all_url_chars(fed, p, fed.len() as int),
        resumes(fed, acc, p, true, opts, cap),
    ensures
        stream_result(fed, opts, cap) == acc.join(close_span(fed.skip(p), opts)),
{
    let n = fed.len() as int;
    assert(fed.take(n) =~= fed);
    assert(extends(fed, fed));
    lemma_span_closes(fed, p, n, true, opts, cap);
    assert(fed.subrange(p, n) =~= fed.skip(p));
    let step = close_span(fed.skip(p), opts);
    lemma_join_laws(step, step, step);
}

/// At the end of the stream, with every byte resolved, nothing is left to
/// write.
pub proof fn lemma_finish_resolved(fed: Seq<u8>, acc: Emitted, inside: bool, opts: Options, cap: int)
    requires
        resumes(fed, acc, fed.len() as int, inside, opts, cap),
    ensures
        stream_result(fed, opts, cap) == acc,
{
    let n = fed.len() as int;
    assert(fed.take(n) =~= fed);
    assert(extends(fed, fed));
    lemma_join_laws(acc, acc, acc);
}

} // verus!
