//! The buffered stream driver: a decoder context that is fed the stream in
//! chunks of any size, keeps what is not yet resolved in a window of fixed
//! capacity, and writes what is resolved.

use crate::log::{lemma_told_joined, told, DecodeLogger, LogState};
use crate::outside::is_valid_utf8;
use crate::percent::{append_bytes, decode_chunk, decode_span, PERCENT};
use crate::resume::{
    extends, lemma_finish_inside, lemma_finish_outside, lemma_finish_resolved,
    lemma_resume_close, lemma_resume_enter, lemma_resume_extend, lemma_resume_forced,
    lemma_resume_leave, lemma_resume_plain, lemma_resume_start, resumes,
};
use crate::scan::{
    all_url_chars, check_url_prefix, scheme_len_at, trim_url_end, trimmed_len, MAX_SCHEME_LEN,
    SCHEME_FIRST_BYTE,
};
use crate::tables::{is_url_char, CharTables};
use crate::text::{
    close_span, forced_cut, lemma_scheme_first_is_url_char, piece, piece_note, resolve_from,
    stream_result, Emitted, Options, SpanNote,
};
use vstd::prelude::*;
use vstd::slice::slice_subrange;

verus! {

/// Capacity of the window of a decoder made by `Decoder::new`: 64 KiB.
pub const IO_BUF_SIZE: usize = 65536;

/// The capacity of the window of a decoder that was asked to hold `capacity`
/// bytes: no less than the longest scheme prefix.
pub open spec fn window_capacity(capacity: usize) -> int {
    if capacity < MAX_SCHEME_LEN {
        MAX_SCHEME_LEN as int
    } else {
        capacity as int
    }
}

/// A count of bytes as a `u64` holds it: `u64::MAX` stands for every larger
/// count.
pub open spec fn saturated(n: int) -> int {
    if n > u64::MAX {
        u64::MAX as int
    } else {
        n
    }
}

fn add_saturating(total: u64, n: usize) -> (sum: u64)
    ensures
        sum == saturated(total + n),
{
    let room = u64::MAX - total;
    if n as u64 > room {
        u64::MAX
    } else {
        total + n as u64
    }
}

/// Removes the first `k` bytes of `buf`.
fn drop_front(buf: &mut Vec<u8>, k: usize)
    requires
        k <= old(buf)@.len(),
    ensures
        final(buf)@ == old(buf)@.skip(k as int),
{
    let len = buf.len();
    if k == 0 {
        assert(buf@.skip(0) =~= buf@);
        return ;
    }
    let mut i: usize = k;
    while i < len
        invariant
            0 < k <= i <= len,
            buf@.len() == len,
            len == old(buf)@.len(),
            forall|j: int| 0 <= j < i - k ==> buf@[j] == old(buf)@[j + k],
            forall|j: int| i - k <= j < len ==> buf@[j] == old(buf)@[j],
        decreases len - i,
    {
        let b = buf[i];
        buf[i - k] = b;
        i += 1;
    }
    buf.truncate(len - k);
    assert(buf@ =~= old(buf)@.skip(k as int));
}

/// What a logger holds after it was told of the piece `bytes`.
spec fn after_piece(state: LogState, bytes: Seq<u8>, opts: Options) -> LogState {
    let note = piece_note(bytes, opts);
    state.noted(note.read, note.written, note.changed)
}

/// Writes one piece of a span: decoded, or as it was read where validation
/// is on and refuses the decoded bytes. The logger is told of the piece.
fn emit_piece<L: DecodeLogger>(
    tables: &CharTables,
    opts: Options,
    scratch: &mut Vec<u8>,
    bytes: &[u8],
    out: &mut Vec<u8>,
    logger: &mut L,
) -> (changed: bool)
    requires
        tables.wf(),
    ensures
        final(out)@ == old(out)@ + piece(bytes@, opts).bytes,
        changed == piece(bytes@, opts).changed,
        final(logger).keeps() == old(logger).keeps(),
        old(logger).keeps() ==> final(logger).state() == after_piece(
            old(logger).state(),
            bytes@,
            opts,
        ),
{
    logger.clear();
    logger.log_orig_slice(bytes);
    if opts.validate_utf8 {
        scratch.clear();
        let decoded_changed = decode_chunk(tables, bytes, scratch, opts.escape_space);
        assert(scratch@ =~= decode_span(bytes@, opts.escape_space));
        if is_valid_utf8(scratch.as_slice()) {
            append_bytes(out, scratch.as_slice());
            logger.log_res_slice(scratch.as_slice());
            logger.print_if_changed(decoded_changed);
            decoded_changed
        } else {
            append_bytes(out, bytes);
            logger.log_res_slice(bytes);
            logger.print_if_changed(false);
            false
        }
    } else {
        let start = out.len();
        let decoded_changed = decode_chunk(tables, bytes, out, opts.escape_space);
        assert(out@.subrange(start as int, out@.len() as int) =~= decode_span(
            bytes@,
            opts.escape_space,
        ));
        logger.log_res_slice(slice_subrange(out.as_slice(), start, out.len()));
        logger.print_if_changed(decoded_changed);
        decoded_changed
    }
}

/// Writes the last piece of a span: what stands before its trailing
/// punctuation as a piece, and that punctuation as it was read.
fn emit_span<L: DecodeLogger>(
    tables: &CharTables,
    opts: Options,
    scratch: &mut Vec<u8>,
    span: &[u8],
    out: &mut Vec<u8>,
    logger: &mut L,
) -> (changed: bool)
    requires
        tables.wf(),
    ensures
        final(out)@ == old(out)@ + close_span(span@, opts).bytes,
        changed == close_span(span@, opts).changed,
        final(logger).keeps() == old(logger).keeps(),
        old(logger).keeps() ==> final(logger).state() == after_piece(
            old(logger).state(),
            span@.take(trimmed_len(span@)),
            opts,
        ),
{
    let (valid_url, suffix) = trim_url_end(tables, span);
    let changed = emit_piece(tables, opts, scratch, valid_url, out, logger);
    if suffix.len() > 0 {
        append_bytes(out, suffix);
    }
    assert(out@ =~= old(out)@ + close_span(span@, opts).bytes);
    changed
}

/// From `w0` written and `o0` in the sink, `w1` is written and `o1` is in the
/// sink: the same bytes were added to both.
spec fn grew(w0: Seq<u8>, w1: Seq<u8>, o0: Seq<u8>, o1: Seq<u8>) -> bool {
    &&& w0.len() <= w1.len()
    &&& w1.take(w0.len() as int) == w0
    &&& o1 == o0 + w1.skip(w0.len() as int)
}

/// As `grew`, and so for every earlier state from which `w1` and `o1` grew.
spec fn grew_on(w1: Seq<u8>, w2: Seq<u8>, o1: Seq<u8>, o2: Seq<u8>) -> bool {
    &&& grew(w1, w2, o1, o2)
    &&& forall|w0: Seq<u8>, o0: Seq<u8>| #[trigger] grew(w0, w1, o0, o1) ==> grew(w0, w2, o0, o2)
}

proof fn lemma_grew_step(w1: Seq<u8>, o1: Seq<u8>, d: Seq<u8>)
    ensures
        grew_on(w1, w1 + d, o1, o1 + d),
{
    assert((w1 + d).take(w1.len() as int) =~= w1);
    assert((w1 + d).skip(w1.len() as int) =~= d);
    assert forall|w0: Seq<u8>, o0: Seq<u8>| #[trigger] grew(w0, w1, o0, o1) implies grew(
        w0,
        w1 + d,
        o0,
        o1 + d,
    ) by {
        lemma_grew_trans(w0, w1, w1 + d, o0, o1, o1 + d);
    }
}

proof fn lemma_grew_trans(w0: Seq<u8>, w1: Seq<u8>, w2: Seq<u8>, o0: Seq<u8>, o1: Seq<u8>, o2: Seq<u8>)
    requires
        grew(w0, w1, o0, o1),
        grew(w1, w2, o1, o2),
    ensures
        grew(w0, w2, o0, o2),
{
    assert(w2.take(w0.len() as int) =~= w2.take(w1.len() as int).take(w0.len() as int));
    assert(w1.skip(w0.len() as int) + w2.skip(w1.len() as int) =~= w2.skip(w0.len() as int)) by {
        let a = w1.skip(w0.len() as int);
        let b = w2.skip(w1.len() as int);
        let c = w2.skip(w0.len() as int);
        assert(a.len() + b.len() == c.len());
        assert forall|i: int| 0 <= i < c.len() implies (a + b)[i] == c[i] by {
            if i < a.len() {
                assert(w2.take(w1.len() as int)[i + w0.len()] == w1[i + w0.len()]);
            }
        }
    }
    assert(o2 =~= o0 + w2.skip(w0.len() as int));
}

/// From the notes `n0` and a logger that held `m0`, the notes are `n1` and
/// the logger holds `m1`: a logger that keeps what it is told was told of
/// the notes that were added.
spec fn logged(n0: Seq<SpanNote>, n1: Seq<SpanNote>, m0: LogState, m1: LogState, keeps: bool) -> bool {
    &&& n0.len() <= n1.len()
    &&& n1.take(n0.len() as int) == n0
    &&& keeps ==> m1 == told(m0, n1.skip(n0.len() as int))
}

/// As `logged`, and so for every earlier state from which `n1` and `m1` came.
spec fn logged_on(
    n1: Seq<SpanNote>,
    n2: Seq<SpanNote>,
    m1: LogState,
    m2: LogState,
    keeps: bool,
) -> bool {
    &&& logged(n1, n2, m1, m2, keeps)
    &&& forall|n0: Seq<SpanNote>, m0: LogState| #[trigger]
        logged(n0, n1, m0, m1, keeps) ==> logged(n0, n2, m0, m2, keeps)
}

proof fn lemma_logged_trans(
    n0: Seq<SpanNote>,
    n1: Seq<SpanNote>,
    n2: Seq<SpanNote>,
    m0: LogState,
    m1: LogState,
    m2: LogState,
    keeps: bool,
)
    requires
        logged(n0, n1, m0, m1, keeps),
        logged(n1, n2, m1, m2, keeps),
    ensures
        logged(n0, n2, m0, m2, keeps),
{
    let a = n1.skip(n0.len() as int);
    let b = n2.skip(n1.len() as int);
    let c = n2.skip(n0.len() as int);
    assert(n2.take(n0.len() as int) =~= n2.take(n1.len() as int).take(n0.len() as int));
    assert(a + b =~= c) by {
        assert(a.len() + b.len() == c.len());
        assert forall|i: int| 0 <= i < c.len() implies (a + b)[i] == c[i] by {
            if i < a.len() {
                assert(n2.take(n1.len() as int)[i + n0.len()] == n1[i + n0.len()]);
            }
        }
    }
    lemma_told_joined(m0, a, b);
}

proof fn lemma_logged_step(n1: Seq<SpanNote>, m1: LogState, d: Seq<SpanNote>, m2: LogState, keeps: bool)
    requires
        keeps ==> m2 == told(m1, d),
    ensures
        logged_on(n1, n1 + d, m1, m2, keeps),
{
    assert((n1 + d).take(n1.len() as int) =~= n1);
    assert((n1 + d).skip(n1.len() as int) =~= d);
    assert forall|n0: Seq<SpanNote>, m0: LogState| #[trigger]
        logged(n0, n1, m0, m1, keeps) implies logged(n0, n1 + d, m0, m2, keeps) by {
        lemma_logged_trans(n0, n1, n1 + d, m0, m1, m2, keeps);
    }
}

/// Telling of one piece.
proof fn lemma_told_one(state: LogState, note: SpanNote)
    ensures
        told(state, seq![note]) == state.noted(note.read, note.written, note.changed),
{
    let one = seq![note];
    assert(one.drop_last() =~= Seq::<SpanNote>::empty());
    assert(one.last() == note);
    assert(told(state, Seq::<SpanNote>::empty()) == state);
}

/// A scheme prefix stands at index `j` of the tail of `fed` from `base` on
/// exactly where one stands at index `base + j` of `fed`.
proof fn lemma_scheme_in_tail(fed: Seq<u8>, base: int, j: int)
    requires
        0 <= base <= fed.len(),
        0 <= j,
    ensures
        scheme_len_at(fed.skip(base), j) == scheme_len_at(fed, base + j),
{
    let tail = fed.skip(base);
    if j + 7 <= tail.len() {
        assert(tail.subrange(j, j + 7) =~= fed.subrange(base + j, base + j + 7));
    }
    if j + 8 <= tail.len() {
        assert(tail.subrange(j, j + 8) =~= fed.subrange(base + j, base + j + 8));
    }
}

/// The decoder context: the tables, the window of bytes read and not yet
/// resolved, whether the window starts inside a span, and what the stream
/// has come to so far.
///
/// The window never holds resolved bytes between two calls, so a span in
/// progress always starts at the start of the window.
pub struct Decoder {
    tables: CharTables,
    opts: Options,
    capacity: usize,
    buf: Vec<u8>,
    in_url: bool,
    scratch: Vec<u8>,
    total: u64,
    changed: bool,
    fed: Ghost<Seq<u8>>,
    written: Ghost<Seq<u8>>,
    noted: Ghost<Seq<SpanNote>>,
}

impl Decoder {
    /// The bytes of the stream that were fed so far.
    pub closed spec fn fed(&self) -> Seq<u8> {
        self.fed@
    }

    /// The bytes that were written for the stream so far.
    pub closed spec fn written(&self) -> Seq<u8> {
        self.written@
    }

    /// The pieces of spans that were written for the stream so far, as a
    /// logger is told of them.
    pub closed spec fn notes(&self) -> Seq<SpanNote> {
        self.noted@
    }

    /// The options that the decoder was made with.
    pub closed spec fn options(&self) -> Options {
        self.opts
    }

    /// How many bytes the window holds at most.
    pub closed spec fn capacity(&self) -> int {
        self.capacity as int
    }

    /// How many of the bytes fed are kept in the window, not yet resolved.
    pub closed spec fn held(&self) -> nat {
        self.buf@.len()
    }

    /// Whether the bytes kept in the window belong to a span in progress.
    pub closed spec fn inside_span(&self) -> bool {
        self.in_url
    }

    /// What the bytes fed so far come to if the stream ends with them.
    pub open spec fn stream(&self) -> Emitted {
        stream_result(self.fed(), self.options(), self.capacity())
    }

    /// How many bytes of the stream are resolved.
    spec fn resolved(&self) -> int {
        self.fed@.len() - self.buf@.len()
    }

    /// What was written so far, and whether a triplet was replaced.
    spec fn acc(&self) -> Emitted {
        Emitted { bytes: self.written@, changed: self.changed, notes: self.noted@ }
    }

    /// The window holds the last bytes fed, of which the first `offset` are
    /// resolved, and what was written is right for every stream that starts
    /// with the bytes fed.
    spec fn scanning(&self, offset: int) -> bool {
        &&& self.tables.wf()
        &&& self.capacity >= MAX_SCHEME_LEN
        &&& self.buf@.len() <= self.capacity
        &&& self.buf@.len() <= self.fed@.len()
        &&& 0 <= offset <= self.buf@.len()
        &&& self.buf@ == self.fed@.skip(self.resolved())
        &&& self.total as int == saturated(self.resolved() + offset)
        &&& resumes(
            self.fed@,
            self.acc(),
            self.resolved() + offset,
            self.in_url,
            self.opts,
            self.capacity as int,
        )
    }

    /// The state between two calls: the window is not full; inside a span it
    /// holds URL bytes only; outside it holds fewer bytes than the longest
    /// scheme prefix, which do not start with a scheme prefix.
    pub closed spec fn wf(&self) -> bool {
        &&& self.scanning(0)
        &&& self.buf@.len() < self.capacity
        &&& self.in_url ==> all_url_chars(self.buf@, 0, self.buf@.len() as int)
        &&& !self.in_url ==> self.buf@.len() < MAX_SCHEME_LEN && scheme_len_at(self.buf@, 0) == 0
    }

    /// The same context, with the same window and the same bytes fed.
    spec fn same_window(&self, other: &Decoder) -> bool {
        &&& self.tables == other.tables
        &&& self.opts == other.opts
        &&& self.capacity == other.capacity
        &&& self.buf@ == other.buf@
        &&& self.fed@ == other.fed@
    }

    /// A decoder with a window of 64 KiB.
    pub fn new(opts: Options) -> (decoder: Decoder)
        ensures
            decoder.wf(),
            decoder.fed() == Seq::<u8>::empty(),
            decoder.written() == Seq::<u8>::empty(),
            decoder.notes() == Seq::<SpanNote>::empty(),
            decoder.options() == opts,
            decoder.capacity() == IO_BUF_SIZE,
    {
        Decoder::with_capacity(opts, IO_BUF_SIZE)
    }

    /// A decoder with a window of `capacity` bytes, or of `MAX_SCHEME_LEN`
    /// bytes where `capacity` is less.
    pub fn with_capacity(opts: Options, capacity: usize) -> (decoder: Decoder)
        ensures
            decoder.wf(),
            decoder.fed() == Seq::<u8>::empty(),
            decoder.written() == Seq::<u8>::empty(),
            decoder.notes() == Seq::<SpanNote>::empty(),
            decoder.options() == opts,
            decoder.capacity() == window_capacity(capacity),
    {
        let capacity = if capacity < MAX_SCHEME_LEN {
            MAX_SCHEME_LEN
        } else {
            capacity
        };
        let decoder = Decoder {
            tables: CharTables::new(),
            opts,
            capacity,
            buf: Vec::new(),
            in_url: false,
            scratch: Vec::new(),
            total: 0,
            changed: false,
            fed: Ghost(Seq::empty()),
            written: Ghost(Seq::empty()),
            noted: Ghost(Seq::empty()),
        };
        proof {
            lemma_resume_start(opts, capacity as int);
            assert(decoder.buf@ =~= decoder.fed@.skip(0));
        }
        decoder
    }

    /// Writes the bytes of the window from `offset` up to `upto`, among
    /// which no scheme prefix can start, as they stand.
    fn flush(&mut self, offset: usize, upto: usize, out: &mut Vec<u8>)
        requires
            old(self).scanning(offset as int),
            !old(self).in_url,
            offset <= upto <= old(self).buf@.len(),
            forall|j: int|
                offset <= j < upto ==> #[trigger] old(self).buf@[j] != SCHEME_FIRST_BYTE || (j
                    + MAX_SCHEME_LEN <= old(self).buf@.len() && scheme_len_at(old(self).buf@, j)
                    == 0),
        ensures
            final(self).scanning(upto as int),
            final(self).same_window(old(self)),
            !final(self).in_url,
            final(self).changed == old(self).changed,
            final(self).written@ == old(self).written@ + old(self).buf@.subrange(
                offset as int,
                upto as int,
            ),
            final(out)@ == old(out)@ + old(self).buf@.subrange(offset as int, upto as int),
            final(self).noted@ == old(self).noted@,
            grew_on(old(self).written@, final(self).written@, old(out)@, final(out)@),
    {
        let ghost fed = self.fed@;
        let ghost base = self.resolved();
        let ghost acc = self.acc();
        append_bytes(out, slice_subrange(self.buf.as_slice(), offset, upto));
        self.total = add_saturating(self.total, upto - offset);
        proof {
            assert forall|j: int| base + offset <= j < base + upto implies #[trigger] fed[j]
                != SCHEME_FIRST_BYTE || (j + MAX_SCHEME_LEN <= fed.len() && scheme_len_at(fed, j)
                == 0) by {
                let i = j - base;
                assert(self.buf@[i] == fed[j]);
                assert(self.buf@[i] != SCHEME_FIRST_BYTE || (i + MAX_SCHEME_LEN
                    <= self.buf@.len() && scheme_len_at(self.buf@, i) == 0));
                lemma_scheme_in_tail(fed, base, i);
            }
            lemma_resume_plain(
                fed,
                acc,
                base + offset,
                base + upto,
                self.opts,
                self.capacity as int,
            );
            assert(fed.subrange(base + offset, base + upto) =~= self.buf@.subrange(
                offset as int,
                upto as int,
            ));
            self.written = Ghost(self.written@ + self.buf@.subrange(offset as int, upto as int));
            assert(self.noted@ + Seq::<SpanNote>::empty() =~= self.noted@);
            lemma_grew_step(
                old(self).written@,
                old(out)@,
                self.buf@.subrange(offset as int, upto as int),
            );
        }
    }

    /// Closes the span that starts at `offset` and ends before `end`.
    fn close<L: DecodeLogger>(
        &mut self,
        offset: usize,
        end: usize,
        out: &mut Vec<u8>,
        logger: &mut L,
    )
        requires
            old(self).scanning(offset as int),
            old(self).in_url,
            offset < end < old(self).buf@.len(),
            all_url_chars(old(self).buf@, offset as int, end as int),
            !is_url_char(old(self).buf@[end as int]),
        ensures
            final(self).scanning(end as int),
            final(self).same_window(old(self)),
            !final(self).in_url,
            grew_on(old(self).written@, final(self).written@, old(out)@, final(out)@),
            final(logger).keeps() == old(logger).keeps(),
            logged_on(
                old(self).noted@,
                final(self).noted@,
                old(logger).state(),
                final(logger).state(),
                old(logger).keeps(),
            ),
    {
        let ghost fed = self.fed@;
        let ghost base = self.resolved();
        let ghost acc = self.acc();
        let ghost span = self.buf@.subrange(offset as int, end as int);
        let changed = emit_span(
            &self.tables,
            self.opts,
            &mut self.scratch,
            slice_subrange(self.buf.as_slice(), offset, end),
            out,
            logger,
        );
        if changed {
            self.changed = true;
        }
        self.in_url = false;
        self.total = add_saturating(self.total, end - offset);
        proof {
            assert forall|j: int| base + offset <= j < base + end implies is_url_char(
                #[trigger] fed[j],
            ) by {
                assert(is_url_char(self.buf@[j - base]));
            }
            assert(fed[base + end] == self.buf@[end as int]);
            lemma_resume_close(
                fed,
                acc,
                base + offset,
                base + end,
                self.opts,
                self.capacity as int,
            );
            assert(fed.subrange(base + offset, base + end) =~= span);
            let step = close_span(span, self.opts);
            self.written = Ghost(self.written@ + step.bytes);
            self.noted = Ghost(self.noted@ + step.notes);
            lemma_grew_step(old(self).written@, old(out)@, step.bytes);
            let note = piece_note(span.take(trimmed_len(span)), self.opts);
            assert(step.notes =~= seq![note]);
            lemma_told_one(old(logger).state(), note);
            lemma_logged_step(
                old(self).noted@,
                old(logger).state(),
                step.notes,
                logger.state(),
                old(logger).keeps(),
            );
        }
    }

    /// Makes room in a window that is full of the bytes of one span: writes
    /// the piece before the cut, and says where the cut is.
    fn force<L: DecodeLogger>(&mut self, out: &mut Vec<u8>, logger: &mut L) -> (cut: usize)
        requires
            old(self).scanning(0),
            old(self).in_url,
            old(self).buf@.len() == old(self).capacity,
            all_url_chars(old(self).buf@, 0, old(self).buf@.len() as int),
        ensures
            final(self).scanning(cut as int),
            final(self).same_window(old(self)),
            final(self).in_url,
            1 <= cut <= old(self).buf@.len(),
            grew_on(old(self).written@, final(self).written@, old(out)@, final(out)@),
            final(logger).keeps() == old(logger).keeps(),
            logged_on(
                old(self).noted@,
                final(self).noted@,
                old(logger).state(),
                final(logger).state(),
                old(logger).keeps(),
            ),
    {
        let ghost fed = self.fed@;
        let ghost base = self.resolved();
        let ghost acc = self.acc();
        let len = self.buf.len();
        let mut cut_point: usize = len;
        if self.buf[len - 1] == PERCENT {
            cut_point = len - 1;
        } else if len >= 2 && self.buf[len - 2] == PERCENT {
            cut_point = len - 2;
        }
        if cut_point == 0 {
            cut_point = len;
        }
        proof {
            assert(fed.subrange(base, base + len) =~= self.buf@);
            assert(cut_point == forced_cut(self.buf@));
            assert forall|j: int| base <= j < base + len implies is_url_char(#[trigger] fed[j]) by {
                assert(is_url_char(self.buf@[j - base]));
            }
            lemma_resume_forced(fed, acc, base, self.opts, self.capacity as int);
        }
        let ghost chunk = self.buf@.subrange(0, cut_point as int);
        let changed = emit_piece(
            &self.tables,
            self.opts,
            &mut self.scratch,
            slice_subrange(self.buf.as_slice(), 0, cut_point),
            out,
            logger,
        );
        if changed {
            self.changed = true;
        }
        self.total = add_saturating(self.total, cut_point);
        proof {
            assert(fed.subrange(base, base + cut_point) =~= chunk);
            let step = piece(chunk, self.opts);
            self.written = Ghost(self.written@ + step.bytes);
            self.noted = Ghost(self.noted@ + step.notes);
            lemma_grew_step(old(self).written@, old(out)@, step.bytes);
            lemma_told_one(old(logger).state(), piece_note(chunk, self.opts));
            lemma_logged_step(
                old(self).noted@,
                old(logger).state(),
                step.notes,
                logger.state(),
                old(logger).keeps(),
            );
        }
        cut_point
    }

    /// Runs the scanner over the window and says up to where the window is
    /// resolved. What is left is a span that has not ended yet, or an `h`
    /// with too few bytes behind it to rule a scheme prefix out.
    fn scan<L: DecodeLogger>(&mut self, out: &mut Vec<u8>, logger: &mut L) -> (offset: usize)
        requires
            old(self).scanning(0),
        ensures
            final(self).scanning(offset as int),
            final(self).same_window(old(self)),
            grew(old(self).written@, final(self).written@, old(out)@, final(out)@),
            final(logger).keeps() == old(logger).keeps(),
            logged(
                old(self).noted@,
                final(self).noted@,
                old(logger).state(),
                final(logger).state(),
                old(logger).keeps(),
            ),
            final(self).in_url ==> all_url_chars(
                final(self).buf@,
                offset as int,
                final(self).buf@.len() as int,
            ),
            !final(self).in_url ==> final(self).buf@.len() - offset < MAX_SCHEME_LEN
                && scheme_len_at(final(self).buf@.skip(offset as int), 0) == 0,
    {
        let len = self.buf.len();
        let mut offset: usize = 0;
        let mut waiting = false;
        proof {
            lemma_grew_step(self.written@, out@, Seq::empty());
            assert(self.written@ + Seq::<u8>::empty() =~= self.written@);
            assert(out@ + Seq::<u8>::empty() =~= out@);
            lemma_logged_step(
                self.noted@,
                logger.state(),
                Seq::empty(),
                logger.state(),
                logger.keeps(),
            );
            assert(self.noted@ + Seq::<SpanNote>::empty() =~= self.noted@);
        }
        while !waiting && offset < len
            invariant
                self.scanning(offset as int),
                self.same_window(old(self)),
                len == self.buf@.len(),
                grew(old(self).written@, self.written@, old(out)@, out@),
                logger.keeps() == old(logger).keeps(),
                logged(
                    old(self).noted@,
                    self.noted@,
                    old(logger).state(),
                    logger.state(),
                    old(logger).keeps(),
                ),
                waiting && self.in_url ==> all_url_chars(self.buf@, offset as int, len as int),
                waiting && !self.in_url ==> len - offset < MAX_SCHEME_LEN && scheme_len_at(
                    self.buf@.skip(offset as int),
                    0,
                ) == 0,
            decreases len - offset, (if waiting { 0int } else { 1int }), (if self.in_url { 1int } else { 0int }),
        {
            let mut pos: usize = offset;
            if !self.in_url {
                let found = memchr::memchr(
                    SCHEME_FIRST_BYTE,
                    slice_subrange(self.buf.as_slice(), offset, len),
                );
                match found {
                    None => {
                        assert forall|j: int| offset <= j < len implies #[trigger] self.buf@[j]
                            != SCHEME_FIRST_BYTE by {
                            assert(self.buf@.subrange(offset as int, len as int)[j - offset]
                                == self.buf@[j]);
                        }
                        self.flush(offset, len, out);
                        offset = len;
                    },
                    Some(rel_idx) => {
                        let h_idx = offset + rel_idx;
                        assert forall|j: int| offset <= j < h_idx implies #[trigger] self.buf@[j]
                            != SCHEME_FIRST_BYTE by {
                            assert(self.buf@.subrange(offset as int, len as int)[j - offset]
                                == self.buf@[j]);
                        }
                        if h_idx > offset {
                            self.flush(offset, h_idx, out);
                            offset = h_idx;
                        }
                        proof {
                            assert(self.buf@.subrange(h_idx as int, len as int) =~= self.buf@.skip(
                                h_idx as int,
                            ));
                            lemma_scheme_in_tail(self.buf@, h_idx as int, 0);
                            lemma_scheme_in_tail(self.fed@, self.resolved(), h_idx as int);
                        }
                        match check_url_prefix(slice_subrange(self.buf.as_slice(), h_idx, len)) {
                            Some(prefix_len) => {
                                proof {
                                    lemma_resume_enter(
                                        self.fed@,
                                        self.acc(),
                                        self.resolved() + h_idx,
                                        self.opts,
                                        self.capacity as int,
                                    );
                                    lemma_scheme_first_is_url_char(
                                        self.buf@,
                                        h_idx as int,
                                    );
                                }
                                self.in_url = true;
                                pos = h_idx + prefix_len;
                            },
                            None => {
                                if len - h_idx < MAX_SCHEME_LEN {
                                    waiting = true;
                                } else {
                                    self.flush(h_idx, h_idx + 1, out);
                                    offset = h_idx + 1;
                                }
                            },
                        }
                    },
                }
            }
            if self.in_url {
                while pos < len && self.tables.is_url_char(self.buf[pos])
                    invariant
                        self.tables.wf(),
                        len == self.buf@.len(),
                        offset <= pos <= len,
                        all_url_chars(self.buf@, offset as int, pos as int),
                    decreases len - pos,
                {
                    pos += 1;
                }
                if pos < len {
                    if pos > offset {
                        self.close(offset, pos, out, logger);
                    } else {
                        proof {
                            lemma_resume_leave(
                                self.fed@,
                                self.acc(),
                                self.resolved() + offset,
                                self.opts,
                                self.capacity as int,
                            );
                        }
                        self.in_url = false;
                    }
                    offset = pos;
                } else {
                    waiting = true;
                }
            }
        }
        offset
    }

    /// Resolves what can be resolved of the window, cuts a span that fills
    /// it, and drops the resolved bytes from it.
    fn advance<L: DecodeLogger>(&mut self, out: &mut Vec<u8>, logger: &mut L)
        requires
            old(self).scanning(0),
        ensures
            final(self).wf(),
            final(self).fed@ == old(self).fed@,
            final(self).opts == old(self).opts,
            final(self).capacity == old(self).capacity,
            grew(old(self).written@, final(self).written@, old(out)@, final(out)@),
            final(logger).keeps() == old(logger).keeps(),
            logged(
                old(self).noted@,
                final(self).noted@,
                old(logger).state(),
                final(logger).state(),
                old(logger).keeps(),
            ),
    {
        let mut offset = self.scan(out, logger);
        if offset == 0 && self.in_url && self.buf.len() == self.capacity {
            offset = self.force(out, logger);
        }
        let ghost before = self.buf@;
        let ghost base = self.resolved();
        drop_front(&mut self.buf, offset);
        proof {
            assert(self.buf@ =~= self.fed@.skip(base + offset));
            if self.in_url {
                assert forall|j: int| 0 <= j < self.buf@.len() implies is_url_char(
                    #[trigger] self.buf@[j],
                ) by {
                    assert(is_url_char(before[j + offset]));
                }
            }
        }
    }

    /// Takes the next bytes of the stream, and appends to `out` what they
    /// resolve. Bytes that may still belong to a scheme prefix or to a span
    /// in progress are kept for the next call.
    pub fn feed<L: DecodeLogger>(&mut self, chunk: &[u8], out: &mut Vec<u8>, logger: &mut L)
        requires
            old(self).wf(),
        ensures
            final(self).wf(),
            final(self).fed() == old(self).fed() + chunk@,
            final(self).options() == old(self).options(),
            final(self).capacity() == old(self).capacity(),
            old(self).written().len() <= final(self).written().len(),
            final(self).written().take(old(self).written().len() as int) == old(self).written(),
            final(out)@ == old(out)@ + final(self).written().skip(
                old(self).written().len() as int,
            ),
            old(self).notes().len() <= final(self).notes().len(),
            final(self).notes().take(old(self).notes().len() as int) == old(self).notes(),
            final(logger).keeps() == old(logger).keeps(),
            old(logger).keeps() ==> final(logger).state() == told(
                old(logger).state(),
                final(self).notes().skip(old(self).notes().len() as int),
            ),
    {
        let mut taken: usize = 0;
        proof {
            lemma_grew_step(self.written@, out@, Seq::empty());
            assert(self.written@ + Seq::<u8>::empty() =~= self.written@);
            assert(out@ + Seq::<u8>::empty() =~= out@);
            assert(self.fed@ + chunk@.take(0) =~= self.fed@);
            lemma_logged_step(
                self.noted@,
                logger.state(),
                Seq::empty(),
                logger.state(),
                logger.keeps(),
            );
            assert(self.noted@ + Seq::<SpanNote>::empty() =~= self.noted@);
        }
        while taken < chunk.len()
            invariant
                self.wf(),
                taken <= chunk.len(),
                self.fed@ == old(self).fed@ + chunk@.take(taken as int),
                self.opts == old(self).opts,
                self.capacity == old(self).capacity,
                grew(old(self).written@, self.written@, old(out)@, out@),
                logger.keeps() == old(logger).keeps(),
                logged(
                    old(self).noted@,
                    self.noted@,
                    old(logger).state(),
                    logger.state(),
                    old(logger).keeps(),
                ),
            decreases chunk.len() - taken,
        {
            let room = self.capacity - self.buf.len();
            let rest = chunk.len() - taken;
            let n = if rest < room {
                rest
            } else {
                room
            };
            let ghost fed = self.fed@;
            let ghost more = chunk@.subrange(taken as int, taken + n);
            let ghost w1 = self.written@;
            let ghost o1 = out@;
            let ghost n1 = self.noted@;
            let ghost m1 = logger.state();
            let ghost base = self.resolved();
            append_bytes(&mut self.buf, slice_subrange(chunk, taken, taken + n));
            proof {
                lemma_resume_extend(
                    fed,
                    more,
                    self.acc(),
                    base,
                    self.in_url,
                    self.opts,
                    self.capacity as int,
                );
                self.fed = Ghost(fed + more);
                assert(self.buf@ =~= self.fed@.skip(self.resolved()));
                assert(chunk@.take(taken as int) + more =~= chunk@.take(taken + n));
                assert(self.fed@ =~= old(self).fed@ + chunk@.take(taken + n));
            }
            taken = taken + n;
            self.advance(out, logger);
            proof {
                lemma_grew_trans(old(self).written@, w1, self.written@, old(out)@, o1, out@);
                lemma_logged_trans(
                    old(self).noted@,
                    n1,
                    self.noted@,
                    old(logger).state(),
                    m1,
                    logger.state(),
                    old(logger).keeps(),
                );
            }
        }
        proof {
            assert(chunk@.take(chunk@.len() as int) =~= chunk@);
        }
    }

    /// Ends the stream: appends to `out` what the bytes still kept come to,
    /// and returns how many bytes the stream had and whether any triplet was
    /// replaced in it. The decoder is ready for another stream.
    pub fn finish<L: DecodeLogger>(&mut self, out: &mut Vec<u8>, logger: &mut L) -> (result: (
        u64,
        bool,
    ))
        requires
            old(self).wf(),
        ensures
            final(self).wf(),
            final(self).fed() == Seq::<u8>::empty(),
            final(self).written() == Seq::<u8>::empty(),
            final(self).notes() == Seq::<SpanNote>::empty(),
            final(self).options() == old(self).options(),
            final(self).capacity() == old(self).capacity(),
            old(self).written().len() <= old(self).stream().bytes.len(),
            old(self).stream().bytes.take(old(self).written().len() as int) == old(
                self,
            ).written(),
            final(out)@ == old(out)@ + old(self).stream().bytes.skip(
                old(self).written().len() as int,
            ),
            result.0 == saturated(old(self).fed().len() as int),
            result.1 == old(self).stream().changed,
            old(self).notes().len() <= old(self).stream().notes.len(),
            old(self).stream().notes.take(old(self).notes().len() as int) == old(self).notes(),
            final(logger).keeps() == old(logger).keeps(),
            old(logger).keeps() ==> final(logger).state() == told(
                old(logger).state(),
                old(self).stream().notes.skip(old(self).notes().len() as int),
            ),
    {
        let ghost fed = self.fed@;
        let ghost base = self.resolved();
        let ghost acc = self.acc();
        let ghost cap = self.capacity as int;
        let ghost window = self.buf@;
        let len = self.buf.len();
        proof {
            assert(fed.skip(base) =~= window);
        }
        if len > 0 {
            if self.in_url {
                proof {
                    assert forall|j: int| base <= j < fed.len() implies is_url_char(
                        #[trigger] fed[j],
                    ) by {
                        assert(is_url_char(window[j - base]));
                    }
                    lemma_finish_inside(fed, acc, base, self.opts, cap);
                }
                let changed = emit_span(
                    &self.tables,
                    self.opts,
                    &mut self.scratch,
                    self.buf.as_slice(),
                    out,
                    logger,
                );
                if changed {
                    self.changed = true;
                }
                proof {
                    let step = close_span(window, self.opts);
                    let note = piece_note(window.take(trimmed_len(window)), self.opts);
                    assert(step.notes =~= seq![note]);
                    lemma_grew_step(acc.bytes, old(out)@, step.bytes);
                    lemma_told_one(old(logger).state(), note);
                    lemma_logged_step(
                        acc.notes,
                        old(logger).state(),
                        step.notes,
                        logger.state(),
                        old(logger).keeps(),
                    );
                }
            } else {
                proof {
                    lemma_scheme_in_tail(fed, base, 0);
                    lemma_finish_outside(fed, acc, base, self.opts, cap);
                }
                append_bytes(out, self.buf.as_slice());
                proof {
                    lemma_grew_step(acc.bytes, old(out)@, window);
                    lemma_logged_step(
                        acc.notes,
                        old(logger).state(),
                        Seq::empty(),
                        logger.state(),
                        old(logger).keeps(),
                    );
                }
            }
            self.total = add_saturating(self.total, len);
        } else {
            proof {
                lemma_finish_resolved(fed, acc, self.in_url, self.opts, cap);
                lemma_grew_step(acc.bytes, old(out)@, Seq::empty());
                assert(acc.bytes + Seq::<u8>::empty() =~= acc.bytes);
                assert(old(out)@ + Seq::<u8>::empty() =~= old(out)@);
                lemma_logged_step(
                    acc.notes,
                    old(logger).state(),
                    Seq::empty(),
                    logger.state(),
                    old(logger).keeps(),
                );
                assert(acc.notes + Seq::<SpanNote>::empty() =~= acc.notes);
            }
        }
        let result = (self.total, self.changed);
        self.buf.clear();
        self.in_url = false;
        self.total = 0;
        self.changed = false;
        proof {
            self.fed = Ghost(Seq::empty());
            self.written = Ghost(Seq::empty());
            self.noted = Ghost(Seq::empty());
            lemma_resume_start(self.opts, cap);
            assert(self.buf@ =~= self.fed@.skip(0));
        }
        result
    }

    /// The window bounds what is kept: fewer bytes than its capacity, and
    /// outside a span fewer than the longest scheme prefix.
    pub proof fn lemma_window_bound(&self)
        requires
            self.wf(),
        ensures
            self.held() < self.capacity(),
            self.held() <= self.fed().len(),
            !self.inside_span() ==> self.held() < MAX_SCHEME_LEN,
    {
    }

    /// What has been written is never taken back: it is the start of what
    /// every stream that starts with the bytes fed comes to, and so are the
    /// pieces that a logger was told of.
    pub proof fn lemma_written_is_final(&self, w: Seq<u8>)
        requires
            self.wf(),
            extends(w, self.fed()),
        ensures
            self.written().len() <= stream_result(w, self.options(), self.capacity()).bytes.len(),
            stream_result(w, self.options(), self.capacity()).bytes.take(
                self.written().len() as int,
            ) == self.written(),
            self.notes().len() <= stream_result(w, self.options(), self.capacity()).notes.len(),
            stream_result(w, self.options(), self.capacity()).notes.take(
                self.notes().len() as int,
            ) == self.notes(),
    {
        let rest = resolve_from(
            w,
            self.resolved(),
            self.in_url,
            self.opts,
            self.capacity as int,
        );
        assert(stream_result(w, self.opts, self.capacity as int) == self.acc().join(rest));
        assert((self.written@ + rest.bytes).take(self.written@.len() as int) =~= self.written@);
        assert((self.noted@ + rest.notes).take(self.noted@.len() as int) =~= self.noted@);
    }
}

} // verus!
