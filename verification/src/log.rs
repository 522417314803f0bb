//! Observers of a decode: told of each span that is written, with its bytes
//! before and after decoding.

use crate::percent::append_bytes;
use crate::text::SpanNote;
use vstd::prelude::*;
use vstd::slice::slice_subrange;

verus! {

/// An observer of the spans that a decode writes. For each piece of a span
/// that is written it is cleared, given the bytes read and the bytes written,
/// and told whether they differ.
///
/// A logger that keeps what it is told says so by `keeps`, and then `state`
/// follows each call as stated here. Of a logger that does not, nothing is
/// stated.
pub trait DecodeLogger {
    /// Whether this logger keeps what it is told.
    spec fn keeps(&self) -> bool;

    /// What the logger holds.
    spec fn state(&self) -> LogState;

    fn new() -> (logger: Self) where Self: Sized
        ensures
            logger.keeps() ==> logger.state() == LogState::empty(),
    ;

    fn log_orig(&mut self, byte: u8)
        ensures
            final(self).keeps() == old(self).keeps(),
            old(self).keeps() ==> final(self).state() == old(self).state().with_orig(seq![byte]),
    ;

    fn log_orig_slice(&mut self, slice: &[u8])
        ensures
            final(self).keeps() == old(self).keeps(),
            old(self).keeps() ==> final(self).state() == old(self).state().with_orig(slice@),
    ;

    fn log_res(&mut self, byte: u8)
        ensures
            final(self).keeps() == old(self).keeps(),
            old(self).keeps() ==> final(self).state() == old(self).state().with_res(seq![byte]),
    ;

    fn log_res_slice(&mut self, slice: &[u8])
        ensures
            final(self).keeps() == old(self).keeps(),
            old(self).keeps() ==> final(self).state() == old(self).state().with_res(slice@),
    ;

    fn print_if_changed(&mut self, changed: bool)
        ensures
            final(self).keeps() == old(self).keeps(),
            old(self).keeps() ==> final(self).state() == old(self).state().reported(changed),
    ;

    fn clear(&mut self)
        ensures
            final(self).keeps() == old(self).keeps(),
            old(self).keeps() ==> final(self).state() == old(self).state().cleared(),
    ;
}

/// The observer that ignores everything.
pub struct NoOpLogger;

impl DecodeLogger for NoOpLogger {
    open spec fn keeps(&self) -> bool {
        false
    }

    open spec fn state(&self) -> LogState {
        LogState::empty()
    }

    fn new() -> Self {
        NoOpLogger
    }

    fn log_orig(&mut self, byte: u8) {
    }

    fn log_orig_slice(&mut self, slice: &[u8]) {
    }

    fn log_res(&mut self, byte: u8) {
    }

    fn log_res_slice(&mut self, slice: &[u8]) {
    }

    fn print_if_changed(&mut self, changed: bool) {
    }

    fn clear(&mut self) {
    }
}

/// How many decoded bytes of a span are kept for the report.
pub const LOG_RES_CAPACITY: usize = 256;

/// How many bytes of a span as read are kept for the report.
pub const LOG_ORIG_CAPACITY: usize = 768;

/// A log `log` after `more` was offered to it, with room for `limit` bytes.
pub open spec fn capped(log: Seq<u8>, more: Seq<u8>, limit: int) -> Seq<u8> {
    if log.len() + more.len() <= limit {
        log + more
    } else if log.len() < limit {
        log + more.take(limit - log.len())
    } else {
        log
    }
}

/// Start of the line that shows a span as read: red, `- `.
pub open spec fn removed_line_start() -> Seq<u8> {
    seq![0x1bu8, 0x5bu8, 0x33u8, 0x31u8, 0x6du8, 0x2du8, 0x20u8]
}

/// End of that line and start of the line that shows the span as written:
/// reset, line feed, green, `+ `.
pub open spec fn added_line_start() -> Seq<u8> {
    seq![
        0x1bu8,
        0x5bu8,
        0x30u8,
        0x6du8,
        0x0au8,
        0x1bu8,
        0x5bu8,
        0x33u8,
        0x32u8,
        0x6du8,
        0x2bu8,
        0x20u8,
    ]
}

/// End of the second line: reset, line feed.
pub open spec fn line_end() -> Seq<u8> {
    seq![0x1bu8, 0x5bu8, 0x30u8, 0x6du8, 0x0au8]
}

/// The three dots that mark a log that was cut at its capacity.
pub open spec fn ellipsis() -> Seq<u8> {
    seq![0x2eu8, 0x2eu8, 0x2eu8]
}

/// A log as it is shown: followed by the dots where it is full.
pub open spec fn shown(log: Seq<u8>, limit: int) -> Seq<u8> {
    if log.len() == limit {
        log + ellipsis()
    } else {
        log
    }
}

/// The two lines reported for a span: what was read, and what was written.
pub open spec fn diff_lines(orig: Seq<u8>, res: Seq<u8>) -> Seq<u8> {
    removed_line_start() + shown(orig, LOG_ORIG_CAPACITY as int) + added_line_start() + shown(
        res,
        LOG_RES_CAPACITY as int,
    ) + line_end()
}

/// What a logger holds: the start of the piece under way, as read and as
/// written, and what it has reported.
pub struct LogState {
    pub orig: Seq<u8>,
    pub res: Seq<u8>,
    pub printed: Seq<u8>,
}

impl LogState {
    /// Nothing held, nothing reported.
    pub open spec fn empty() -> LogState {
        LogState { orig: Seq::empty(), res: Seq::empty(), printed: Seq::empty() }
    }

    /// After bytes as read were logged.
    pub open spec fn with_orig(self, more: Seq<u8>) -> LogState {
        LogState {
            orig: capped(self.orig, more, LOG_ORIG_CAPACITY as int),
            res: self.res,
            printed: self.printed,
        }
    }

    /// After bytes as written were logged.
    pub open spec fn with_res(self, more: Seq<u8>) -> LogState {
        LogState {
            orig: self.orig,
            res: capped(self.res, more, LOG_RES_CAPACITY as int),
            printed: self.printed,
        }
    }

    /// After the piece was reported, if it was changed.
    pub open spec fn reported(self, changed: bool) -> LogState {
        if changed {
            LogState {
                orig: self.orig,
                res: self.res,
                printed: self.printed + diff_lines(self.orig, self.res),
            }
        } else {
            self
        }
    }

    /// After the logs of the piece were cleared.
    pub open spec fn cleared(self) -> LogState {
        LogState { orig: Seq::empty(), res: Seq::empty(), printed: self.printed }
    }

    /// After a whole piece: cleared, given the bytes read and the bytes
    /// written, and told whether they differ.
    pub open spec fn noted(self, read: Seq<u8>, written: Seq<u8>, changed: bool) -> LogState {
        self.cleared().with_orig(read).with_res(written).reported(changed)
    }
}

/// What a logger holds after it was told of the pieces `notes`, one after
/// the other.
pub open spec fn told(state: LogState, notes: Seq<SpanNote>) -> LogState
    decreases notes.len(),
{
    if notes.len() == 0 {
        state
    } else {
        let note = notes.last();
        told(state, notes.drop_last()).noted(note.read, note.written, note.changed)
    }
}

/// Telling of two series of pieces, one after the other, is telling of the
/// two joined.
pub proof fn lemma_told_joined(state: LogState, first: Seq<SpanNote>, second: Seq<SpanNote>)
    ensures
        told(told(state, first), second) == told(state, first + second),
    decreases second.len(),
{
    if second.len() == 0 {
        assert(first + second =~= first);
    } else {
        lemma_told_joined(state, first, second.drop_last());
        assert((first + second).drop_last() =~= first + second.drop_last());
        assert((first + second).last() == second.last());
    }
}

/// Appends `byte` to `vec` unless `vec` holds `limit` bytes or more.
pub fn push_limit(vec: &mut Vec<u8>, byte: u8, limit: usize)
    ensures
        final(vec)@ == if old(vec)@.len() < limit {
            old(vec)@.push(byte)
        } else {
            old(vec)@
        },
{
    if vec.len() < limit {
        vec.push(byte);
    }
}

/// Appends to `vec` as many bytes of `slice` as fit below `limit`.
fn extend_limit(vec: &mut Vec<u8>, slice: &[u8], limit: usize)
    ensures
        final(vec)@ == capped(old(vec)@, slice@, limit as int),
{
    if vec.len() < limit {
        let room = limit - vec.len();
        if slice.len() <= room {
            append_bytes(vec, slice);
        } else {
            append_bytes(vec, slice_subrange(slice, 0, room));
        }
    }
}

/// The observer that keeps the start of each span, as read and as written,
/// and adds two lines to its report for each span that was changed.
pub struct VerboseLogger {
    res: Vec<u8>,
    orig: Vec<u8>,
    report: Vec<u8>,
}

impl VerboseLogger {
    /// Hands out the report and starts a new one.
    pub fn take_report(&mut self) -> (lines: Vec<u8>)
        ensures
            lines@ == old(self).state().printed,
            final(self).state() == (LogState {
                orig: old(self).state().orig,
                res: old(self).state().res,
                printed: Seq::empty(),
            }),
    {
        let mut lines: Vec<u8> = Vec::new();
        lines.append(&mut self.report);
        assert(lines@ =~= old(self).state().printed);
        lines
    }

    /// Adds the two lines of the current span to the report.
    fn print_impl(&mut self)
        ensures
            final(self).state() == old(self).state().reported(true),
    {
        let removed: [u8; 7] = [0x1b, 0x5b, 0x33, 0x31, 0x6d, 0x2d, 0x20];
        let added: [u8; 12] = [
            0x1b, 0x5b, 0x30, 0x6d, 0x0a, 0x1b, 0x5b, 0x33, 0x32, 0x6d, 0x2b, 0x20,
        ];
        let end: [u8; 5] = [0x1b, 0x5b, 0x30, 0x6d, 0x0a];
        let dots: [u8; 3] = [0x2e, 0x2e, 0x2e];
        assert(removed@ =~= removed_line_start());
        assert(added@ =~= added_line_start());
        assert(end@ =~= line_end());
        assert(dots@ =~= ellipsis());
        append_bytes(&mut self.report, removed.as_slice());
        append_bytes(&mut self.report, self.orig.as_slice());
        if self.orig.len() == LOG_ORIG_CAPACITY {
            append_bytes(&mut self.report, dots.as_slice());
        }
        append_bytes(&mut self.report, added.as_slice());
        append_bytes(&mut self.report, self.res.as_slice());
        if self.res.len() == LOG_RES_CAPACITY {
            append_bytes(&mut self.report, dots.as_slice());
        }
        append_bytes(&mut self.report, end.as_slice());
        assert(self.report@ =~= old(self).report@ + diff_lines(old(self).orig@, old(self).res@));
    }
}

impl DecodeLogger for VerboseLogger {
    open spec fn keeps(&self) -> bool {
        true
    }

    closed spec fn state(&self) -> LogState {
        LogState { orig: self.orig@, res: self.res@, printed: self.report@ }
    }

    fn new() -> (logger: Self) {
        VerboseLogger { res: Vec::new(), orig: Vec::new(), report: Vec::new() }
    }

    fn log_orig(&mut self, byte: u8) {
        push_limit(&mut self.orig, byte, LOG_ORIG_CAPACITY);
        assert(old(self).orig@.push(byte) =~= old(self).orig@ + seq![byte]);
        assert(seq![byte].take(1) =~= seq![byte]);
    }

    fn log_orig_slice(&mut self, slice: &[u8]) {
        extend_limit(&mut self.orig, slice, LOG_ORIG_CAPACITY);
    }

    fn log_res(&mut self, byte: u8) {
        push_limit(&mut self.res, byte, LOG_RES_CAPACITY);
        assert(old(self).res@.push(byte) =~= old(self).res@ + seq![byte]);
        assert(seq![byte].take(1) =~= seq![byte]);
    }

    fn log_res_slice(&mut self, slice: &[u8]) {
        extend_limit(&mut self.res, slice, LOG_RES_CAPACITY);
    }

    fn print_if_changed(&mut self, changed: bool) {
        if !changed {
            return ;
        }
        self.print_impl();
    }

    fn clear(&mut self) {
        self.res.clear();
        self.orig.clear();
    }
}

} // verus!
