//! Decoding what is in memory: a stream given as bytes or as a series of
//! reads, and a string.

use crate::error::Error;
use crate::laws::{lemma_capacity_is_free, lemma_validated_output_is_utf8};
use crate::log::{DecodeLogger, NoOpLogger};
use crate::stream::{saturated, window_capacity, Decoder, IO_BUF_SIZE};
use crate::text::{decode_text, stream_result, text_changed, Options};
use vstd::prelude::*;
use vstd::string::StringSliceAdditionalSpecFns;
use vstd::utf8::{decode_utf8, encode_utf8_valid_utf8, valid_utf8};

verus! {

/// The bytes of the first `n` reads, one read after the other.
pub open spec fn joined(reads: Seq<Vec<u8>>, n: int) -> Seq<u8>
    decreases n,
{
    if n <= 0 {
        Seq::empty()
    } else {
        joined(reads, n - 1) + reads[n - 1]@
    }
}

/// The whole stream that arrives as `reads`.
pub open spec fn stream_of(reads: Seq<Vec<u8>>) -> Seq<u8> {
    joined(reads, reads.len() as int)
}

/// A stream that arrives as one read is that read, and one that arrives as
/// two reads is the first followed by the second.
pub proof fn lemma_stream_of_reads(whole: Vec<u8>, first: Vec<u8>, second: Vec<u8>)
    ensures
        stream_of(seq![whole]) == whole@,
        stream_of(seq![first, second]) == first@ + second@,
{
    reveal_with_fuel(joined, 3);
    assert(Seq::<u8>::empty() + whole@ =~= whole@);
    assert(Seq::<u8>::empty() + first@ + second@ =~= first@ + second@);
}

/// Decodes a stream that arrives as a series of reads, with a window of
/// `capacity` bytes, and returns what is written, how many bytes were read
/// and whether any triplet was replaced. Only the bytes of the stream count:
/// where one read ends and the next begins does not show in the result.
pub fn decode_reads(reads: &Vec<Vec<u8>>, opts: Options, capacity: usize) -> (result: (
    Vec<u8>,
    u64,
    bool,
))
    ensures
        result.0@ == stream_result(stream_of(reads@), opts, window_capacity(capacity)).bytes,
        result.1 == saturated(stream_of(reads@).len() as int),
        result.2 == stream_result(stream_of(reads@), opts, window_capacity(capacity)).changed,
{
    let mut decoder = Decoder::with_capacity(opts, capacity);
    let mut logger = NoOpLogger::new();
    let mut out: Vec<u8> = Vec::new();
    let mut i: usize = 0;
    while i < reads.len()
        invariant
            i <= reads.len(),
            decoder.wf(),
            decoder.fed() == joined(reads@, i as int),
            decoder.options() == opts,
            decoder.capacity() == window_capacity(capacity),
            out@ == decoder.written(),
        decreases reads.len() - i,
    {
        let ghost before = decoder.written();
        decoder.feed(reads[i].as_slice(), &mut out, &mut logger);
        assert(out@ =~= decoder.written()) by {
            assert(decoder.written() =~= decoder.written().take(before.len() as int)
                + decoder.written().skip(before.len() as int));
        }
        i += 1;
    }
    let ghost before = decoder.written();
    let ghost whole = decoder.stream().bytes;
    let (total, changed) = decoder.finish(&mut out, &mut logger);
    assert(out@ =~= whole) by {
        assert(whole =~= whole.take(before.len() as int) + whole.skip(before.len() as int));
    }
    (out, total, changed)
}

/// Decodes the stream `input` onto the end of `out`, and returns how many
/// bytes were read and whether any triplet was replaced.
///
/// `verbose` asks for a report of the spans that were changed; none is kept
/// here, and the flag changes nothing of what is written. A `VerboseLogger`
/// handed to a `Decoder` keeps that report.
pub fn decode_stream(input: &[u8], out: &mut Vec<u8>, escape_space: bool, verbose: bool) -> (result:
    (u64, bool))
    ensures
        final(out)@ == old(out)@ + decode_text(input@, escape_space),
        result.0 == input@.len(),
        result.1 == text_changed(input@, escape_space),
{
    let opts = Options { escape_space, validate_utf8: false };
    let mut decoder = Decoder::new(opts);
    let mut logger = NoOpLogger::new();
    decoder.feed(input, out, &mut logger);
    let ghost before = decoder.written();
    let ghost whole = decoder.stream().bytes;
    let ghost mid = out@;
    assert(mid =~= old(out)@ + before) by {
        assert(before.skip(0) =~= before);
    }
    assert(decoder.fed() =~= input@);
    let result = decoder.finish(out, &mut logger);
    proof {
        assert(input.len() == input@.len());
        assert(whole =~= whole.take(before.len() as int) + whole.skip(before.len() as int));
        assert(out@ =~= old(out)@ + whole);
        lemma_capacity_is_free(input@, escape_space, IO_BUF_SIZE as int);
    }
    result
}

/// A result by the text it holds, `None` for a failure.
pub open spec fn outcome<E>(r: Result<(String, bool), E>) -> Option<(Seq<char>, bool)> {
    match r {
        Ok(pair) => Some((pair.0@, pair.1)),
        Err(_) => None,
    }
}

/// What decoding gives for a string of the bytes `bytes`: the decoded text
/// and whether any triplet was replaced, or `None` where the decoded bytes
/// are not valid UTF-8.
pub open spec fn string_outcome(bytes: Seq<u8>, escape_space: bool) -> Option<(Seq<char>, bool)> {
    if valid_utf8(decode_text(bytes, escape_space)) {
        Some((decode_utf8(decode_text(bytes, escape_space)), text_changed(bytes, escape_space)))
    } else {
        None
    }
}

/// Decodes the URLs in a string, and returns the decoded string and whether
/// any triplet was replaced. Fails where the decoded bytes are not valid
/// UTF-8, which a triplet can bring about.
///
/// `verbose` is as for `decode_stream`.
pub fn decode_str(input: &str, escape_space: bool, verbose: bool) -> (result: Result<
    (String, bool),
    Error,
>)
    ensures
        outcome(result) == string_outcome(input.spec_bytes(), escape_space),
        result matches Err(e) ==> e is InvalidUtf8,
{
    let mut buf: Vec<u8> = Vec::new();
    let (_, changed) = decode_stream(input.as_bytes(), &mut buf, escape_space, verbose);
    assert(buf@ =~= decode_text(input.spec_bytes(), escape_space));
    match String::from_utf8(buf) {
        Ok(text) => Ok((text, changed)),
        Err(_) => Err(Error::InvalidUtf8),
    }
}

/// The options of validated decoding.
pub open spec fn safe_options(escape_space: bool) -> Options {
    Options { escape_space, validate_utf8: true }
}

/// Decodes the URLs in a string with validation: a piece of a span whose
/// decoded bytes are not valid UTF-8 is kept as it was. Returns the decoded
/// string and whether any triplet was replaced; this never fails.
///
/// `verbose` is as for `decode_stream`.
pub fn decode_str_safe(input: &str, escape_space: bool, verbose: bool) -> (result: Result<
    (String, bool),
    Error,
>)
    ensures
        valid_utf8(stream_result(input.spec_bytes(), safe_options(escape_space), IO_BUF_SIZE as int).bytes),
        result matches Ok(pair) && pair.0@ == decode_utf8(
            stream_result(input.spec_bytes(), safe_options(escape_space), IO_BUF_SIZE as int).bytes,
        ) && pair.1 == stream_result(
            input.spec_bytes(),
            safe_options(escape_space),
            IO_BUF_SIZE as int,
        ).changed,
{
    let opts = Options { escape_space, validate_utf8: true };
    let mut decoder = Decoder::new(opts);
    let mut logger = NoOpLogger::new();
    let mut buf: Vec<u8> = Vec::new();
    decoder.feed(input.as_bytes(), &mut buf, &mut logger);
    let ghost before = decoder.written();
    let ghost whole = decoder.stream().bytes;
    assert(buf@ =~= before) by {
        assert(before.skip(0) =~= before);
    }
    assert(decoder.fed() =~= input.spec_bytes());
    let (_, changed) = decoder.finish(&mut buf, &mut logger);
    proof {
        assert(whole =~= whole.take(before.len() as int) + whole.skip(before.len() as int));
        assert(buf@ =~= whole);
        encode_utf8_valid_utf8(input@);
        lemma_validated_output_is_utf8(input.spec_bytes(), opts, IO_BUF_SIZE as int);
    }
    match String::from_utf8(buf) {
        Ok(text) => Ok((text, changed)),
        Err(_) => Err(Error::InvalidUtf8),
    }
}

} // verus!
