use urldecoder::decode::{decode_reads, decode_str, decode_stream};
use urldecoder::error::Error;
use urldecoder::log::{DecodeLogger, NoOpLogger, VerboseLogger};
use urldecoder::stream::{Decoder, IO_BUF_SIZE};
use urldecoder::text::Options;

fn plain(escape_space: bool) -> Options {
    Options { escape_space, validate_utf8: false }
}

fn validating(escape_space: bool) -> Options {
    Options { escape_space, validate_utf8: true }
}

fn one_read(input: &[u8], opts: Options, capacity: usize) -> (Vec<u8>, u64, bool) {
    decode_reads(&vec![input.to_vec()], opts, capacity)
}

#[test]
fn text_without_percent_is_untouched() {
    for text in [
        "",
        "plain text, no url",
        "https://osu.ppy.sh",
        "(http://a.b/c?d=e&f=g#h), https://x.y/z!",
        "hhhhttp://a.b https:/ http:// h",
    ] {
        for escape_space in [false, true] {
            assert_eq!(
                decode_str(text, escape_space, false).unwrap(),
                (text.to_string(), false)
            );
            for capacity in [8usize, 9, 16, 64] {
                for opts in [plain(escape_space), validating(escape_space)] {
                    assert_eq!(
                        one_read(text.as_bytes(), opts, capacity),
                        (text.as_bytes().to_vec(), text.len() as u64, false)
                    );
                }
            }
        }
    }
}

#[test]
fn every_triplet_gives_one_byte() {
    // every printable ASCII byte, written as a triplet
    let mut url = String::from("https://x.com/");
    let mut expected = String::from("https://x.com/");
    for b in 0x20u8..0x7f {
        url.push_str(&format!("%{:02X}", b));
        expected.push(b as char);
    }
    let first = decode_str(&url, false, false).unwrap();
    assert_eq!(first, (expected.clone(), true));
    assert_eq!(first.0.len(), url.len() - 2 * 95);
    // the same on a second run, and with lower-case digits
    assert_eq!(decode_str(&url, false, false).unwrap(), first);
    assert_eq!(decode_str(&url.to_lowercase(), false, false).unwrap(), first);
}

#[test]
fn two_reads_give_what_one_read_gives() {
    let inputs: [&str; 6] = [
        "(https://x.com/%41)",
        "see https://www.baidu.com/s?ie=UTF-8&wd=%E5%A4%A9%E6%B0%94, then http://a.b/%20%2",
        "hhttp://a%2",
        "text h ht htt http http: http:/ http:// https:/ https://%41%",
        "https://x.com/a%20b. Next: https://y.org/%e4%b8%ad%e6%96%87!",
        "天气 https://x.com/天%41气 end",
    ];
    for input in inputs {
        let bytes = input.as_bytes();
        for escape_space in [false, true] {
            for capacity in [8usize, 11, 32, IO_BUF_SIZE] {
                let whole = one_read(bytes, plain(escape_space), capacity);
                assert_eq!(
                    whole,
                    one_read(bytes, plain(escape_space), IO_BUF_SIZE),
                    "capacity {} on {:?}",
                    capacity,
                    input
                );
                for at in 0..=bytes.len() {
                    let reads = vec![bytes[..at].to_vec(), bytes[at..].to_vec()];
                    assert_eq!(
                        decode_reads(&reads, plain(escape_space), capacity),
                        whole,
                        "split at {} of {:?}",
                        at,
                        input
                    );
                }
            }
            // validating: the same for each capacity, wherever the reads end
            for capacity in [8usize, 11, 32] {
                let whole = one_read(bytes, validating(escape_space), capacity);
                for at in 0..=bytes.len() {
                    let reads = vec![bytes[..at].to_vec(), bytes[at..].to_vec()];
                    assert_eq!(decode_reads(&reads, validating(escape_space), capacity), whole);
                }
            }
        }
    }
}

#[test]
fn byte_by_byte_reads_give_the_same() {
    let input = "a (https://www.baidu.com/s?ie=UTF-8&wd=%E5%A4%A9%E6%B0%94). b http://x/%20";
    let whole = one_read(input.as_bytes(), plain(false), IO_BUF_SIZE);
    let reads: Vec<Vec<u8>> = input.bytes().map(|b| vec![b]).collect();
    assert_eq!(decode_reads(&reads, plain(false), 8), whole);
    assert_eq!(
        String::from_utf8(whole.0).unwrap(),
        "a (https://www.baidu.com/s?ie=UTF-8&wd=天气). b http://x/ "
    );
    assert_eq!(whole.1, input.len() as u64);
    assert!(whole.2);
    let empty: Vec<Vec<u8>> = Vec::new();
    assert_eq!(decode_reads(&empty, plain(false), 8), (Vec::new(), 0, false));
}

#[test]
fn closing_parenthesis_is_not_part_of_the_url() {
    assert_eq!(
        decode_str("(https://x.com/%41)", false, false).unwrap(),
        ("(https://x.com/A)".to_string(), true)
    );
    // trailing punctuation is kept as it is, and what follows is outside
    assert_eq!(
        decode_str("https://x.com/%41.,;:! %42", false, false).unwrap(),
        ("https://x.com/A.,;:! %42".to_string(), true)
    );
}

#[test]
fn space_escape_policy() {
    assert_eq!(
        decode_str("https://x.com/a%20b", true, false).unwrap(),
        ("https://x.com/a%20b".to_string(), false)
    );
    assert_eq!(
        decode_str("https://x.com/a%20b", false, false).unwrap(),
        ("https://x.com/a b".to_string(), true)
    );
}

#[test]
fn scenario_query_in_chinese() {
    assert_eq!(
        decode_str("https://www.baidu.com/s?ie=UTF-8&wd=%E5%A4%A9%E6%B0%94", false, false).unwrap(),
        ("https://www.baidu.com/s?ie=UTF-8&wd=天气".to_string(), true)
    );
}

#[test]
fn scenario_nothing_to_decode() {
    for escape_space in [false, true] {
        for verbose in [false, true] {
            assert_eq!(
                decode_str("https://osu.ppy.sh", escape_space, verbose).unwrap(),
                ("https://osu.ppy.sh".to_string(), false)
            );
        }
    }
}

#[test]
fn huge_url_is_decoded_whole() {
    let mut url = String::from("https://www.baidu.com/s?ie=UTF-8&wd=%E5%A4%A9%E6%B0%94");
    for _ in 0..10000 {
        url.push_str("%20");
    }
    let expected = "https://www.baidu.com/s?ie=UTF-8&wd=天气".to_string() + &" ".repeat(10000);
    // a window far smaller than the URL: the span is cut again and again
    for capacity in [8usize, 9, 10, 100, 4096] {
        let (bytes, total, changed) = one_read(url.as_bytes(), plain(false), capacity);
        assert_eq!(String::from_utf8(bytes).unwrap(), expected);
        assert_eq!(total, url.len() as u64);
        assert!(changed);
    }
    // the window of 64 KiB, with a URL of more than 64 KiB
    let mut longer = url.clone();
    for _ in 0..20000 {
        longer.push_str("%20");
    }
    assert!(longer.len() > IO_BUF_SIZE);
    assert_eq!(
        decode_str(&longer, false, false).unwrap(),
        (expected + &" ".repeat(20000), true)
    );
    assert_eq!(decode_str(&longer, true, false).unwrap().0.len(), longer.len() - 12);
}

#[test]
fn malformed_escapes_are_kept() {
    assert_eq!(
        decode_str("http://a/%zz%4%%41%", false, false).unwrap(),
        ("http://a/%zz%4%A%".to_string(), true)
    );
    assert_eq!(
        decode_str("http://a/%4g%g4%", false, false).unwrap(),
        ("http://a/%4g%g4%".to_string(), false)
    );
    // outside a URL nothing is decoded
    assert_eq!(
        decode_str("100%41 ftp://a/%41", false, false).unwrap(),
        ("100%41 ftp://a/%41".to_string(), false)
    );
}

#[test]
fn invalid_utf8_is_reported_for_strings() {
    assert!(matches!(decode_str("http://a/%FF", false, false), Err(Error::InvalidUtf8)));
    assert!(matches!(decode_str("http://a/%E5%A4", true, false), Err(Error::InvalidUtf8)));
    assert!(decode_str("http://a/%E5%A4%A9", true, false).is_ok());
}

#[test]
fn validation_keeps_a_span_that_is_not_utf8() {
    let input = b"a http://a/%FF b http://a/%41 c";
    assert_eq!(
        one_read(input, validating(false), 64),
        (b"a http://a/%FF b http://a/A c".to_vec(), input.len() as u64, true)
    );
    assert_eq!(
        one_read(input, plain(false), 64),
        (b"a http://a/\xFF b http://a/A c".to_vec(), input.len() as u64, true)
    );
    assert_eq!(
        one_read(b"http://a/%FF.", validating(false), 64),
        (b"http://a/%FF.".to_vec(), 13, false)
    );
}

#[test]
fn decode_stream_appends_and_counts() {
    let mut out = b"kept:".to_vec();
    let result = decode_stream(b"x http://a/%41%20b. y", &mut out, true, false);
    assert_eq!(out, b"kept:x http://a/A%20b. y".to_vec());
    assert_eq!(result, (21, true));
    let mut out = Vec::new();
    assert_eq!(decode_stream(b"", &mut out, false, true), (0, false));
    assert!(out.is_empty());
}

#[test]
fn decoder_holds_back_what_is_not_resolved() {
    let mut decoder = Decoder::with_capacity(plain(false), 16);
    let mut logger = NoOpLogger::new();
    let mut out = Vec::new();
    decoder.feed(b"ab h", &mut out, &mut logger);
    assert_eq!(out, b"ab ".to_vec());
    decoder.feed(b"ttp", &mut out, &mut logger);
    assert_eq!(out, b"ab ".to_vec());
    decoder.feed(b"://x/%4", &mut out, &mut logger);
    assert_eq!(out, b"ab ".to_vec());
    decoder.feed(b"1 z", &mut out, &mut logger);
    assert_eq!(out, b"ab http://x/A z".to_vec());
    assert_eq!(decoder.finish(&mut out, &mut logger), (17, true));
    assert_eq!(out, b"ab http://x/A z".to_vec());
    // ready for the next stream
    let mut out = Vec::new();
    decoder.feed(b"http:/", &mut out, &mut logger);
    assert!(out.is_empty());
    assert_eq!(decoder.finish(&mut out, &mut logger), (6, false));
    assert_eq!(out, b"http:/".to_vec());
}

#[test]
fn decoder_cuts_a_span_that_fills_the_window() {
    let mut decoder = Decoder::with_capacity(plain(false), 10);
    let mut logger = NoOpLogger::new();
    let mut out = Vec::new();
    // ten URL bytes, the last of them a `%`: cut before it
    decoder.feed(b"http://a/%", &mut out, &mut logger);
    assert_eq!(out, b"http://a/".to_vec());
    decoder.feed(b"41", &mut out, &mut logger);
    assert_eq!(out, b"http://a/".to_vec());
    decoder.feed(b" ", &mut out, &mut logger);
    assert_eq!(out, b"http://a/A ".to_vec());
    assert_eq!(decoder.finish(&mut out, &mut logger), (13, true));
}

#[test]
fn small_capacity_is_raised_to_the_longest_prefix() {
    for capacity in [0usize, 1, 7] {
        assert_eq!(
            one_read(b"https://x/%41%42", plain(false), capacity),
            one_read(b"https://x/%41%42", plain(false), 8)
        );
    }
}

#[test]
fn verbose_logger_reports_changed_spans() {
    let mut decoder = Decoder::new(plain(false));
    let mut logger = VerboseLogger::new();
    let mut out = Vec::new();
    decoder.feed(b"a http://x/%41. b http://y/c d", &mut out, &mut logger);
    decoder.finish(&mut out, &mut logger);
    assert_eq!(out, b"a http://x/A. b http://y/c d".to_vec());
    let report = logger.take_report();
    assert_eq!(
        String::from_utf8(report).unwrap(),
        "\x1b[31m- http://x/%41\x1b[0m\n\x1b[32m+ http://x/A\x1b[0m\n"
    );
    assert!(logger.take_report().is_empty());
}

#[test]
fn verbose_logger_is_told_of_each_piece() {
    // a window of ten bytes: the span is cut, and each piece is reported
    let mut decoder = Decoder::with_capacity(plain(true), 10);
    let mut logger = VerboseLogger::new();
    let mut out = Vec::new();
    decoder.feed(b"http://a/%41%42%20%43,", &mut out, &mut logger);
    decoder.feed(b" x", &mut out, &mut logger);
    decoder.finish(&mut out, &mut logger);
    assert_eq!(out, b"http://a/AB%20C, x".to_vec());
    assert_eq!(
        String::from_utf8(logger.take_report()).unwrap(),
        concat_lines(&[("%41%42%20", "AB%20"), ("%43", "C")])
    );
}

fn concat_lines(pairs: &[(&str, &str)]) -> String {
    let mut text = String::new();
    for (read, written) in pairs {
        text.push_str(&format!("\x1b[31m- {}\x1b[0m\n\x1b[32m+ {}\x1b[0m\n", read, written));
    }
    text
}
