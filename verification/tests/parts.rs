use urldecoder::eol::{detect_line_ending, detect_lf_crlf, EndOfLine};
use urldecoder::exclude::{any_prefix_matched, in_exclude};
use urldecoder::file::{choose_strategy, replaces_file, FileStrategy, SMALL_FILE_THRESHOLD};
use urldecoder::log::{push_limit, DecodeLogger, VerboseLogger, LOG_ORIG_CAPACITY, LOG_RES_CAPACITY};
use urldecoder::percent::decode_chunk;
use urldecoder::scan::{check_url_prefix, starts_with, trim_url_end};
use urldecoder::tables::{from_hex, gen_hex_map, gen_url_map, is_hex, CharTables, NOT_HEX};
use std::path::PathBuf;

#[test]
fn url_map_holds_letters_digits_and_symbols() {
    let map = gen_url_map(b"-+&@#/%?=~_|!:,.;");
    let end_map = gen_url_map(b"-+&@#/%=~_|");
    for b in 0u8..=255 {
        let alnum = b.is_ascii_alphanumeric();
        assert_eq!(map[b as usize], alnum || b"-+&@#/%?=~_|!:,.;".contains(&b), "byte {}", b);
        assert_eq!(end_map[b as usize], alnum || b"-+&@#/%=~_|".contains(&b), "byte {}", b);
    }
    let none = gen_url_map(b"");
    assert!(none[b'a' as usize] && none[b'Z' as usize] && none[b'5' as usize]);
    assert!(!none[b'-' as usize] && !none[b' ' as usize] && !none[0] && !none[255]);
}

#[test]
fn char_tables_classify_as_the_maps_do() {
    let tables = CharTables::new();
    for b in 0u8..=255 {
        let alnum = b.is_ascii_alphanumeric();
        assert_eq!(tables.is_url_char(b), alnum || b"-+&@#/%?=~_|!:,.;".contains(&b));
        assert_eq!(tables.is_url_end_char(b), alnum || b"-+&@#/%=~_|".contains(&b));
    }
    assert!(tables.is_url_char(b'.') && !tables.is_url_end_char(b'.'));
    assert!(!tables.is_url_char(b')') && !tables.is_url_char(b'"') && !tables.is_url_char(b' '));
}

#[test]
fn hex_map_holds_digit_values() {
    let map = gen_hex_map();
    let tables = CharTables::new();
    for b in 0u8..=255 {
        let expected = match b {
            b'0'..=b'9' => b - b'0',
            b'a'..=b'f' => b - b'a' + 10,
            b'A'..=b'F' => b - b'A' + 10,
            _ => NOT_HEX,
        };
        assert_eq!(map[b as usize], expected);
        assert_eq!(from_hex(&tables, b), expected);
        assert_eq!(is_hex(&tables, b), expected != NOT_HEX);
    }
    assert_eq!(from_hex(&tables, b'F'), 15);
    assert_eq!(from_hex(&tables, b'a'), 10);
    assert!(!is_hex(&tables, b'g') && !is_hex(&tables, b'G') && !is_hex(&tables, b'%'));
}

#[test]
fn decode_chunk_rewrites_triplets() {
    let tables = CharTables::new();
    let mut out = b">".to_vec();
    assert!(decode_chunk(&tables, b"a%41%20%4a%", &mut out, false));
    assert_eq!(out, b">aA J%".to_vec());
    let mut out = Vec::new();
    assert!(decode_chunk(&tables, b"a%41%20%4a%", &mut out, true));
    assert_eq!(out, b"aA%20J%".to_vec());
    let mut out = Vec::new();
    assert!(!decode_chunk(&tables, b"%20%2%%g0%0g", &mut out, true));
    assert_eq!(out, b"%20%2%%g0%0g".to_vec());
    let mut out = Vec::new();
    assert!(decode_chunk(&tables, b"%00%ff%FF", &mut out, true));
    assert_eq!(out, vec![0u8, 255, 255]);
    let mut out = Vec::new();
    assert!(!decode_chunk(&tables, b"", &mut out, false));
    assert!(out.is_empty());
}

#[test]
fn url_prefix_is_http_or_https() {
    assert_eq!(check_url_prefix(b"http://"), Some(7));
    assert_eq!(check_url_prefix(b"http://x"), Some(7));
    assert_eq!(check_url_prefix(b"https://"), Some(8));
    assert_eq!(check_url_prefix(b"https://x.y"), Some(8));
    assert_eq!(check_url_prefix(b"https:/"), None);
    assert_eq!(check_url_prefix(b"http:/"), None);
    assert_eq!(check_url_prefix(b"Http://x"), None);
    assert_eq!(check_url_prefix(b"httpx://"), None);
    assert_eq!(check_url_prefix(b""), None);
    assert!(starts_with(b"abc", b"ab") && starts_with(b"abc", b"") && !starts_with(b"a", b"ab"));
}

#[test]
fn trailing_punctuation_is_trimmed() {
    let tables = CharTables::new();
    let (url, suffix) = trim_url_end(&tables, b"http://a.b/c.,;:!");
    assert_eq!((url, suffix), (&b"http://a.b/c"[..], &b".,;:!"[..]));
    let (url, suffix) = trim_url_end(&tables, b"http://a.b/?");
    assert_eq!((url, suffix), (&b"http://a.b/"[..], &b"?"[..]));
    let (url, suffix) = trim_url_end(&tables, b"http://a.b/%");
    assert_eq!((url, suffix), (&b"http://a.b/%"[..], &b""[..]));
    let (url, suffix) = trim_url_end(&tables, b"..");
    assert_eq!((url, suffix), (&b""[..], &b".."[..]));
    let (url, suffix) = trim_url_end(&tables, b"");
    assert_eq!((url, suffix), (&b""[..], &b""[..]));
}

#[test]
fn push_limit_stops_at_the_limit() {
    let mut v = vec![1u8, 2];
    push_limit(&mut v, 3, 3);
    assert_eq!(v, vec![1, 2, 3]);
    push_limit(&mut v, 4, 3);
    assert_eq!(v, vec![1, 2, 3]);
    push_limit(&mut v, 4, 0);
    assert_eq!(v, vec![1, 2, 3]);
}

#[test]
fn verbose_logger_caps_what_it_keeps() {
    let mut logger = VerboseLogger::new();
    logger.print_if_changed(false);
    assert!(logger.take_report().is_empty());
    logger.log_orig(b'a');
    logger.log_orig_slice(b"bc");
    logger.log_res(b'x');
    logger.log_res_slice(b"yz");
    logger.print_if_changed(true);
    assert_eq!(
        logger.take_report(),
        b"\x1b[31m- abc\x1b[0m\n\x1b[32m+ xyz\x1b[0m\n".to_vec()
    );
    logger.clear();
    logger.log_orig_slice(&vec![b'o'; LOG_ORIG_CAPACITY + 5]);
    logger.log_orig(b'!');
    logger.log_res_slice(&vec![b'r'; LOG_RES_CAPACITY - 1]);
    logger.log_res_slice(b"st");
    logger.log_res(b'!');
    logger.print_if_changed(true);
    let mut expected = b"\x1b[31m- ".to_vec();
    expected.extend(vec![b'o'; LOG_ORIG_CAPACITY]);
    expected.extend(b"...\x1b[0m\n\x1b[32m+ ");
    expected.extend(vec![b'r'; LOG_RES_CAPACITY - 1]);
    expected.extend(b"s...\x1b[0m\n");
    assert_eq!(logger.take_report(), expected);
}

#[test]
fn line_ending_is_that_of_the_last_line_feed() {
    assert_eq!(detect_lf_crlf(""), EndOfLine::LF);
    assert_eq!(detect_lf_crlf("no line feed\r"), EndOfLine::LF);
    assert_eq!(detect_lf_crlf("\n"), EndOfLine::LF);
    assert_eq!(detect_lf_crlf("\r\n"), EndOfLine::CRLF);
    assert_eq!(detect_lf_crlf("a\nb\r\nc"), EndOfLine::CRLF);
    assert_eq!(detect_lf_crlf("a\r\nb\nc"), EndOfLine::LF);
    assert_eq!(detect_line_ending(b"\xff\r\n\xfe"), EndOfLine::CRLF);
    assert_eq!(EndOfLine::LF.as_str(), "\n");
    assert_eq!(EndOfLine::CRLF.as_str(), "\r\n");
}

#[test]
fn exclude_list_is_matched_by_components() {
    assert!(!any_prefix_matched(&[]));
    assert!(!any_prefix_matched(&[false, false]));
    assert!(any_prefix_matched(&[false, true, false]));
    let file = PathBuf::from("node_modules/pkg/readme.md");
    assert!(in_exclude(&vec![PathBuf::from("node_modules")], &file));
    assert!(in_exclude(&vec![PathBuf::from("x"), PathBuf::from("node_modules/pkg")], &file));
    assert!(!in_exclude(&vec![PathBuf::from("node")], &file));
    assert!(!in_exclude(&vec![PathBuf::from("pkg")], &file));
}

#[test]
fn strategy_goes_by_size_and_dry_run() {
    assert_eq!(SMALL_FILE_THRESHOLD, 1024 * 1024);
    assert_eq!(choose_strategy(0, false), FileStrategy::InMemory);
    assert_eq!(choose_strategy(SMALL_FILE_THRESHOLD - 1, false), FileStrategy::InMemory);
    assert_eq!(choose_strategy(SMALL_FILE_THRESHOLD, false), FileStrategy::TempFile);
    assert_eq!(choose_strategy(u64::MAX, false), FileStrategy::TempFile);
    assert_eq!(choose_strategy(0, true), FileStrategy::DryRun);
    assert_eq!(choose_strategy(u64::MAX, true), FileStrategy::DryRun);
    assert!(replaces_file(FileStrategy::InMemory, true));
    assert!(replaces_file(FileStrategy::TempFile, true));
    assert!(!replaces_file(FileStrategy::DryRun, true));
    assert!(!replaces_file(FileStrategy::InMemory, false));
    assert!(!replaces_file(FileStrategy::TempFile, false));
}
