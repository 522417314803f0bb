use urldecoder::code::{
    contains_bytes, decode_url_in_code, decode_url_in_code_safe, decode_url_strict, judge,
    replace_matches, rewrite_url, test_scenario, Verdict,
};
use urldecoder::error::Error;

#[test]
fn test_decode_url_in_code() {
    assert_eq!(
        decode_url_in_code(
            "https://www.baidu.com/s?ie=UTF-8&wd=%E5%A4%A9%E6%B0%94",
            false
        ),
        ("https://www.baidu.com/s?ie=UTF-8&wd=天气".into(), true)
    );
    assert_eq!(
        decode_url_in_code(
            "https://www.baidu.com/s?ie=UTF-8&wd=%E5%A4%A9%E6%B0%94天气",
            false
        ),
        ("https://www.baidu.com/s?ie=UTF-8&wd=天气天气".into(), true)
    );
    assert_eq!(
        decode_url_in_code(
            "https://www.baidu.com/s?ie=UTF-8&wd=%E5%A4%A9%E6%B0%94)(",
            false
        ),
        ("https://www.baidu.com/s?ie=UTF-8&wd=天气)(".into(), true)
    );
    assert_eq!(
        decode_url_in_code(
            r#""https://www.baidu.com/s?ie=UTF-8&wd=%E5%A4%A9%E6%B0%94""#,
            false
        ),
        (r#""https://www.baidu.com/s?ie=UTF-8&wd=天气""#.into(), true)
    );
    // escape space
    assert_eq!(
        decode_url_in_code(
            "https://osu.ppy.sh/beatmapsets?q=malody%204k%20extra%20dan%20v3%E4%B8%AD",
            true
        ),
        (
            "https://osu.ppy.sh/beatmapsets?q=malody%204k%20extra%20dan%20v3中".into(),
            true
        )
    );
    // nothing happens
    assert_eq!(
        decode_url_in_code("https://osu.ppy.sh", true),
        ("https://osu.ppy.sh".into(), false)
    );
}

#[test]
fn pattern_decoder_keeps_text_between_urls() {
    let code = "see http://a.b/%41, and (https://c.d/%42%20x); end";
    assert_eq!(
        decode_url_in_code(code, false),
        ("see http://a.b/A, and (https://c.d/B x); end".to_string(), true)
    );
    assert_eq!(
        decode_url_in_code(code, true),
        ("see http://a.b/A, and (https://c.d/B%20x); end".to_string(), true)
    );
}

#[test]
fn pattern_decoder_keeps_a_url_that_is_not_utf8() {
    assert_eq!(
        decode_url_in_code("http://a.b/%FF and http://a.b/%41", false),
        ("http://a.b/%FF and http://a.b/A".to_string(), true)
    );
    assert_eq!(decode_url_strict("http://a.b/%FF and http://a.b/%41", false), Err(()));
    assert_eq!(
        decode_url_strict("http://a.b/%41", false),
        Ok(("http://a.b/A".to_string(), true))
    );
}

#[test]
fn safe_variant_hands_back_text_without_http() {
    assert_eq!(
        decode_url_in_code_safe("no url here, 100%41", false),
        ("no url here, 100%41".to_string(), false)
    );
    assert_eq!(
        decode_url_in_code_safe("x https://a.b/%41 y", false),
        ("x https://a.b/A y".to_string(), true)
    );
    assert_eq!(
        decode_url_strict("nothing %FF to see", true),
        Ok(("nothing %FF to see".to_string(), false))
    );
}

#[test]
fn rewrite_url_cases() {
    assert_eq!(
        rewrite_url("http://a.b/c", false, false),
        Some(("http://a.b/c".to_string(), false))
    );
    assert_eq!(
        rewrite_url("http://a.b/%20", true, false),
        Some(("http://a.b/%20".to_string(), false))
    );
    assert_eq!(
        rewrite_url("http://a.b/%20", false, false),
        Some(("http://a.b/ ".to_string(), true))
    );
    assert_eq!(
        rewrite_url("http://a.b/%e4%b8%ad%20", true, true),
        Some(("http://a.b/中%20".to_string(), true))
    );
    assert_eq!(rewrite_url("http://a.b/%ff", false, true), None);
    assert_eq!(
        rewrite_url("http://a.b/%ff", false, false),
        Some(("http://a.b/%ff".to_string(), false))
    );
    // a malformed escape is kept by the outside decoder
    assert_eq!(
        rewrite_url("http://a.b/%4", false, true),
        Some(("http://a.b/%4".to_string(), false))
    );
}

#[test]
fn replace_matches_splices_at_the_given_ranges() {
    let code = "ab%41cd%42ef";
    let matches = vec![(2usize, 5usize), (7usize, 10usize)];
    assert_eq!(
        replace_matches(code, &matches, false, false),
        Some(("abAcdBef".to_string(), true))
    );
    let none: Vec<(usize, usize)> = Vec::new();
    assert_eq!(
        replace_matches(code, &none, false, true),
        Some((code.to_string(), false))
    );
    let multibyte = "天%41气";
    assert_eq!(
        replace_matches(multibyte, &vec![(3usize, 6usize)], false, true),
        Some(("天A气".to_string(), true))
    );
    assert_eq!(replace_matches("x%FFy", &vec![(1usize, 4usize)], false, true), None);
}

#[test]
fn contains_bytes_finds_a_needle() {
    assert!(contains_bytes(b"say http", b"http"));
    assert!(contains_bytes(b"http", b"http"));
    assert!(!contains_bytes(b"htt", b"http"));
    assert!(!contains_bytes(b"h t t p", b"http"));
    assert!(contains_bytes(b"", b""));
    assert!(contains_bytes(b"abc", b""));
    assert!(!contains_bytes(b"", b"a"));
}

#[test]
fn judge_tells_the_cases_apart() {
    let ok = |s: &str, c: bool| -> Result<(String, bool), ()> { Ok((s.to_string(), c)) };
    let mine = |s: &str, c: bool| -> Result<(String, bool), Error> { Ok((s.to_string(), c)) };
    assert_eq!(judge(&ok("a", true), &mine("a", true)), Verdict::Agree);
    assert_eq!(judge(&ok("a", true), &mine("b", true)), Verdict::OutputMismatch);
    assert_eq!(judge(&ok("a", true), &mine("a", false)), Verdict::FlagMismatch);
    assert_eq!(judge(&Err(()), &mine("a", false)), Verdict::SafetyViolation);
    assert_eq!(judge(&ok("a", true), &Err(Error::InvalidUtf8)), Verdict::FalseNegative);
    assert_eq!(judge(&Err(()), &Err(Error::InvalidUtf8)), Verdict::BothFail);
}

#[test]
fn both_decoders_agree_on_plain_cases() {
    for escape_space in [false, true] {
        assert_eq!(
            test_scenario(
                "x https://www.baidu.com/s?ie=UTF-8&wd=%E5%A4%A9%E6%B0%94%20. y",
                escape_space
            ),
            Verdict::Agree
        );
        assert_eq!(test_scenario("no url at all", escape_space), Verdict::Agree);
        assert_eq!(test_scenario("http://a.b/%FF", escape_space), Verdict::BothFail);
    }
}
