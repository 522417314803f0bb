use urldecoder::decode::{decode_str, decode_str_safe};

#[test]
fn test_basic() {
    // basic
    assert_eq!(
        decode_str(
            "https://www.baidu.com/s?ie=UTF-8&wd=%E5%A4%A9%E6%B0%94",
            false,
            false
        )
        .unwrap(),
        ("https://www.baidu.com/s?ie=UTF-8&wd=天气".into(), true)
    );
    // symbol end
    assert_eq!(
        decode_str(
            "(https://www.baidu.com/s?ie=UTF-8&wd=%E5%A4%A9%E6%B0%94)",
            false,
            false
        )
        .unwrap(),
        ("(https://www.baidu.com/s?ie=UTF-8&wd=天气)".into(), true)
    );
    // escape space
    assert_eq!(
        decode_str(
            "https://osu.ppy.sh/beatmapsets?q=malody%204k%20extra%20dan%20v3%E4%B8%AD",
            true,
            true
        )
        .unwrap(),
        (
            "https://osu.ppy.sh/beatmapsets?q=malody%204k%20extra%20dan%20v3中".into(),
            true
        )
    );
    // nothing happens
    assert_eq!(
        decode_str("https://osu.ppy.sh", true, false).unwrap(),
        ("https://osu.ppy.sh".into(), false)
    );
}

#[test]
fn test_long_url() {
    let mut url = "https://www.baidu.com/s?ie=UTF-8&wd=%E5%A4%A9%E6%B0%94".to_string();
    for _ in 0..10000 {
        url.push_str("%20");
    }
    assert_eq!(
        decode_str(&url, false, false).unwrap(),
        (
            "https://www.baidu.com/s?ie=UTF-8&wd=天气".to_string() + " ".repeat(10000).as_str(),
            true
        )
    );

    let base = "a".repeat(60000);
    assert_eq!(
        decode_str(&(base.clone() + &url), false, false).unwrap(),
        (
            (base + "https://www.baidu.com/s?ie=UTF-8&wd=天气") + " ".repeat(10000).as_str(),
            true
        )
    )
}

#[test]
fn validated_decode_never_fails() {
    assert_eq!(
        decode_str_safe("a http://x/%FF b https://y/%E5%A4%A9%20.", false, false).unwrap(),
        ("a http://x/%FF b https://y/天 .".to_string(), true)
    );
    assert_eq!(
        decode_str_safe("a http://x/%FF b https://y/%E5%A4%A9%20.", true, true).unwrap(),
        ("a http://x/%FF b https://y/天%20.".to_string(), true)
    );
    assert_eq!(
        decode_str_safe("http://x/%E5%A4", false, false).unwrap(),
        ("http://x/%E5%A4".to_string(), false)
    );
    assert_eq!(
        decode_str_safe("天气 http://x/天气", false, false).unwrap(),
        ("天气 http://x/天气".to_string(), false)
    );
}
