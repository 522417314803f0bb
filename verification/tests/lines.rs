use urldecoder::lines::decode_lines;

fn two_lines(delimiter: &str) -> (String, String) {
    let content = [
        "http://test.com/?q=天气",
        "testhttp://test.com/?q=%E5%A4%A9%E6%B0%94test",
    ]
    .join(delimiter);
    let expected = [
        "http://test.com/?q=天气",
        delimiter,
        "testhttp://test.com/?q=天气test",
    ]
    .concat();
    (content, expected)
}

#[test]
fn lines_keep_their_line_ending() {
    for delimiter in ["\r\n", "\n"] {
        let (content, expected) = two_lines(delimiter);
        let decoded = decode_lines(&content, false);
        assert_eq!(decoded.text, expected);
        assert_eq!(decoded.changes.len(), 1);
        assert_eq!(decoded.changes[0].line_number, 2);
        assert_eq!(decoded.changes[0].before, "testhttp://test.com/?q=%E5%A4%A9%E6%B0%94test");
        assert_eq!(decoded.changes[0].after, "testhttp://test.com/?q=天气test");
    }
}

#[test]
fn last_line_ending_is_dropped() {
    let decoded = decode_lines("a http://x/%41\r\nb\r\nc http://y/%20\r\n", true);
    assert_eq!(decoded.text, "a http://x/A\r\nb\r\nc http://y/%20");
    assert_eq!(decoded.changes.len(), 1);
    assert_eq!(decoded.changes[0].line_number, 1);
    let decoded = decode_lines("a http://x/%41\n\nc http://y/%20\n\n", false);
    assert_eq!(decoded.text, "a http://x/A\n\nc http://y/ \n");
    assert_eq!(
        decoded.changes.iter().map(|c| c.line_number).collect::<Vec<usize>>(),
        vec![1, 3]
    );
}

#[test]
fn mixed_line_endings_become_the_last_one() {
    // the last line feed follows a carriage return: every line ends in both
    let decoded = decode_lines("x\ny http://a/%41\r\nz", false);
    assert_eq!(decoded.text, "x\r\ny http://a/A\r\nz");
    // a carriage return alone ends no line
    let decoded = decode_lines("x\ry http://a/%41\rz", false);
    assert_eq!(decoded.text, "x\ry http://a/A\rz");
    assert_eq!(decoded.changes[0].line_number, 1);
}

#[test]
fn text_without_lines_or_changes() {
    let decoded = decode_lines("", false);
    assert_eq!(decoded.text, "");
    assert!(decoded.changes.is_empty());
    let decoded = decode_lines("\n", false);
    assert_eq!(decoded.text, "");
    assert!(decoded.changes.is_empty());
    let decoded = decode_lines("no url\r\nnone here", false);
    assert_eq!(decoded.text, "no url\r\nnone here");
    assert!(decoded.changes.is_empty());
}
