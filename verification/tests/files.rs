use std::path::PathBuf;
use urldecoder::eol::{detect_lf_crlf, EndOfLine};
use urldecoder::exclude::in_exclude;

#[test]
fn test_detect_lf_crlf() {
    assert!(detect_lf_crlf("asd\r\n\rda") == EndOfLine::CRLF);
    assert!(detect_lf_crlf("asd\n\rda\n") == EndOfLine::LF);
}

#[test]
fn test_in_exclude() {
    let pattern = PathBuf::from("path/to/file.txt");

    // Case 1: Empty exclude should always return false
    let exclude: Vec<PathBuf> = Vec::new();
    assert!(!in_exclude(&exclude, &pattern));

    // Case 2: Single path in exclude that matches the pattern
    let exclude: Vec<PathBuf> = vec![PathBuf::from("path/to")];
    assert!(in_exclude(&exclude, &pattern));

    // Case 3: Single path in exclude that doesn't match the pattern
    let exclude: Vec<PathBuf> = vec![PathBuf::from("other/path")];
    assert!(!in_exclude(&exclude, &pattern));

    // Case 4: Multiple paths in exclude, one of them matches the pattern
    let exclude: Vec<PathBuf> = vec![PathBuf::from("path/to"), PathBuf::from("some/other")];
    assert!(in_exclude(&exclude, &pattern));

    // Case 5: Multiple paths in exclude, none of them matches the pattern
    let exclude: Vec<PathBuf> = vec![PathBuf::from("/other/path"), PathBuf::from("some/other")];
    assert!(!in_exclude(&exclude, &pattern));

    // Case 6: Do not except files that only match prefix
    let exclude: Vec<PathBuf> = vec![PathBuf::from("fi")];
    let pattern = PathBuf::from("file.txt");
    assert!(!in_exclude(&exclude, &pattern));
}
