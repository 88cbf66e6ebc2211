use ceph_long_request_watcher::errors::ParseError;
use ceph_long_request_watcher::numbers::{get_num_from_regex, to_decimal};
use ceph_long_request_watcher::text::starts_with;

fn number(text: &str, max: u64) -> Result<u64, ParseError> {
    get_num_from_regex(Some(text.to_owned()), max)
}

#[test]
fn numbers_are_read() {
    assert_eq!(number("0", 0), Ok(0));
    assert_eq!(number("007", 7), Ok(7));
    assert_eq!(number("+42", 100), Ok(42));
    assert_eq!(number("18446744073709551615", u64::MAX), Ok(u64::MAX));
    assert_eq!(number("4294967295", u32::MAX as u64), Ok(u32::MAX as u64));
}

#[test]
fn numbers_are_refused() {
    for text in ["", "+", "-1", "++1", "1+", " 1", "1 ", "1x", "x", "٣", "1_0"] {
        assert_eq!(number(text, u64::MAX), Err(ParseError::InvalidField));
        assert!(text.parse::<u64>().is_err());
    }
    assert_eq!(number("8", 7), Err(ParseError::InvalidField));
    assert_eq!(number("18446744073709551616", u64::MAX), Err(ParseError::InvalidField));
    assert_eq!(number("18446744073709551620", u64::MAX), Err(ParseError::InvalidField));
    assert_eq!(number("184467440737095516150", u64::MAX), Err(ParseError::InvalidField));
    assert_eq!(number("4294967296", u32::MAX as u64), Err(ParseError::InvalidField));
}

#[test]
fn numbers_are_written_and_read_back() {
    for n in [0, 1, 9, 10, 99, 100, 4294967295, 4294967296, u64::MAX] {
        assert_eq!(to_decimal(n), n.to_string());
        assert_eq!(number(&to_decimal(n), u64::MAX), Ok(n));
    }
}

#[test]
fn text_starts_with() {
    assert!(starts_with("REQUESTS 1", "REQUESTS "));
    assert!(starts_with("REQUESTS ", "REQUESTS "));
    assert!(starts_with("", ""));
    assert!(starts_with("été", "ét"));
    assert!(!starts_with("REQUESTS", "REQUESTS "));
    assert!(!starts_with("", "x"));
    assert!(!starts_with("ete", "ét"));
}
