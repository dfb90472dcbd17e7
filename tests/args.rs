use genator::range::from_str;
use genator::request;
use genator::request::USAGE;

fn args(items: &[&str]) -> Vec<String> {
    items.iter().map(|s| s.to_string()).collect()
}

#[test]
fn request_takes_the_first_argument() {
    assert_eq!(request(args(&["prog", "[ab]", "rest"])), Ok("[ab]".to_string()));
}

#[test]
fn request_rejects_a_missing_argument() {
    assert_eq!(request(args(&["prog"])), Err(USAGE));
    assert_eq!(request(args(&[])), Err(USAGE));
}

#[test]
fn request_rejects_empty_and_non_ascii() {
    assert_eq!(request(args(&["prog", ""])), Err(USAGE));
    assert_eq!(request(args(&["prog", "caf\u{e9}"])), Err(USAGE));
}

#[test]
fn span_reads_both_counts() {
    assert_eq!(from_str("1-3"), Ok(1..3));
    assert_eq!(from_str("007-255"), Ok(7..255));
}

#[test]
fn span_rejects_other_text() {
    assert_eq!(from_str("3"), Err(()));
    assert_eq!(from_str("a-3"), Err(()));
    assert_eq!(from_str("1-"), Err(()));
    assert_eq!(from_str("300-1"), Err(()));
}

#[test]
fn span_trims_the_start_count() {
    assert_eq!(from_str(" 1-2"), Ok(1..2));
    assert_eq!(from_str("\t1 \n-2"), Ok(1..2));
    assert_eq!(from_str("1- 2"), Err(()));
    assert_eq!(from_str("1-2 "), Err(()));
}

#[test]
fn span_accepts_a_plus_sign() {
    assert_eq!(from_str("+1-+2"), Ok(1..2));
    assert_eq!(from_str("-2"), Err(()));
    assert_eq!(from_str("+-2"), Err(()));
}
