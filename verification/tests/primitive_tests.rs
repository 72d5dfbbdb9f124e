use langlang::parser::{Matcher, Parser};

#[test]
fn expect_consumes_only_on_match() {
    let mut p = Parser::new("ab");
    assert_eq!('a', p.expect('a').unwrap());
    assert_eq!(1, p.cursor);
    assert_eq!(1, p.ffp);
    assert!(p.expect('a').is_err());
    assert_eq!(1, p.cursor);
    assert_eq!('b', p.expect('b').unwrap());
    assert_eq!(2, p.cursor);
    assert_eq!(2, p.ffp);
}

#[test]
fn expect_range_bounds_inclusive() {
    let mut p = Parser::new("m");
    assert_eq!('m', p.expect_range('a', 'z').unwrap());
    let mut q = Parser::new("M");
    assert!(q.expect_range('a', 'z').is_err());
    assert_eq!(0, q.cursor);
}

#[test]
fn expect_str_stops_at_mismatch() {
    let mut p = Parser::new("abcx");
    assert!(p.expect_str("abd").is_err());
    assert_eq!(2, p.cursor);
    let mut q = Parser::new("abcx");
    assert_eq!("abc".to_string(), q.expect_str("abc").unwrap());
    assert_eq!(3, q.cursor);
}

#[test]
fn any_and_eof() {
    let mut p = Parser::new("x");
    assert!(!p.eof());
    assert_eq!('x', p.any().unwrap());
    assert!(p.eof());
    assert!(p.any().is_err());
    assert!(p.current().is_err());
}

#[test]
fn not_pushes_ffp_past_rejected_char() {
    let mut p = Parser::new("ab");
    assert!(p.not(Matcher::Expect('a')).is_err());
    assert_eq!(0, p.cursor);
    assert_eq!(1, p.ffp);
}

#[test]
fn zero_or_more_on_empty_input() {
    let mut p = Parser::new("");
    let run = p.zero_or_more(vec![Matcher::ExpectRange('a', 'z')]).unwrap();
    assert!(run.is_empty());
    assert_eq!(0, p.cursor);
}
