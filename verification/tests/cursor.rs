use jsonish::cursor::{is_whitespace, Cursor, EOF_CHAR};
use jsonish::error::ErrorKind;

#[test]
fn peek_does_not_advance() {
    let c = Cursor::new(&"ab".to_string());
    assert_eq!(c.peek(), 'a');
    assert_eq!(c.peek(), 'a');
    assert_eq!(c.pos, 0);
}

#[test]
fn next_advances_even_past_the_end() {
    let mut c = Cursor::new(&"a".to_string());
    assert_eq!(c.next(), 'a');
    assert_eq!(c.next(), EOF_CHAR);
    assert_eq!(c.next(), EOF_CHAR);
    assert_eq!(c.pos, 3);
}

#[test]
fn nth_char_out_of_range_is_sentinel() {
    let c = Cursor::new(&"xy".to_string());
    assert_eq!(c.nth_char(0), 'x');
    assert_eq!(c.nth_char(1), 'y');
    assert_eq!(c.nth_char(2), EOF_CHAR);
    assert_eq!(c.nth_char(100), EOF_CHAR);
}

#[test]
fn check_compares_without_advancing() {
    let c = Cursor::new(&"q".to_string());
    assert!(c.check('q'));
    assert!(!c.check('r'));
    assert_eq!(c.pos, 0);
}

#[test]
fn eat_advances_only_on_match() {
    let mut c = Cursor::new(&"ab".to_string());
    assert!(!c.eat('b'));
    assert_eq!(c.pos, 0);
    assert!(c.eat('a'));
    assert_eq!(c.pos, 1);
}

#[test]
fn consume_reports_mismatch_without_advancing() {
    let mut c = Cursor::new(&"ab".to_string());
    let e = c.consume('b', ErrorKind::ExpectedColon).unwrap_err();
    assert_eq!(e.kind, ErrorKind::ExpectedColon);
    assert_eq!(e.at, 0);
    assert_eq!(c.pos, 0);
    assert_eq!(c.consume('a', ErrorKind::ExpectedColon).unwrap(), 'a');
    assert_eq!(c.pos, 1);
}

#[test]
fn consume_str_matches_whole_literal() {
    let mut c = Cursor::new(&"true!".to_string());
    let r = c.consume_str("true".to_string(), ErrorKind::ExpectedLiteral);
    assert_eq!(r.unwrap(), "true");
    assert_eq!(c.pos, 4);
}

#[test]
fn consume_str_stops_after_first_mismatch() {
    let mut c = Cursor::new(&"trXe".to_string());
    let e = c
        .consume_str("true".to_string(), ErrorKind::ExpectedLiteral)
        .unwrap_err();
    assert_eq!(e.kind, ErrorKind::ExpectedLiteral);
    // the mismatching character is consumed before the failure is reported
    assert_eq!(c.pos, 3);
    assert_eq!(e.at, 3);
}

#[test]
fn skip_whitespace_passes_all_four_kinds() {
    let mut c = Cursor::new(&" \t\r\nz".to_string());
    c.skip_whitespace();
    assert_eq!(c.pos, 4);
    assert_eq!(c.peek(), 'z');
    c.skip_whitespace();
    assert_eq!(c.pos, 4);
}

#[test]
fn unicode_input_is_indexed_by_scalar_value() {
    let mut c = Cursor::new(&"é日".to_string());
    assert_eq!(c.next(), 'é');
    assert_eq!(c.next(), '日');
    assert_eq!(c.next(), EOF_CHAR);
}

#[test]
fn whitespace_predicate() {
    assert!(is_whitespace(' '));
    assert!(is_whitespace('\n'));
    assert!(is_whitespace('\r'));
    assert!(is_whitespace('\t'));
    assert!(!is_whitespace('a'));
    assert!(!is_whitespace('\0'));
}
