use jsonish::ast::Expr;
use jsonish::error::ErrorKind;
use jsonish::parse::parse;

fn p(text: &str) -> Result<Expr, jsonish::error::ParseError> {
    parse(&text.to_string())
}

#[test]
fn parses_true() {
    assert_eq!(p("true").unwrap(), Expr::Bool(true));
}

#[test]
fn parses_false() {
    assert_eq!(p("false").unwrap(), Expr::Bool(false));
}

#[test]
fn parses_null() {
    assert_eq!(p("null").unwrap(), Expr::Null);
}

#[test]
fn rejects_capitalized_true() {
    let e = p("True").unwrap_err();
    assert_eq!(e.kind, ErrorKind::UnexpectedChar);
    assert_eq!(e.at, 0);
}

#[test]
fn rejects_truncated_literal() {
    let e = p("tru").unwrap_err();
    assert_eq!(e.kind, ErrorKind::ExpectedLiteral);
}

#[test]
fn parses_zero() {
    assert_eq!(p("0").unwrap(), Expr::Num("0".to_string()));
}

#[test]
fn parses_negative_zero() {
    // The sign is kept in the literal text; converting to a float gives a
    // negative zero.
    let v = p("-0").unwrap();
    assert_eq!(v, Expr::Num("-0".to_string()));
    if let Expr::Num(t) = v {
        let f: f64 = t.parse().unwrap();
        assert_eq!(f, 0.0);
        assert!(f.is_sign_negative());
    }
}

#[test]
fn parses_pi() {
    let v = p("3.14").unwrap();
    assert_eq!(v, Expr::Num("3.14".to_string()));
    if let Expr::Num(t) = v {
        let f: f64 = t.parse().unwrap();
        assert_eq!(f, 3.14);
    }
}

#[test]
fn parses_negative_integer() {
    assert_eq!(p("-42").unwrap(), Expr::Num("-42".to_string()));
}

#[test]
fn leading_zero_consumes_only_the_zero() {
    // The grammar stops after the leading 0, and trailing input is ignored
    // at top level, so "01" parses to the number 0.
    assert_eq!(p("01").unwrap(), Expr::Num("0".to_string()));
}

#[test]
fn trailing_input_is_ignored() {
    assert_eq!(p("true!!!").unwrap(), Expr::Bool(true));
}

#[test]
fn rejects_bare_minus() {
    let e = p("-").unwrap_err();
    assert_eq!(e.kind, ErrorKind::ExpectedNumberDigit);
}

#[test]
fn rejects_minus_nondigit() {
    let e = p("-x").unwrap_err();
    assert_eq!(e.kind, ErrorKind::ExpectedNumberDigit);
    assert_eq!(e.at, 2);
}

#[test]
fn parses_escaped_newline() {
    // The two-character input sequence `\n` decodes to one linefeed.
    assert_eq!(p("\"a\\nb\"").unwrap(), Expr::Str("a\nb".to_string()));
}

#[test]
fn parses_other_escapes() {
    assert_eq!(
        p("\"\\\\\\\"\\t\\r\\/\"").unwrap(),
        Expr::Str("\\\"\t\r/".to_string())
    );
}

#[test]
fn unicode_escape_yields_literal_u() {
    // `\u0041` is validated for hex-ness but not decoded: the literal
    // character `u` is kept.
    assert_eq!(p("\"\\u0041\"").unwrap(), Expr::Str("u".to_string()));
}

#[test]
fn rejects_bad_hex_digit() {
    let e = p("\"\\u12G4\"").unwrap_err();
    assert_eq!(e.kind, ErrorKind::BadHexDigit);
}

#[test]
fn rejects_unknown_escape() {
    let e = p("\"\\x\"").unwrap_err();
    assert_eq!(e.kind, ErrorKind::UnknownEscape);
}

#[test]
fn rejects_raw_control_char() {
    let e = p("\"a\nb\"").unwrap_err();
    assert_eq!(e.kind, ErrorKind::UnallowedControlChar);
}

#[test]
fn rejects_unterminated_string() {
    let e = p("\"abc").unwrap_err();
    assert_eq!(e.kind, ErrorKind::UnallowedControlChar);
}

#[test]
fn parses_empty_object() {
    assert_eq!(p("{}").unwrap(), Expr::Obj(vec![]));
}

#[test]
fn parses_empty_array() {
    assert_eq!(p("[]").unwrap(), Expr::Arr(vec![]));
}

#[test]
fn parses_array_with_whitespace() {
    assert_eq!(
        p("[ 1 , 2 ]").unwrap(),
        Expr::Arr(vec![
            Expr::Num("1".to_string()),
            Expr::Num("2".to_string())
        ])
    );
}

#[test]
fn rejects_trailing_comma_in_array() {
    // A value is required after each comma.
    let e = p("[1,2,]").unwrap_err();
    assert_eq!(e.kind, ErrorKind::UnexpectedChar);
}

#[test]
fn rejects_trailing_comma_in_object() {
    assert!(p("{\"a\":1,}").is_err());
}

#[test]
fn missing_closing_brace_is_tolerated() {
    // The tolerant grammar accepts a missing closing brace silently.
    assert_eq!(
        p("{\"a\":1").unwrap(),
        Expr::Obj(vec![("a".to_string(), Expr::Num("1".to_string()))])
    );
}

#[test]
fn missing_closing_bracket_is_tolerated() {
    assert_eq!(
        p("[1,2").unwrap(),
        Expr::Arr(vec![
            Expr::Num("1".to_string()),
            Expr::Num("2".to_string())
        ])
    );
}

#[test]
fn parses_object_with_whitespace_around_members() {
    assert_eq!(
        p("{ \"a\" : 1 }").unwrap(),
        Expr::Obj(vec![("a".to_string(), Expr::Num("1".to_string()))])
    );
}

#[test]
fn empty_object_with_inner_space_fails() {
    // The closing brace must follow the opening one immediately for an
    // empty object; a space in between sends the parser looking for a key.
    assert!(p("{ }").is_err());
}

#[test]
fn duplicate_key_last_value_wins() {
    assert_eq!(
        p("{\"a\":1,\"a\":2}").unwrap(),
        Expr::Obj(vec![("a".to_string(), Expr::Num("2".to_string()))])
    );
}

#[test]
fn rejects_missing_colon() {
    let e = p("{\"a\" 1}").unwrap_err();
    assert_eq!(e.kind, ErrorKind::ExpectedColon);
}

#[test]
fn rejects_empty_input() {
    let e = p("").unwrap_err();
    assert_eq!(e.kind, ErrorKind::UnexpectedEnd);
    assert_eq!(e.at, 0);
}

#[test]
fn rejects_unexpected_char_with_offset() {
    let e = p("   x").unwrap_err();
    assert_eq!(e.kind, ErrorKind::UnexpectedChar);
    assert_eq!(e.at, 3);
}

#[test]
fn error_message_text() {
    let e = p("").unwrap_err();
    assert_eq!(e.message(), "Unexpected end of input");
}

#[test]
fn parses_nested_document() {
    let text = "[true, null, \"hi\", -5.25, {\"a\": [1, {\"b\": false}]}]";
    let v = p(text).unwrap();
    assert_eq!(
        v,
        Expr::Arr(vec![
            Expr::Bool(true),
            Expr::Null,
            Expr::Str("hi".to_string()),
            Expr::Num("-5.25".to_string()),
            Expr::Obj(vec![(
                "a".to_string(),
                Expr::Arr(vec![
                    Expr::Num("1".to_string()),
                    Expr::Obj(vec![("b".to_string(), Expr::Bool(false))])
                ])
            )])
        ])
    );
}
