use jsonish::ast::Expr;
use jsonish::parse::parse;

fn p(text: &str) -> Expr {
    parse(&text.to_string()).unwrap()
}

#[test]
fn renders_scalars() {
    assert_eq!(Expr::Null.to_text(), "null");
    assert_eq!(Expr::Bool(true).to_text(), "true");
    assert_eq!(Expr::Bool(false).to_text(), "false");
    assert_eq!(Expr::Num("-3.5".to_string()).to_text(), "-3.5");
    assert_eq!(Expr::Str("hi".to_string()).to_text(), "\"hi\"");
}

#[test]
fn renders_empty_containers() {
    assert_eq!(Expr::Obj(vec![]).to_text(), "{}");
    assert_eq!(Expr::Arr(vec![]).to_text(), "[]");
}

#[test]
fn renders_containers() {
    let v = Expr::Arr(vec![
        Expr::Num("1".to_string()),
        Expr::Obj(vec![
            ("a".to_string(), Expr::Bool(true)),
            ("b".to_string(), Expr::Null),
        ]),
    ]);
    assert_eq!(v.to_text(), "[1,{\"a\":true,\"b\":null}]");
}

#[test]
fn renders_string_body_raw() {
    // The serializer does not re-escape: a string holding a quote renders
    // to text that is not valid input again — the documented gap.
    let v = Expr::Str("a\"b".to_string());
    assert_eq!(v.to_text(), "\"a\"b\"");
}

#[test]
fn round_trip_scalars() {
    for text in ["true", "false", "null", "0", "-0", "3.14", "-42", "\"hello\""] {
        let v = p(text);
        assert_eq!(parse(&v.to_text()).unwrap(), v);
    }
}

#[test]
fn round_trip_nested() {
    let text = "{\"k\":[1,2.5,{\"x\":null},\"s\"],\"m\":{}}";
    let v = p(text);
    let rendered = v.to_text();
    assert_eq!(parse(&rendered).unwrap(), v);
    assert_eq!(rendered, text);
}

#[test]
fn round_trip_after_whitespace_normalization() {
    let v = p(" [ true , { \"a\" : [ ] } ] ");
    assert_eq!(v.to_text(), "[true,{\"a\":[]}]");
    assert_eq!(parse(&v.to_text()).unwrap(), v);
}

#[test]
fn round_trip_fails_for_string_needing_escapes() {
    // The known exception to the round-trip law: an embedded newline (via
    // the \n escape) is rendered raw and rejected on reparse.
    let v = p("\"a\\nb\"");
    assert!(parse(&v.to_text()).is_err());
}
