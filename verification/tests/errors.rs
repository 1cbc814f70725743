use lbnf::parse;
use lbnf::parser::ParseError;

#[test]
fn rejects_stray_character() {
    assert_eq!(parse("$"), Err(ParseError { pos: 0, found: Some('$') }));
}

#[test]
fn rejects_unterminated_rule() {
    let text = "EAdd. Exp ::=";
    let r = parse(text);
    assert_eq!(r, Err(ParseError { pos: 13, found: None }));
}

#[test]
fn rejects_unterminated_string() {
    let r = parse("x. E ::= \"abc ;");
    assert!(r.is_err());
}

#[test]
fn rejects_missing_semicolon_after_macro() {
    let r = parse("m (a : b)");
    assert_eq!(r, Err(ParseError { pos: 9, found: None }));
}

#[test]
fn rejects_integer_out_of_range() {
    assert!(parse("m 9223372036854775808 ;").is_err());
    assert!(parse("m -9223372036854775809 ;").is_err());
    assert!(parse("m 99999999999999999999999 ;").is_err());
}

#[test]
fn rejects_bad_label_punctuation() {
    assert!(parse("(:x). E ::= ;").is_err());
    assert!(parse("[x]. E ::= ;").is_err());
}

#[test]
fn rejects_unclosed_parenthesis_in_macro() {
    assert!(parse("m ((a)+ ;").is_err());
}

#[test]
fn error_position_counts_characters() {
    let r = parse("ab &");
    assert_eq!(r, Err(ParseError { pos: 3, found: Some('&') }));
}
