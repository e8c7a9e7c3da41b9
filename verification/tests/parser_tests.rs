use std::collections::VecDeque;

use yatc::lexer::lex;
use yatc::parser::{ParseError, Parser};

fn parse_src(src: &str) -> Result<(), ParseError> {
    let tokens = lex(src).unwrap();
    Parser::new(VecDeque::from(tokens)).parse()
}

#[test]
fn single_factor_parses() {
    assert!(parse_src("1").is_ok());
    assert!(parse_src("x").is_ok());
    assert!(parse_src("13.37").is_ok());
    assert!(parse_src("\"s\"").is_ok());
}

#[test]
fn empty_input_expects_a_factor() {
    assert!(matches!(parse_src(""), Err(ParseError::ExpectedFactor)));
}

#[test]
fn operator_without_right_operand_expects_a_factor() {
    assert!(matches!(parse_src("1 +"), Err(ParseError::ExpectedFactor)));
    assert!(matches!(parse_src("1 + ;"), Err(ParseError::ExpectedFactor)));
}

#[test]
fn precedence_both_orders_parse() {
    assert!(parse_src("a * b + c").is_ok());
    assert!(parse_src("a + b * c").is_ok());
}

#[test]
fn all_four_operators_chain() {
    assert!(parse_src("a + b - c * d / e").is_ok());
}

#[test]
fn balanced_parens_parse() {
    assert!(parse_src("1").is_ok());
    assert!(parse_src("( 1 )").is_ok());
    assert!(parse_src("( ( 1 ) )").is_ok());
    assert!(parse_src("( ( ( 1 ) ) )").is_ok());
}

#[test]
fn missing_close_paren_is_unclosed() {
    assert!(matches!(parse_src("( 1"), Err(ParseError::UnclosedParen)));
    assert!(matches!(parse_src("( ( 1 )"), Err(ParseError::UnclosedParen)));
}

#[test]
fn trailing_close_paren_is_trailing_tokens() {
    assert!(matches!(parse_src("1 )"), Err(ParseError::TrailingTokens)));
}

#[test]
fn trailing_factor_is_unexpected() {
    match parse_src("1 2") {
        Err(ParseError::UnexpectedToken(t)) => assert_eq!(t.value, vec!['2']),
        other => panic!("expected an unexpected-token error, got {:?}", other),
    }
}

#[test]
fn stray_symbol_is_unexpected() {
    match parse_src("1 ; 2") {
        Err(ParseError::UnexpectedToken(t)) => {
            assert_eq!(t.value, vec![';']);
            assert_eq!(t.span.start, 2);
        },
        other => panic!("expected an unexpected-token error, got {:?}", other),
    }
}

#[test]
fn keyword_is_no_factor() {
    assert!(matches!(parse_src("let"), Err(ParseError::ExpectedFactor)));
}

#[test]
fn nested_expression_with_string_and_float() {
    assert!(parse_src("( \"s\" * 2.5 ) - x").is_ok());
}

#[test]
fn empty_parens_fail() {
    assert!(matches!(parse_src("( )"), Err(ParseError::ExpectedFactor)));
}
