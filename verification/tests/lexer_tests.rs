use std::collections::VecDeque;

use yatc::lexer::{lex, LexError};
use yatc::parser::Parser;
use yatc::{Span, Token, TokenType};

fn tok(ty: TokenType, value: &str, start: usize, length: usize) -> Token {
    Token { ty, value: value.chars().collect(), span: Span { start, length } }
}

#[test]
fn simple_statement() {
    let src = "let there = \"be lights\" * 13.37 ;";

    let tokens = lex(src);
    assert_eq!(
        tokens,
        Ok(vec![
            tok(TokenType::Keyword, "let", 0, 3),
            tok(TokenType::Ident, "there", 4, 5),
            tok(TokenType::Operator, "=", 10, 1),
            tok(TokenType::Str, "\"be lights\"", 12, 11),
            tok(TokenType::Operator, "*", 24, 1),
            tok(TokenType::Float, "13.37", 26, 5),
            tok(TokenType::Symbol, ";", 32, 1),
        ])
    );
}

#[test]
fn empty_source_gives_no_tokens() {
    assert_eq!(lex(""), Ok(vec![]));
}

#[test]
fn blanks_alone_give_no_tokens() {
    assert_eq!(lex("  \n \n  "), Ok(vec![]));
}

#[test]
fn dangling_slash_at_end() {
    assert_eq!(lex("1 /"), Err(LexError::DanglingSlash(2)));
}

#[test]
fn dangling_slash_alone() {
    assert_eq!(lex("/"), Err(LexError::DanglingSlash(0)));
}

#[test]
fn unterminated_string() {
    assert_eq!(lex("\"unterminated"), Err(LexError::UnterminatedString(0)));
}

#[test]
fn string_token_keeps_quotes() {
    let tokens = lex("\"a b\" x").unwrap();
    assert_eq!(
        tokens,
        vec![tok(TokenType::Str, "\"a b\"", 0, 5), tok(TokenType::Ident, "x", 6, 1)]
    );
}

#[test]
fn slash_is_an_operator_between_words() {
    let tokens = lex("a / b").unwrap();
    assert_eq!(
        tokens,
        vec![
            tok(TokenType::Ident, "a", 0, 1),
            tok(TokenType::Operator, "/", 2, 1),
            tok(TokenType::Ident, "b", 4, 1),
        ]
    );
}

#[test]
fn line_comment_is_skipped() {
    let tokens = lex("1 // the rest is gone\n2").unwrap();
    assert_eq!(
        tokens,
        vec![tok(TokenType::Integer, "1", 0, 1), tok(TokenType::Integer, "2", 22, 1)]
    );
}

#[test]
fn comment_to_end_of_input() {
    assert_eq!(lex("// nothing else"), Ok(vec![]));
}

#[test]
fn symbols_and_operators() {
    let tokens = lex("{ } ( ) ; , + - * = > <").unwrap();
    let kinds: Vec<TokenType> = tokens.iter().map(|t| t.ty).collect();
    assert_eq!(
        kinds,
        vec![
            TokenType::Symbol,
            TokenType::Symbol,
            TokenType::Symbol,
            TokenType::Symbol,
            TokenType::Symbol,
            TokenType::Symbol,
            TokenType::Operator,
            TokenType::Operator,
            TokenType::Operator,
            TokenType::Operator,
            TokenType::Operator,
            TokenType::Operator,
        ]
    );
}

#[test]
fn keywords_and_identifiers() {
    let tokens = lex("let if else for fn return letter").unwrap();
    let kinds: Vec<TokenType> = tokens.iter().map(|t| t.ty).collect();
    assert_eq!(
        kinds,
        vec![
            TokenType::Keyword,
            TokenType::Keyword,
            TokenType::Keyword,
            TokenType::Keyword,
            TokenType::Keyword,
            TokenType::Keyword,
            TokenType::Ident,
        ]
    );
}

#[test]
fn integer_boundaries() {
    assert_eq!(lex("2147483647").unwrap()[0].ty, TokenType::Integer);
    // One past i32::MAX no longer parses as an integer, but does as a float.
    assert_eq!(lex("2147483648").unwrap()[0].ty, TokenType::Float);
    assert_eq!(lex("-2147483648").unwrap()[0].ty, TokenType::Integer);
    assert_eq!(lex("-2147483649").unwrap()[0].ty, TokenType::Float);
    assert_eq!(lex("+42").unwrap()[0].ty, TokenType::Integer);
    assert_eq!(lex("007").unwrap()[0].ty, TokenType::Integer);
}

#[test]
fn float_shapes() {
    assert_eq!(lex("13.37").unwrap()[0].ty, TokenType::Float);
    assert_eq!(lex("1.").unwrap()[0].ty, TokenType::Float);
    assert_eq!(lex(".5").unwrap()[0].ty, TokenType::Float);
    assert_eq!(lex("1e5").unwrap()[0].ty, TokenType::Float);
    assert_eq!(lex("1.5E-3").unwrap()[0].ty, TokenType::Float);
    assert_eq!(lex("inf").unwrap()[0].ty, TokenType::Float);
    assert_eq!(lex("NaN").unwrap()[0].ty, TokenType::Float);
    assert_eq!(lex("Infinity").unwrap()[0].ty, TokenType::Float);
    // Not floats: they fall through to identifiers.
    assert_eq!(lex(".").unwrap()[0].ty, TokenType::Ident);
    assert_eq!(lex("1e").unwrap()[0].ty, TokenType::Ident);
    assert_eq!(lex("1.2.3").unwrap()[0].ty, TokenType::Ident);
    assert_eq!(lex("--5").unwrap()[0].ty, TokenType::Ident);
}

#[test]
fn glued_input_is_one_identifier() {
    // Operators are only recognized as isolated blank-bounded words.
    let tokens = lex("1+2").unwrap();
    assert_eq!(tokens, vec![tok(TokenType::Ident, "1+2", 0, 3)]);
}

#[test]
fn spans_count_code_points_not_bytes() {
    let tokens = lex("\u{e9} + \u{fc}").unwrap();
    assert_eq!(
        tokens,
        vec![
            tok(TokenType::Ident, "\u{e9}", 0, 1),
            tok(TokenType::Operator, "+", 2, 1),
            tok(TokenType::Ident, "\u{fc}", 4, 1),
        ]
    );
}

#[test]
fn round_trip_spans_on_a_mixed_source() {
    let src = "let x = ( 1.5 + \"s\" ) // tail";
    let chars: Vec<char> = src.chars().collect();
    let tokens = lex(src).unwrap();
    for t in &tokens {
        let expected: Vec<char> =
            chars[t.span.start..t.span.start + t.span.length].to_vec();
        assert_eq!(t.value, expected);
    }
    // Spans are ordered and disjoint.
    let mut last_end: usize = 0;
    for t in &tokens {
        assert!(t.span.start >= last_end);
        last_end = t.span.start + t.span.length;
    }
}

#[test]
fn lex_then_parse_scenario() {
    let tokens = lex("( 1 + 2 * ( 42 / 3 ) ) * 7").unwrap();
    let result = Parser::new(VecDeque::from(tokens)).parse();
    assert_eq!(result.is_ok(), true);
}
