use calculator::lexer::TokenKind::{Div, Exp, LParen, Literal, Minus, Mul, Plus, RParen};
use calculator::lexer::{tokenize, Lexer, ParseError, TokenKind};

fn all_tokens(source: &str) -> Vec<TokenKind> {
    let mut lx = Lexer::new(source);
    let mut token_vec = Vec::new();
    while let Some(token) = lx.next_token().unwrap() {
        token_vec.push(token);
    }
    token_vec
}

fn value_of(t: &TokenKind) -> f64 {
    match t {
        Literal(text) => text.parse::<f64>().unwrap(),
        _ => panic!("not a literal: {:?}", t),
    }
}

fn lit(text: &str) -> TokenKind {
    Literal(text.to_string())
}

#[test]
fn lexer_always_passes() {
    assert_eq!(2, 1 + 1);
}

#[test]
#[should_panic]
fn test_err() {
    let mut lx = Lexer::new("asbd");
    let mut token_vec = Vec::new();
    while let Some(token) = lx.next_token().unwrap() {
        token_vec.push(token);
    }
}

#[test]
fn test_operators() {
    let token_vec = all_tokens("+-/*^()");
    assert_eq!(token_vec, [Plus, Minus, Div, Mul, Exp, LParen, RParen]);
}

#[test]
fn test_number() {
    let token_vec = all_tokens("103.56");
    assert_eq!(token_vec, [lit("103.56")]);
    assert_eq!(value_of(&token_vec[0]), 103.56);
}

#[test]
fn test_all() {
    let token_vec = all_tokens("56.5 + (67 - 8)^5");
    assert_eq!(
        token_vec,
        [
            lit("56.5"),
            Plus,
            LParen,
            lit("67"),
            Minus,
            lit("8"),
            RParen,
            Exp,
            lit("5")
        ]
    );
    assert_eq!(value_of(&token_vec[0]), 56.5);
    assert_eq!(value_of(&token_vec[3]), 67.0);
    assert_eq!(value_of(&token_vec[5]), 8.0);
    assert_eq!(value_of(&token_vec[8]), 5.0);
}

#[test]
fn foreign_character_is_a_syntax_fault() {
    assert_eq!(tokenize("1 + x"), Err(ParseError));
    assert_eq!(tokenize("2 % 3"), Err(ParseError));
    assert_eq!(tokenize("é"), Err(ParseError));
}

#[test]
fn fault_consumes_nothing() {
    let mut lx = Lexer::new("  ?1");
    assert_eq!(lx.next_token(), Err(ParseError));
    assert_eq!(lx.next_token(), Err(ParseError));
}

#[test]
fn malformed_number_is_a_syntax_fault() {
    assert_eq!(tokenize("1.2.3"), Err(ParseError));
    assert_eq!(tokenize("4 + ."), Err(ParseError));
    assert_eq!(tokenize(".."), Err(ParseError));
}

#[test]
fn point_may_start_or_end_a_literal() {
    let toks = tokenize(".5*2.").unwrap();
    assert_eq!(Vec::from(toks.clone()), vec![lit(".5"), Mul, lit("2.")]);
    assert_eq!(value_of(&toks[0]), 0.5);
    assert_eq!(value_of(&toks[2]), 2.0);
}

#[test]
fn white_space_only_gives_no_tokens() {
    assert_eq!(tokenize("").unwrap().len(), 0);
    assert_eq!(tokenize(" \t \u{3000} ").unwrap().len(), 0);
    let mut lx = Lexer::new("   ");
    assert_eq!(lx.next_token(), Ok(None));
}

#[test]
fn white_space_separates_numbers() {
    let toks = tokenize("\t12 34\n").unwrap();
    assert_eq!(Vec::from(toks), vec![lit("12"), lit("34")]);
}

#[test]
fn tokenize_matches_next_token() {
    let toks = tokenize("56.5 + (67 - 8)^5").unwrap();
    assert_eq!(Vec::from(toks), all_tokens("56.5 + (67 - 8)^5"));
}
