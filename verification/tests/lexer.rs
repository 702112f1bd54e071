use ralculator::lexer::Lexer;
use ralculator::tokens::{Kind, Token, TokenStream};

#[test]
fn lex_returns_result() {
    let lexer = Lexer::new();
    assert_eq!(lexer.lex(""), Ok(Vec::new()));
}

#[test]
fn lex_returns_1_plus_1() {
    let lexer = Lexer::new();
    assert_eq!(
        lexer.lex("1 + 1"),
        Ok(vec![
            Token::new(Kind::Literal, "1".into(), 0),
            Token::new(Kind::Operator, "+".into(), 2),
            Token::new(Kind::Literal, "1".into(), 4)
        ])
    );
}

#[test]
fn lex_ignores_whitespace() {
    let lexer = Lexer::new();
    assert_eq!(
        lexer.lex("1 +  1"),
        Ok(vec![
            Token::new(Kind::Literal, "1".into(), 0),
            Token::new(Kind::Operator, "+".into(), 2),
            Token::new(Kind::Literal, "1".into(), 5)
        ])
    );
}

#[test]
fn lex_returns_complex() {
    let lexer = Lexer::new();
    assert_eq!(
        lexer.lex("1+1*(4^2)/ a").unwrap(),
        vec![
            Token::new(Kind::Literal, "1".into(), 0),
            Token::new(Kind::Operator, "+".into(), 1),
            Token::new(Kind::Literal, "1".into(), 2),
            Token::new(Kind::Operator, "*".into(), 3),
            Token::new(Kind::Separator, "(".into(), 4),
            Token::new(Kind::Literal, "4".into(), 5),
            Token::new(Kind::Operator, "^".into(), 6),
            Token::new(Kind::Literal, "2".into(), 7),
            Token::new(Kind::Separator, ")".into(), 8),
            Token::new(Kind::Operator, "/".into(), 9),
            Token::new(Kind::Identifier, "a".into(), 11)
        ]
    );
}

#[test]
fn lex_trims_both_ends() {
    let lexer = Lexer::new();
    assert_eq!(
        lexer.lex("   7  \n"),
        Ok(vec![Token::new(Kind::Literal, "7".into(), 0)])
    );
}

#[test]
fn lex_literal_with_fraction_and_exponent() {
    let lexer = Lexer::new();
    assert_eq!(
        lexer.lex("12.5e-3+x_y"),
        Ok(vec![
            Token::new(Kind::Literal, "12.5e-3".into(), 0),
            Token::new(Kind::Operator, "+".into(), 7),
            Token::new(Kind::Identifier, "x_y".into(), 8)
        ])
    );
}

#[test]
fn lex_stops_literal_before_bare_dot() {
    // The fractional part needs a digit after the dot; without one the
    // dot starts no token at all.
    let lexer = Lexer::new();
    let res = lexer.lex("12.e5");
    assert_eq!(res, Err("unknown token at position 2".to_string()));
}

#[test]
fn lex_unknown_character_position() {
    let lexer = Lexer::new();
    assert_eq!(
        lexer.lex("1 $ 2"),
        Err("unknown token at position 2".to_string())
    );
}

#[test]
fn lex_unknown_character_two_digit_position() {
    let lexer = Lexer::new();
    assert_eq!(
        lexer.lex("1234567890 $"),
        Err("unknown token at position 11".to_string())
    );
}

#[test]
fn token_stream_cursor_walk() {
    let toks = vec![
        Token::new(Kind::Literal, "1".into(), 0),
        Token::new(Kind::Operator, "+".into(), 2),
        Token::new(Kind::Literal, "2".into(), 4),
    ];
    let mut s = TokenStream::new(toks);
    assert_eq!(s.curr(), Some(&Token::new(Kind::Literal, "1".into(), 0)));
    assert_eq!(s.lookahead(), Some(&Token::new(Kind::Operator, "+".into(), 2)));
    assert_eq!(s.next(), Some(&Token::new(Kind::Operator, "+".into(), 2)));
    assert_eq!(s.next(), Some(&Token::new(Kind::Literal, "2".into(), 4)));
    assert_eq!(s.lookahead(), None);
    assert_eq!(s.next(), None);
    assert_eq!(s.curr(), None);
}
