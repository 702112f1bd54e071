use ralculator::ast::Expression;
use ralculator::ast::Expression::{
    Addition, Multiplication, ParenthesisExpression, UnaryMinus, Variable,
};
use ralculator::lexer::Lexer;
use ralculator::parser::Parser;

#[test]
fn parse_assign() {
    let lexer = Lexer::new();
    let mut parser = Parser::new();
    assert_eq!(
        parser.parse(&lexer.lex("a = 1").unwrap()).unwrap(),
        Expression::Assignment("a".into(), Box::new(Expression::Literal(1f64.to_bits())))
    )
}

#[test]
fn parse_1() {
    let lexer = Lexer::new();
    let mut parser = Parser::new();
    assert_eq!(
        parser.parse(&lexer.lex("1").unwrap()).unwrap(),
        Expression::Literal(1f64.to_bits())
    )
}

#[test]
fn parse_23() {
    let lexer = Lexer::new();
    let mut parser = Parser::new();
    assert_eq!(
        parser.parse(&lexer.lex("23").unwrap()).unwrap(),
        Expression::Literal(23f64.to_bits())
    )
}

#[test]
fn parse_minus_1() {
    let lexer = Lexer::new();
    let mut parser = Parser::new();
    assert_eq!(
        parser.parse(&lexer.lex("-1").unwrap()).unwrap(),
        UnaryMinus(Box::new(Expression::Literal(1f64.to_bits())))
    )
}

#[test]
fn parse_1_plus_1() {
    let lexer = Lexer::new();
    let mut parser = Parser::new();
    assert_eq!(
        parser.parse(&lexer.lex("1 + 1").unwrap()).unwrap(),
        Addition(
            Box::new(Expression::Literal(1f64.to_bits())),
            Box::new(Expression::Literal(1f64.to_bits()))
        )
    );
}

#[test]
fn parse_1_minus_2() {
    let lexer = Lexer::new();
    let mut parser = Parser::new();
    assert_eq!(
        parser.parse(&lexer.lex("1 - 2").unwrap()).unwrap(),
        Expression::Subtraction(
            Box::new(Expression::Literal(1f64.to_bits())),
            Box::new(Expression::Literal(2f64.to_bits()))
        )
    );
}

#[test]
fn parse_1_times_4() {
    let lexer = Lexer::new();
    let mut parser = Parser::new();
    assert_eq!(
        parser.parse(&lexer.lex("1 * 4").unwrap()).unwrap(),
        Multiplication(
            Box::new(Expression::Literal(1f64.to_bits())),
            Box::new(Expression::Literal(4f64.to_bits()))
        )
    );
}

#[test]
fn parse_1_times_parexpr_3_plus_4() {
    let lexer = Lexer::new();
    let mut parser = Parser::new();
    assert_eq!(
        parser.parse(&lexer.lex("1 * (3 + 4)").unwrap()).unwrap(),
        Multiplication(
            Box::new(Expression::Literal(1f64.to_bits())),
            Box::new(ParenthesisExpression(Box::new(Addition(
                Box::new(Expression::Literal(3f64.to_bits())),
                Box::new(Expression::Literal(4f64.to_bits()))
            ))))
        )
    );
}

#[test]
fn parse_1_times_parexpr_3_plus_4_nospace() {
    let lexer = Lexer::new();
    let mut parser = Parser::new();
    assert_eq!(
        parser.parse(&lexer.lex("1*(3+4)").unwrap()).unwrap(),
        Multiplication(
            Box::new(Expression::Literal(1f64.to_bits())),
            Box::new(ParenthesisExpression(Box::new(Addition(
                Box::new(Expression::Literal(3f64.to_bits())),
                Box::new(Expression::Literal(4f64.to_bits()))
            ))))
        )
    );
}

#[test]
fn parse_1_times_a() {
    let lexer = Lexer::new();
    let mut parser = Parser::new();
    // Required, else we would get an undefined-symbol error.
    parser.parse(&lexer.lex("a = 3").unwrap()).unwrap();
    assert_eq!(
        parser.parse(&lexer.lex("1 + a").unwrap()).unwrap(),
        Addition(
            Box::new(Expression::Literal(1f64.to_bits())),
            Box::new(Variable(String::from("a")))
        )
    );
}

#[test]
fn parse_undefined_variable() {
    let lexer = Lexer::new();
    let mut parser = Parser::new();
    assert!(parser.parse(&lexer.lex("a + b").unwrap()).is_err());
}

#[test]
fn parse_nested_parentheses() {
    let lexer = Lexer::new();
    let mut parser = Parser::new();
    assert_eq!(
        parser.parse(&lexer.lex("(1 +  2) *  3").unwrap()).unwrap(),
        Multiplication(
            Box::new(ParenthesisExpression(Box::new(Addition(
                Box::new(Expression::Literal(1f64.to_bits())),
                Box::new(Expression::Literal(2f64.to_bits()))
            )))),
            Box::new(Expression::Literal(3f64.to_bits()))
        )
    );
}

#[test]
fn parse_nested_parentheses_with_precedence() {
    let lexer = Lexer::new();
    let mut parser = Parser::new();
    assert_eq!(
        parser.parse(&lexer.lex("1 + (2 *  3)").unwrap()).unwrap(),
        Addition(
            Box::new(Expression::Literal(1f64.to_bits())),
            Box::new(ParenthesisExpression(Box::new(Multiplication(
                Box::new(Expression::Literal(2f64.to_bits())),
                Box::new(Expression::Literal(3f64.to_bits()))
            ))))
        )
    );
}

#[test]
fn parse_minus_1_minus_minus_1() {
    let lexer = Lexer::new();
    let mut parser = Parser::new();
    assert_eq!(
        parser.parse(&lexer.lex("-1 - -1").unwrap()).unwrap(),
        Expression::Subtraction(
            Box::new(UnaryMinus(Box::new(Expression::Literal(1f64.to_bits())))),
            Box::new(UnaryMinus(Box::new(Expression::Literal(1f64.to_bits()))))
        )
    )
}

#[test]
fn parse_nested_parentheses_with_precedence_and_unary() {
    let lexer = Lexer::new();
    let mut parser = Parser::new();
    assert_eq!(
        parser.parse(&lexer.lex("1 + (-2 *  3)").unwrap()).unwrap(),
        Addition(
            Box::new(Expression::Literal(1f64.to_bits())),
            Box::new(ParenthesisExpression(Box::new(Multiplication(
                Box::new(UnaryMinus(Box::new(Expression::Literal(2f64.to_bits())))),
                Box::new(Expression::Literal(3f64.to_bits()))
            ))))
        )
    );
}

#[test]
fn parse_nested_parentheses_with_precedence_and_unary_fail() {
    let lexer = Lexer::new();
    let mut parser = Parser::new();
    assert!(parser.parse(&lexer.lex("1 + (-2 *  3").unwrap()).is_err());
}

#[test]
fn parse_empty_string() {
    let lexer = Lexer::new();
    let mut parser = Parser::new();
    assert_eq!(
        parser.parse(&lexer.lex("").unwrap()).unwrap(),
        Expression::Eof
    );
}

#[test]
fn parse_caret_is_a_syntax_error() {
    // The lexer knows `^`, but no grammar rule consumes it, so a line
    // holding one fails at the parser stage.
    let lexer = Lexer::new();
    let mut parser = Parser::new();
    assert!(parser.parse(&lexer.lex("4^2").unwrap()).is_err());
    assert!(parser.parse(&lexer.lex("1 + (4^2)").unwrap()).is_err());
}

#[test]
fn parse_rejects_trailing_tokens() {
    let lexer = Lexer::new();
    let mut parser = Parser::new();
    assert!(parser.parse(&lexer.lex("1 2").unwrap()).is_err());
    assert!(parser.parse(&lexer.lex("1 + 2 )").unwrap()).is_err());
}

#[test]
fn parse_exponent_literal() {
    let lexer = Lexer::new();
    let mut parser = Parser::new();
    assert_eq!(
        parser.parse(&lexer.lex("2e3").unwrap()).unwrap(),
        Expression::Literal(2000f64.to_bits())
    );
    assert_eq!(
        parser.parse(&lexer.lex("28.6").unwrap()).unwrap(),
        Expression::Literal(28.6f64.to_bits())
    );
}

#[test]
fn parse_keeps_declaration_of_failed_assignment() {
    // `c = (` fails, but `c` stays declared; reading it then passes the
    // parser and fails only later, in the interpreter.
    let lexer = Lexer::new();
    let mut parser = Parser::new();
    assert!(parser.parse(&lexer.lex("c = (").unwrap()).is_err());
    assert_eq!(
        parser.parse(&lexer.lex("c").unwrap()).unwrap(),
        Variable(String::from("c"))
    );
}
