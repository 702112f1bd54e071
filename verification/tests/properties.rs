//! Scenario checks for the behaviors the library promises: arithmetic
//! matching direct evaluation, division-by-zero failures, the
//! expression-holding store, cycle rejection, the empty line, and the
//! exact error messages.
use ralculator::errors::{InterpreterError, LexerError, SyntaxError};
use ralculator::interpreter::Interpreter;
use ralculator::lexer::Lexer;
use ralculator::parser::Parser;

fn run(lexer: &Lexer, parser: &mut Parser, it: &mut Interpreter, line: &str) -> Result<u64, String> {
    let tokens = lexer.lex(line).unwrap();
    let ast = parser.parse(&tokens).unwrap();
    it.interpret(ast)
}

fn run_val(lexer: &Lexer, parser: &mut Parser, it: &mut Interpreter, line: &str) -> f64 {
    f64::from_bits(run(lexer, parser, it, line).unwrap())
}

#[test]
fn arithmetic_matches_direct_evaluation() {
    let lexer = Lexer::new();
    let mut parser = Parser::new();
    let mut it = Interpreter::new();
    assert_eq!(run_val(&lexer, &mut parser, &mut it, "10 - 3 - 4"), 3.0);
    assert_eq!(run_val(&lexer, &mut parser, &mut it, "20 / 2 / 5"), 2.0);
    assert_eq!(run_val(&lexer, &mut parser, &mut it, "2 + 3 * 4"), 14.0);
    assert_eq!(run_val(&lexer, &mut parser, &mut it, "(2 + 3) * 4"), 20.0);
    assert_eq!(run_val(&lexer, &mut parser, &mut it, "7 / 2"), 3.5);
    assert_eq!(run_val(&lexer, &mut parser, &mut it, "1.5 + 2.25"), 3.75);
    assert_eq!(run_val(&lexer, &mut parser, &mut it, "2e3 - 1"), 1999.0);
    assert_eq!(run_val(&lexer, &mut parser, &mut it, "-1 - -1"), 0.0);
    assert_eq!(run_val(&lexer, &mut parser, &mut it, "+5"), 5.0);
    assert_eq!(
        run_val(&lexer, &mut parser, &mut it, "12 + 28.6 - 23.41 * 2.3"),
        12f64 + 28.6 - 23.41 * 2.3
    );
}

#[test]
fn division_with_zero_denominator_fails() {
    let lexer = Lexer::new();
    let mut parser = Parser::new();
    let mut it = Interpreter::new();
    assert_eq!(
        run(&lexer, &mut parser, &mut it, "5 / (2 - 2)"),
        Err("Cannot divide by 0.".to_string())
    );
    assert_eq!(
        run(&lexer, &mut parser, &mut it, "0 / 0"),
        Err("Cannot divide by 0.".to_string())
    );
    // The right-hand side evaluates to negative zero, which is zero too.
    assert_eq!(
        run(&lexer, &mut parser, &mut it, "1 / (-1 * 0)"),
        Err("Cannot divide by 0.".to_string())
    );
}

#[test]
fn store_holds_expressions_not_values() {
    let lexer = Lexer::new();
    let mut parser = Parser::new();
    let mut it = Interpreter::new();
    run(&lexer, &mut parser, &mut it, "base = 10").unwrap();
    run(&lexer, &mut parser, &mut it, "twice = base * 2").unwrap();
    assert_eq!(run_val(&lexer, &mut parser, &mut it, "twice"), 20.0);
    run(&lexer, &mut parser, &mut it, "base = 7").unwrap();
    assert_eq!(run_val(&lexer, &mut parser, &mut it, "twice"), 14.0);
}

#[test]
fn acyclic_chain_succeeds() {
    let lexer = Lexer::new();
    let mut parser = Parser::new();
    let mut it = Interpreter::new();
    run(&lexer, &mut parser, &mut it, "a = 3").unwrap();
    run(&lexer, &mut parser, &mut it, "b = a + 2").unwrap();
    run(&lexer, &mut parser, &mut it, "c = b * 2").unwrap();
    assert_eq!(run_val(&lexer, &mut parser, &mut it, "c"), 10.0);
}

#[test]
fn illegal_assignment_message_and_no_mutation() {
    let lexer = Lexer::new();
    let mut parser = Parser::new();
    let mut it = Interpreter::new();
    run(&lexer, &mut parser, &mut it, "a = 3").unwrap();
    assert_eq!(
        run(&lexer, &mut parser, &mut it, "a = a + 1"),
        Err("Illegal assignation".to_string())
    );
    // The failed assignment left the binding as it was.
    assert_eq!(run_val(&lexer, &mut parser, &mut it, "a"), 3.0);
}

#[test]
fn empty_line_parses_to_eof_and_does_not_evaluate() {
    let lexer = Lexer::new();
    let mut parser = Parser::new();
    let mut it = Interpreter::new();
    let tokens = lexer.lex("").unwrap();
    assert_eq!(tokens.len(), 0);
    let ast = parser.parse(&tokens).unwrap();
    assert_eq!(ast, ralculator::ast::Expression::Eof);
    assert_eq!(it.interpret(ast), Err("EOF".to_string()));
}

#[test]
fn undeclared_identifier_fails_at_parse_time() {
    let lexer = Lexer::new();
    let mut parser = Parser::new();
    assert!(parser.parse(&lexer.lex("x").unwrap()).is_err());
    assert!(parser.parse(&lexer.lex("1 + x").unwrap()).is_err());
}

#[test]
fn declared_but_unbound_variable_fails_in_interpreter() {
    // `c = (` declares `c` in the parser's symbol table but stores
    // nothing; both reading it and assigning through it are caught by
    // the interpreter's defensive lookup.
    let lexer = Lexer::new();
    let mut parser = Parser::new();
    let mut it = Interpreter::new();
    assert!(parser.parse(&lexer.lex("c = (").unwrap()).is_err());
    let read = parser.parse(&lexer.lex("c").unwrap()).unwrap();
    assert_eq!(it.interpret(read), Err("Variable c not found".to_string()));
    let assign = parser.parse(&lexer.lex("b = c").unwrap()).unwrap();
    assert_eq!(it.interpret(assign), Err("Variable c not found".to_string()));
}

#[test]
fn assignment_of_failing_expression_still_binds() {
    // The store is updated before the right-hand side is evaluated, so
    // a division by zero leaves the binding in place.
    let lexer = Lexer::new();
    let mut parser = Parser::new();
    let mut it = Interpreter::new();
    assert!(run(&lexer, &mut parser, &mut it, "d = 1/0").is_err());
    assert_eq!(
        run(&lexer, &mut parser, &mut it, "d"),
        Err("Cannot divide by 0.".to_string())
    );
}

#[test]
fn error_types_carry_their_message() {
    assert_eq!(LexerError::new("oops".to_string()).message().as_str(), "oops");
    assert_eq!(SyntaxError::new("bad".to_string()).message().as_str(), "bad");
    assert_eq!(InterpreterError::new("no".to_string()).message().as_str(), "no");
}

#[test]
fn literal_parsing_is_numeric() {
    // The literal's text is converted to a binary64 value, not carried
    // as raw bits of the text.
    let lexer = Lexer::new();
    let mut parser = Parser::new();
    match parser.parse(&lexer.lex("2.5").unwrap()).unwrap() {
        ralculator::ast::Expression::Literal(bits) => {
            assert_eq!(bits, 2.5f64.to_bits());
            assert_eq!(f64::from_bits(bits), 2.5);
        }
        other => panic!("expected a literal, got {other:?}"),
    }
}
