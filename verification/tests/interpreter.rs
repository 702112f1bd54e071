use ralculator::interpreter::Interpreter;
use ralculator::lexer::Lexer;
use ralculator::parser::Parser;

fn run(lexer: &Lexer, parser: &mut Parser, it: &mut Interpreter, line: &str) -> Result<u64, String> {
    let tokens = lexer.lex(line).unwrap();
    let ast = parser.parse(&tokens).unwrap();
    it.interpret(ast)
}

fn run_val(lexer: &Lexer, parser: &mut Parser, it: &mut Interpreter, line: &str) -> f64 {
    f64::from_bits(run(lexer, parser, it, line).unwrap())
}

#[test]
fn interpret_1_plus_1() {
    let lexer = Lexer::new();
    let mut parser = Parser::new();
    let mut interpreter = Interpreter::new();
    let tokens = lexer.lex("1 + 1").unwrap();
    let res = interpreter.interpret(parser.parse(&tokens).unwrap()).unwrap();
    assert_eq!(f64::from_bits(res), 2.0);
}

#[test]
fn interpret_longer_numbers() {
    let lexer = Lexer::new();
    let mut parser = Parser::new();
    let mut interpreter = Interpreter::new();
    let tokens = lexer.lex("12 + 28.6 - 23.41 * 2.3").unwrap();
    let res = f64::from_bits(interpreter.interpret(parser.parse(&tokens).unwrap()).unwrap());
    assert_eq!(format!("{res:.3}"), "-13.243");
}

#[test]
fn cannot_divide_by_zero() {
    let lexer = Lexer::new();
    let mut parser = Parser::new();
    let mut interpreter = Interpreter::new();
    let tokens = lexer.lex("1/0").unwrap();
    let res = interpreter.interpret(parser.parse(&tokens).unwrap());
    assert!(res.is_err());
}

#[test]
fn keeps_track_of_vars() {
    let lexer = Lexer::new();
    let mut parser = Parser::new();
    let mut interpreter = Interpreter::new();
    run(&lexer, &mut parser, &mut interpreter, "a = 3").unwrap();
    assert_eq!(run_val(&lexer, &mut parser, &mut interpreter, "a"), 3.0);
    run(&lexer, &mut parser, &mut interpreter, "a = 8").unwrap();
    assert_eq!(run_val(&lexer, &mut parser, &mut interpreter, "a"), 8.0);
}

#[test]
fn crash_circular_ref_simple() {
    let lexer = Lexer::new();
    let mut parser = Parser::new();
    let mut interpreter = Interpreter::new();
    run(&lexer, &mut parser, &mut interpreter, "a = 3").unwrap();
    assert!(run(&lexer, &mut parser, &mut interpreter, "a = a").is_err());
}

#[test]
fn crash_circular_ref() {
    let lexer = Lexer::new();
    let mut parser = Parser::new();
    let mut interpreter = Interpreter::new();
    run(&lexer, &mut parser, &mut interpreter, "a = 3").unwrap();
    run(&lexer, &mut parser, &mut interpreter, "b = a").unwrap();
    assert!(run(&lexer, &mut parser, &mut interpreter, "a = b").is_err());
}

#[test]
fn interpret_assignment() {
    let lexer = Lexer::new();
    let mut parser = Parser::new();
    let mut interpreter = Interpreter::new();
    assert_eq!(run_val(&lexer, &mut parser, &mut interpreter, "a = 2"), 2.0);
    assert_eq!(run_val(&lexer, &mut parser, &mut interpreter, "b = a + 2"), 4.0);
    assert_eq!(run_val(&lexer, &mut parser, &mut interpreter, "a"), 2.0);
    assert_eq!(run_val(&lexer, &mut parser, &mut interpreter, "b"), 4.0);
    assert_eq!(run_val(&lexer, &mut parser, &mut interpreter, "a = 4"), 4.0);
    assert_eq!(run_val(&lexer, &mut parser, &mut interpreter, "b"), 6.0);
}

#[test]
fn interpret_parenthesed_expr() {
    let lexer = Lexer::new();
    let mut parser = Parser::new();
    let mut interpreter = Interpreter::new();
    assert_eq!(run_val(&lexer, &mut parser, &mut interpreter, "1 + 2 * 4"), 9.0);
    assert_eq!(
        run_val(&lexer, &mut parser, &mut interpreter, "1 + 2 * 4 + 3 - (4 + 6 * 4)"),
        -16.0
    );
}
