//! The error type of each pipeline stage, each carrying a human-readable
//! message.
use vstd::prelude::*;

verus! {

/// An error raised by the lexer: an unknown character at some position.
#[derive(Debug)]
pub struct LexerError {
    message: String,
}

impl LexerError {
    pub fn new(message: String) -> (e: LexerError)
        ensures
            e@ == message@,
    {
        LexerError { message }
    }

    /// The error's message text.
    pub fn message(&self) -> (m: &String)
        ensures
            m@ == self@,
    {
        &self.message
    }
}

impl View for LexerError {
    type V = Seq<char>;

    closed spec fn view(&self) -> Seq<char> {
        self.message@
    }
}

/// An error raised by the parser: a malformed token sequence.
#[derive(Debug)]
pub struct SyntaxError {
    message: String,
}

impl SyntaxError {
    pub fn new(message: String) -> (e: SyntaxError)
        ensures
            e@ == message@,
    {
        SyntaxError { message }
    }

    /// The error's message text.
    pub fn message(&self) -> (m: &String)
        ensures
            m@ == self@,
    {
        &self.message
    }
}

impl View for SyntaxError {
    type V = Seq<char>;

    closed spec fn view(&self) -> Seq<char> {
        self.message@
    }
}

/// An error raised by the interpreter: division by zero, an illegal
/// assignment, a missing variable, or evaluation of the end-of-line
/// sentinel.
#[derive(Debug)]
pub struct InterpreterError {
    message: String,
}

impl InterpreterError {
    pub fn new(message: String) -> (e: InterpreterError)
        ensures
            e@ == message@,
    {
        InterpreterError { message }
    }

    /// The error's message text.
    pub fn message(&self) -> (m: &String)
        ensures
            m@ == self@,
    {
        &self.message
    }
}

impl View for InterpreterError {
    type V = Seq<char>;

    closed spec fn view(&self) -> Seq<char> {
        self.message@
    }
}

} // verus!
