//! Tokens produced by the lexer, and the read-only forward cursor the
//! parser consumes them through.
use vstd::prelude::*;

verus! {

/// The four classes of token the lexer can produce.
#[derive(Debug, PartialEq, Eq, Structural, Clone, Copy)]
pub enum Kind {
    Identifier,
    Operator,
    Separator,
    Literal,
}

/// A classified substring of the input line: its class, the matched text,
/// and its character offset in the trimmed line.
#[derive(Debug, PartialEq)]
pub struct Token {
    pub kind: Kind,
    pub raw_value: String,
    pub position: usize,
}

impl Clone for Token {
    fn clone(&self) -> (t: Token)
        ensures
            t == *self,
    {
        Token { kind: self.kind, raw_value: self.raw_value.clone(), position: self.position }
    }
}

/// The mathematical content of a [`Token`]: the raw text as a character
/// sequence, beside the class and offset.
pub struct TokenModel {
    pub kind: Kind,
    pub raw: Seq<char>,
    pub pos: nat,
}

impl View for Token {
    type V = TokenModel;

    open spec fn view(&self) -> TokenModel {
        TokenModel { kind: self.kind, raw: self.raw_value@, pos: self.position as nat }
    }
}

impl Token {
    pub fn new(kind: Kind, raw_value: String, position: usize) -> (t: Token)
        ensures
            t.kind == kind,
            t.raw_value == raw_value,
            t.position == position,
    {
        Token { kind, raw_value, position }
    }
}

/// A sequence of tokens together with a cursor, read strictly forward.
/// Offers the token under the cursor, one token of lookahead, and an
/// advance operation; the cursor never moves past the end of the buffer.
#[derive(Debug)]
pub struct TokenStream {
    pub buffer: Vec<Token>,
    pub cursor: usize,
}

impl TokenStream {
    pub fn new(buffer: Vec<Token>) -> (s: TokenStream)
        ensures
            s.buffer == buffer,
            s.cursor == 0,
    {
        TokenStream { buffer, cursor: 0 }
    }

    /// The token under the cursor, or `None` at the end of the buffer.
    pub fn curr(&self) -> (r: Option<&Token>)
        ensures
            match r {
                Some(t) => self.cursor < self.buffer@.len() && *t == self.buffer@[
                    self.cursor as int
                ],
                None => self.cursor >= self.buffer@.len(),
            },
    {
        if self.cursor < self.buffer.len() {
            Some(&self.buffer[self.cursor])
        } else {
            None
        }
    }

    /// Advances the cursor by one token, stopping at the end of the
    /// buffer, and returns the token now under it.
    pub fn next(&mut self) -> (r: Option<&Token>)
        ensures
            final(self).buffer == old(self).buffer,
            final(self).cursor == if old(self).cursor < old(self).buffer@.len() {
                old(self).cursor + 1
            } else {
                old(self).cursor as int
            },
            match r {
                Some(t) => final(self).cursor < final(self).buffer@.len() && *t == final(
                    self
                ).buffer@[final(self).cursor as int],
                None => final(self).cursor >= final(self).buffer@.len(),
            },
    {
        if self.cursor < self.buffer.len() {
            self.cursor = self.cursor + 1;
        }
        self.curr()
    }

    /// The token under the cursor, cloned, or `None` at the end.
    pub(crate) fn curr_cloned(&self) -> (r: Option<Token>)
        ensures
            match r {
                Some(t) => self.cursor < self.buffer@.len() && t == self.buffer@[
                    self.cursor as int
                ],
                None => self.cursor >= self.buffer@.len(),
            },
    {
        match self.curr() {
            Some(t) => Some(t.clone()),
            None => None,
        }
    }

    /// The token one past the cursor, cloned, or `None` if there is none.
    pub(crate) fn lookahead_cloned(&self) -> (r: Option<Token>)
        ensures
            match r {
                Some(t) => self.cursor + 1 < self.buffer@.len() && t == self.buffer@[
                    self.cursor + 1
                ],
                None => self.cursor + 1 >= self.buffer@.len(),
            },
    {
        match self.lookahead() {
            Some(t) => Some(t.clone()),
            None => None,
        }
    }

    /// The token one past the cursor, or `None` if there is none.
    pub fn lookahead(&self) -> (r: Option<&Token>)
        ensures
            match r {
                Some(t) => self.cursor + 1 < self.buffer@.len() && *t == self.buffer@[
                    self.cursor + 1
                ],
                None => self.cursor + 1 >= self.buffer@.len(),
            },
    {
        if self.cursor < self.buffer.len() && self.cursor + 1 < self.buffer.len() {
            Some(&self.buffer[self.cursor + 1])
        } else {
            None
        }
    }
}

} // verus!
