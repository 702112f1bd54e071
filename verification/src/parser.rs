//! The parser: builds an expression tree from a token sequence by
//! recursive descent, and keeps a symbol table of every variable name an
//! assignment has declared, so that a reference to an undeclared name is
//! rejected at parse time.
//!
//! The grammar, lowest precedence first:
//! ```text
//! line        := assignment | expr | nothing      (nothing yields Eof)
//! assignment  := IDENTIFIER "=" expr
//! expr        := term ( ("+" | "-") term )*       (left-associative)
//! term        := factor ( ("*" | "/") factor )*   (left-associative)
//! factor      := "+" factor | "-" factor
//!              | LITERAL | IDENTIFIER | "(" expr ")"
//! ```
//! A line must be consumed whole: tokens left over after the tree is
//! built are a syntax error.
use crate::ast::{assign_free, line_shaped, vars_of, ExprModel, Expression};
use crate::errors::SyntaxError;
use crate::num::lit_bits_of;
use crate::lexer::{is_literal_chars, stream_wf};
use crate::tokens::{Kind, Token, TokenModel, TokenStream};
use vstd::prelude::*;

verus! {

/// The mathematical content of a token sequence.
pub open spec fn token_views(toks: Seq<Token>) -> Seq<TokenModel> {
    toks.map_values(|t: Token| t@)
}

/// The mathematical content of a name list.
pub open spec fn name_views(names: Seq<String>) -> Seq<Seq<char>> {
    names.map_values(|s: String| s@)
}

/// Whether a token's text is the single character `c`.
pub open spec fn is_char_tok(raw: Seq<char>, c: char) -> bool {
    raw.len() == 1 && raw[0] == c
}

// ---------------------------------------------------------------------
// The grammar as spec functions
//
// Each function takes the token sequence, the symbol table and a start
// position, and yields the parsed subtree with the position after it, or
// `None` for a syntax error. Each mirrors one production.
// ---------------------------------------------------------------------
/// factor := "+" factor | "-" factor | LITERAL | IDENTIFIER | "(" expr ")"
pub open spec fn sp_factor(ts: Seq<TokenModel>, st: Seq<Seq<char>>, i: int) -> Option<
    (ExprModel, int),
>
    decreases ts.len() - i, 1int,
{
    if !(0 <= i && i < ts.len()) {
        None
    } else {
        let t = ts[i];
        match t.kind {
            Kind::Operator => if is_char_tok(t.raw, '+') {
                match sp_factor(ts, st, i + 1) {
                    Some((e, j)) => Some((ExprModel::UnaryPlus(Box::new(e)), j)),
                    None => None,
                }
            } else if is_char_tok(t.raw, '-') {
                match sp_factor(ts, st, i + 1) {
                    Some((e, j)) => Some((ExprModel::UnaryMinus(Box::new(e)), j)),
                    None => None,
                }
            } else {
                None
            },
            Kind::Literal => Some((ExprModel::Literal(lit_bits_of(t.raw)), i + 1)),
            Kind::Identifier => if st.contains(t.raw) {
                Some((ExprModel::Variable(t.raw), i + 1))
            } else {
                None
            },
            Kind::Separator => if is_char_tok(t.raw, '(') {
                match sp_expr(ts, st, i + 1) {
                    Some((e, j)) => if 0 <= j && j < ts.len() && ts[j].kind == Kind::Separator
                        && is_char_tok(ts[j].raw, ')') {
                        Some((ExprModel::ParenthesisExpression(Box::new(e)), j + 1))
                    } else {
                        None
                    },
                    None => None,
                }
            } else {
                None
            },
        }
    }
}

/// The `( ("*" | "/") factor )*` tail of a term, folded onto `acc` from
/// the left.
pub open spec fn sp_term_tail(ts: Seq<TokenModel>, st: Seq<Seq<char>>, i: int, acc: ExprModel)
    -> Option<(ExprModel, int)>
    decreases ts.len() - i, 3int,
{
    if !(0 <= i && i < ts.len()) {
        Some((acc, i))
    } else {
        let t = ts[i];
        if t.kind == Kind::Operator && is_char_tok(t.raw, '*') {
            match sp_factor(ts, st, i + 1) {
                Some((f, j)) => if i + 1 < j && j <= ts.len() {
                    sp_term_tail(
                        ts,
                        st,
                        j,
                        ExprModel::Multiplication(Box::new(acc), Box::new(f)),
                    )
                } else {
                    None
                },
                None => None,
            }
        } else if t.kind == Kind::Operator && is_char_tok(t.raw, '/') {
            match sp_factor(ts, st, i + 1) {
                Some((f, j)) => if i + 1 < j && j <= ts.len() {
                    sp_term_tail(ts, st, j, ExprModel::Division(Box::new(acc), Box::new(f)))
                } else {
                    None
                },
                None => None,
            }
        } else {
            Some((acc, i))
        }
    }
}

/// term := factor ( ("*" | "/") factor )*
pub open spec fn sp_term(ts: Seq<TokenModel>, st: Seq<Seq<char>>, i: int) -> Option<
    (ExprModel, int),
>
    decreases ts.len() - i, 2int,
{
    match sp_factor(ts, st, i) {
        Some((f, j)) => if i < j && j <= ts.len() {
            sp_term_tail(ts, st, j, f)
        } else {
            None
        },
        None => None,
    }
}

/// The `( ("+" | "-") term )*` tail of an expression, folded onto `acc`
/// from the left.
pub open spec fn sp_expr_tail(ts: Seq<TokenModel>, st: Seq<Seq<char>>, i: int, acc: ExprModel)
    -> Option<(ExprModel, int)>
    decreases ts.len() - i, 5int,
{
    if !(0 <= i && i < ts.len()) {
        Some((acc, i))
    } else {
        let t = ts[i];
        if t.kind == Kind::Operator && is_char_tok(t.raw, '+') {
            match sp_term(ts, st, i + 1) {
                Some((e, j)) => if i + 1 < j && j <= ts.len() {
                    sp_expr_tail(ts, st, j, ExprModel::Addition(Box::new(acc), Box::new(e)))
                } else {
                    None
                },
                None => None,
            }
        } else if t.kind == Kind::Operator && is_char_tok(t.raw, '-') {
            match sp_term(ts, st, i + 1) {
                Some((e, j)) => if i + 1 < j && j <= ts.len() {
                    sp_expr_tail(ts, st, j, ExprModel::Subtraction(Box::new(acc), Box::new(e)))
                } else {
                    None
                },
                None => None,
            }
        } else {
            Some((acc, i))
        }
    }
}

/// expr := term ( ("+" | "-") term )*
pub open spec fn sp_expr(ts: Seq<TokenModel>, st: Seq<Seq<char>>, i: int) -> Option<
    (ExprModel, int),
>
    decreases ts.len() - i, 4int,
{
    match sp_term(ts, st, i) {
        Some((e, j)) => if i < j && j <= ts.len() {
            sp_expr_tail(ts, st, j, e)
        } else {
            None
        },
        None => None,
    }
}

/// assignment := IDENTIFIER "=" expr. The name is declared before the
/// right-hand side is parsed, so the side may read the name itself; the
/// symbol table keeps the name even if the side fails to parse.
pub open spec fn sp_assignment(ts: Seq<TokenModel>, st: Seq<Seq<char>>) -> (Option<
    (ExprModel, int),
>, Seq<Seq<char>>) {
    let name = ts[0].raw;
    let st2 = if st.contains(name) {
        st
    } else {
        st.push(name)
    };
    match sp_expr(ts, st2, 2) {
        Some((e, j)) => (Some((ExprModel::Assignment(name, Box::new(e)), j)), st2),
        None => (None, st2),
    }
}

/// A whole line parsed as an expression: it must consume every token.
pub open spec fn sp_line_expr(ts: Seq<TokenModel>, st: Seq<Seq<char>>) -> Option<ExprModel> {
    match sp_expr(ts, st, 0) {
        Some((e, j)) => if j == ts.len() {
            Some(e)
        } else {
            None
        },
        None => None,
    }
}

/// One line parsed, with the resulting symbol table. An empty line
/// yields the Eof sentinel; a line whose first token is an identifier
/// followed by `=` is an assignment; otherwise the line is an expression,
/// accepted only when its leading token can start one.
pub open spec fn sp_parse(ts: Seq<TokenModel>, st: Seq<Seq<char>>) -> (Option<ExprModel>, Seq<
    Seq<char>,
>) {
    if ts.len() == 0 {
        (Some(ExprModel::Eof), st)
    } else {
        let t0 = ts[0];
        match t0.kind {
            Kind::Identifier => if ts.len() >= 2 {
                match ts[1].kind {
                    Kind::Operator => if is_char_tok(ts[1].raw, '=') {
                        let (o, st2) = sp_assignment(ts, st);
                        (
                            match o {
                                Some((e, j)) => if j == ts.len() {
                                    Some(e)
                                } else {
                                    None
                                },
                                None => None,
                            },
                            st2,
                        )
                    } else {
                        (sp_line_expr(ts, st), st)
                    },
                    _ => (None, st),
                }
            } else {
                (sp_line_expr(ts, st), st)
            },
            Kind::Separator => (sp_line_expr(ts, st), st),
            Kind::Literal => (sp_line_expr(ts, st), st),
            Kind::Operator => if is_char_tok(t0.raw, '+') || is_char_tok(t0.raw, '-') {
                (sp_line_expr(ts, st), st)
            } else {
                (None, st)
            },
        }
    }
}

// ---------------------------------------------------------------------
// Shape of parsed trees
// ---------------------------------------------------------------------
/// Trees built below the line level hold no assignment node, and read
/// only declared names.
proof fn lemma_sp_factor_shape(ts: Seq<TokenModel>, st: Seq<Seq<char>>, i: int)
    ensures
        sp_factor(ts, st, i) matches Some((e, j)) ==> assign_free(e) && forall|v: Seq<char>|
            vars_of(e).contains(v) ==> st.contains(v),
    decreases ts.len() - i, 1int,
{
    if 0 <= i && i < ts.len() {
        let t = ts[i];
        match t.kind {
            Kind::Operator => {
                lemma_sp_factor_shape(ts, st, i + 1);
            },
            Kind::Separator => {
                lemma_sp_expr_shape(ts, st, i + 1);
            },
            _ => {},
        }
    }
}

proof fn lemma_sp_term_tail_shape(ts: Seq<TokenModel>, st: Seq<Seq<char>>, i: int, acc: ExprModel)
    requires
        assign_free(acc),
        forall|v: Seq<char>| vars_of(acc).contains(v) ==> st.contains(v),
    ensures
        sp_term_tail(ts, st, i, acc) matches Some((e, j)) ==> assign_free(e) && forall|
            v: Seq<char>,
        | vars_of(e).contains(v) ==> st.contains(v),
    decreases ts.len() - i, 3int,
{
    if 0 <= i && i < ts.len() {
        let t = ts[i];
        if t.kind == Kind::Operator && (is_char_tok(t.raw, '*') || is_char_tok(t.raw, '/')) {
            lemma_sp_factor_shape(ts, st, i + 1);
            match sp_factor(ts, st, i + 1) {
                Some((f, j)) => if i + 1 < j && j <= ts.len() {
                    if is_char_tok(t.raw, '*') {
                        lemma_sp_term_tail_shape(
                            ts,
                            st,
                            j,
                            ExprModel::Multiplication(Box::new(acc), Box::new(f)),
                        );
                    } else {
                        lemma_sp_term_tail_shape(
                            ts,
                            st,
                            j,
                            ExprModel::Division(Box::new(acc), Box::new(f)),
                        );
                    }
                },
                None => {},
            }
        }
    }
}

proof fn lemma_sp_term_shape(ts: Seq<TokenModel>, st: Seq<Seq<char>>, i: int)
    ensures
        sp_term(ts, st, i) matches Some((e, j)) ==> assign_free(e) && forall|v: Seq<char>|
            vars_of(e).contains(v) ==> st.contains(v),
    decreases ts.len() - i, 2int,
{
    lemma_sp_factor_shape(ts, st, i);
    match sp_factor(ts, st, i) {
        Some((f, j)) => if i < j && j <= ts.len() {
            lemma_sp_term_tail_shape(ts, st, j, f);
        },
        None => {},
    }
}

proof fn lemma_sp_expr_tail_shape(ts: Seq<TokenModel>, st: Seq<Seq<char>>, i: int, acc: ExprModel)
    requires
        assign_free(acc),
        forall|v: Seq<char>| vars_of(acc).contains(v) ==> st.contains(v),
    ensures
        sp_expr_tail(ts, st, i, acc) matches Some((e, j)) ==> assign_free(e) && forall|
            v: Seq<char>,
        | vars_of(e).contains(v) ==> st.contains(v),
    decreases ts.len() - i, 5int,
{
    if 0 <= i && i < ts.len() {
        let t = ts[i];
        if t.kind == Kind::Operator && (is_char_tok(t.raw, '+') || is_char_tok(t.raw, '-')) {
            lemma_sp_term_shape(ts, st, i + 1);
            match sp_term(ts, st, i + 1) {
                Some((e, j)) => if i + 1 < j && j <= ts.len() {
                    if is_char_tok(t.raw, '+') {
                        lemma_sp_expr_tail_shape(
                            ts,
                            st,
                            j,
                            ExprModel::Addition(Box::new(acc), Box::new(e)),
                        );
                    } else {
                        lemma_sp_expr_tail_shape(
                            ts,
                            st,
                            j,
                            ExprModel::Subtraction(Box::new(acc), Box::new(e)),
                        );
                    }
                },
                None => {},
            }
        }
    }
}

proof fn lemma_sp_expr_shape(ts: Seq<TokenModel>, st: Seq<Seq<char>>, i: int)
    ensures
        sp_expr(ts, st, i) matches Some((e, j)) ==> assign_free(e) && forall|v: Seq<char>|
            vars_of(e).contains(v) ==> st.contains(v),
    decreases ts.len() - i, 4int,
{
    lemma_sp_term_shape(ts, st, i);
    match sp_term(ts, st, i) {
        Some((e, j)) => if i < j && j <= ts.len() {
            lemma_sp_expr_tail_shape(ts, st, j, e);
        },
        None => {},
    }
}

// ---------------------------------------------------------------------
// Executable helpers
// ---------------------------------------------------------------------
/// Whether a string is the single character `c`.
fn str_is_char(s: &String, c: char) -> (r: bool)
    ensures
        r == is_char_tok(s@, c),
{
    let n = s.as_str().unicode_len();
    n == 1 && s.as_str().get_char(0) == c
}

/// An owned copy of a token slice.
fn copy_tokens(line: &[Token]) -> (v: Vec<Token>)
    ensures
        v@ == line@,
{
    let mut v: Vec<Token> = Vec::new();
    let mut k: usize = 0;
    while k < line.len()
        invariant
            k <= line@.len(),
            v@ == line@.subrange(0, k as int),
        decreases line@.len() - k,
    {
        v.push(line[k].clone());
        k = k + 1;
        proof {
            assert(v@ =~= line@.subrange(0, k as int));
        }
    }
    proof {
        assert(v@ =~= line@);
    }
    v
}

/// A parsed line is line-shaped, and reads only names the resulting
/// symbol table declares.
pub proof fn lemma_sp_parse_shape(ts: Seq<TokenModel>, st: Seq<Seq<char>>)
    ensures
        sp_parse(ts, st).0 matches Some(e) ==> line_shaped(e) && forall|v: Seq<char>|
            vars_of(e).contains(v) ==> sp_parse(ts, st).1.contains(v),
{
    if ts.len() == 0 {
    } else {
        let t0 = ts[0];
        lemma_sp_expr_shape(ts, st, 0);
        if t0.kind == Kind::Identifier && ts.len() >= 2 && ts[1].kind == Kind::Operator
            && is_char_tok(ts[1].raw, '=') {
            let name = ts[0].raw;
            let st2 = if st.contains(name) {
                st
            } else {
                st.push(name)
            };
            lemma_sp_expr_shape(ts, st2, 2);
        }
    }
}

// ---------------------------------------------------------------------
// The parser
// ---------------------------------------------------------------------
/// The parser: a symbol table that lives across lines, and the token
/// stream of the line being parsed.
pub struct Parser {
    pub symbol_table: Vec<String>,
    pub tokens: TokenStream,
}

impl Parser {
    /// The declared names, as character sequences.
    pub open spec fn st(&self) -> Seq<Seq<char>> {
        name_views(self.symbol_table@)
    }

    /// The tokens of the current line, as their mathematical content.
    pub open spec fn ts(&self) -> Seq<TokenModel> {
        token_views(self.tokens.buffer@)
    }

    /// The cursor into the current line.
    pub open spec fn cur(&self) -> int {
        self.tokens.cursor as int
    }

    /// A fresh parser: no names declared yet.
    pub fn new() -> (p: Parser)
        ensures
            p.st() == Seq::<Seq<char>>::empty(),
            p.cur() == 0,
            p.cur() <= p.ts().len(),
    {
        let p = Parser { symbol_table: Vec::new(), tokens: TokenStream::new(Vec::new()) };
        proof {
            assert(p.st() =~= Seq::<Seq<char>>::empty());
        }
        p
    }

    /// Whether `name` is declared.
    fn st_contains(&self, name: &String) -> (r: bool)
        ensures
            r == self.st().contains(name@),
    {
        let mut k: usize = 0;
        while k < self.symbol_table.len()
            invariant
                k <= self.symbol_table@.len(),
                forall|k2: int| 0 <= k2 < k ==> self.st()[k2] != name@,
            decreases self.symbol_table@.len() - k,
        {
            if self.symbol_table[k] == *name {
                proof {
                    assert(self.st()[k as int] == name@);
                }
                return true;
            }
            k = k + 1;
        }
        proof {
            assert(!self.st().contains(name@)) by {
                if self.st().contains(name@) {
                    let i = choose|i: int| 0 <= i < self.st().len() && self.st()[i] == name@;
                    assert(self.st()[i] != name@);
                }
            }
        }
        false
    }

    /// factor := "+" factor | "-" factor | LITERAL | IDENTIFIER
    ///         | "(" expr ")"
    fn parse_factor(&mut self) -> (r: Result<Expression, SyntaxError>)
        requires
            old(self).cur() <= old(self).ts().len(),
        ensures
            final(self).symbol_table == old(self).symbol_table,
            final(self).tokens.buffer == old(self).tokens.buffer,
            final(self).cur() <= final(self).ts().len(),
            r matches Ok(e) ==> sp_factor(old(self).ts(), old(self).st(), old(self).cur())
                == Some::<(ExprModel, int)>((e@, final(self).cur())) && old(self).cur() < final(self).cur(),
            r is Err && stream_wf(old(self).ts()) ==> sp_factor(
                old(self).ts(),
                old(self).st(),
                old(self).cur(),
            ) is None,
        decreases old(self).ts().len() - old(self).cur(), 1int,
    {
        let ghost i = old(self).cur();
        match self.tokens.curr_cloned() {
            None => Err(SyntaxError::new(String::from_str("Expected a factor, got nothing"))),
            Some(token) => {
                proof {
                    assert(old(self).ts()[i] == token@);
                }
                match token.kind {
                    Kind::Operator => {
                        if str_is_char(&token.raw_value, '+') {
                            self.tokens.next();
                            match self.parse_factor() {
                                Ok(e) => {
                                    let res = Expression::UnaryPlus(Box::new(e));
                                    proof {
                                        assert(sp_factor(old(self).ts(), old(self).st(), i)
                                            matches Some(p) && p.0 == res@ && p.1 == final(self).cur());
                                    }
                                    Ok(res)
                                },
                                Err(e) => Err(e),
                            }
                        } else if str_is_char(&token.raw_value, '-') {
                            self.tokens.next();
                            match self.parse_factor() {
                                Ok(e) => {
                                    let res = Expression::UnaryMinus(Box::new(e));
                                    proof {
                                        assert(sp_factor(old(self).ts(), old(self).st(), i)
                                            matches Some(p) && p.0 == res@ && p.1 == final(self).cur());
                                    }
                                    Ok(res)
                                },
                                Err(e) => Err(e),
                            }
                        } else {
                            Err(SyntaxError::new(String::from_str("Unexpected operator")))
                        }
                    },
                    Kind::Literal => {
                        match crate::num::parse_literal_bits(token.raw_value.as_str()) {
                            Some(bits) => {
                                self.tokens.next();
                                Ok(Expression::Literal(bits))
                            },
                            None => {
                                proof {
                                    if stream_wf(old(self).ts()) {
                                        assert(is_literal_chars(old(self).ts()[i].raw));
                                        assert(false);
                                    }
                                }
                                Err(
                                    SyntaxError::new(
                                        String::from_str("Couldn't parse token to a number"),
                                    ),
                                )
                            },
                        }
                    },
                    Kind::Identifier => {
                        if self.st_contains(&token.raw_value) {
                            self.tokens.next();
                            Ok(Expression::Variable(token.raw_value))
                        } else {
                            Err(
                                SyntaxError::new(
                                    String::from_str("Couldn't find symbol ").concat(
                                        token.raw_value.as_str(),
                                    ),
                                ),
                            )
                        }
                    },
                    Kind::Separator => {
                        if str_is_char(&token.raw_value, '(') {
                            self.tokens.next();
                            match self.parse_expr() {
                                Ok(e) => {
                                    match self.tokens.curr_cloned() {
                                        Some(t2) => {
                                            proof {
                                                assert(old(self).ts()[self.cur()] == t2@);
                                            }
                                            if t2.kind == Kind::Separator && str_is_char(
                                                &t2.raw_value,
                                                ')',
                                            ) {
                                                self.tokens.next();
                                                let res = Expression::ParenthesisExpression(
                                                    Box::new(e),
                                                );
                                                proof {
                                                    assert(sp_factor(
                                                        old(self).ts(),
                                                        old(self).st(),
                                                        i,
                                                    ) matches Some(p) && p.0 == res@ && p.1
                                                        == final(self).cur());
                                                }
                                                Ok(res)
                                            } else {
                                                Err(
                                                    SyntaxError::new(
                                                        String::from_str("Expected ')', got ")
                                                            .concat(t2.raw_value.as_str()),
                                                    ),
                                                )
                                            }
                                        },
                                        None => Err(
                                            SyntaxError::new(
                                                String::from_str("Expected ')', got nothing"),
                                            ),
                                        ),
                                    }
                                },
                                Err(e) => Err(e),
                            }
                        } else {
                            Err(
                                SyntaxError::new(
                                    String::from_str("Expected a '(' got ").concat(
                                        token.raw_value.as_str(),
                                    ),
                                ),
                            )
                        }
                    },
                }
            },
        }
    }

    /// The `( ("*" | "/") factor )*` tail of a term.
    fn parse_term_prime(&mut self, left: Expression) -> (r: Result<Expression, SyntaxError>)
        requires
            old(self).cur() <= old(self).ts().len(),
        ensures
            final(self).symbol_table == old(self).symbol_table,
            final(self).tokens.buffer == old(self).tokens.buffer,
            final(self).cur() <= final(self).ts().len(),
            r matches Ok(e) ==> sp_term_tail(old(self).ts(), old(self).st(), old(self).cur(), left@)
                == Some::<(ExprModel, int)>((e@, final(self).cur())) && old(self).cur() <= final(self).cur(),
            r is Err && stream_wf(old(self).ts()) ==> sp_term_tail(
                old(self).ts(),
                old(self).st(),
                old(self).cur(),
                left@,
            ) is None,
        decreases old(self).ts().len() - old(self).cur(), 3int,
    {
        let ghost i = old(self).cur();
        match self.tokens.curr_cloned() {
            None => Ok(left),
            Some(token) => {
                proof {
                    assert(old(self).ts()[i] == token@);
                }
                if token.kind == Kind::Operator && str_is_char(&token.raw_value, '*') {
                    self.tokens.next();
                    match self.parse_factor() {
                        Ok(f) => self.parse_term_prime(
                            Expression::Multiplication(Box::new(left), Box::new(f)),
                        ),
                        Err(e) => Err(e),
                    }
                } else if token.kind == Kind::Operator && str_is_char(&token.raw_value, '/') {
                    self.tokens.next();
                    match self.parse_factor() {
                        Ok(f) => self.parse_term_prime(
                            Expression::Division(Box::new(left), Box::new(f)),
                        ),
                        Err(e) => Err(e),
                    }
                } else {
                    Ok(left)
                }
            },
        }
    }

    /// term := factor ( ("*" | "/") factor )*
    fn parse_term(&mut self) -> (r: Result<Expression, SyntaxError>)
        requires
            old(self).cur() <= old(self).ts().len(),
        ensures
            final(self).symbol_table == old(self).symbol_table,
            final(self).tokens.buffer == old(self).tokens.buffer,
            final(self).cur() <= final(self).ts().len(),
            r matches Ok(e) ==> sp_term(old(self).ts(), old(self).st(), old(self).cur())
                == Some::<(ExprModel, int)>((e@, final(self).cur())) && old(self).cur() < final(self).cur(),
            r is Err && stream_wf(old(self).ts()) ==> sp_term(
                old(self).ts(),
                old(self).st(),
                old(self).cur(),
            ) is None,
        decreases old(self).ts().len() - old(self).cur(), 2int,
    {
        match self.parse_factor() {
            Ok(f) => self.parse_term_prime(f),
            Err(e) => Err(e),
        }
    }

    /// The `( ("+" | "-") term )*` tail of an expression.
    fn parse_expr_prime(&mut self, left: Expression) -> (r: Result<Expression, SyntaxError>)
        requires
            old(self).cur() <= old(self).ts().len(),
        ensures
            final(self).symbol_table == old(self).symbol_table,
            final(self).tokens.buffer == old(self).tokens.buffer,
            final(self).cur() <= final(self).ts().len(),
            r matches Ok(e) ==> sp_expr_tail(old(self).ts(), old(self).st(), old(self).cur(), left@)
                == Some::<(ExprModel, int)>((e@, final(self).cur())) && old(self).cur() <= final(self).cur(),
            r is Err && stream_wf(old(self).ts()) ==> sp_expr_tail(
                old(self).ts(),
                old(self).st(),
                old(self).cur(),
                left@,
            ) is None,
        decreases old(self).ts().len() - old(self).cur(), 5int,
    {
        let ghost i = old(self).cur();
        match self.tokens.curr_cloned() {
            None => Ok(left),
            Some(token) => {
                proof {
                    assert(old(self).ts()[i] == token@);
                }
                if token.kind == Kind::Operator && str_is_char(&token.raw_value, '+') {
                    self.tokens.next();
                    match self.parse_term() {
                        Ok(e) => self.parse_expr_prime(
                            Expression::Addition(Box::new(left), Box::new(e)),
                        ),
                        Err(e) => Err(e),
                    }
                } else if token.kind == Kind::Operator && str_is_char(&token.raw_value, '-') {
                    self.tokens.next();
                    match self.parse_term() {
                        Ok(e) => self.parse_expr_prime(
                            Expression::Subtraction(Box::new(left), Box::new(e)),
                        ),
                        Err(e) => Err(e),
                    }
                } else {
                    Ok(left)
                }
            },
        }
    }

    /// expr := term ( ("+" | "-") term )*
    fn parse_expr(&mut self) -> (r: Result<Expression, SyntaxError>)
        requires
            old(self).cur() <= old(self).ts().len(),
        ensures
            final(self).symbol_table == old(self).symbol_table,
            final(self).tokens.buffer == old(self).tokens.buffer,
            final(self).cur() <= final(self).ts().len(),
            r matches Ok(e) ==> sp_expr(old(self).ts(), old(self).st(), old(self).cur())
                == Some::<(ExprModel, int)>((e@, final(self).cur())) && old(self).cur() < final(self).cur(),
            r is Err && stream_wf(old(self).ts()) ==> sp_expr(
                old(self).ts(),
                old(self).st(),
                old(self).cur(),
            ) is None,
        decreases old(self).ts().len() - old(self).cur(), 4int,
    {
        match self.parse_term() {
            Ok(e) => self.parse_expr_prime(e),
            Err(e) => Err(e),
        }
    }

    /// assignment := IDENTIFIER "=" expr, with the name declared before
    /// the right-hand side is parsed.
    fn parse_assignment(&mut self) -> (r: Result<Expression, SyntaxError>)
        requires
            old(self).cur() == 0,
            old(self).ts().len() >= 2,
            old(self).ts()[0].kind == Kind::Identifier,
            old(self).ts()[1].kind == Kind::Operator,
            is_char_tok(old(self).ts()[1].raw, '='),
        ensures
            final(self).tokens.buffer == old(self).tokens.buffer,
            final(self).cur() <= final(self).ts().len(),
            name_views(final(self).symbol_table@) == sp_assignment(
                old(self).ts(),
                old(self).st(),
            ).1,
            r matches Ok(e) ==> sp_assignment(old(self).ts(), old(self).st()).0 == Some::<
                (ExprModel, int),
            >((e@, final(self).cur())),
            r is Err && stream_wf(old(self).ts()) ==> sp_assignment(
                old(self).ts(),
                old(self).st(),
            ).0 is None,
    {
        let idt = match self.tokens.curr_cloned() {
            Some(t) => t,
            None => {
                proof {
                    assert(false);
                }
                return Err(SyntaxError::new(String::from_str("Expected an identifier")));
            },
        };
        proof {
            assert(old(self).ts()[0] == idt@);
        }
        self.tokens.next();
        self.tokens.next();
        let ghost name = idt@.raw;
        let ghost st2 = sp_assignment(old(self).ts(), old(self).st()).1;
        if !self.st_contains(&idt.raw_value) {
            self.symbol_table.push(idt.raw_value.clone());
        }
        proof {
            if old(self).st().contains(name) {
                assert(name_views(self.symbol_table@) == st2);
            } else {
                assert(name_views(self.symbol_table@) =~= old(self).st().push(name));
            }
            assert(name_views(self.symbol_table@) == st2);
            assert(self.st() == st2);
        }
        match self.parse_expr() {
            Ok(e) => {
                let res = Expression::Assignment(idt.raw_value, Box::new(e));
                proof {
                    assert(sp_assignment(old(self).ts(), old(self).st()).0 matches Some(p) && p.0
                        == res@ && p.1 == final(self).cur());
                }
                Ok(res)
            },
            Err(e) => Err(e),
        }
    }

    /// Parses one line of tokens into an expression tree, or fails with
    /// a syntax error. An empty line yields the Eof sentinel. The line
    /// must be consumed whole. Names declared by an assignment stay
    /// declared even when a later part of the line fails to parse.
    pub fn parse(&mut self, line: &[Token]) -> (r: Result<Expression, SyntaxError>)
        ensures
            name_views(final(self).symbol_table@) == sp_parse(
                token_views(line@),
                old(self).st(),
            ).1,
            r matches Ok(e) ==> sp_parse(token_views(line@), old(self).st()).0 == Some(e@),
            r is Err && stream_wf(token_views(line@)) ==> sp_parse(
                token_views(line@),
                old(self).st(),
            ).0 is None,
            r matches Ok(e) ==> line_shaped(e@),
            r matches Ok(e) ==> forall|v: Seq<char>|
                vars_of(e@).contains(v) ==> name_views(final(self).symbol_table@).contains(v),
            final(self).cur() <= final(self).ts().len(),
    {
        let ghost ts = token_views(line@);
        let ghost st0 = old(self).st();
        proof {
            lemma_sp_parse_shape(ts, st0);
        }
        let buf = copy_tokens(line);
        self.tokens = TokenStream::new(buf);
        proof {
            assert(self.ts() == ts);
            assert(self.st() == st0);
        }
        match self.tokens.curr_cloned() {
            None => {
                proof {
                    assert(ts.len() == 0);
                }
                Ok(Expression::Eof)
            },
            Some(token) => {
                proof {
                    assert(ts[0] == token@);
                }
                match token.kind {
                    Kind::Identifier => {
                        match self.tokens.lookahead_cloned() {
                            Some(la) => {
                                proof {
                                    assert(ts[1] == la@);
                                }
                                match la.kind {
                                    Kind::Operator => {
                                        if str_is_char(&la.raw_value, '=') {
                                            match self.parse_assignment() {
                                                Ok(e) => self.finish_line(e, Ghost(ts), Ghost(st0)),
                                                Err(e) => Err(e),
                                            }
                                        } else {
                                            self.parse_line_expr(Ghost(ts), Ghost(st0))
                                        }
                                    },
                                    _ => Err(
                                        SyntaxError::new(
                                            String::from_str(
                                                "Expected calculus or assignment operator",
                                            ),
                                        ),
                                    ),
                                }
                            },
                            None => self.parse_line_expr(Ghost(ts), Ghost(st0)),
                        }
                    },
                    Kind::Separator => self.parse_line_expr(Ghost(ts), Ghost(st0)),
                    Kind::Literal => self.parse_line_expr(Ghost(ts), Ghost(st0)),
                    Kind::Operator => {
                        if str_is_char(&token.raw_value, '+') || str_is_char(
                            &token.raw_value,
                            '-',
                        ) {
                            self.parse_line_expr(Ghost(ts), Ghost(st0))
                        } else {
                            Err(SyntaxError::new(String::from_str("Expected + or -")))
                        }
                    },
                }
            },
        }
    }

    /// Parses the whole line as an expression and requires it consumed.
    fn parse_line_expr(&mut self, Ghost(ts): Ghost<Seq<TokenModel>>, Ghost(st0): Ghost<
        Seq<Seq<char>>,
    >) -> (r: Result<Expression, SyntaxError>)
        requires
            old(self).cur() == 0,
            old(self).ts() == ts,
            old(self).st() == st0,
        ensures
            final(self).symbol_table == old(self).symbol_table,
            final(self).cur() <= final(self).ts().len(),
            r matches Ok(e) ==> sp_line_expr(ts, st0) == Some(e@),
            r is Err && stream_wf(ts) ==> sp_line_expr(ts, st0) is None,
    {
        match self.parse_expr() {
            Ok(e) => {
                match self.tokens.curr_cloned() {
                    None => Ok(e),
                    Some(_) => Err(
                        SyntaxError::new(String::from_str("Expected end of line, got more tokens")),
                    ),
                }
            },
            Err(e) => Err(e),
        }
    }

    /// Requires the line consumed after an assignment was parsed.
    fn finish_line(&mut self, e: Expression, Ghost(ts): Ghost<Seq<TokenModel>>, Ghost(st0): Ghost<
        Seq<Seq<char>>,
    >) -> (r: Result<Expression, SyntaxError>)
        requires
            old(self).tokens.buffer@.map_values(|t: Token| t@) == ts,
            old(self).cur() <= old(self).ts().len(),
            sp_assignment(ts, st0).0 == Some::<(ExprModel, int)>((e@, old(self).cur())),
        ensures
            *final(self) == *old(self),
            r matches Ok(e2) ==> sp_assignment(ts, st0).0 matches Some(p) && p.0 == e2@ && p.1
                == ts.len(),
            r is Err ==> (sp_assignment(ts, st0).0 matches Some(p) && p.1 != ts.len()),
    {
        match self.tokens.curr_cloned() {
            None => Ok(e),
            Some(_) => Err(
                SyntaxError::new(String::from_str("Expected end of line, got more tokens")),
            ),
        }
    }
}

} // verus!
