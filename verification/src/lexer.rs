//! The lexer: turns a line of text into a sequence of classified tokens.
//!
//! The token grammar is the calculator's own: identifiers are runs of
//! letters and underscores, literals are digit runs with an optional
//! fractional part and an optional exponent, operators and separators are
//! single characters. Whitespace between tokens is skipped; a token's
//! position is its character offset in the trimmed line.
use crate::tokens::{Kind, Token, TokenModel};
use vstd::prelude::*;

verus! {

// ---------------------------------------------------------------------
// Character classes
// ---------------------------------------------------------------------
pub open spec fn is_ws_char(c: char) -> bool {
    c == ' ' || c == '\t' || c == '\n' || c == '\r'
}

pub open spec fn is_ident_char(c: char) -> bool {
    ('a' <= c && c <= 'z') || ('A' <= c && c <= 'Z') || c == '_'
}

pub open spec fn is_digit_char(c: char) -> bool {
    '0' <= c && c <= '9'
}

pub open spec fn is_operator_char(c: char) -> bool {
    c == '+' || c == '-' || c == '/' || c == '*' || c == '^' || c == '='
}

pub open spec fn is_separator_char(c: char) -> bool {
    c == '(' || c == ')'
}

// ---------------------------------------------------------------------
// Token spans
// ---------------------------------------------------------------------
/// The end of the run of identifier characters starting at `i`.
pub open spec fn ident_end(s: Seq<char>, i: int) -> int
    decreases s.len() - i,
{
    if 0 <= i && i < s.len() && is_ident_char(s[i]) {
        ident_end(s, i + 1)
    } else {
        i
    }
}

/// The end of the run of decimal digits starting at `i`.
pub open spec fn digits_end(s: Seq<char>, i: int) -> int
    decreases s.len() - i,
{
    if 0 <= i && i < s.len() && is_digit_char(s[i]) {
        digits_end(s, i + 1)
    } else {
        i
    }
}

/// The end of an exponent part whose `e` stands at `f`: a sign is allowed
/// after the `e`, and at least one digit must follow, else the exponent is
/// not part of the literal and the literal ends at `f`.
pub open spec fn exp_end(s: Seq<char>, f: int) -> int {
    let g = if f + 1 < s.len() && (s[f + 1] == '+' || s[f + 1] == '-') {
        f + 2
    } else {
        f + 1
    };
    if digits_end(s, g) > g {
        digits_end(s, g)
    } else {
        f
    }
}

/// The end of a numeric literal starting at `i`: a digit run, then a
/// fractional part (a dot followed by at least one digit) if present, then
/// an exponent part if present.
pub open spec fn lit_end(s: Seq<char>, i: int) -> int {
    let d = digits_end(s, i);
    let f = if d < s.len() && s[d] == '.' && digits_end(s, d + 1) > d + 1 {
        digits_end(s, d + 1)
    } else {
        d
    };
    if f < s.len() && s[f] == 'e' {
        exp_end(s, f)
    } else {
        f
    }
}

/// Whether a whole character sequence is a well-formed numeric literal.
pub open spec fn is_literal_chars(s: Seq<char>) -> bool {
    s.len() > 0 && is_digit_char(s[0]) && lit_end(s, 0) == s.len()
}

/// The token starting at position `i`, if any: its kind and its end.
/// Classes are tried in a fixed order; an unknown character gives `None`.
pub open spec fn token_at(s: Seq<char>, i: int) -> Option<(Kind, int)> {
    if !(0 <= i && i < s.len()) {
        None
    } else if is_ident_char(s[i]) {
        Some((Kind::Identifier, ident_end(s, i)))
    } else if is_digit_char(s[i]) {
        Some((Kind::Literal, lit_end(s, i)))
    } else if is_operator_char(s[i]) {
        Some((Kind::Operator, i + 1))
    } else if is_separator_char(s[i]) {
        Some((Kind::Separator, i + 1))
    } else {
        None
    }
}

// ---------------------------------------------------------------------
// Scanning
// ---------------------------------------------------------------------
/// The first position at or after `i` that does not hold whitespace.
pub open spec fn skip_ws(s: Seq<char>, i: int) -> int
    decreases s.len() - i,
{
    if 0 <= i && i < s.len() && is_ws_char(s[i]) {
        skip_ws(s, i + 1)
    } else {
        i
    }
}

/// The tokens of `s` from position `j` on, with `j` already past any
/// whitespace, or the position of the first unknown character.
pub open spec fn scan_token(s: Seq<char>, j: int) -> Result<Seq<TokenModel>, int>
    decreases s.len() - j, 0int,
{
    if j >= s.len() {
        Ok(Seq::empty())
    } else {
        match token_at(s, j) {
            None => Err(j),
            Some((kind, e0)) => {
                let e1 = if e0 <= j {
                    j + 1
                } else {
                    e0
                };
                let e = if e1 > s.len() {
                    s.len() as int
                } else {
                    e1
                };
                match scan(s, e) {
                    Ok(rest) => Ok(
                        seq![TokenModel { kind, raw: s.subrange(j, e), pos: j as nat }] + rest,
                    ),
                    Err(p) => Err(p),
                }
            },
        }
    }
}

/// The tokens of `s` from position `i` on, skipping leading whitespace,
/// or the position of the first unknown character.
pub open spec fn scan(s: Seq<char>, i: int) -> Result<Seq<TokenModel>, int>
    decreases s.len() - i, 1int,
{
    if !(0 <= i && i < s.len()) {
        Ok(Seq::empty())
    } else {
        let j0 = skip_ws(s, i);
        let j1 = if j0 < i {
            i
        } else {
            j0
        };
        let j = if j1 > s.len() {
            s.len() as int
        } else {
            j1
        };
        scan_token(s, j)
    }
}

// ---------------------------------------------------------------------
// Trimming
// ---------------------------------------------------------------------
/// The end of `s` with trailing whitespace removed, scanning back from `j`.
pub open spec fn rskip_ws(s: Seq<char>, j: int) -> int
    decreases j,
{
    if 0 < j && j <= s.len() && is_ws_char(s[j - 1]) {
        rskip_ws(s, j - 1)
    } else {
        j
    }
}

/// `s` with leading and trailing whitespace removed.
pub open spec fn trimmed(s: Seq<char>) -> Seq<char> {
    let a = skip_ws(s, 0);
    let b = rskip_ws(s, s.len() as int);
    if a <= b {
        s.subrange(a, b)
    } else {
        Seq::empty()
    }
}

/// What lexing a line yields: its token sequence, or the position (in the
/// trimmed line) of the first character that starts no token.
pub open spec fn lex_spec(s: Seq<char>) -> Result<Seq<TokenModel>, int> {
    scan(trimmed(s), 0)
}

/// Every literal token in the sequence carries well-formed literal text.
pub open spec fn stream_wf(ts: Seq<TokenModel>) -> bool {
    forall|i: int|
        0 <= i < ts.len() && ts[i].kind == Kind::Literal ==> is_literal_chars(#[trigger] ts[i].raw)
}

// ---------------------------------------------------------------------
// Error message
// ---------------------------------------------------------------------
pub open spec fn dec_digit_char(d: nat) -> char {
    if d == 0 {
        '0'
    } else if d == 1 {
        '1'
    } else if d == 2 {
        '2'
    } else if d == 3 {
        '3'
    } else if d == 4 {
        '4'
    } else if d == 5 {
        '5'
    } else if d == 6 {
        '6'
    } else if d == 7 {
        '7'
    } else if d == 8 {
        '8'
    } else {
        '9'
    }
}

/// The decimal digits of a number, most significant first.
pub open spec fn dec_digits(n: nat) -> Seq<char>
    decreases n,
{
    if n < 10 {
        seq![dec_digit_char(n)]
    } else {
        dec_digits(n / 10).push(dec_digit_char(n % 10))
    }
}

/// The message a lexing failure at position `p` carries.
pub open spec fn lex_err_msg(p: int) -> Seq<char> {
    "unknown token at position "@ + dec_digits(p as nat)
}

/// Relies on `ToString` for `usize`: the result is the number's decimal
/// digits, most significant first, with no sign and no leading zeros.
#[verifier::external_body]
fn usize_to_string(n: usize) -> (s: String)
    ensures
        s@ == dec_digits(n as nat),
{
    n.to_string()
}

// ---------------------------------------------------------------------
// Executable character tests
// ---------------------------------------------------------------------
fn char_is_ws(c: char) -> (r: bool)
    ensures
        r == is_ws_char(c),
{
    c == ' ' || c == '\t' || c == '\n' || c == '\r'
}

fn char_is_ident(c: char) -> (r: bool)
    ensures
        r == is_ident_char(c),
{
    ('a' <= c && c <= 'z') || ('A' <= c && c <= 'Z') || c == '_'
}

fn char_is_digit(c: char) -> (r: bool)
    ensures
        r == is_digit_char(c),
{
    '0' <= c && c <= '9'
}

fn char_is_operator(c: char) -> (r: bool)
    ensures
        r == is_operator_char(c),
{
    c == '+' || c == '-' || c == '/' || c == '*' || c == '^' || c == '='
}

fn char_is_separator(c: char) -> (r: bool)
    ensures
        r == is_separator_char(c),
{
    c == '(' || c == ')'
}

// ---------------------------------------------------------------------
// Executable scanning helpers
// ---------------------------------------------------------------------
fn skip_ws_exec(t: &str, n: usize, i: usize) -> (j: usize)
    requires
        n == t@.len(),
        i <= n,
    ensures
        j == skip_ws(t@, i as int),
        i <= j <= n,
{
    let mut k = i;
    while k < n && char_is_ws(t.get_char(k))
        invariant
            i <= k <= n,
            n == t@.len(),
            skip_ws(t@, i as int) == skip_ws(t@, k as int),
        decreases n - k,
    {
        k = k + 1;
    }
    proof {
        assert(skip_ws(t@, k as int) == k);
    }
    k
}

fn digits_end_exec(t: &str, n: usize, i: usize) -> (j: usize)
    requires
        n == t@.len(),
        i <= n,
    ensures
        j == digits_end(t@, i as int),
        i <= j <= n,
{
    let mut k = i;
    while k < n && char_is_digit(t.get_char(k))
        invariant
            i <= k <= n,
            n == t@.len(),
            digits_end(t@, i as int) == digits_end(t@, k as int),
        decreases n - k,
    {
        k = k + 1;
    }
    proof {
        assert(digits_end(t@, k as int) == k);
    }
    k
}

fn ident_end_exec(t: &str, n: usize, i: usize) -> (j: usize)
    requires
        n == t@.len(),
        i <= n,
    ensures
        j == ident_end(t@, i as int),
        i <= j <= n,
{
    let mut k = i;
    while k < n && char_is_ident(t.get_char(k))
        invariant
            i <= k <= n,
            n == t@.len(),
            ident_end(t@, i as int) == ident_end(t@, k as int),
        decreases n - k,
    {
        k = k + 1;
    }
    proof {
        assert(ident_end(t@, k as int) == k);
    }
    k
}

fn lit_end_exec(t: &str, n: usize, i: usize) -> (j: usize)
    requires
        n == t@.len(),
        i <= n,
    ensures
        j == lit_end(t@, i as int),
        i <= j <= n,
{
    let d = digits_end_exec(t, n, i);
    let f = if d < n && t.get_char(d) == '.' {
        let d2 = digits_end_exec(t, n, d + 1);
        if d2 > d + 1 {
            d2
        } else {
            d
        }
    } else {
        d
    };
    if f < n && t.get_char(f) == 'e' {
        let g = if f + 1 < n && (t.get_char(f + 1) == '+' || t.get_char(f + 1) == '-') {
            f + 2
        } else {
            f + 1
        };
        let q = digits_end_exec(t, n, g);
        if q > g {
            q
        } else {
            f
        }
    } else {
        f
    }
}

// ---------------------------------------------------------------------
// Facts about the span functions
// ---------------------------------------------------------------------
proof fn lemma_digits_end_bounds(s: Seq<char>, i: int)
    requires
        0 <= i <= s.len(),
    ensures
        i <= digits_end(s, i) <= s.len(),
    decreases s.len() - i,
{
    if i < s.len() && is_digit_char(s[i]) {
        lemma_digits_end_bounds(s, i + 1);
    }
}

proof fn lemma_ident_end_bounds(s: Seq<char>, i: int)
    requires
        0 <= i <= s.len(),
    ensures
        i <= ident_end(s, i) <= s.len(),
    decreases s.len() - i,
{
    if i < s.len() && is_ident_char(s[i]) {
        lemma_ident_end_bounds(s, i + 1);
    }
}

proof fn lemma_skip_ws_props(s: Seq<char>, i: int)
    requires
        0 <= i <= s.len(),
    ensures
        i <= skip_ws(s, i) <= s.len(),
        skip_ws(s, i) < s.len() ==> !is_ws_char(s[skip_ws(s, i)]),
        forall|k: int| i <= k < skip_ws(s, i) ==> is_ws_char(s[k]),
    decreases s.len() - i,
{
    if i < s.len() && is_ws_char(s[i]) {
        lemma_skip_ws_props(s, i + 1);
    }
}

proof fn lemma_rskip_ws_props(s: Seq<char>, j: int)
    requires
        0 <= j <= s.len(),
    ensures
        0 <= rskip_ws(s, j) <= j,
        rskip_ws(s, j) > 0 ==> !is_ws_char(s[rskip_ws(s, j) - 1]),
        forall|k: int| rskip_ws(s, j) <= k < j ==> is_ws_char(s[k]),
    decreases j,
{
    if 0 < j && is_ws_char(s[j - 1]) {
        lemma_rskip_ws_props(s, j - 1);
    }
}

/// Bounds of a literal span: it stays inside the text, and it consumes at
/// least the digit that starts it.
proof fn lemma_lit_end_bounds(s: Seq<char>, i: int)
    requires
        0 <= i <= s.len(),
    ensures
        i <= lit_end(s, i) <= s.len(),
        i < s.len() && is_digit_char(s[i]) ==> lit_end(s, i) >= i + 1,
{
    let d = digits_end(s, i);
    lemma_digits_end_bounds(s, i);
    if i < s.len() && is_digit_char(s[i]) {
        lemma_digits_end_bounds(s, i + 1);
        assert(digits_end(s, i) == digits_end(s, i + 1));
    }
    if d < s.len() && s[d] == '.' && digits_end(s, d + 1) > d + 1 {
        lemma_digits_end_bounds(s, d + 1);
    }
    let f = if d < s.len() && s[d] == '.' && digits_end(s, d + 1) > d + 1 {
        digits_end(s, d + 1)
    } else {
        d
    };
    if f < s.len() && s[f] == 'e' {
        let g = if f + 1 < s.len() && (s[f + 1] == '+' || s[f + 1] == '-') {
            f + 2
        } else {
            f + 1
        };
        lemma_digits_end_bounds(s, g);
    }
}

/// Digit runs in a slice are digit runs in the whole, cut off at the
/// slice's end.
proof fn lemma_digits_end_subrange(s: Seq<char>, a: int, b: int, i: int)
    requires
        0 <= a <= b <= s.len(),
        0 <= i <= b - a,
    ensures
        digits_end(s.subrange(a, b), i) == if digits_end(s, a + i) <= b {
            digits_end(s, a + i) - a
        } else {
            (b - a) as int
        },
    decreases b - a - i,
{
    let r = s.subrange(a, b);
    lemma_digits_end_bounds(s, a + i);
    if i < b - a && is_digit_char(r[i]) {
        lemma_digits_end_subrange(s, a, b, i + 1);
    }
}

/// The span a literal token occupies is self-delimiting: cut out of the
/// line, it is a well-formed literal on its own.
proof fn lemma_lit_subrange(s: Seq<char>, j: int)
    requires
        0 <= j < s.len(),
        is_digit_char(s[j]),
    ensures
        is_literal_chars(s.subrange(j, lit_end(s, j))),
{
    lemma_lit_end_bounds(s, j);
    let e = lit_end(s, j);
    let r = s.subrange(j, e);
    let d = digits_end(s, j);
    lemma_digits_end_bounds(s, j);
    let frac = d < s.len() && s[d] == '.' && digits_end(s, d + 1) > d + 1;
    let f = if frac {
        digits_end(s, d + 1)
    } else {
        d
    };
    if frac {
        lemma_digits_end_bounds(s, d + 1);
    }
    // The span covers the digit run and whatever follows it.
    assert(d <= f <= e);
    lemma_digits_end_subrange(s, j, e, 0);
    assert(digits_end(r, 0) == d - j);
    let fr = if frac {
        // The dot and its digits sit inside the span.
        assert(r[d - j] == s[d]);
        lemma_digits_end_subrange(s, j, e, d + 1 - j);
        assert(digits_end(r, d - j + 1) == f - j);
        f - j
    } else {
        // Either the span ends at the digit run, or an exponent follows;
        // in both cases the slice shows no fractional part.
        if d < e {
            assert(r[d - j] == s[d]);
            assert(s[d] == 'e');
        }
        d - j
    };
    assert(fr == f - j);
    if f < s.len() && s[f] == 'e' && exp_end(s, f) > f {
        // The exponent fired: e == digits_end(s, g) for the position g
        // after the 'e' and any sign.
        let g = if f + 1 < s.len() && (s[f + 1] == '+' || s[f + 1] == '-') {
            f + 2
        } else {
            f + 1
        };
        let q = digits_end(s, g);
        assert(q > g && e == q);
        assert(r[f - j] == s[f]);
        assert(f + 1 < e);
        assert(r[f - j + 1] == s[f + 1]);
        lemma_digits_end_subrange(s, j, e, g - j);
        assert(digits_end(r, g - j) == q - j);
        assert(exp_end(r, f - j) == e - j);
    } else {
        // No exponent: the span ends at f, so the slice ends there too.
        assert(e == f);
    }
    assert(lit_end(r, 0) == e - j);
}

// ---------------------------------------------------------------------
// The lexer
// ---------------------------------------------------------------------
/// Turns lines of text into token sequences. Stateless: every line is
/// lexed on its own.
pub struct Lexer {}

impl Lexer {
    pub fn new() -> (l: Lexer) {
        Lexer {}
    }

    /// Lexes one line: on success the tokens of the trimmed line, each
    /// with its kind, its text and its position; otherwise the position
    /// of the first character that starts no token, in the error message.
    pub fn lex(&self, buffer: &str) -> (r: Result<Vec<Token>, String>)
        ensures
            match r {
                Ok(v) => lex_spec(buffer@) == Ok::<Seq<TokenModel>, int>(
                    v@.map_values(|tok: Token| tok@),
                ) && stream_wf(v@.map_values(|tok: Token| tok@)),
                Err(m) => lex_spec(buffer@) matches Err(p) && m@ == lex_err_msg(p),
            },
    {
        let total = buffer.unicode_len();
        let a = skip_ws_exec(buffer, total, 0);
        let mut b = total;
        while b > 0 && char_is_ws(buffer.get_char(b - 1))
            invariant
                b <= total,
                total == buffer@.len(),
                rskip_ws(buffer@, total as int) == rskip_ws(buffer@, b as int),
            decreases b,
        {
            b = b - 1;
        }
        proof {
            assert(rskip_ws(buffer@, b as int) == b);
            lemma_skip_ws_props(buffer@, 0);
            lemma_rskip_ws_props(buffer@, total as int);
        }
        let t: &str = if a < total {
            proof {
                // The first non-whitespace character comes before the
                // trailing whitespace, so the bounds are ordered.
                if a >= b {
                    assert(is_ws_char(buffer@[a as int]));
                    assert(false);
                }
            }
            buffer.substring_char(a, b)
        } else {
            proof {
                if trimmed(buffer@).len() != 0 {
                    assert(b > 0 && !is_ws_char(buffer@[b as int - 1]));
                    assert(false);
                }
                assert(trimmed(buffer@) =~= buffer@.subrange(
                    total as int,
                    total as int,
                ));
            }
            buffer.substring_char(total, total)
        };
        proof {
            assert(t@ == trimmed(buffer@));
        }
        let n = if a < total {
            b - a
        } else {
            0
        };
        proof {
            assert(n == t@.len());
        }

        let mut token_vector: Vec<Token> = Vec::new();
        let mut cursor: usize = 0;
        while cursor < n
            invariant
                cursor <= n,
                n == t@.len(),
                t@ == trimmed(buffer@),
                stream_wf(token_vector@.map_values(|tok: Token| tok@)),
                match scan(t@, cursor as int) {
                    Ok(rest) => scan(t@, 0) == Ok::<Seq<TokenModel>, int>(
                        token_vector@.map_values(|tok: Token| tok@) + rest,
                    ),
                    Err(p) => scan(t@, 0) == Err::<Seq<TokenModel>, int>(p),
                },
            decreases n - cursor,
        {
            let ghost done = token_vector@.map_values(|tok: Token| tok@);
            let j = skip_ws_exec(t, n, cursor);
            proof {
                assert(scan(t@, cursor as int) == scan_token(t@, j as int));
            }
            if j >= n {
                proof {
                    assert(scan_token(t@, j as int) == Ok::<Seq<TokenModel>, int>(Seq::empty()));
                    assert(done + Seq::<TokenModel>::empty() =~= done);
                }
                cursor = n;
            } else {
                let c = t.get_char(j);
                let kind: Kind;
                let e: usize;
                if char_is_ident(c) {
                    kind = Kind::Identifier;
                    e = ident_end_exec(t, n, j);
                    proof {
                        lemma_ident_end_bounds(t@, j + 1);
                        assert(e > j);
                    }
                } else if char_is_digit(c) {
                    kind = Kind::Literal;
                    e = lit_end_exec(t, n, j);
                    proof {
                        lemma_lit_end_bounds(t@, j as int);
                        assert(e > j);
                        lemma_lit_subrange(t@, j as int);
                    }
                } else if char_is_operator(c) {
                    kind = Kind::Operator;
                    e = j + 1;
                } else if char_is_separator(c) {
                    kind = Kind::Separator;
                    e = j + 1;
                } else {
                    proof {
                        assert(token_at(t@, j as int) is None);
                        assert(scan(t@, cursor as int) == Err::<Seq<TokenModel>, int>(j as int));
                    }
                    let mut msg = String::from_str("unknown token at position ");
                    let num = usize_to_string(j);
                    msg.append(num.as_str());
                    return Err(msg);
                }
                proof {
                    assert(token_at(t@, j as int) == Some::<(Kind, int)>((kind, e as int)));
                }
                let raw_str = t.substring_char(j, e);
                let raw = raw_str.to_owned();
                let tok = Token::new(kind, raw, j);
                proof {
                    assert(tok@ == TokenModel {
                        kind,
                        raw: t@.subrange(j as int, e as int),
                        pos: j as nat,
                    });
                    assert(token_vector@.push(tok).map_values(|x: Token| x@) =~= done.push(tok@));
                    assert(scan_token(t@, j as int) == match scan(t@, e as int) {
                        Ok(rest) => Ok::<Seq<TokenModel>, int>(seq![tok@] + rest),
                        Err(p) => Err::<Seq<TokenModel>, int>(p),
                    });
                    if scan(t@, e as int) is Ok {
                        let rest = scan(t@, e as int)->Ok_0;
                        assert(done + (seq![tok@] + rest) =~= done.push(tok@) + rest);
                    }
                }
                token_vector.push(tok);
                cursor = e;
            }
        }
        proof {
            assert(scan(t@, cursor as int) == Ok::<Seq<TokenModel>, int>(Seq::empty()));
            assert(token_vector@.map_values(|tok: Token| tok@) + Seq::<TokenModel>::empty()
                =~= token_vector@.map_values(|tok: Token| tok@));
        }
        Ok(token_vector)
    }
}

} // verus!
