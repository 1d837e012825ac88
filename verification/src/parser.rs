//! Tokenizer and recursive-descent parser for arithmetic expressions
//! over exact fractions.
//!
//! The grammar, lowest precedence first:
//! ```text
//! Expression := ['-'] Term { ('+' | '-') Term }
//! Term       := Factor { ('*' | '/') Factor }
//! Factor     := '(' Expression ')' | Integer
//! ```
//! Binary operators fold left to right.  The whole pipeline is pinned
//! by spec functions: `sp_tokenize` says what the tokenizer produces
//! for every input, `sp_expr` what the grammar makes of every token
//! sequence, and `eval_expression` is proved to return exactly
//! `sp_eval`, their composition.

use vstd::prelude::*;

use crate::fraction::fres;
use crate::fraction::rat_add;
use crate::fraction::rat_div;
use crate::fraction::rat_mul;
use crate::fraction::rat_neg;
use crate::fraction::rat_sub;
use crate::fraction::EvalError;
use crate::fraction::Fraction;
use crate::fraction::Rat;

verus! {

/// One lexical unit of an expression: a nonnegative integer literal,
/// one of the four operators, or a parenthesis.
#[derive(Debug, Clone, Copy, PartialEq, Eq, Structural)]
pub enum Token {
    Int(u64),
    Plus,
    Minus,
    Star,
    Slash,
    LParen,
    RParen,
}

/// Whitespace that the tokenizer elides between tokens.
pub open spec fn is_space_char(c: char) -> bool {
    c == ' ' || c == '\t' || c == '\n' || c == '\r'
}

/// An ASCII decimal digit.
pub open spec fn is_digit_char(c: char) -> bool {
    48 <= c as u32 <= 57
}

/// The value of an ASCII decimal digit.
pub open spec fn digit_val(c: char) -> nat
    recommends
        is_digit_char(c),
{
    (c as u32 - 48) as nat
}

/// Prepends a token to a successful tokenization, or keeps the error.
pub open spec fn cons_tok(t: Token, r: Result<Seq<Token>, EvalError>) -> Result<
    Seq<Token>,
    EvalError,
> {
    match r {
        Ok(ts) => Ok(seq![t] + ts),
        Err(e) => Err(e),
    }
}

/// What tokenizing an input yields: whitespace is skipped, each of the
/// six operator and parenthesis characters is one token, a maximal run
/// of digits is one integer token, and anything else — an unknown
/// character, or an integer too large for the machine word — is a
/// malformed expression.  Tokens need no separating spaces.
pub open spec fn sp_tokenize(s: Seq<char>) -> Result<Seq<Token>, EvalError>
    decreases s.len(), 0int,
{
    if s.len() == 0 {
        Ok(Seq::empty())
    } else if is_space_char(s[0]) {
        sp_tokenize(s.skip(1))
    } else if is_digit_char(s[0]) {
        sp_number(s.skip(1), digit_val(s[0]))
    } else if s[0] == '+' {
        cons_tok(Token::Plus, sp_tokenize(s.skip(1)))
    } else if s[0] == '-' {
        cons_tok(Token::Minus, sp_tokenize(s.skip(1)))
    } else if s[0] == '*' {
        cons_tok(Token::Star, sp_tokenize(s.skip(1)))
    } else if s[0] == '/' {
        cons_tok(Token::Slash, sp_tokenize(s.skip(1)))
    } else if s[0] == '(' {
        cons_tok(Token::LParen, sp_tokenize(s.skip(1)))
    } else if s[0] == ')' {
        cons_tok(Token::RParen, sp_tokenize(s.skip(1)))
    } else {
        Err(EvalError::MalformedExpression)
    }
}

/// Continues a digit run whose digits so far have the value `acc`.
/// When the run ends, the run is one integer token if its value fits a
/// `u64`, and a malformed expression otherwise.
pub open spec fn sp_number(s: Seq<char>, acc: nat) -> Result<Seq<Token>, EvalError>
    decreases s.len(), 1int,
{
    if s.len() > 0 && is_digit_char(s[0]) {
        sp_number(s.skip(1), acc * 10 + digit_val(s[0]))
    } else if acc > u64::MAX {
        Err(EvalError::MalformedExpression)
    } else {
        cons_tok(Token::Int(acc as u64), sp_tokenize(s))
    }
}

/// Whitespace never separates anything but tokens: a leading space,
/// tab or line break is simply dropped, so `2+2` and `2 + 2` tokenize
/// alike — spacing between tokens is free.
pub proof fn lemma_whitespace_ignored(c: char, s: Seq<char>)
    requires
        is_space_char(c),
    ensures
        sp_tokenize(seq![c] + s) == sp_tokenize(s),
{
    let w = seq![c] + s;
    assert(w[0] == c);
    assert(w.skip(1) =~= s);
}

/// Two tokenizations in sequence: the tokens of both parts, or the
/// first error, left part first.
pub open spec fn concat_toks(
    r1: Result<Seq<Token>, EvalError>,
    r2: Result<Seq<Token>, EvalError>,
) -> Result<Seq<Token>, EvalError> {
    match r1 {
        Ok(a) => match r2 {
            Ok(b) => Ok(a + b),
            Err(e) => Err(e),
        },
        Err(e) => Err(e),
    }
}

/// A whitespace character is always a clean separator: tokenizing
/// around it is tokenizing the two sides independently.  Together with
/// `lemma_whitespace_ignored` this is why spacing never changes what
/// an input means — spaces may separate tokens but carry nothing.
pub proof fn lemma_space_separates(s1: Seq<char>, c: char, s2: Seq<char>)
    requires
        is_space_char(c),
    ensures
        sp_tokenize(s1 + seq![c] + s2) == concat_toks(sp_tokenize(s1), sp_tokenize(s2)),
    decreases s1.len(), 0int,
{
    let w = s1 + seq![c] + s2;
    if s1.len() == 0 {
        assert(w =~= seq![c] + s2);
        lemma_whitespace_ignored(c, s2);
        match sp_tokenize(s2) {
            Ok(b) => {
                assert(Seq::<Token>::empty() + b =~= b);
            },
            Err(_) => {},
        }
    } else {
        assert(w.len() > 0 && w[0] == s1[0]);
        assert(w.skip(1) =~= s1.skip(1) + seq![c] + s2);
        if is_space_char(s1[0]) {
            lemma_space_separates(s1.skip(1), c, s2);
        } else if is_digit_char(s1[0]) {
            lemma_space_separates_number(s1.skip(1), c, s2, digit_val(s1[0]));
        } else if s1[0] == '+' || s1[0] == '-' || s1[0] == '*' || s1[0] == '/' || s1[0] == '('
            || s1[0] == ')' {
            lemma_space_separates(s1.skip(1), c, s2);
            let t = if s1[0] == '+' {
                Token::Plus
            } else if s1[0] == '-' {
                Token::Minus
            } else if s1[0] == '*' {
                Token::Star
            } else if s1[0] == '/' {
                Token::Slash
            } else if s1[0] == '(' {
                Token::LParen
            } else {
                Token::RParen
            };
            lemma_cons_concat(t, sp_tokenize(s1.skip(1)), sp_tokenize(s2));
        }
    }
}

/// The separator property carried through a digit run: the run and its
/// accumulated value are unaffected by what stands beyond the space.
proof fn lemma_space_separates_number(s1: Seq<char>, c: char, s2: Seq<char>, acc: nat)
    requires
        is_space_char(c),
    ensures
        sp_number(s1 + seq![c] + s2, acc) == concat_toks(sp_number(s1, acc), sp_tokenize(s2)),
    decreases s1.len(), 1int,
{
    let w = s1 + seq![c] + s2;
    if s1.len() == 0 {
        assert(w =~= seq![c] + s2);
        assert(w[0] == c && !is_digit_char(c));
        if acc <= u64::MAX {
            lemma_whitespace_ignored(c, s2);
            lemma_cons_concat(
                Token::Int(acc as u64),
                Ok(Seq::<Token>::empty()),
                sp_tokenize(s2),
            );
            assert(sp_tokenize(Seq::<char>::empty()) == Ok::<Seq<Token>, EvalError>(
                Seq::<Token>::empty(),
            ));
        }
    } else if is_digit_char(s1[0]) {
        assert(w[0] == s1[0]);
        assert(w.skip(1) =~= s1.skip(1) + seq![c] + s2);
        lemma_space_separates_number(s1.skip(1), c, s2, acc * 10 + digit_val(s1[0]));
    } else {
        assert(w[0] == s1[0] && !is_digit_char(w[0]));
        if acc <= u64::MAX {
            lemma_space_separates(s1, c, s2);
            lemma_cons_concat(Token::Int(acc as u64), sp_tokenize(s1), sp_tokenize(s2));
        }
    }
}

/// Prepending one token commutes with joining two tokenizations.
proof fn lemma_cons_concat(
    t: Token,
    r1: Result<Seq<Token>, EvalError>,
    r2: Result<Seq<Token>, EvalError>,
)
    ensures
        cons_tok(t, concat_toks(r1, r2)) == concat_toks(cons_tok(t, r1), r2),
{
    match r1 {
        Ok(a) => match r2 {
            Ok(b) => {
                assert(seq![t] + (a + b) =~= (seq![t] + a) + b);
            },
            Err(_) => {},
        },
        Err(_) => {},
    }
}

/// An accumulator already too large stays too large: the run ends in a
/// malformed expression whatever digits follow.
proof fn lemma_sp_number_overflow(s: Seq<char>, acc: nat)
    requires
        acc > u64::MAX,
    ensures
        sp_number(s, acc) == Err::<Seq<Token>, EvalError>(EvalError::MalformedExpression),
    decreases s.len(),
{
    if s.len() > 0 && is_digit_char(s[0]) {
        lemma_sp_number_overflow(s.skip(1), acc * 10 + digit_val(s[0]));
    }
}

/// Prefixes already-produced tokens onto the tokenization of the rest.
spec fn prepend_toks(done: Seq<Token>, r: Result<Seq<Token>, EvalError>) -> Result<
    Seq<Token>,
    EvalError,
> {
    match r {
        Ok(ts) => Ok(done + ts),
        Err(e) => Err(e),
    }
}

/// Dropping one element then another equals dropping both at once, and
/// the head of a suffix is the element at its start.
proof fn lemma_skip_one<A>(s: Seq<A>, i: int)
    requires
        0 <= i < s.len(),
    ensures
        s.skip(i).skip(1) == s.skip(i + 1),
        s.skip(i).len() == s.len() - i,
        s.skip(i)[0] == s[i],
{
    assert(s.skip(i).skip(1) =~= s.skip(i + 1));
}

/// Space test, executable.
fn char_is_space(c: char) -> (r: bool)
    ensures
        r == is_space_char(c),
{
    c == ' ' || c == '\t' || c == '\n' || c == '\r'
}

/// Digit test, executable.
fn char_is_digit(c: char) -> (r: bool)
    ensures
        r == is_digit_char(c),
{
    let u = c as u32;
    48 <= u && u <= 57
}

/// Digit value, executable.
fn char_digit_val(c: char) -> (r: u64)
    requires
        is_digit_char(c),
    ensures
        r as nat == digit_val(c),
{
    (c as u32 - 48) as u64
}

/// What the grammar rule `Factor := '(' Expression ')' | Integer`
/// makes of a token sequence: the factor's value and the tokens left
/// over.  An empty sequence is an ill-formed expression; a missing
/// closing parenthesis, or a token that is neither an opening
/// parenthesis nor an integer, is malformed; an integer literal beyond
/// the numerator's range is an arithmetic overflow.
///
/// The `p.1.len() < ts.len()` guards here and below only witness that
/// every successful parse consumes at least one token, which bounds the
/// recursion; `lemma_factor_consumes` and its companions show the
/// guards always hold, so their else branches are unreachable.
pub open spec fn sp_factor(ts: Seq<Token>) -> Result<(Rat, Seq<Token>), EvalError>
    decreases ts.len(), 0int,
{
    if ts.len() == 0 {
        Err(EvalError::IllFormedExpression)
    } else {
        match ts[0] {
            Token::LParen => match sp_expr(ts.skip(1)) {
                Ok(p) => if p.1.len() > 0 && p.1[0] == Token::RParen {
                    Ok((p.0, p.1.skip(1)))
                } else {
                    Err(EvalError::MalformedExpression)
                },
                Err(e) => Err(e),
            },
            Token::Int(v) => if v <= i64::MAX {
                Ok((Rat { n: v as int, d: 1 }, ts.skip(1)))
            } else {
                Err(EvalError::ArithmeticOverflow)
            },
            _ => Err(EvalError::MalformedExpression),
        }
    }
}

/// The rule `Term := Factor { ('*' | '/') Factor }`: one factor, then
/// `sp_mult_rest` folds the remaining factors in, left to right.
pub open spec fn sp_mult(ts: Seq<Token>) -> Result<(Rat, Seq<Token>), EvalError>
    decreases ts.len(), 1int,
{
    match sp_factor(ts) {
        Ok(p) => if p.1.len() < ts.len() {
            sp_mult_rest(p.0, p.1)
        } else {
            Err(EvalError::MalformedExpression)
        },
        Err(e) => Err(e),
    }
}

/// Folds `('*' | '/') Factor` onto `acc` while such an operator leads;
/// stops, leaving the tokens untouched, on anything else.
pub open spec fn sp_mult_rest(acc: Rat, ts: Seq<Token>) -> Result<(Rat, Seq<Token>), EvalError>
    decreases ts.len(), 3int,
{
    if ts.len() > 0 && (ts[0] == Token::Star || ts[0] == Token::Slash) {
        match sp_factor(ts.skip(1)) {
            Ok(p) => {
                let combined = if ts[0] == Token::Star {
                    rat_mul(acc, p.0)
                } else {
                    rat_div(acc, p.0)
                };
                match combined {
                    Ok(w) => if p.1.len() < ts.len() {
                        sp_mult_rest(w, p.1)
                    } else {
                        Err(EvalError::MalformedExpression)
                    },
                    Err(e) => Err(e),
                }
            },
            Err(e) => Err(e),
        }
    } else {
        Ok((acc, ts))
    }
}

/// The rule `Expression := ['-'] Term { ('+' | '-') Term }`: an
/// optional unary minus negating the first term, then `sp_expr_rest`
/// folds the remaining terms in, left to right.
pub open spec fn sp_expr(ts: Seq<Token>) -> Result<(Rat, Seq<Token>), EvalError>
    decreases ts.len(), 2int,
{
    if ts.len() > 0 && ts[0] == Token::Minus {
        match sp_mult(ts.skip(1)) {
            Ok(p) => match rat_neg(p.0) {
                Ok(w) => if p.1.len() < ts.len() {
                    sp_expr_rest(w, p.1)
                } else {
                    Err(EvalError::MalformedExpression)
                },
                Err(e) => Err(e),
            },
            Err(e) => Err(e),
        }
    } else {
        match sp_mult(ts) {
            Ok(p) => if p.1.len() < ts.len() {
                sp_expr_rest(p.0, p.1)
            } else {
                Err(EvalError::MalformedExpression)
            },
            Err(e) => Err(e),
        }
    }
}

/// Folds `('+' | '-') Term` onto `acc` while such an operator leads;
/// stops, leaving the tokens untouched — a closing parenthesis or
/// end of input is the caller's business — on anything else.
pub open spec fn sp_expr_rest(acc: Rat, ts: Seq<Token>) -> Result<(Rat, Seq<Token>), EvalError>
    decreases ts.len(), 3int,
{
    if ts.len() > 0 && (ts[0] == Token::Plus || ts[0] == Token::Minus) {
        match sp_mult(ts.skip(1)) {
            Ok(p) => {
                let combined = if ts[0] == Token::Plus {
                    rat_add(acc, p.0)
                } else {
                    rat_sub(acc, p.0)
                };
                match combined {
                    Ok(w) => if p.1.len() < ts.len() {
                        sp_expr_rest(w, p.1)
                    } else {
                        Err(EvalError::MalformedExpression)
                    },
                    Err(e) => Err(e),
                }
            },
            Err(e) => Err(e),
        }
    } else {
        Ok((acc, ts))
    }
}

/// A successful factor consumes at least one token.
proof fn lemma_factor_consumes(ts: Seq<Token>)
    ensures
        sp_factor(ts) matches Ok(p) ==> p.1.len() < ts.len(),
    decreases ts.len(), 0int,
{
    if ts.len() > 0 && ts[0] == Token::LParen {
        lemma_expr_consumes(ts.skip(1));
    }
}

/// A successful term consumes at least one token.
proof fn lemma_mult_consumes(ts: Seq<Token>)
    ensures
        sp_mult(ts) matches Ok(p) ==> p.1.len() < ts.len(),
    decreases ts.len(), 1int,
{
    lemma_factor_consumes(ts);
    match sp_factor(ts) {
        Ok(p) => {
            lemma_mult_rest_consumes(p.0, p.1);
        },
        Err(_) => {},
    }
}

/// Folding more factors in never lengthens the leftover tokens.
proof fn lemma_mult_rest_consumes(acc: Rat, ts: Seq<Token>)
    ensures
        sp_mult_rest(acc, ts) matches Ok(p) ==> p.1.len() <= ts.len(),
    decreases ts.len(), 3int,
{
    if ts.len() > 0 && (ts[0] == Token::Star || ts[0] == Token::Slash) {
        lemma_factor_consumes(ts.skip(1));
        match sp_factor(ts.skip(1)) {
            Ok(p) => {
                let combined = if ts[0] == Token::Star {
                    rat_mul(acc, p.0)
                } else {
                    rat_div(acc, p.0)
                };
                match combined {
                    Ok(w) => {
                        lemma_mult_rest_consumes(w, p.1);
                    },
                    Err(_) => {},
                }
            },
            Err(_) => {},
        }
    }
}

/// A successful expression consumes at least one token.
proof fn lemma_expr_consumes(ts: Seq<Token>)
    ensures
        sp_expr(ts) matches Ok(p) ==> p.1.len() < ts.len(),
    decreases ts.len(), 2int,
{
    if ts.len() > 0 && ts[0] == Token::Minus {
        lemma_mult_consumes(ts.skip(1));
        match sp_mult(ts.skip(1)) {
            Ok(p) => match rat_neg(p.0) {
                Ok(w) => {
                    lemma_expr_rest_consumes(w, p.1);
                },
                Err(_) => {},
            },
            Err(_) => {},
        }
    } else {
        lemma_mult_consumes(ts);
        match sp_mult(ts) {
            Ok(p) => {
                lemma_expr_rest_consumes(p.0, p.1);
            },
            Err(_) => {},
        }
    }
}

/// Folding more terms in never lengthens the leftover tokens.
proof fn lemma_expr_rest_consumes(acc: Rat, ts: Seq<Token>)
    ensures
        sp_expr_rest(acc, ts) matches Ok(p) ==> p.1.len() <= ts.len(),
    decreases ts.len(), 3int,
{
    if ts.len() > 0 && (ts[0] == Token::Plus || ts[0] == Token::Minus) {
        lemma_mult_consumes(ts.skip(1));
        match sp_mult(ts.skip(1)) {
            Ok(p) => {
                let combined = if ts[0] == Token::Plus {
                    rat_add(acc, p.0)
                } else {
                    rat_sub(acc, p.0)
                };
                match combined {
                    Ok(w) => {
                        lemma_expr_rest_consumes(w, p.1);
                    },
                    Err(_) => {},
                }
            },
            Err(_) => {},
        }
    }
}

/// The token stream of one expression: the tokens, produced up front,
/// and a cursor.  `head` peeks without consuming — repeated calls
/// return the same token — and `next` consumes; both return `None` at
/// the end of input.
pub struct Tokenizer {
    tokens: Vec<Token>,
    pos: usize,
}

impl Tokenizer {
    /// The cursor never runs past the end.
    #[verifier::type_invariant]
    spec fn type_inv(self) -> bool {
        self.pos <= self.tokens.len()
    }

    /// The tokens not yet consumed.
    pub closed spec fn remaining(self) -> Seq<Token> {
        self.tokens@.skip(self.pos as int)
    }

    /// Tokenizes `exp` in one pass.  Succeeds with a stream holding
    /// exactly `sp_tokenize(exp@)`, or reports the tokenization error.
    pub fn new(exp: &str) -> (r: Result<Tokenizer, EvalError>)
        ensures
            match r {
                Ok(t) => sp_tokenize(exp@) == Ok::<Seq<Token>, EvalError>(t.remaining()),
                Err(e) => sp_tokenize(exp@) == Err::<Seq<Token>, EvalError>(e),
            },
    {
        let n = exp.unicode_len();
        let mut toks: Vec<Token> = Vec::new();
        let mut i: usize = 0;
        proof {
            assert(exp@.skip(0) =~= exp@);
            match sp_tokenize(exp@) {
                Ok(ts) => {
                    assert(Seq::<Token>::empty() + ts =~= ts);
                },
                Err(_) => {},
            }
        }
        while i < n
            invariant
                n == exp@.len(),
                i <= n,
                sp_tokenize(exp@) == prepend_toks(toks@, sp_tokenize(exp@.skip(i as int))),
            decreases n - i,
        {
            proof {
                lemma_skip_one(exp@, i as int);
            }
            let ghost before = exp@.skip(i as int);
            let c = exp.get_char(i);
            if char_is_space(c) {
                i = i + 1;
            } else if char_is_digit(c) {
                let mut v: u64 = char_digit_val(c);
                i = i + 1;
                proof {
                    assert(sp_tokenize(before) == sp_number(exp@.skip(i as int), v as nat));
                }
                let ghost done = toks@;
                let ghost start = i as int;
                while i < n
                    invariant_except_break
                        n == exp@.len(),
                        start <= i <= n,
                        toks@ == done,
                        sp_tokenize(exp@) == prepend_toks(
                            done,
                            sp_number(exp@.skip(i as int), v as nat),
                        ),
                    ensures
                        n == exp@.len(),
                        start <= i <= n,
                        toks@ == done,
                        sp_tokenize(exp@) == prepend_toks(
                            done,
                            sp_number(exp@.skip(i as int), v as nat),
                        ),
                        i < n ==> !is_digit_char(exp@[i as int]),
                    decreases n - i,
                {
                    proof {
                        lemma_skip_one(exp@, i as int);
                    }
                    let ghost run = exp@.skip(i as int);
                    let c2 = exp.get_char(i);
                    if char_is_digit(c2) {
                        let d = char_digit_val(c2);
                        proof {
                            assert(sp_number(run, v as nat) == sp_number(
                                exp@.skip(i as int + 1),
                                (v as nat) * 10 + (d as nat),
                            ));
                        }
                        let grew = match v.checked_mul(10) {
                            Some(v10) => v10.checked_add(d),
                            None => None,
                        };
                        match grew {
                            Some(v2) => {
                                v = v2;
                                i = i + 1;
                            },
                            None => {
                                proof {
                                    lemma_sp_number_overflow(
                                        exp@.skip(i as int + 1),
                                        (v as nat) * 10 + (d as nat),
                                    );
                                }
                                return Err(EvalError::MalformedExpression);
                            },
                        }
                    } else {
                        break;
                    }
                }
                proof {
                    assert(sp_number(exp@.skip(i as int), v as nat) == cons_tok(
                        Token::Int(v),
                        sp_tokenize(exp@.skip(i as int)),
                    ));
                }
                toks.push(Token::Int(v));
                proof {
                    assert(toks@ =~= done + seq![Token::Int(v)]);
                    assert forall|rest: Seq<Token>|
                        (done + seq![Token::Int(v)]) + rest =~= done + (seq![
                            Token::Int(v),
                        ] + rest) by {}
                }
            } else {
                let tok = if c == '+' {
                    Token::Plus
                } else if c == '-' {
                    Token::Minus
                } else if c == '*' {
                    Token::Star
                } else if c == '/' {
                    Token::Slash
                } else if c == '(' {
                    Token::LParen
                } else if c == ')' {
                    Token::RParen
                } else {
                    return Err(EvalError::MalformedExpression);
                };
                let ghost done = toks@;
                toks.push(tok);
                i = i + 1;
                proof {
                    assert(toks@ =~= done + seq![tok]);
                    assert forall|rest: Seq<Token>|
                        (done + seq![tok]) + rest =~= done + (seq![tok] + rest) by {}
                }
            }
        }
        proof {
            assert(exp@.skip(n as int) =~= Seq::<char>::empty());
            assert(toks@ + Seq::<Token>::empty() =~= toks@);
            assert(toks@.skip(0) =~= toks@);
        }
        Ok(Tokenizer { tokens: toks, pos: 0 })
    }

    /// The next token, without consuming it.
    pub fn head(&self) -> (r: Option<Token>)
        ensures
            r == (if self.remaining().len() > 0 {
                Some(self.remaining()[0])
            } else {
                None::<Token>
            }),
    {
        proof {
            use_type_invariant(self);
        }
        if self.pos < self.tokens.len() {
            Some(self.tokens[self.pos])
        } else {
            None
        }
    }

    /// The next token, consuming it.
    pub fn next(&mut self) -> (r: Option<Token>)
        ensures
            r == (if old(self).remaining().len() > 0 {
                Some(old(self).remaining()[0])
            } else {
                None::<Token>
            }),
            final(self).remaining() == (if old(self).remaining().len() > 0 {
                old(self).remaining().skip(1)
            } else {
                old(self).remaining()
            }),
    {
        proof {
            use_type_invariant(&*self);
        }
        if self.pos < self.tokens.len() {
            let t = self.tokens[self.pos];
            proof {
                lemma_skip_one(self.tokens@, self.pos as int);
            }
            self.pos = self.pos + 1;
            Some(t)
        } else {
            None
        }
    }
}

/// Parses one factor: a parenthesized expression or an integer
/// literal, per `sp_factor`.
fn parse_factor(t: &mut Tokenizer) -> (r: Result<Fraction, EvalError>)
    ensures
        match r {
            Ok(f) => sp_factor(old(t).remaining()) == Ok::<(Rat, Seq<Token>), EvalError>(
                (f@, final(t).remaining()),
            ),
            Err(e) => sp_factor(old(t).remaining()) == Err::<(Rat, Seq<Token>), EvalError>(e),
        },
    decreases t.remaining().len(), 0int,
{
    match t.next() {
        None => Err(EvalError::IllFormedExpression),
        Some(Token::LParen) => {
            match parse_expr(t) {
                Err(e) => Err(e),
                Ok(f) => {
                    match t.next() {
                        Some(Token::RParen) => Ok(f),
                        _ => Err(EvalError::MalformedExpression),
                    }
                },
            }
        },
        Some(Token::Int(v)) => {
            if v > i64::MAX as u64 {
                Err(EvalError::ArithmeticOverflow)
            } else {
                Ok(Fraction::from_int(v as i64))
            }
        },
        Some(_) => Err(EvalError::MalformedExpression),
    }
}

/// Parses one term: a factor, then a left-to-right fold of `*` and `/`
/// factors, per `sp_mult`.
fn parse_mult(t: &mut Tokenizer) -> (r: Result<Fraction, EvalError>)
    ensures
        match r {
            Ok(f) => sp_mult(old(t).remaining()) == Ok::<(Rat, Seq<Token>), EvalError>(
                (f@, final(t).remaining()),
            ),
            Err(e) => sp_mult(old(t).remaining()) == Err::<(Rat, Seq<Token>), EvalError>(e),
        },
    decreases t.remaining().len(), 1int,
{
    let ghost ts0 = t.remaining();
    proof {
        lemma_factor_consumes(ts0);
    }
    let mut result = match parse_factor(t) {
        Ok(f) => f,
        Err(e) => {
            return Err(e);
        },
    };
    loop
        invariant
            ts0 == old(t).remaining(),
            t.remaining().len() < ts0.len(),
            sp_mult(ts0) == sp_mult_rest(result@, t.remaining()),
        decreases t.remaining().len(),
    {
        let ghost rem = t.remaining();
        match t.head() {
            Some(Token::Star) => {
                t.next();
                proof {
                    lemma_factor_consumes(rem.skip(1));
                }
                let f2 = match parse_factor(t) {
                    Ok(f) => f,
                    Err(e) => {
                        return Err(e);
                    },
                };
                result = match result.mul(f2) {
                    Ok(w) => w,
                    Err(e) => {
                        return Err(e);
                    },
                };
            },
            Some(Token::Slash) => {
                t.next();
                proof {
                    lemma_factor_consumes(rem.skip(1));
                }
                let f2 = match parse_factor(t) {
                    Ok(f) => f,
                    Err(e) => {
                        return Err(e);
                    },
                };
                result = match result.div(f2) {
                    Ok(w) => w,
                    Err(e) => {
                        return Err(e);
                    },
                };
            },
            _ => {
                return Ok(result);
            },
        }
    }
}

/// Parses one expression: an optional unary minus, a term, then a
/// left-to-right fold of `+` and `-` terms, per `sp_expr`.  Stops
/// without consuming on any other token, which the caller handles.
fn parse_expr(t: &mut Tokenizer) -> (r: Result<Fraction, EvalError>)
    ensures
        match r {
            Ok(f) => sp_expr(old(t).remaining()) == Ok::<(Rat, Seq<Token>), EvalError>(
                (f@, final(t).remaining()),
            ),
            Err(e) => sp_expr(old(t).remaining()) == Err::<(Rat, Seq<Token>), EvalError>(e),
        },
    decreases t.remaining().len(), 2int,
{
    let ghost ts0 = t.remaining();
    let negate_first = match t.head() {
        Some(Token::Minus) => true,
        _ => false,
    };
    let mut result: Fraction;
    if negate_first {
        t.next();
        proof {
            lemma_mult_consumes(ts0.skip(1));
        }
        let f = match parse_mult(t) {
            Ok(f) => f,
            Err(e) => {
                return Err(e);
            },
        };
        result = match f.neg() {
            Ok(w) => w,
            Err(e) => {
                return Err(e);
            },
        };
    } else {
        proof {
            lemma_mult_consumes(ts0);
        }
        result = match parse_mult(t) {
            Ok(f) => f,
            Err(e) => {
                return Err(e);
            },
        };
    }
    loop
        invariant
            ts0 == old(t).remaining(),
            t.remaining().len() < ts0.len(),
            sp_expr(ts0) == sp_expr_rest(result@, t.remaining()),
        decreases t.remaining().len(),
    {
        let ghost rem = t.remaining();
        match t.head() {
            Some(Token::Plus) => {
                t.next();
                proof {
                    lemma_mult_consumes(rem.skip(1));
                }
                let f2 = match parse_mult(t) {
                    Ok(f) => f,
                    Err(e) => {
                        return Err(e);
                    },
                };
                result = match result.add(f2) {
                    Ok(w) => w,
                    Err(e) => {
                        return Err(e);
                    },
                };
            },
            Some(Token::Minus) => {
                t.next();
                proof {
                    lemma_mult_consumes(rem.skip(1));
                }
                let f2 = match parse_mult(t) {
                    Ok(f) => f,
                    Err(e) => {
                        return Err(e);
                    },
                };
                result = match result.sub(f2) {
                    Ok(w) => w,
                    Err(e) => {
                        return Err(e);
                    },
                };
            },
            _ => {
                return Ok(result);
            },
        }
    }
}

/// What evaluating an input yields: tokenize, parse one expression,
/// and require that every token was consumed — trailing tokens after a
/// complete expression are a malformed expression, not silently
/// ignored.
pub open spec fn sp_eval(s: Seq<char>) -> Result<Rat, EvalError> {
    match sp_tokenize(s) {
        Ok(ts) => match sp_expr(ts) {
            Ok(p) => if p.1.len() == 0 {
                Ok(p.0)
            } else {
                Err(EvalError::MalformedExpression)
            },
            Err(e) => Err(e),
        },
        Err(e) => Err(e),
    }
}

/// Evaluates `exp` to an exact fraction, or reports the first error:
/// the entry point of the library.  The result is exactly
/// `sp_eval(exp@)`, the composition of the tokenizer and grammar
/// specs with the exact-fraction arithmetic.
pub fn eval_expression(exp: &str) -> (r: Result<Fraction, EvalError>)
    ensures
        fres(r) == sp_eval(exp@),
{
    let mut t = match Tokenizer::new(exp) {
        Ok(t) => t,
        Err(e) => {
            return Err(e);
        },
    };
    let f = match parse_expr(&mut t) {
        Ok(f) => f,
        Err(e) => {
            return Err(e);
        },
    };
    match t.head() {
        Some(_) => Err(EvalError::MalformedExpression),
        None => Ok(f),
    }
}

} // verus!
