//! Parser/evaluator for the calculator's arithmetic grammar.
//!
//! The grammar, lowest precedence first:
//!
//! ```text
//! expression := term (("+" | "-") term)*
//! term       := factor (("*" | "/") factor)*
//! factor     := numeric_literal | "(" expression ")" | "-" factor
//! ```
//!
//! Parsing and evaluation are fused: the token stream is walked once, left
//! to right, each operator binding to the already-reduced left accumulator
//! (left associativity), and arithmetic happens as soon as both operands are
//! known. The spec functions `sp_expression`, `sp_term` and `sp_factor`
//! state the same grammar mathematically; each executable function returns
//! exactly what its spec counterpart denotes.

pub mod tokens;

use crate::parser::tokens::{SpecToken, Token, TokenStream};
use crate::value::{norm_add, norm_div, norm_mul, norm_neg, norm_sub, Rat, Value};
use vstd::prelude::*;

verus! {

/// Why tokenization-independent parsing or evaluation failed.
pub enum SpecError {
    /// An operand was expected but the stream was exhausted.
    UnexpectedEnd,
    /// A token that cannot start an operand stood where one was expected.
    UnexpectedToken(SpecToken),
    /// An opened parenthesis was never closed.
    UnclosedParen,
    /// A closing parenthesis with no matching open parenthesis.
    UnmatchedCloseParen,
    /// Tokens remained after a complete expression.
    Trailing(SpecToken),
    /// A divisor evaluated to zero.
    DivisionByZero,
    /// A result does not fit the 64-bit value representation.
    Overflow,
}

/// Clamp the position returned by a sub-parse into `(lo, len]`. A successful
/// sub-parse always consumes at least one token and never passes the end,
/// so this never changes an actual result; it only makes the recursion
/// visibly well-founded.
pub open spec fn step_bound(lo: nat, p: nat, len: nat) -> nat {
    let q = if p <= lo {
        lo + 1
    } else {
        p
    };
    if q > len {
        len
    } else {
        q
    }
}

/// `factor := numeric_literal | "(" expression ")" | "-" factor`, at `pos`:
/// the value and the position after it, or the error.
pub open spec fn sp_factor(toks: Seq<SpecToken>, pos: nat) -> Result<(Rat, nat), SpecError>
    decreases toks.len() - pos, 0int,
{
    if pos >= toks.len() {
        Err(SpecError::UnexpectedEnd)
    } else {
        match toks[pos as int] {
            SpecToken::Num(r) => Ok((r, (pos + 1) as nat)),
            SpecToken::Minus => match sp_factor(toks, pos + 1) {
                Ok(vp) => match norm_neg(vp.0) {
                    Some(v) => Ok((v, vp.1)),
                    None => Err(SpecError::Overflow),
                },
                Err(e) => Err(e),
            },
            SpecToken::LParen => match sp_expression(toks, pos + 1) {
                Ok(vp) => if vp.1 < toks.len() && toks[vp.1 as int] is RParen {
                    Ok((vp.0, vp.1 + 1))
                } else {
                    Err(SpecError::UnclosedParen)
                },
                Err(e) => Err(e),
            },
            t => Err(SpecError::UnexpectedToken(t)),
        }
    }
}

/// `term := factor (("*" | "/") factor)*`, at `pos`.
pub open spec fn sp_term(toks: Seq<SpecToken>, pos: nat) -> Result<(Rat, nat), SpecError>
    decreases toks.len() - pos, 1int,
{
    if pos >= toks.len() {
        Err(SpecError::UnexpectedEnd)
    } else {
        match sp_factor(toks, pos) {
            Ok(vp) => sp_term_tail(toks, vp.0, step_bound(pos, vp.1, toks.len())),
            Err(e) => Err(e),
        }
    }
}

/// The `(("*" | "/") factor)*` repetition, folding into the accumulator
/// `acc` from the left.
pub open spec fn sp_term_tail(toks: Seq<SpecToken>, acc: Rat, pos: nat) -> Result<
    (Rat, nat),
    SpecError,
>
    decreases toks.len() - pos, 2int,
{
    if pos >= toks.len() {
        Ok((acc, pos))
    } else {
        match toks[pos as int] {
            SpecToken::Star => match sp_factor(toks, pos + 1) {
                Ok(vp) => match norm_mul(acc, vp.0) {
                    Some(m) => sp_term_tail(toks, m, step_bound(pos + 1, vp.1, toks.len())),
                    None => Err(SpecError::Overflow),
                },
                Err(e) => Err(e),
            },
            SpecToken::Slash => match sp_factor(toks, pos + 1) {
                Ok(vp) => if vp.0.num == 0 {
                    Err(SpecError::DivisionByZero)
                } else {
                    match norm_div(acc, vp.0) {
                        Some(m) => sp_term_tail(toks, m, step_bound(pos + 1, vp.1, toks.len())),
                        None => Err(SpecError::Overflow),
                    }
                },
                Err(e) => Err(e),
            },
            _ => Ok((acc, pos)),
        }
    }
}

/// `expression := term (("+" | "-") term)*`, at `pos`.
pub open spec fn sp_expression(toks: Seq<SpecToken>, pos: nat) -> Result<(Rat, nat), SpecError>
    decreases toks.len() - pos, 3int,
{
    if pos >= toks.len() {
        Err(SpecError::UnexpectedEnd)
    } else {
        match sp_term(toks, pos) {
            Ok(vp) => sp_expr_tail(toks, vp.0, step_bound(pos, vp.1, toks.len())),
            Err(e) => Err(e),
        }
    }
}

/// The `(("+" | "-") term)*` repetition, folding into the accumulator `acc`
/// from the left.
pub open spec fn sp_expr_tail(toks: Seq<SpecToken>, acc: Rat, pos: nat) -> Result<
    (Rat, nat),
    SpecError,
>
    decreases toks.len() - pos, 4int,
{
    if pos >= toks.len() {
        Ok((acc, pos))
    } else {
        match toks[pos as int] {
            SpecToken::Plus => match sp_term(toks, pos + 1) {
                Ok(vp) => match norm_add(acc, vp.0) {
                    Some(m) => sp_expr_tail(toks, m, step_bound(pos + 1, vp.1, toks.len())),
                    None => Err(SpecError::Overflow),
                },
                Err(e) => Err(e),
            },
            SpecToken::Minus => match sp_term(toks, pos + 1) {
                Ok(vp) => match norm_sub(acc, vp.0) {
                    Some(m) => sp_expr_tail(toks, m, step_bound(pos + 1, vp.1, toks.len())),
                    None => Err(SpecError::Overflow),
                },
                Err(e) => Err(e),
            },
            _ => Ok((acc, pos)),
        }
    }
}

/// A full evaluation: one expression that must consume every token. A
/// leftover closing parenthesis is reported as unmatched; any other
/// leftover token as trailing input.
pub open spec fn sp_evaluate(toks: Seq<SpecToken>) -> Result<Rat, SpecError> {
    match sp_expression(toks, 0) {
        Ok(vp) => if vp.1 < toks.len() {
            if toks[vp.1 as int] is RParen {
                Err(SpecError::UnmatchedCloseParen)
            } else {
                Err(SpecError::Trailing(toks[vp.1 as int]))
            }
        } else {
            Ok(vp.0)
        },
        Err(e) => Err(e),
    }
}

/// Why parsing or evaluation failed, with the offending token where there
/// is one. Each variant renders to a distinct one-line message.
#[derive(Clone, Copy, Debug, PartialEq, Eq, Structural)]
pub enum ParseError {
    UnexpectedEnd,
    UnexpectedToken(Token),
    UnclosedParen,
    UnmatchedCloseParen,
    Trailing(Token),
    DivisionByZero,
    Overflow,
}

impl View for ParseError {
    type V = SpecError;

    open spec fn view(&self) -> SpecError {
        match self {
            ParseError::UnexpectedEnd => SpecError::UnexpectedEnd,
            ParseError::UnexpectedToken(t) => SpecError::UnexpectedToken(t@),
            ParseError::UnclosedParen => SpecError::UnclosedParen,
            ParseError::UnmatchedCloseParen => SpecError::UnmatchedCloseParen,
            ParseError::Trailing(t) => SpecError::Trailing(t@),
            ParseError::DivisionByZero => SpecError::DivisionByZero,
            ParseError::Overflow => SpecError::Overflow,
        }
    }
}

/// The rendering of a token inside an error message: operators and
/// parentheses as their symbol, a numeric literal as the word `number`.
pub open spec fn spec_token_text(t: SpecToken) -> Seq<char> {
    match t {
        SpecToken::Num(_) => "number"@,
        SpecToken::Plus => "+"@,
        SpecToken::Minus => "-"@,
        SpecToken::Star => "*"@,
        SpecToken::Slash => "/"@,
        SpecToken::LParen => "("@,
        SpecToken::RParen => ")"@,
    }
}

/// The one-line human-readable message of each error.
pub open spec fn spec_message(e: SpecError) -> Seq<char> {
    match e {
        SpecError::UnexpectedEnd => "unexpected end of input: operand expected"@,
        SpecError::UnexpectedToken(t) => "unexpected token: "@ + spec_token_text(t),
        SpecError::UnclosedParen => "unmatched parenthesis: expected a closing parenthesis"@,
        SpecError::UnmatchedCloseParen => "unmatched closing parenthesis"@,
        SpecError::Trailing(t) => "trailing input after a complete expression: "@ + spec_token_text(
            t,
        ),
        SpecError::DivisionByZero => "division by zero"@,
        SpecError::Overflow => "arithmetic overflow: a result does not fit the numeric range"@,
    }
}

/// The symbol or word standing for a token in a message.
fn token_text(t: &Token) -> (s: &'static str)
    ensures
        s@ == spec_token_text(t@),
{
    match t {
        Token::Number(_) => "number",
        Token::Plus => "+",
        Token::Minus => "-",
        Token::Star => "*",
        Token::Slash => "/",
        Token::LParen => "(",
        Token::RParen => ")",
    }
}

impl ParseError {
    /// Render the error as its one-line human-readable message.
    pub fn message(&self) -> (s: String)
        ensures
            s@ == spec_message(self@),
    {
        match self {
            ParseError::UnexpectedEnd => "unexpected end of input: operand expected".to_owned(),
            ParseError::UnexpectedToken(t) => {
                let mut s = "unexpected token: ".to_owned();
                s.append(token_text(t));
                s
            },
            ParseError::UnclosedParen => "unmatched parenthesis: expected a closing parenthesis"
                .to_owned(),
            ParseError::UnmatchedCloseParen => "unmatched closing parenthesis".to_owned(),
            ParseError::Trailing(t) => {
                let mut s = "trailing input after a complete expression: ".to_owned();
                s.append(token_text(t));
                s
            },
            ParseError::DivisionByZero => "division by zero".to_owned(),
            ParseError::Overflow => {
                "arithmetic overflow: a result does not fit the numeric range".to_owned()
            },
        }
    }
}

/// One `factor`.
fn parse_factor(ts: &mut TokenStream) -> (r: Result<Value, ParseError>)
    requires
        old(ts).wf(),
    ensures
        final(ts).wf(),
        final(ts)@ == old(ts)@,
        old(ts).cursor() <= final(ts).cursor() <= old(ts)@.len(),
        match r {
            Ok(v) => v.wf() && old(ts).cursor() < final(ts).cursor() && sp_factor(
                old(ts)@,
                old(ts).cursor(),
            ) == Ok::<(Rat, nat), SpecError>((v@, final(ts).cursor())),
            Err(e) => sp_factor(old(ts)@, old(ts).cursor()) == Err::<(Rat, nat), SpecError>(e@),
        },
    decreases ts@.len() - ts.cursor(), 0int,
{
    match ts.peek() {
        None => Err(ParseError::UnexpectedEnd),
        Some(tok) => match tok {
            Token::Number(v) => {
                ts.advance();
                Ok(v)
            },
            Token::Minus => {
                ts.advance();
                match parse_factor(ts) {
                    Ok(v) => match v.checked_neg() {
                        Some(n) => Ok(n),
                        None => Err(ParseError::Overflow),
                    },
                    Err(e) => Err(e),
                }
            },
            Token::LParen => {
                ts.advance();
                match parse_expression(ts) {
                    Ok(v) => match ts.peek() {
                        Some(Token::RParen) => {
                            ts.advance();
                            Ok(v)
                        },
                        _ => Err(ParseError::UnclosedParen),
                    },
                    Err(e) => Err(e),
                }
            },
            _ => Err(ParseError::UnexpectedToken(tok)),
        },
    }
}

/// One `term`: a factor folded with the `*` and `/` repetition.
fn parse_term(ts: &mut TokenStream) -> (r: Result<Value, ParseError>)
    requires
        old(ts).wf(),
    ensures
        final(ts).wf(),
        final(ts)@ == old(ts)@,
        old(ts).cursor() <= final(ts).cursor() <= old(ts)@.len(),
        match r {
            Ok(v) => v.wf() && old(ts).cursor() < final(ts).cursor() && sp_term(
                old(ts)@,
                old(ts).cursor(),
            ) == Ok::<(Rat, nat), SpecError>((v@, final(ts).cursor())),
            Err(e) => sp_term(old(ts)@, old(ts).cursor()) == Err::<(Rat, nat), SpecError>(e@),
        },
    decreases ts@.len() - ts.cursor(), 1int,
{
    match parse_factor(ts) {
        Ok(v) => {
            proof {
                assert(step_bound(old(ts).cursor(), ts.cursor(), ts@.len()) == ts.cursor());
            }
            parse_term_tail(ts, v)
        },
        Err(e) => Err(e),
    }
}

/// The `(("*" | "/") factor)*` repetition.
fn parse_term_tail(ts: &mut TokenStream, acc: Value) -> (r: Result<Value, ParseError>)
    requires
        old(ts).wf(),
        acc.wf(),
    ensures
        final(ts).wf(),
        final(ts)@ == old(ts)@,
        old(ts).cursor() <= final(ts).cursor() <= old(ts)@.len(),
        match r {
            Ok(v) => v.wf() && sp_term_tail(old(ts)@, acc@, old(ts).cursor()) == Ok::<
                (Rat, nat),
                SpecError,
            >((v@, final(ts).cursor())),
            Err(e) => sp_term_tail(old(ts)@, acc@, old(ts).cursor()) == Err::<
                (Rat, nat),
                SpecError,
            >(e@),
        },
    decreases ts@.len() - ts.cursor(), 2int,
{
    let next = ts.peek();
    match next {
        Some(Token::Star) => {
            ts.advance();
            match parse_factor(ts) {
                Ok(v) => match acc.checked_mul(v) {
                    Some(m) => {
                        proof {
                            assert(step_bound(
                                old(ts).cursor() + 1,
                                ts.cursor(),
                                ts@.len(),
                            ) == ts.cursor());
                        }
                        parse_term_tail(ts, m)
                    },
                    None => Err(ParseError::Overflow),
                },
                Err(e) => Err(e),
            }
        },
        Some(Token::Slash) => {
            ts.advance();
            match parse_factor(ts) {
                Ok(v) => {
                    if v.is_zero() {
                        Err(ParseError::DivisionByZero)
                    } else {
                        match acc.checked_div(v) {
                            Some(m) => {
                                proof {
                                    assert(step_bound(
                                        old(ts).cursor() + 1,
                                        ts.cursor(),
                                        ts@.len(),
                                    ) == ts.cursor());
                                }
                                parse_term_tail(ts, m)
                            },
                            None => Err(ParseError::Overflow),
                        }
                    }
                },
                Err(e) => Err(e),
            }
        },
        _ => Ok(acc),
    }
}

/// One `expression`: a term folded with the `+` and `-` repetition.
fn parse_expression(ts: &mut TokenStream) -> (r: Result<Value, ParseError>)
    requires
        old(ts).wf(),
    ensures
        final(ts).wf(),
        final(ts)@ == old(ts)@,
        old(ts).cursor() <= final(ts).cursor() <= old(ts)@.len(),
        match r {
            Ok(v) => v.wf() && old(ts).cursor() < final(ts).cursor() && sp_expression(
                old(ts)@,
                old(ts).cursor(),
            ) == Ok::<(Rat, nat), SpecError>((v@, final(ts).cursor())),
            Err(e) => sp_expression(old(ts)@, old(ts).cursor()) == Err::<
                (Rat, nat),
                SpecError,
            >(e@),
        },
    decreases ts@.len() - ts.cursor(), 3int,
{
    match parse_term(ts) {
        Ok(v) => {
            proof {
                assert(step_bound(old(ts).cursor(), ts.cursor(), ts@.len()) == ts.cursor());
            }
            parse_expr_tail(ts, v)
        },
        Err(e) => Err(e),
    }
}

/// The `(("+" | "-") term)*` repetition.
fn parse_expr_tail(ts: &mut TokenStream, acc: Value) -> (r: Result<Value, ParseError>)
    requires
        old(ts).wf(),
        acc.wf(),
    ensures
        final(ts).wf(),
        final(ts)@ == old(ts)@,
        old(ts).cursor() <= final(ts).cursor() <= old(ts)@.len(),
        match r {
            Ok(v) => v.wf() && sp_expr_tail(old(ts)@, acc@, old(ts).cursor()) == Ok::<
                (Rat, nat),
                SpecError,
            >((v@, final(ts).cursor())),
            Err(e) => sp_expr_tail(old(ts)@, acc@, old(ts).cursor()) == Err::<
                (Rat, nat),
                SpecError,
            >(e@),
        },
    decreases ts@.len() - ts.cursor(), 4int,
{
    let next = ts.peek();
    match next {
        Some(Token::Plus) => {
            ts.advance();
            match parse_term(ts) {
                Ok(v) => match acc.checked_add(v) {
                    Some(m) => {
                        proof {
                            assert(step_bound(
                                old(ts).cursor() + 1,
                                ts.cursor(),
                                ts@.len(),
                            ) == ts.cursor());
                        }
                        parse_expr_tail(ts, m)
                    },
                    None => Err(ParseError::Overflow),
                },
                Err(e) => Err(e),
            }
        },
        Some(Token::Minus) => {
            ts.advance();
            match parse_term(ts) {
                Ok(v) => match acc.checked_sub(v) {
                    Some(m) => {
                        proof {
                            assert(step_bound(
                                old(ts).cursor() + 1,
                                ts.cursor(),
                                ts@.len(),
                            ) == ts.cursor());
                        }
                        parse_expr_tail(ts, m)
                    },
                    None => Err(ParseError::Overflow),
                },
                Err(e) => Err(e),
            }
        },
        _ => Ok(acc),
    }
}

/// Evaluate the whole token stream: parse one expression under the grammar
/// and then demand that nothing is left over. Returns the exact value of the
/// expression, or the first error: the result is precisely what
/// [`sp_evaluate`] denotes on the stream's tokens.
pub fn expression(ts: &mut TokenStream) -> (r: Result<Value, ParseError>)
    requires
        old(ts).wf(),
        old(ts).cursor() == 0,
    ensures
        final(ts).wf(),
        final(ts)@ == old(ts)@,
        match r {
            Ok(v) => v.wf() && sp_evaluate(old(ts)@) == Ok::<Rat, SpecError>(v@),
            Err(e) => sp_evaluate(old(ts)@) == Err::<Rat, SpecError>(e@),
        },
{
    match parse_expression(ts) {
        Ok(v) => match ts.peek() {
            None => Ok(v),
            Some(Token::RParen) => Err(ParseError::UnmatchedCloseParen),
            Some(t) => Err(ParseError::Trailing(t)),
        },
        Err(e) => Err(e),
    }
}

} // verus!
