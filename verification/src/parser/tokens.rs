//! Tokenizer: turns raw input text into an ordered sequence of lexical
//! tokens behind a read cursor.
//!
//! The token classes are numeric literals (a maximal digit run, optionally a
//! single decimal point followed by further digits), the four operator
//! symbols, and parentheses. Whitespace separates tokens and is discarded;
//! any other character makes the text untokenizable.

use crate::value::{norm_fit, rat_wf, Rat, Value};
use vstd::prelude::*;
use vstd::string::StrSliceExecFns;

verus! {

/// Mathematical model of one lexical token.
pub enum SpecToken {
    Num(Rat),
    Plus,
    Minus,
    Star,
    Slash,
    LParen,
    RParen,
}

/// Whitespace, discarded between tokens.
pub open spec fn is_space_char(c: char) -> bool {
    c == ' ' || c == '\t' || c == '\n' || c == '\r'
}

/// A decimal digit.
pub open spec fn is_digit_char(c: char) -> bool {
    '0' <= c && c <= '9'
}

/// Numeric value of a decimal digit.
pub open spec fn digit_val(c: char) -> int {
    c as u32 - '0' as u32
}

/// Length of the maximal digit run at the head of `t`.
pub open spec fn leading_digits(t: Seq<char>) -> nat
    decreases t.len(),
{
    if t.len() == 0 || !is_digit_char(t[0]) {
        0
    } else {
        1 + leading_digits(t.drop_first())
    }
}

/// The number denoted by a sequence of decimal digits, most significant
/// first.
pub open spec fn digits_value(d: Seq<char>) -> int
    decreases d.len(),
{
    if d.len() == 0 {
        0
    } else {
        digits_value(d.drop_last()) * 10 + digit_val(d.last())
    }
}

/// Ten to the `n`.
pub open spec fn pow10(n: nat) -> int
    decreases n,
{
    if n == 0 {
        1
    } else {
        10 * pow10((n - 1) as nat)
    }
}

/// The numeric literal at the head of `t` (whose first character is a
/// digit): its value and its length in characters. `None` when the literal
/// is malformed (a decimal point not followed by a digit) or does not fit
/// the 64-bit value representation: integer part or fractional digits beyond
/// `i64::MAX`, more than 18 fractional digits, or a reduced value out of
/// range.
pub open spec fn spec_number_token(t: Seq<char>) -> Option<(Rat, nat)>
    recommends
        t.len() > 0 && is_digit_char(t[0]),
{
    let n1 = leading_digits(t);
    let ip = digits_value(t.take(n1 as int));
    if n1 < t.len() && t[n1 as int] == '.' {
        let rest = t.skip(n1 as int + 1);
        let n2 = leading_digits(rest);
        let fp = digits_value(rest.take(n2 as int));
        if 1 <= n2 <= 18 && ip <= i64::MAX && fp <= i64::MAX {
            match norm_fit(Rat { num: ip * pow10(n2) + fp, den: pow10(n2) }) {
                Some(v) => Some((v, n1 + 1 + n2)),
                None => None,
            }
        } else {
            None
        }
    } else {
        if ip <= i64::MAX {
            Some((Rat { num: ip, den: 1 }, n1))
        } else {
            None
        }
    }
}

/// Prefix a token onto a tokenization outcome; failure stays failure.
pub open spec fn prepend(tok: SpecToken, rest: Option<Seq<SpecToken>>) -> Option<Seq<SpecToken>> {
    match rest {
        Some(ts) => Some(seq![tok] + ts),
        None => None,
    }
}

/// Prefix a whole token sequence onto a tokenization outcome.
pub open spec fn prepend_all(prefix: Seq<SpecToken>, rest: Option<Seq<SpecToken>>) -> Option<
    Seq<SpecToken>,
> {
    match rest {
        Some(ts) => Some(prefix + ts),
        None => None,
    }
}

/// The token sequence of `t`, or `None` when `t` is not tokenizable.
pub open spec fn spec_tokenize(t: Seq<char>) -> Option<Seq<SpecToken>>
    decreases t.len(),
    via spec_tokenize_decreases
{
    if t.len() == 0 {
        Some(Seq::empty())
    } else if is_space_char(t[0]) {
        spec_tokenize(t.drop_first())
    } else if t[0] == '+' {
        prepend(SpecToken::Plus, spec_tokenize(t.drop_first()))
    } else if t[0] == '-' {
        prepend(SpecToken::Minus, spec_tokenize(t.drop_first()))
    } else if t[0] == '*' {
        prepend(SpecToken::Star, spec_tokenize(t.drop_first()))
    } else if t[0] == '/' {
        prepend(SpecToken::Slash, spec_tokenize(t.drop_first()))
    } else if t[0] == '(' {
        prepend(SpecToken::LParen, spec_tokenize(t.drop_first()))
    } else if t[0] == ')' {
        prepend(SpecToken::RParen, spec_tokenize(t.drop_first()))
    } else if is_digit_char(t[0]) {
        match spec_number_token(t) {
            Some(vn) => prepend(SpecToken::Num(vn.0), spec_tokenize(t.skip(vn.1 as int))),
            None => None,
        }
    } else {
        None
    }
}

#[via_fn]
proof fn spec_tokenize_decreases(t: Seq<char>) {
    if t.len() > 0 {
        lemma_leading_digits_bounds(t);
        let n1 = leading_digits(t);
        if n1 < t.len() {
            lemma_leading_digits_bounds(t.skip(n1 as int + 1));
        }
    }
}

/// The maximal digit run: bounded by the text, at least one character when
/// the head is a digit, made of digits, and ended by a non-digit.
proof fn lemma_leading_digits_bounds(t: Seq<char>)
    ensures
        leading_digits(t) <= t.len(),
        t.len() > 0 && is_digit_char(t[0]) ==> leading_digits(t) >= 1,
        forall|k: int| 0 <= k < leading_digits(t) ==> is_digit_char(#[trigger] t[k]),
        leading_digits(t) < t.len() ==> !is_digit_char(t[leading_digits(t) as int]),
    decreases t.len(),
{
    if t.len() > 0 && is_digit_char(t[0]) {
        lemma_leading_digits_bounds(t.drop_first());
        assert forall|k: int| 0 <= k < leading_digits(t) implies is_digit_char(#[trigger] t[k]) by {
            if k > 0 {
                assert(t.drop_first()[k - 1] == t[k]);
            }
        }
        let n = leading_digits(t);
        if n < t.len() {
            assert(t.drop_first()[n - 1] == t[n as int]);
        }
    }
}

/// Digit-run values are non-negative and grow with the run: the value of a
/// prefix never exceeds the value of the whole run.
proof fn lemma_digits_value_mono(d: Seq<char>, k: int)
    requires
        0 <= k <= d.len(),
        forall|m: int| 0 <= m < d.len() ==> is_digit_char(#[trigger] d[m]),
    ensures
        0 <= digits_value(d.take(k)),
        digits_value(d.take(k)) <= digits_value(d),
    decreases d.len(),
{
    if d.len() == 0 {
        assert(d.take(k) =~= d);
    } else if k == d.len() {
        assert(d.take(k) =~= d);
        lemma_digits_value_mono(d.drop_last(), d.len() - 1);
        assert(d.drop_last().take(d.len() - 1) =~= d.drop_last());
    } else {
        lemma_digits_value_mono(d.drop_last(), k);
        assert(d.drop_last().take(k) =~= d.take(k));
        lemma_digits_value_mono(d.drop_last(), d.len() - 1);
        assert(d.drop_last().take(d.len() - 1) =~= d.drop_last());
    }
}

/// One lexical token.
#[derive(Clone, Copy, Debug, PartialEq, Eq, Structural)]
pub enum Token {
    Number(Value),
    Plus,
    Minus,
    Star,
    Slash,
    LParen,
    RParen,
}

impl View for Token {
    type V = SpecToken;

    open spec fn view(&self) -> SpecToken {
        match self {
            Token::Number(v) => SpecToken::Num(v@),
            Token::Plus => SpecToken::Plus,
            Token::Minus => SpecToken::Minus,
            Token::Star => SpecToken::Star,
            Token::Slash => SpecToken::Slash,
            Token::LParen => SpecToken::LParen,
            Token::RParen => SpecToken::RParen,
        }
    }
}

/// The models of a sequence of tokens.
pub open spec fn views_of(ts: Seq<Token>) -> Seq<SpecToken> {
    ts.map_values(|t: Token| t@)
}

/// Every numeric token carries a well-formed rational.
pub open spec fn toks_wf(ts: Seq<SpecToken>) -> bool {
    forall|i: int|
        0 <= i < ts.len() ==> ((#[trigger] ts[i]) matches SpecToken::Num(r) ==> rat_wf(r))
}

/// An ordered token sequence plus a read cursor, consumed once per
/// evaluation.
#[derive(Debug)]
pub struct TokenStream {
    tokens: Vec<Token>,
    pos: usize,
}

impl View for TokenStream {
    type V = Seq<SpecToken>;

    closed spec fn view(&self) -> Seq<SpecToken> {
        views_of(self.tokens@)
    }
}

impl TokenStream {
    /// Read position, advanced as the parser consumes tokens.
    pub closed spec fn cursor(&self) -> nat {
        self.pos as nat
    }

    /// Cursor in range and every numeric token well-formed.
    pub open spec fn wf(&self) -> bool {
        self.cursor() <= self@.len() && toks_wf(self@)
    }

    /// Tokenize `text`. Returns `None` when the text is not tokenizable or
    /// holds no token at all (empty or all whitespace), so that the caller
    /// treats such input as "nothing to evaluate"; otherwise the stream
    /// holds the text's tokens in order with the cursor at the start.
    pub fn new(text: String) -> (r: Option<TokenStream>)
        ensures
            match spec_tokenize(text@) {
                None => r is None,
                Some(toks) => {
                    if toks.len() == 0 {
                        r is None
                    } else {
                        r matches Some(ts) && ts@ == toks && ts.cursor() == 0 && ts.wf()
                    }
                },
            },
    {
        let s: &str = text.as_str();
        let n: usize = s.unicode_len();
        let mut toks: Vec<Token> = Vec::new();
        let mut i: usize = 0;
        proof {
            assert(text@.skip(0) =~= text@);
            assert(views_of(toks@) =~= Seq::<SpecToken>::empty());
            lemma_prepend_all_empty(spec_tokenize(text@));
        }
        while i < n
            invariant
                i <= n,
                n == s@.len(),
                s@ == text@,
                prepend_all(views_of(toks@), spec_tokenize(text@.skip(i as int))) == spec_tokenize(
                    text@,
                ),
                toks_wf(views_of(toks@)),
            decreases n - i,
        {
            let ghost t0 = text@.skip(i as int);
            let ghost pre = views_of(toks@);
            proof {
                assert(t0.len() == n - i);
                assert(t0[0] == text@[i as int]);
                assert(t0.drop_first() =~= text@.skip(i as int + 1));
            }
            let c: char = s.get_char(i);
            if c == ' ' || c == '\t' || c == '\n' || c == '\r' {
                i = i + 1;
            } else if c == '+' {
                toks.push(Token::Plus);
                proof {
                    lemma_push_glue(pre, toks@, Token::Plus, spec_tokenize(t0.drop_first()));
                }
                i = i + 1;
            } else if c == '-' {
                toks.push(Token::Minus);
                proof {
                    lemma_push_glue(pre, toks@, Token::Minus, spec_tokenize(t0.drop_first()));
                }
                i = i + 1;
            } else if c == '*' {
                toks.push(Token::Star);
                proof {
                    lemma_push_glue(pre, toks@, Token::Star, spec_tokenize(t0.drop_first()));
                }
                i = i + 1;
            } else if c == '/' {
                toks.push(Token::Slash);
                proof {
                    lemma_push_glue(pre, toks@, Token::Slash, spec_tokenize(t0.drop_first()));
                }
                i = i + 1;
            } else if c == '(' {
                toks.push(Token::LParen);
                proof {
                    lemma_push_glue(pre, toks@, Token::LParen, spec_tokenize(t0.drop_first()));
                }
                i = i + 1;
            } else if c == ')' {
                toks.push(Token::RParen);
                proof {
                    lemma_push_glue(pre, toks@, Token::RParen, spec_tokenize(t0.drop_first()));
                }
                i = i + 1;
            } else if '0' <= c && c <= '9' {
                proof {
                    lemma_leading_digits_bounds(t0);
                }
                let (ip_opt, j) = scan_digits(s, i, n);
                proof {
                    assert(s@.skip(i as int) == t0);
                }
                let ip: i64 = match ip_opt {
                    Some(v) => v,
                    None => {
                        return None;
                    },
                };
                let has_dot: bool = if j < n {
                    s.get_char(j) == '.'
                } else {
                    false
                };
                proof {
                    if j < n {
                        assert(t0[(j - i) as int] == text@[j as int]);
                    }
                }
                if has_dot {
                    proof {
                        assert(t0.skip((j - i) as int + 1) =~= text@.skip(j as int + 1));
                    }
                    let (fp_opt, k) = scan_digits(s, j + 1, n);
                    let fp: i64 = match fp_opt {
                        Some(v) => v,
                        None => {
                            return None;
                        },
                    };
                    let flen: usize = k - (j + 1);
                    if flen == 0 || flen > 18 {
                        return None;
                    }
                    let den: i64 = pow10_i64(flen);
                    proof {
                        lemma_literal_num_bounds(ip as int, den as int, fp as int);
                    }
                    let numv: i128 = ip as i128 * den as i128 + fp as i128;
                    match Value::new_ratio(numv, den as i128) {
                        Some(v) => {
                            proof {
                                assert(spec_number_token(t0) == Some((v@, (k - i) as nat)));
                                assert(t0.skip((k - i) as int) =~= text@.skip(k as int));
                            }
                            toks.push(Token::Number(v));
                            proof {
                                lemma_push_glue(
                                    pre,
                                    toks@,
                                    Token::Number(v),
                                    spec_tokenize(text@.skip(k as int)),
                                );
                            }
                            i = k;
                        },
                        None => {
                            return None;
                        },
                    }
                } else {
                    let v = Value::from_int(ip);
                    proof {
                        assert(spec_number_token(t0) == Some((v@, (j - i) as nat)));
                        assert(t0.skip((j - i) as int) =~= text@.skip(j as int));
                    }
                    toks.push(Token::Number(v));
                    proof {
                        lemma_push_glue(
                            pre,
                            toks@,
                            Token::Number(v),
                            spec_tokenize(text@.skip(j as int)),
                        );
                    }
                    i = j;
                }
            } else {
                return None;
            }
        }
        proof {
            assert(text@.skip(i as int).len() == 0);
            assert(spec_tokenize(text@.skip(i as int)) == Some(Seq::<SpecToken>::empty()));
            assert(views_of(toks@) + Seq::<SpecToken>::empty() =~= views_of(toks@));
        }
        if toks.len() == 0 {
            None
        } else {
            Some(TokenStream { tokens: toks, pos: 0 })
        }
    }

    /// The token at the cursor, without consuming it.
    pub fn peek(&self) -> (t: Option<Token>)
        ensures
            match t {
                Some(tok) => self.cursor() < self@.len() && tok@ == self@[self.cursor() as int],
                None => self.cursor() >= self@.len(),
            },
    {
        if self.pos < self.tokens.len() {
            Some(self.tokens[self.pos])
        } else {
            None
        }
    }

    /// Consume one token.
    pub fn advance(&mut self)
        requires
            old(self).cursor() < old(self)@.len(),
        ensures
            final(self)@ == old(self)@,
            final(self).cursor() == old(self).cursor() + 1,
    {
        let _n: usize = self.tokens.len();
        proof {
            assert(old(self)@.len() == old(self).tokens@.len());
        }
        self.pos = self.pos + 1;
    }

    /// Number of tokens in the stream.
    pub fn len(&self) -> (n: usize)
        ensures
            n == self@.len(),
    {
        self.tokens.len()
    }

    /// The token at index `i`.
    pub fn token_at(&self, i: usize) -> (t: Token)
        requires
            i < self@.len(),
        ensures
            t@ == self@[i as int],
    {
        self.tokens[i]
    }

    /// Whether every token has been consumed.
    pub fn at_end(&self) -> (b: bool)
        ensures
            b == (self.cursor() >= self@.len()),
    {
        self.pos >= self.tokens.len()
    }
}

/// Tokenizing the same text twice yields the same outcome, with element-wise
/// equal token sequences: the tokenizer is a pure function of the text.
pub proof fn lemma_tokenize_repeatable(t1: Seq<char>, t2: Seq<char>)
    requires
        t1 == t2,
    ensures
        match (spec_tokenize(t1), spec_tokenize(t2)) {
            (Some(a), Some(b)) => a.len() == b.len() && (forall|i: int|
                0 <= i < a.len() ==> a[i] == b[i]),
            (None, None) => true,
            _ => false,
        },
{
}

/// Leading whitespace is discarded: any all-whitespace prefix leaves the
/// token sequence unchanged.
pub proof fn lemma_leading_whitespace(ws: Seq<char>, t: Seq<char>)
    requires
        forall|i: int| 0 <= i < ws.len() ==> is_space_char(#[trigger] ws[i]),
    ensures
        spec_tokenize(ws + t) == spec_tokenize(t),
    decreases ws.len(),
{
    if ws.len() > 0 {
        let u = ws + t;
        assert(u[0] == ws[0]);
        assert(u.drop_first() =~= ws.drop_first() + t);
        lemma_leading_whitespace(ws.drop_first(), t);
    } else {
        assert(ws + t =~= t);
    }
}

/// How the leading digit run behaves under concatenation: it either ends
/// inside the first part, or it spans the whole first part and continues
/// into the second.
proof fn lemma_leading_digits_concat(a: Seq<char>, b: Seq<char>)
    ensures
        leading_digits(a) < a.len() ==> leading_digits(a + b) == leading_digits(a),
        leading_digits(a) == a.len() ==> leading_digits(a + b) == a.len() + leading_digits(b),
    decreases a.len(),
{
    lemma_leading_digits_bounds(a);
    if a.len() == 0 {
        assert(a + b =~= b);
    } else {
        assert((a + b)[0] == a[0]);
        if is_digit_char(a[0]) {
            assert((a + b).drop_first() =~= a.drop_first() + b);
            lemma_leading_digits_concat(a.drop_first(), b);
        }
    }
}

/// Trailing whitespace is discarded: any all-whitespace suffix leaves the
/// token sequence unchanged.
pub proof fn lemma_trailing_whitespace(t: Seq<char>, ws: Seq<char>)
    requires
        forall|i: int| 0 <= i < ws.len() ==> is_space_char(#[trigger] ws[i]),
    ensures
        spec_tokenize(t + ws) == spec_tokenize(t),
    decreases t.len(),
{
    if ws.len() == 0 {
        assert(t + ws =~= t);
    } else if t.len() == 0 {
        assert(t + ws =~= ws);
        assert(ws =~= ws + Seq::<char>::empty());
        lemma_leading_whitespace(ws, Seq::empty());
    } else {
        let u = t + ws;
        assert(u[0] == t[0]);
        assert(u.drop_first() =~= t.drop_first() + ws);
        if is_digit_char(t[0]) {
            lemma_leading_digits_bounds(t);
            lemma_leading_digits_concat(t, ws);
            let n1 = leading_digits(t);
            if n1 == t.len() {
                assert(!is_digit_char(ws[0]));
                assert(leading_digits(ws) == 0);
            }
            assert(leading_digits(u) == n1);
            assert(u.take(n1 as int) =~= t.take(n1 as int));
            if n1 < t.len() && t[n1 as int] == '.' {
                let rt = t.skip(n1 as int + 1);
                let ru = u.skip(n1 as int + 1);
                assert(u[n1 as int] == t[n1 as int]);
                assert(ru =~= rt + ws);
                lemma_leading_digits_bounds(rt);
                lemma_leading_digits_concat(rt, ws);
                let n2 = leading_digits(rt);
                if n2 == rt.len() {
                    assert(!is_digit_char(ws[0]));
                    assert(leading_digits(ws) == 0);
                }
                assert(leading_digits(ru) == n2);
                assert(ru.take(n2 as int) =~= rt.take(n2 as int));
                assert(spec_number_token(u) == spec_number_token(t));
                match spec_number_token(t) {
                    Some(vn) => {
                        assert(u.skip(vn.1 as int) =~= t.skip(vn.1 as int) + ws);
                        lemma_trailing_whitespace(t.skip(vn.1 as int), ws);
                    },
                    None => {},
                }
            } else {
                if n1 < u.len() {
                    assert(u[n1 as int] != '.');
                }
                assert(spec_number_token(u) == spec_number_token(t));
                match spec_number_token(t) {
                    Some(vn) => {
                        assert(u.skip(vn.1 as int) =~= t.skip(vn.1 as int) + ws);
                        lemma_trailing_whitespace(t.skip(vn.1 as int), ws);
                    },
                    None => {},
                }
            }
        } else {
            lemma_trailing_whitespace(t.drop_first(), ws);
        }
    }
}

/// Whitespace insensitivity: wrapping a text in any amount of whitespace on
/// either side leaves its token sequence unchanged.
pub proof fn lemma_whitespace_insensitive(ws1: Seq<char>, t: Seq<char>, ws2: Seq<char>)
    requires
        forall|i: int| 0 <= i < ws1.len() ==> is_space_char(#[trigger] ws1[i]),
        forall|i: int| 0 <= i < ws2.len() ==> is_space_char(#[trigger] ws2[i]),
    ensures
        spec_tokenize(ws1 + t + ws2) == spec_tokenize(t),
{
    assert(ws1 + t + ws2 =~= ws1 + (t + ws2));
    lemma_leading_whitespace(ws1, t + ws2);
    lemma_trailing_whitespace(t, ws2);
}

/// `prepend_all` of the empty prefix changes nothing.
proof fn lemma_prepend_all_empty(rest: Option<Seq<SpecToken>>)
    ensures
        prepend_all(Seq::empty(), rest) == rest,
{
    match rest {
        Some(ts) => {
            assert(Seq::<SpecToken>::empty() + ts =~= ts);
        },
        None => {},
    }
}

/// Pushing one token onto the scanned prefix commutes with prefixing the
/// remaining tokenization, and keeps the prefix well-formed.
proof fn lemma_push_glue(
    pre: Seq<SpecToken>,
    toks: Seq<Token>,
    tok: Token,
    rest: Option<Seq<SpecToken>>,
)
    requires
        views_of(toks) =~= pre.push(tok@),
        toks_wf(pre),
        tok@ matches SpecToken::Num(r) ==> rat_wf(r),
    ensures
        prepend_all(pre, prepend(tok@, rest)) == prepend_all(views_of(toks), rest),
        toks_wf(views_of(toks)),
{
    match rest {
        Some(ts) => {
            assert(pre + (seq![tok@] + ts) =~= pre.push(tok@) + ts);
        },
        None => {},
    }
    assert forall|i: int| 0 <= i < views_of(toks).len() implies ((#[trigger] views_of(
        toks,
    )[i]) matches SpecToken::Num(r) ==> rat_wf(r)) by {
        if i < pre.len() {
            assert(views_of(toks)[i] == pre[i]);
            assert(pre[i] matches SpecToken::Num(r) ==> rat_wf(r));
        } else {
            assert(views_of(toks)[i] == tok@);
        }
    }
}

/// Digit of a character, when it is one.
fn char_digit(c: char) -> (d: Option<u32>)
    ensures
        match d {
            Some(v) => is_digit_char(c) && v == digit_val(c) && v <= 9,
            None => !is_digit_char(c),
        },
{
    if '0' <= c && c <= '9' {
        Some(c as u32 - '0' as u32)
    } else {
        None
    }
}

/// First index at or after `from` that does not hold a digit.
fn digits_run_end(s: &str, from: usize, n: usize) -> (end: usize)
    requires
        n == s@.len(),
        from <= n,
    ensures
        from <= end <= n,
        end - from == leading_digits(s@.skip(from as int)),
    decreases n - from,
{
    proof {
        lemma_leading_digits_bounds(s@.skip(from as int));
    }
    if from < n {
        let c = s.get_char(from);
        proof {
            assert(s@.skip(from as int)[0] == s@[from as int]);
        }
        match char_digit(c) {
            Some(_) => {
                proof {
                    assert(s@.skip(from as int).drop_first() =~= s@.skip(from as int + 1));
                }
                digits_run_end(s, from + 1, n)
            },
            None => from,
        }
    } else {
        from
    }
}

/// Scan the maximal digit run starting at `from`: its end, and its value
/// unless that value exceeds `i64::MAX`.
fn scan_digits(s: &str, from: usize, n: usize) -> (res: (Option<i64>, usize))
    requires
        n == s@.len(),
        from <= n,
    ensures
        from <= res.1 <= n,
        res.1 - from == leading_digits(s@.skip(from as int)),
        ({
            let run = s@.skip(from as int).take(res.1 - from as int);
            match res.0 {
                Some(v) => digits_value(run) == v && 0 <= v,
                None => digits_value(run) > i64::MAX,
            }
        }),
{
    let end = digits_run_end(s, from, n);
    let ghost t = s@.skip(from as int);
    let ghost nd = (end - from) as int;
    proof {
        lemma_leading_digits_bounds(t);
    }
    let mut acc: i64 = 0;
    let mut j: usize = from;
    proof {
        assert(t.take(0) =~= Seq::<char>::empty());
    }
    while j < end
        invariant
            from <= j <= end <= n,
            n == s@.len(),
            t == s@.skip(from as int),
            nd == end - from,
            nd == leading_digits(t),
            forall|k: int| 0 <= k < nd ==> is_digit_char(#[trigger] t[k]),
            acc == digits_value(t.take(j - from as int)),
            0 <= acc,
        decreases end - j,
    {
        let c = s.get_char(j);
        proof {
            assert(t[(j - from) as int] == s@[j as int]);
        }
        let d: u32 = match char_digit(c) {
            Some(d) => d,
            None => {
                proof {
                    assert(is_digit_char(t[(j - from) as int]));
                }
                0
            },
        };
        let wide: i128 = acc as i128 * 10 + d as i128;
        proof {
            assert(t.take(j + 1 - from as int).drop_last() =~= t.take(j - from as int));
            assert(t.take(j + 1 - from as int).last() == t[(j - from) as int]);
        }
        if wide > i64::MAX as i128 {
            proof {
                lemma_digits_value_mono(t.take(nd), j + 1 - from as int);
                assert(t.take(nd).take(j + 1 - from as int) =~= t.take(j + 1 - from as int));
                assert forall|m: int| 0 <= m < t.take(nd).len() implies is_digit_char(
                    #[trigger] t.take(nd)[m],
                ) by {}
            }
            return (None, end);
        }
        acc = wide as i64;
        j = j + 1;
    }
    proof {
        assert(t.take(nd) == t.take((end - from) as int));
    }
    (Some(acc), end)
}

/// Ten to the `e` as a 64-bit integer.
fn pow10_i64(e: usize) -> (p: i64)
    requires
        e <= 18,
    ensures
        p as int == pow10(e as nat),
        1 <= p <= 0x0de0_b6b3_a764_0000,
{
    proof {
        lemma_pow10_bound(e as nat);
    }
    let mut p: i64 = 1;
    let mut t: usize = 0;
    proof {
        lemma_pow10_mono(0, e as nat);
    }
    while t < e
        invariant
            t <= e <= 18,
            p as int == pow10(t as nat),
            1 <= p,
            pow10(t as nat) <= pow10(e as nat) <= 0x0de0_b6b3_a764_0000,
        decreases e - t,
    {
        proof {
            lemma_pow10_bound(e as nat);
            lemma_pow10_mono(t as nat + 1, e as nat);
        }
        p = p * 10;
        t = t + 1;
    }
    p
}

/// Powers of ten are positive and monotone.
proof fn lemma_pow10_mono(a: nat, b: nat)
    requires
        a <= b,
    ensures
        1 <= pow10(a) <= pow10(b),
    decreases b,
{
    if b > 0 {
        if a == b {
            lemma_pow10_mono(0, (b - 1) as nat);
        } else {
            lemma_pow10_mono(a, (b - 1) as nat);
        }
    }
}

/// Eighteen or fewer powers of ten fit comfortably in 64 bits.
proof fn lemma_pow10_bound(e: nat)
    requires
        e <= 18,
    ensures
        1 <= pow10(e) <= 0x0de0_b6b3_a764_0000,
{
    lemma_pow10_mono(e, 18);
    assert(pow10(18) == 0x0de0_b6b3_a764_0000) by {
        reveal_with_fuel(pow10, 19);
    }
}

/// The raw numerator of a scanned literal stays far inside 128 bits.
proof fn lemma_literal_num_bounds(ip: int, den: int, fp: int)
    requires
        0 <= ip <= 0x7fff_ffff_ffff_ffff,
        1 <= den <= 0x0de0_b6b3_a764_0000,
        0 <= fp <= 0x7fff_ffff_ffff_ffff,
    ensures
        0 <= ip * den + fp <= 0x7fff_ffff_ffff_ffff_ffff_ffff_ffff_fffe,
{
    assert(0 <= ip * den + fp <= 0x7fff_ffff_ffff_ffff_ffff_ffff_ffff_fffe)
        by (nonlinear_arith)
        requires
            0 <= ip <= 0x7fff_ffff_ffff_ffff,
            1 <= den <= 0x0de0_b6b3_a764_0000,
            0 <= fp <= 0x7fff_ffff_ffff_ffff,
    ;
}

} // verus!
