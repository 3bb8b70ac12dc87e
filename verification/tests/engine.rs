use calculator::parser::expression;
use calculator::parser::tokens::{Token, TokenStream};
use calculator::parser::ParseError;
use calculator::value::Value;

fn eval(text: &str) -> Result<Value, ParseError> {
    let mut ts = TokenStream::new(String::from(text)).expect("tokenizable input");
    expression(&mut ts)
}

fn eval_ok(text: &str) -> Value {
    eval(text).expect("evaluable input")
}

#[test]
fn precedence_product_binds_tighter() {
    let v = eval_ok("2+3*4");
    assert_eq!(v.numerator(), 14);
    assert_eq!(v.denominator(), 1);
}

#[test]
fn parentheses_override_precedence() {
    let v = eval_ok("(2+3)*4");
    assert_eq!(v.numerator(), 20);
    assert_eq!(v.denominator(), 1);
}

#[test]
fn unary_minus_on_both_factors() {
    let v = eval_ok("-2*-3");
    assert_eq!(v.numerator(), 6);
    assert_eq!(v.denominator(), 1);
}

#[test]
fn subtraction_is_left_associative() {
    let v = eval_ok("10-4-3");
    assert_eq!(v.numerator(), 3);
    assert_eq!(v.denominator(), 1);
}

#[test]
fn division_is_left_associative() {
    // (12 / 2) / 3, not 12 / (2 / 3)
    let v = eval_ok("12/2/3");
    assert_eq!(v.numerator(), 2);
    assert_eq!(v.denominator(), 1);
}

#[test]
fn division_result_is_exact() {
    let v = eval_ok("10/4");
    assert_eq!(v.numerator(), 5);
    assert_eq!(v.denominator(), 2);
    assert_eq!(v.render(), "2.5");
}

#[test]
fn non_terminating_quotient_renders_as_fraction() {
    let v = eval_ok("1/3");
    assert_eq!(v.numerator(), 1);
    assert_eq!(v.denominator(), 3);
    assert_eq!(v.render(), "1/3");
}

#[test]
fn decimal_literals_combine_exactly() {
    let v = eval_ok("0.1+0.2");
    assert_eq!(v.numerator(), 3);
    assert_eq!(v.denominator(), 10);
    assert_eq!(v.render(), "0.3");
}

#[test]
fn negative_decimal_renders_with_sign() {
    let v = eval_ok("-2.5");
    assert_eq!(v.numerator(), -5);
    assert_eq!(v.denominator(), 2);
    assert_eq!(v.render(), "-2.5");
}

#[test]
fn division_by_zero_is_an_error_not_a_number() {
    let r = eval("10/0");
    assert!(matches!(r, Err(ParseError::DivisionByZero)));
    assert_eq!(r.unwrap_err().message(), "division by zero");
}

#[test]
fn division_by_zero_valued_expression() {
    let r = eval("1/(2-2)");
    assert!(matches!(r, Err(ParseError::DivisionByZero)));
}

#[test]
fn missing_operand_is_unexpected_end() {
    let r = eval("2+");
    assert!(matches!(r, Err(ParseError::UnexpectedEnd)));
    assert_eq!(
        r.unwrap_err().message(),
        "unexpected end of input: operand expected"
    );
}

#[test]
fn unclosed_parenthesis_is_reported() {
    let r = eval("(1+2");
    assert!(matches!(r, Err(ParseError::UnclosedParen)));
    assert_eq!(
        r.unwrap_err().message(),
        "unmatched parenthesis: expected a closing parenthesis"
    );
}

#[test]
fn trailing_token_is_reported_not_truncated() {
    let r = eval("2 3");
    assert!(matches!(r, Err(ParseError::Trailing(Token::Number(_)))));
    assert_eq!(
        r.unwrap_err().message(),
        "trailing input after a complete expression: number"
    );
}

#[test]
fn leftover_close_parenthesis_is_reported() {
    let r = eval("1+2)");
    assert!(matches!(r, Err(ParseError::UnmatchedCloseParen)));
    assert_eq!(r.unwrap_err().message(), "unmatched closing parenthesis");
}

#[test]
fn operand_position_operator_is_unexpected_token() {
    let r = eval("*2");
    assert!(matches!(r, Err(ParseError::UnexpectedToken(Token::Star))));
    assert_eq!(r.unwrap_err().message(), "unexpected token: *");
}

#[test]
fn close_parenthesis_where_operand_expected() {
    let r = eval("()");
    assert!(matches!(r, Err(ParseError::UnexpectedToken(Token::RParen))));
    assert_eq!(r.unwrap_err().message(), "unexpected token: )");
}

#[test]
fn addition_overflow_is_reported() {
    let r = eval("9223372036854775807+1");
    assert!(matches!(r, Err(ParseError::Overflow)));
    assert_eq!(
        r.unwrap_err().message(),
        "arithmetic overflow: a result does not fit the numeric range"
    );
}

#[test]
fn retokenizing_gives_elementwise_equal_tokens() {
    let a = TokenStream::new(String::from("1.5+(2*3)/4")).expect("tokenizable");
    let b = TokenStream::new(String::from("1.5+(2*3)/4")).expect("tokenizable");
    assert_eq!(a.len(), b.len());
    for i in 0..a.len() {
        assert_eq!(a.token_at(i), b.token_at(i));
    }
}

#[test]
fn whitespace_insensitive_evaluation() {
    let a = eval_ok("2+3");
    let b = eval_ok(" 2 + 3 ");
    assert_eq!(a.numerator(), b.numerator());
    assert_eq!(a.denominator(), b.denominator());
    assert_eq!(a.numerator(), 5);
}

#[test]
fn whitespace_between_digits_still_separates_tokens() {
    let ts = TokenStream::new(String::from("1 2")).expect("tokenizable");
    assert_eq!(ts.len(), 2);
}

#[test]
fn empty_input_declines_to_build_a_stream() {
    assert!(TokenStream::new(String::new()).is_none());
}

#[test]
fn whitespace_only_input_declines_to_build_a_stream() {
    assert!(TokenStream::new(String::from("   \t ")).is_none());
}

#[test]
fn unrecognized_character_fails_tokenization() {
    assert!(TokenStream::new(String::from("2a")).is_none());
    assert!(TokenStream::new(String::from("2^3")).is_none());
}

#[test]
fn malformed_literals_fail_tokenization() {
    assert!(TokenStream::new(String::from("1.2.3")).is_none());
    assert!(TokenStream::new(String::from("1.")).is_none());
    assert!(TokenStream::new(String::from(".5")).is_none());
}

#[test]
fn oversized_literal_fails_tokenization() {
    assert!(TokenStream::new(String::from("9223372036854775808")).is_none());
    assert!(TokenStream::new(String::from("9223372036854775807")).is_some());
}

#[test]
fn literal_reduction_keeps_value_exact() {
    let v = eval_ok("2.50");
    assert_eq!(v.numerator(), 5);
    assert_eq!(v.denominator(), 2);
    assert_eq!(v.render(), "2.5");
}

#[test]
fn nested_parentheses_evaluate() {
    let v = eval_ok("((1+2)*(3+4))");
    assert_eq!(v.numerator(), 21);
    assert_eq!(v.denominator(), 1);
}

#[test]
fn zero_renders_plainly() {
    let v = eval_ok("0");
    assert_eq!(v.render(), "0");
}

#[test]
fn value_constructors_reduce() {
    let v = Value::new_ratio(10, 4).expect("fits");
    assert_eq!(v.numerator(), 5);
    assert_eq!(v.denominator(), 2);
    let w = Value::from_int(-7);
    assert_eq!(w.numerator(), -7);
    assert_eq!(w.denominator(), 1);
    assert_eq!(w.render(), "-7");
}
