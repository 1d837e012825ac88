use calculator::eval_expression;
use calculator::EvalError;
use calculator::Fraction;
use calculator::Token;
use calculator::Tokenizer;

#[test]
fn tokenizer() {
    let mut t = Tokenizer::new(" -2+ 3  / ( 3+2) * 89   ").unwrap();
    assert_eq!(t.head(), Some(Token::Minus));
    assert_eq!(t.next(), Some(Token::Minus));
    assert_eq!(t.next(), Some(Token::Int(2)));
    assert_eq!(t.next(), Some(Token::Plus));
    assert_eq!(t.next(), Some(Token::Int(3)));
    assert_eq!(t.next(), Some(Token::Slash));
    assert_eq!(t.next(), Some(Token::LParen));
    assert_eq!(t.next(), Some(Token::Int(3)));
    assert_eq!(t.next(), Some(Token::Plus));
    assert_eq!(t.next(), Some(Token::Int(2)));
    assert_eq!(t.next(), Some(Token::RParen));
    assert_eq!(t.next(), Some(Token::Star));
    assert_eq!(t.next(), Some(Token::Int(89)));
    assert_eq!(t.next(), None);
}

#[test]
fn simple_expressions() {
    assert_eq!(eval_expression("2 + 2").unwrap(), Fraction::from_int(4));
    assert_eq!(eval_expression("2 + 6 + 3 + 9").unwrap(), Fraction::from_int(20));
    assert_eq!(eval_expression("2 * 3 + 5").unwrap(), Fraction::from_int(11));
    assert_eq!(eval_expression("5 - 8").unwrap(), Fraction::from_int(-3));
    assert_eq!(
        eval_expression("3 * 7 + 4 * ( 4 - 2 )").unwrap(),
        Fraction::from_int(29)
    );
    assert_eq!(
        eval_expression("9 / 3 * 9 - 8 * 2 / ( 15 / 3 * 8 )").unwrap(),
        Fraction::new(266, 10)
    );
}

#[test]
fn peeking_is_idempotent() {
    let mut t = Tokenizer::new("1 + 2").unwrap();
    assert_eq!(t.head(), Some(Token::Int(1)));
    assert_eq!(t.head(), Some(Token::Int(1)));
    assert_eq!(t.next(), Some(Token::Int(1)));
    assert_eq!(t.head(), Some(Token::Plus));
}

#[test]
fn tokenizer_needs_no_spaces() {
    assert_eq!(eval_expression("2+2"), eval_expression("2 + 2"));
    assert_eq!(eval_expression("2+2").unwrap(), Fraction::from_int(4));
    assert_eq!(
        eval_expression("3*7+4*(4-2)").unwrap(),
        Fraction::from_int(29)
    );
}

#[test]
fn unary_minus() {
    assert_eq!(eval_expression("-5").unwrap(), Fraction::from_int(-5));
    assert_eq!(eval_expression("- 2 + 3").unwrap(), Fraction::from_int(1));
    assert_eq!(eval_expression("-2 * 3").unwrap(), Fraction::from_int(-6));
}

#[test]
fn exact_fractional_results() {
    let r = eval_expression("1 / 3").unwrap();
    assert_eq!(r.numer(), 1);
    assert_eq!(r.denom(), 3);
    assert_eq!(eval_expression("1 / 2 + 1 / 3").unwrap(), Fraction::new(5, 6));
}

#[test]
fn left_associativity() {
    assert_eq!(eval_expression("8 - 3 - 2").unwrap(), Fraction::from_int(3));
    assert_eq!(eval_expression("12 / 2 / 3").unwrap(), Fraction::from_int(2));
}

#[test]
fn missing_close_paren_is_malformed() {
    assert_eq!(
        eval_expression("( 2 + 3").unwrap_err(),
        EvalError::MalformedExpression
    );
}

#[test]
fn empty_input_is_ill_formed() {
    assert_eq!(eval_expression("").unwrap_err(), EvalError::IllFormedExpression);
    assert_eq!(eval_expression("   ").unwrap_err(), EvalError::IllFormedExpression);
    assert_eq!(eval_expression("2 +").unwrap_err(), EvalError::IllFormedExpression);
}

#[test]
fn unknown_character_is_malformed() {
    assert_eq!(eval_expression("2 + x").unwrap_err(), EvalError::MalformedExpression);
    assert_eq!(eval_expression("2 % 3").unwrap_err(), EvalError::MalformedExpression);
}

#[test]
fn trailing_tokens_are_malformed() {
    assert_eq!(eval_expression("2 + 3 )").unwrap_err(), EvalError::MalformedExpression);
    assert_eq!(eval_expression("2 3").unwrap_err(), EvalError::MalformedExpression);
}

#[test]
fn evaluated_divide_by_zero() {
    assert_eq!(eval_expression("1 / 0").unwrap_err(), EvalError::DivisionByZero);
    assert_eq!(
        eval_expression("5 / ( 2 - 2 )").unwrap_err(),
        EvalError::DivisionByZero
    );
}

#[test]
fn oversized_literals() {
    // Larger than any u64: not even a token.
    assert_eq!(
        eval_expression("18446744073709551616").unwrap_err(),
        EvalError::MalformedExpression
    );
    // A token, but larger than any numerator.
    assert_eq!(
        eval_expression("9223372036854775808").unwrap_err(),
        EvalError::ArithmeticOverflow
    );
    assert_eq!(
        eval_expression("9223372036854775807").unwrap(),
        Fraction::from_int(i64::MAX)
    );
}

#[test]
fn evaluated_overflow() {
    assert_eq!(
        eval_expression("9223372036854775807 + 1").unwrap_err(),
        EvalError::ArithmeticOverflow
    );
}

#[test]
fn nested_parentheses() {
    assert_eq!(
        eval_expression("( ( 2 + 3 ) * ( 4 - 1 ) )").unwrap(),
        Fraction::from_int(15)
    );
}
