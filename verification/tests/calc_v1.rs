use prec_climb::calc_v1::{CalcV1, Token};
use prec_climb::error::CalcError;

#[test]
fn calc_v1_test_calculate() {
    let tokens = vec![
        Token::Number(3),
        Token::Plus,
        Token::Number(4),
        Token::Multiply,
        Token::Number(2),
    ];

    assert_eq!(CalcV1::calculate(&tokens), Ok(11));
}

#[test]
fn calc_v1_test_calculate_simple() {
    let tokens = vec![Token::Number(1), Token::Plus, Token::Number(2)];

    assert_eq!(CalcV1::calculate(&tokens), Ok(3));
}

#[test]
fn calc_v1_test_calculate_multiply_first() {
    let tokens = vec![
        Token::Number(2),
        Token::Multiply,
        Token::Number(3),
        Token::Plus,
        Token::Number(4),
    ];

    assert_eq!(CalcV1::calculate(&tokens), Ok(10));
}

#[test]
fn calc_v1_single_number() {
    let tokens = vec![Token::Number(42)];
    assert_eq!(CalcV1::calculate(&tokens), Ok(42));
}

#[test]
fn calc_v1_empty_input_is_malformed() {
    let tokens: Vec<Token> = vec![];
    assert_eq!(CalcV1::calculate(&tokens), Err(CalcError::MalformedPrimary));
}

#[test]
fn calc_v1_leading_operator_is_malformed() {
    let tokens = vec![Token::Plus, Token::Number(1)];
    assert_eq!(CalcV1::calculate(&tokens), Err(CalcError::MalformedPrimary));
}

#[test]
fn calc_v1_trailing_tokens_stop_the_climb() {
    let tokens = vec![Token::Number(1), Token::Number(2), Token::Number(3)];
    assert_eq!(CalcV1::calculate(&tokens), Ok(1));
}

#[test]
fn calc_v1_apply_op_rejects_non_operator() {
    assert_eq!(
        CalcV1::apply_op(&Token::Number(1), 2, 3),
        Err(CalcError::InvalidOperator)
    );
    assert_eq!(CalcV1::apply_op(&Token::Plus, 2, 3), Ok(5));
    assert_eq!(CalcV1::apply_op(&Token::Multiply, 2, 3), Ok(6));
}

#[test]
fn calc_v1_addition_overflow_faults() {
    let tokens = vec![Token::Number(i32::MAX), Token::Plus, Token::Number(1)];
    assert_eq!(CalcV1::calculate(&tokens), Err(CalcError::ArithmeticFault));
}

#[test]
fn calc_v1_multiplication_overflow_faults() {
    let tokens = vec![Token::Number(65536), Token::Multiply, Token::Number(65536)];
    assert_eq!(CalcV1::calculate(&tokens), Err(CalcError::ArithmeticFault));
}

#[test]
fn calc_v1_longer_flat_sequence() {
    // 2 * 3 + 4 * 5 + 1 = 27
    let tokens = vec![
        Token::Number(2),
        Token::Multiply,
        Token::Number(3),
        Token::Plus,
        Token::Number(4),
        Token::Multiply,
        Token::Number(5),
        Token::Plus,
        Token::Number(1),
    ];
    assert_eq!(CalcV1::calculate(&tokens), Ok(27));
}

#[test]
fn calc_v1_repeated_evaluation_is_stable() {
    let tokens = vec![
        Token::Number(3),
        Token::Plus,
        Token::Number(4),
        Token::Multiply,
        Token::Number(2),
    ];
    let before = tokens.clone();
    let first = CalcV1::calculate(&tokens);
    let second = CalcV1::calculate(&tokens);
    assert_eq!(first, second);
    assert_eq!(first, Ok(11));
    assert_eq!(tokens, before);
}
