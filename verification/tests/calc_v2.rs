use prec_climb::calc_v2::{CalcV2, Token};
use prec_climb::error::CalcError;

#[test]
fn calc_v2_test_calculate() {
    let tokens = vec![
        Token::Number(3),
        Token::Plus,
        Token::Number(4),
        Token::Multiply,
        Token::Number(2),
    ];

    assert_eq!(CalcV2::calculate(&tokens), Ok(11));
}

#[test]
fn calc_v2_test_calculate_simple() {
    let tokens = vec![Token::Number(1), Token::Plus, Token::Number(2)];

    assert_eq!(CalcV2::calculate(&tokens), Ok(3));
}

#[test]
fn calc_v2_test_calculate_multiply_first() {
    let tokens = vec![
        Token::Number(2),
        Token::Multiply,
        Token::Number(3),
        Token::Plus,
        Token::Number(4),
    ];

    assert_eq!(CalcV2::calculate(&tokens), Ok(10));
}

#[test]
fn calc_v2_power_is_right_associative() {
    let tokens = vec![
        Token::Number(2),
        Token::Power,
        Token::Number(3),
        Token::Power,
        Token::Number(2),
    ];
    assert_eq!(CalcV2::calculate(&tokens), Ok(512));
}

#[test]
fn calc_v2_parentheses_override_precedence() {
    let tokens = vec![
        Token::LeftParen,
        Token::Number(1),
        Token::Plus,
        Token::Number(2),
        Token::RightParen,
        Token::Multiply,
        Token::Number(3),
    ];
    assert_eq!(CalcV2::calculate(&tokens), Ok(9));
}

#[test]
fn calc_v2_mixed_tiers_with_parentheses_and_division() {
    let tokens = vec![
        Token::LeftParen,
        Token::Number(1),
        Token::Plus,
        Token::Number(2),
        Token::Multiply,
        Token::Number(2),
        Token::RightParen,
        Token::Power,
        Token::Number(5),
        Token::Divide,
        Token::Number(64),
    ];
    assert_eq!(CalcV2::calculate(&tokens), Ok(48));
}

#[test]
fn calc_v2_single_number() {
    let tokens = vec![Token::Number(7)];
    assert_eq!(CalcV2::calculate(&tokens), Ok(7));
}

#[test]
fn calc_v2_subtraction_folds_left_to_right() {
    let tokens = vec![
        Token::Number(5),
        Token::Minus,
        Token::Number(3),
        Token::Minus,
        Token::Number(1),
    ];
    assert_eq!(CalcV2::calculate(&tokens), Ok(1));
}

#[test]
fn calc_v2_division_truncates_toward_zero() {
    let tokens = vec![Token::Number(7), Token::Divide, Token::Number(2)];
    assert_eq!(CalcV2::calculate(&tokens), Ok(3));

    let negative = vec![Token::Number(-7), Token::Divide, Token::Number(2)];
    assert_eq!(CalcV2::calculate(&negative), Ok(-3));
}

#[test]
fn calc_v2_unmatched_left_paren_faults() {
    let tokens = vec![Token::LeftParen, Token::Number(1)];
    assert_eq!(
        CalcV2::calculate(&tokens),
        Err(CalcError::UnmatchedParenthesis)
    );
}

#[test]
fn calc_v2_leading_plus_is_malformed() {
    let tokens = vec![Token::Plus, Token::Number(1)];
    assert_eq!(CalcV2::calculate(&tokens), Err(CalcError::MalformedPrimary));
}

#[test]
fn calc_v2_empty_input_is_malformed() {
    let tokens: Vec<Token> = vec![];
    assert_eq!(CalcV2::calculate(&tokens), Err(CalcError::MalformedPrimary));
}

#[test]
fn calc_v2_division_by_zero_faults() {
    let tokens = vec![Token::Number(1), Token::Divide, Token::Number(0)];
    assert_eq!(CalcV2::calculate(&tokens), Err(CalcError::ArithmeticFault));
}

#[test]
fn calc_v2_negative_exponent_faults() {
    let tokens = vec![Token::Number(2), Token::Power, Token::Number(-1)];
    assert_eq!(CalcV2::calculate(&tokens), Err(CalcError::ArithmeticFault));
}

#[test]
fn calc_v2_division_overflow_faults() {
    let tokens = vec![Token::Number(i32::MIN), Token::Divide, Token::Number(-1)];
    assert_eq!(CalcV2::calculate(&tokens), Err(CalcError::ArithmeticFault));
}

#[test]
fn calc_v2_power_overflow_faults() {
    let tokens = vec![Token::Number(2), Token::Power, Token::Number(31)];
    assert_eq!(CalcV2::calculate(&tokens), Err(CalcError::ArithmeticFault));
}

#[test]
fn calc_v2_power_at_range_edges() {
    let tokens = vec![Token::Number(2), Token::Power, Token::Number(30)];
    assert_eq!(CalcV2::calculate(&tokens), Ok(1 << 30));

    let lowest = vec![Token::Number(-2), Token::Power, Token::Number(31)];
    assert_eq!(CalcV2::calculate(&lowest), Ok(i32::MIN));
}

#[test]
fn calc_v2_trailing_tokens_stop_the_climb() {
    let tokens = vec![Token::Number(1), Token::Number(2), Token::Number(3)];
    assert_eq!(CalcV2::calculate(&tokens), Ok(1));
}

#[test]
fn calc_v2_apply_op_rejects_non_operator() {
    assert_eq!(
        CalcV2::apply_op(&Token::LeftParen, 2, 3),
        Err(CalcError::InvalidOperator)
    );
    assert_eq!(CalcV2::apply_op(&Token::Minus, 2, 3), Ok(-1));
    assert_eq!(CalcV2::apply_op(&Token::Power, 2, 10), Ok(1024));
}

#[test]
fn calc_v2_longer_flat_sequence() {
    // 2 * 3 + 4 * 5 + 1 = 27
    let tokens = vec![
        Token::Number(2),
        Token::Multiply,
        Token::Number(3),
        Token::Plus,
        Token::Number(4),
        Token::Multiply,
        Token::Number(5),
        Token::Plus,
        Token::Number(1),
    ];
    assert_eq!(CalcV2::calculate(&tokens), Ok(27));
}

#[test]
fn calc_v2_nested_parentheses() {
    // ((2 + 3)) * (4 - 1) = 15
    let tokens = vec![
        Token::LeftParen,
        Token::LeftParen,
        Token::Number(2),
        Token::Plus,
        Token::Number(3),
        Token::RightParen,
        Token::RightParen,
        Token::Multiply,
        Token::LeftParen,
        Token::Number(4),
        Token::Minus,
        Token::Number(1),
        Token::RightParen,
    ];
    assert_eq!(CalcV2::calculate(&tokens), Ok(15));
}

#[test]
fn calc_v2_stray_right_paren_after_sub_expression() {
    // "(1))" — the second closer is never consumed; the first completes
    // the group, so the extra token merely stops the climb
    let tokens = vec![
        Token::LeftParen,
        Token::Number(1),
        Token::RightParen,
        Token::RightParen,
    ];
    assert_eq!(CalcV2::calculate(&tokens), Ok(1));
}

#[test]
fn calc_v2_repeated_evaluation_is_stable() {
    let tokens = vec![
        Token::LeftParen,
        Token::Number(1),
        Token::Plus,
        Token::Number(2),
        Token::RightParen,
        Token::Multiply,
        Token::Number(3),
    ];
    let before = tokens.clone();
    let first = CalcV2::calculate(&tokens);
    let second = CalcV2::calculate(&tokens);
    assert_eq!(first, second);
    assert_eq!(first, Ok(9));
    assert_eq!(tokens, before);
}
