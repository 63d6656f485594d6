use cli_math_add_sub::evaluate::{process_operation, process_token_list};
use cli_math_add_sub::tokenizer::{OperationType, Token};

#[test]
fn test_valid_add_tokens() {
    assert_eq!(
        process_token_list(&[
            Token::Value(1),
            Token::Value(1),
            Token::Operator(OperationType::Addition)
        ]),
        Some(2)
    )
}

#[test]
fn test_valid_sub_tokens() {
    assert_eq!(
        process_token_list(&[
            Token::Value(1),
            Token::Value(1),
            Token::Operator(OperationType::Subtraction)
        ]),
        Some(0)
    )
}

#[test]
fn test_valid_add_sub_tokens() {
    assert_eq!(
        process_token_list(&[
            Token::Value(1),
            Token::Value(1),
            Token::Value(2),
            Token::Operator(OperationType::Addition),
            Token::Operator(OperationType::Subtraction)
        ]),
        Some(0)
    )
}

#[test]
fn test_valid_sub_add_tokens() {
    assert_eq!(
        process_token_list(&[
            Token::Value(1),
            Token::Value(1),
            Token::Value(2),
            Token::Operator(OperationType::Subtraction),
            Token::Operator(OperationType::Addition)
        ]),
        Some(2)
    )
}

#[test]
fn test_invalid_add_tokens() {
    assert_eq!(
        process_token_list(&[Token::Value(1), Token::Operator(OperationType::Addition)]),
        None
    )
}

#[test]
fn test_invalid_sub_tokens() {
    assert_eq!(
        process_token_list(&[
            Token::Value(1),
            Token::Operator(OperationType::Subtraction)
        ]),
        None
    )
}

#[test]
fn test_valid_add_operator() {
    assert_eq!(process_operation(&OperationType::Addition, 0, 1), Some(1))
}

#[test]
fn test_valid_sub_operator() {
    assert_eq!(
        process_operation(&OperationType::Subtraction, 1, 1),
        Some(0)
    )
}

#[test]
fn test_invalid_add_operator() {
    assert_eq!(
        process_operation(&OperationType::Addition, i64::MAX, 1),
        None
    )
}

#[test]
fn test_invalid_sub_operator() {
    assert_eq!(
        process_operation(&OperationType::Subtraction, i64::MIN, i64::MAX),
        None
    )
}

#[test]
fn test_empty_token_list() {
    assert_eq!(process_token_list(&[]), Some(0))
}

#[test]
fn test_single_value_token_list() {
    assert_eq!(process_token_list(&[Token::Value(5)]), None)
}

#[test]
fn test_values_without_operator() {
    assert_eq!(process_token_list(&[Token::Value(1), Token::Value(2)]), None)
}

#[test]
fn test_operator_first_token_list() {
    assert_eq!(
        process_token_list(&[
            Token::Operator(OperationType::Addition),
            Token::Value(1),
            Token::Value(2)
        ]),
        None
    )
}

#[test]
fn test_trailing_values_ignored() {
    assert_eq!(
        process_token_list(&[
            Token::Value(1),
            Token::Value(2),
            Token::Value(7),
            Token::Operator(OperationType::Addition)
        ]),
        Some(3)
    )
}

#[test]
fn test_overflowing_add_fails_evaluation() {
    assert_eq!(
        process_token_list(&[
            Token::Value(i64::MAX),
            Token::Value(i64::MAX),
            Token::Operator(OperationType::Addition)
        ]),
        None
    )
}

#[test]
fn test_overflowing_sub_fails_evaluation() {
    assert_eq!(
        process_token_list(&[
            Token::Value(i64::MIN),
            Token::Value(i64::MAX),
            Token::Operator(OperationType::Subtraction)
        ]),
        None
    )
}
