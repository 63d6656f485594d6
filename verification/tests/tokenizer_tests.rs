use cli_math_add_sub::tokenizer::{sort_token_list, tokenize_expression, OperationType, Token};

#[test]
fn test_valid_token_composition_1() {
    assert_eq!(
        tokenize_expression("1+2"),
        Some(vec![
            Token::Value(1),
            Token::Value(2),
            Token::Operator(OperationType::Addition),
        ])
    );
}

#[test]
fn test_valid_token_composition_2() {
    assert_eq!(
        tokenize_expression("100+200000"),
        Some(vec![
            Token::Value(100),
            Token::Value(200000),
            Token::Operator(OperationType::Addition),
        ])
    );
}

#[test]
fn test_valid_token_composition_3() {
    assert_eq!(
        tokenize_expression("123456789+0"),
        Some(vec![
            Token::Value(123456789),
            Token::Value(0),
            Token::Operator(OperationType::Addition),
        ])
    );
}

#[test]
fn test_invalid_token_composition_1() {
    assert_eq!(
        tokenize_expression("-100+200000"),
        Some(vec![
            Token::Value(100),
            Token::Value(200000),
            Token::Operator(OperationType::Subtraction),
            Token::Operator(OperationType::Addition),
        ])
    );
}

#[test]
fn test_invalid_token_composition_2() {
    assert_eq!(
        tokenize_expression("-1+0+-"),
        Some(vec![
            Token::Value(1),
            Token::Value(0),
            Token::Operator(OperationType::Subtraction),
            Token::Operator(OperationType::Addition),
            Token::Operator(OperationType::Addition),
            Token::Operator(OperationType::Subtraction),
        ])
    );
}

#[test]
fn test_empty_expression() {
    assert_eq!(tokenize_expression(""), Some(vec![]));
}

#[test]
fn test_whitespace_is_skipped() {
    assert_eq!(tokenize_expression("1 + 2"), tokenize_expression("1+2"));
}

#[test]
fn test_unrecognized_chars_ignored() {
    assert_eq!(tokenize_expression("1a+2b"), tokenize_expression("1+2"));
}

#[test]
fn test_largest_value_fits() {
    assert_eq!(
        tokenize_expression("4294967295+0"),
        Some(vec![
            Token::Value(4294967295),
            Token::Value(0),
            Token::Operator(OperationType::Addition),
        ])
    );
}

#[test]
fn test_digit_run_overflow_fails() {
    assert_eq!(tokenize_expression("4294967296"), None);
}

#[test]
fn test_digit_run_overflow_fails_anywhere() {
    assert_eq!(tokenize_expression("1+99999999999999999999"), None);
}

#[test]
fn test_retokenizing_canonical_text_is_idempotent() {
    let first = tokenize_expression("1+2").unwrap();
    assert_eq!(
        first,
        vec![
            Token::Value(1),
            Token::Value(2),
            Token::Operator(OperationType::Addition),
        ]
    );
    let second = tokenize_expression("1 2 +");
    assert_eq!(second, Some(first));
}

#[test]
fn test_sort_token_list_stable_partition() {
    assert_eq!(
        sort_token_list(vec![
            Token::Operator(OperationType::Addition),
            Token::Value(1),
            Token::Operator(OperationType::Subtraction),
            Token::Value(2),
        ]),
        vec![
            Token::Value(1),
            Token::Value(2),
            Token::Operator(OperationType::Addition),
            Token::Operator(OperationType::Subtraction),
        ]
    );
}

#[test]
fn test_get_opt_value_on_value() {
    assert_eq!(Token::Value(7).get_opt_value(), Some(7));
}

#[test]
fn test_get_opt_value_on_operator() {
    assert_eq!(
        Token::Operator(OperationType::Addition).get_opt_value(),
        None
    );
}
