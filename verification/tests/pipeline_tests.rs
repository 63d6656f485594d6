use cli_math_add_sub::evaluate::process_token_list;
use cli_math_add_sub::tokenizer::tokenize_expression;

fn run(expression: &str) -> Option<i64> {
    process_token_list(&tokenize_expression(expression)?)
}

#[test]
fn test_pipeline_empty_input_gives_zero() {
    assert_eq!(run(""), Some(0));
}

#[test]
fn test_pipeline_no_token_chars_gives_zero() {
    assert_eq!(run("hello, world!"), Some(0));
}

#[test]
fn test_pipeline_simple_addition() {
    assert_eq!(run("1+2"), Some(3));
}

#[test]
fn test_pipeline_subtraction_chain() {
    assert_eq!(run("5-2-1"), Some(2));
}

#[test]
fn test_pipeline_missing_operand_fails() {
    assert_eq!(run("1+"), None);
}

#[test]
fn test_pipeline_single_value_fails() {
    assert_eq!(run("5"), None);
}

#[test]
fn test_pipeline_unrecognized_chars_ignored() {
    assert_eq!(run("1a+2b"), Some(3));
}

#[test]
fn test_pipeline_digit_overflow_fails() {
    assert_eq!(run("4294967296+1"), None);
}
