use bspl::constants::{help_lines, license_lines, version_text};
use bspl::error::EvaluatorError;
use bspl::evaluator::Evaluator;
use bspl::lexer::{Symbol, Token, Tokens};

#[test]
fn evaluator_blank() {
    let evaluator = Evaluator::default();
    let tokens: Tokens = vec![];
    let result: Vec<String> = vec![];
    assert_eq!(evaluator.evaluate(tokens).unwrap(), result);
}

#[test]
fn decimal() {
    let evaluator = Evaluator::default();
    let tokens: Tokens = vec![(0, Token::Decimal("12".to_string()))];
    let result: Vec<String> = vec!["12".to_string()];
    assert_eq!(evaluator.evaluate(tokens).unwrap(), result);
}

#[test]
fn hexadecimal() {
    let evaluator = Evaluator::default();
    let tokens: Tokens = vec![(0, Token::Hexadecimal("0xc".to_string()))];
    let result: Vec<String> = vec!["12".to_string()];
    assert_eq!(evaluator.evaluate(tokens).unwrap(), result);
}

#[test]
fn keyword_exit() {
    let evaluator = Evaluator::default();
    let tokens: Tokens = vec![(0, Token::Keyword("exit".to_string()))];
    assert_eq!(evaluator.evaluate(tokens), Err(EvaluatorError::Exit));
}

#[test]
fn keyword_license() {
    let evaluator = Evaluator::default();
    let tokens: Tokens = vec![(0, Token::Keyword("license".to_string()))];
    let result: Vec<String> = license_lines();
    assert_eq!(evaluator.evaluate(tokens).unwrap(), result);
}

#[test]
fn keyword_help() {
    let evaluator = Evaluator::default();
    let tokens: Tokens = vec![(0, Token::Keyword("help".to_string()))];
    let result: Vec<String> = help_lines();
    assert_eq!(evaluator.evaluate(tokens).unwrap(), result);
}

#[test]
fn keyword_version() {
    let evaluator = Evaluator::default();
    let tokens: Tokens = vec![(0, Token::Keyword("version".to_string()))];
    let result: Vec<String> = vec![version_text()];
    assert_eq!(evaluator.evaluate(tokens).unwrap(), result);
}

#[test]
fn keyword_unknown() {
    let evaluator = Evaluator::default();
    let tokens: Tokens = vec![(0, Token::Keyword("rust".to_string()))];
    assert_eq!(
        evaluator.evaluate(tokens),
        Err(EvaluatorError::UnknownKeyword(0))
    );
}

#[test]
fn expression_hexadecimal() {
    let evaluator = Evaluator::default();
    let tokens: Tokens = vec![
        (0, Token::Hexadecimal("0x1".to_string())),
        (4, Token::Hexadecimal("0xc".to_string())),
        (2, Token::Operator(Symbol::LSHIFT)),
    ];
    let result: Vec<String> = vec!["1 << 12".to_string(), "4096".to_string()];
    assert_eq!(evaluator.evaluate(tokens).unwrap(), result);
}

#[test]
fn expression_decimal_lshift() {
    let evaluator = Evaluator::default();
    let tokens: Tokens = vec![
        (0, Token::Decimal("1".to_string())),
        (4, Token::Decimal("12".to_string())),
        (2, Token::Operator(Symbol::LSHIFT)),
    ];
    let result: Vec<String> = vec!["1 << 12".to_string(), "4096".to_string()];
    assert_eq!(evaluator.evaluate(tokens).unwrap(), result);
}

#[test]
fn expression_decimal_lshift_overflow() {
    let evaluator = Evaluator::default();
    let tokens: Tokens = vec![
        (0, Token::Decimal("4294967295".to_string())),
        (14, Token::Decimal("32".to_string())),
        (11, Token::Operator(Symbol::LSHIFT)),
    ];
    assert_eq!(
        evaluator.evaluate(tokens),
        Err(EvaluatorError::OverflowShift(11))
    );
}

#[test]
fn expression_decimal_rshift() {
    let evaluator = Evaluator::default();
    let tokens: Tokens = vec![
        (0, Token::Decimal("12".to_string())),
        (4, Token::Decimal("1".to_string())),
        (2, Token::Operator(Symbol::RSHIFT)),
    ];
    let result: Vec<String> = vec!["12 >> 1".to_string(), "6".to_string()];
    assert_eq!(evaluator.evaluate(tokens).unwrap(), result);
}

#[test]
fn expression_decimal_rshift_overflow() {
    let evaluator = Evaluator::default();
    let tokens: Tokens = vec![
        (0, Token::Decimal("1".to_string())),
        (4, Token::Decimal("32".to_string())),
        (2, Token::Operator(Symbol::RSHIFT)),
    ];
    assert_eq!(
        evaluator.evaluate(tokens),
        Err(EvaluatorError::OverflowShift(2))
    );
}

#[test]
fn expression_decimal_xor() {
    let evaluator = Evaluator::default();
    let tokens: Tokens = vec![
        (0, Token::Decimal("1".to_string())),
        (4, Token::Decimal("12".to_string())),
        (2, Token::Operator(Symbol::XOR)),
    ];
    let result: Vec<String> = vec!["1 ^ 12".to_string(), "13".to_string()];
    assert_eq!(evaluator.evaluate(tokens).unwrap(), result);
}

#[test]
fn expression_decimal_and() {
    let evaluator = Evaluator::default();
    let tokens: Tokens = vec![
        (0, Token::Decimal("1".to_string())),
        (4, Token::Decimal("12".to_string())),
        (2, Token::Operator(Symbol::AND)),
    ];
    let result: Vec<String> = vec!["1 & 12".to_string(), "0".to_string()];
    assert_eq!(evaluator.evaluate(tokens).unwrap(), result);
}

#[test]
fn expression_decimal_or() {
    let evaluator = Evaluator::default();
    let tokens: Tokens = vec![
        (0, Token::Decimal("32".to_string())),
        (5, Token::Decimal("10".to_string())),
        (3, Token::Operator(Symbol::OR)),
    ];
    let result: Vec<String> = vec!["32 | 10".to_string(), "42".to_string()];
    assert_eq!(evaluator.evaluate(tokens).unwrap(), result);
}

#[test]
fn expression_decimal_not() {
    let evaluator = Evaluator::default();
    let tokens: Tokens = vec![
        (1, Token::Decimal("12".to_string())),
        (0, Token::Operator(Symbol::NOT)),
    ];
    let result: Vec<String> = vec!["~12".to_string(), "4294967283".to_string()];
    assert_eq!(evaluator.evaluate(tokens).unwrap(), result);
}

#[test]
fn expression_missing_argument() {
    let evaluator = Evaluator::default();
    let tokens: Tokens = vec![
        (0, Token::Decimal("1".to_string())),
        (2, Token::Operator(Symbol::AND)),
    ];
    assert_eq!(
        evaluator.evaluate(tokens),
        Err(EvaluatorError::MissingArgument(2))
    );
}

#[test]
fn expression_missing_arguments() {
    let evaluator = Evaluator::default();
    let tokens: Tokens = vec![(0, Token::Operator(Symbol::AND))];
    assert_eq!(
        evaluator.evaluate(tokens),
        Err(EvaluatorError::MissingArgument(0))
    );
}

#[test]
fn evaluator_expression_too_many_arguments() {
    let evaluator = Evaluator::default();
    let tokens: Tokens = vec![
        (0, Token::Decimal("1".to_string())),
        (6, Token::Decimal("12".to_string())),
        (11, Token::Hexadecimal("0xf".to_string())),
        (8, Token::Operator(Symbol::LSHIFT)),
    ];
    assert_eq!(
        evaluator.evaluate(tokens),
        Err(EvaluatorError::TooManyArguments)
    );
}
