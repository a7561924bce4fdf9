//! Whole-pipeline scenarios: a line of text through the tokenizer, the
//! parser and the evaluator, plus the number renderers the result display
//! relies on.

use bspl::error::EvaluatorError;
use bspl::evaluator::{is_keyword, tokens_evaluatable, Evaluator};
use bspl::lexer::{lexer, Symbol, Token, Tokens};
use bspl::numeral::{parse_dec_u32, parse_hex_u32, u32_to_bin, u32_to_dec, u32_to_hex};
use bspl::parser::Parser;

fn run(line: &str) -> Result<Vec<String>, EvaluatorError> {
    let tokens = lexer(line).unwrap();
    let postfix = Parser::default().parse(tokens).unwrap();
    assert!(tokens_evaluatable(&postfix));
    Evaluator::default().evaluate(postfix)
}

#[test]
fn scenario_lshift_trace() {
    let result = run("1 << 12").unwrap();
    assert_eq!(result, vec!["1 << 12".to_string(), "4096".to_string()]);
    assert_eq!(result.last().unwrap().parse::<u32>().unwrap(), 4096);
}

#[test]
fn scenario_not_trace() {
    let result = run("~12").unwrap();
    assert_eq!(result, vec!["~12".to_string(), "4294967283".to_string()]);
}

#[test]
fn scenario_bracketed_or() {
    let tokens = lexer("12 | (1 << 12)").unwrap();
    let postfix = Parser::default().parse(tokens).unwrap();
    let expected: Tokens = vec![
        (0, Token::Decimal("12".to_string())),
        (6, Token::Decimal("1".to_string())),
        (11, Token::Decimal("12".to_string())),
        (8, Token::Operator(Symbol::LSHIFT)),
        (3, Token::Operator(Symbol::OR)),
    ];
    assert_eq!(postfix, expected);
    let result = Evaluator::default().evaluate(postfix).unwrap();
    assert_eq!(
        result,
        vec![
            "1 << 12".to_string(),
            "4096".to_string(),
            "12 | 4096".to_string(),
            "4108".to_string(),
        ]
    );
}

#[test]
fn scenario_shift_overflow_offset() {
    assert_eq!(
        run("4294967295 << 32"),
        Err(EvaluatorError::OverflowShift(11))
    );
}

#[test]
fn scenario_exit() {
    assert_eq!(run("exit"), Err(EvaluatorError::Exit));
}

#[test]
fn scenario_operator_before_operand() {
    assert_eq!(run("& 1"), Err(EvaluatorError::MissingArgument(0)));
}

#[test]
fn shift_by_31_succeeds() {
    let result = run("1 << 31").unwrap();
    assert_eq!(result, vec!["1 << 31".to_string(), "2147483648".to_string()]);
    let result = run("4294967295 >> 31").unwrap();
    assert_eq!(
        result,
        vec!["4294967295 >> 31".to_string(), "1".to_string()]
    );
}

#[test]
fn shift_by_32_fails() {
    assert_eq!(run("1 << 32"), Err(EvaluatorError::OverflowShift(2)));
    assert_eq!(run("1 >> 32"), Err(EvaluatorError::OverflowShift(2)));
}

#[test]
fn parse_preserves_operators_eliminates_brackets() {
    let tokens = lexer("(1 | (2 & 3))").unwrap();
    let postfix = Parser::default().parse(tokens).unwrap();
    let expected: Tokens = vec![
        (1, Token::Decimal("1".to_string())),
        (6, Token::Decimal("2".to_string())),
        (10, Token::Decimal("3".to_string())),
        (8, Token::Operator(Symbol::AND)),
        (3, Token::Operator(Symbol::OR)),
    ];
    assert_eq!(postfix, expected);
}

#[test]
fn evaluation_is_deterministic() {
    let first = run("12 | (1 << 12)");
    let second = run("12 | (1 << 12)");
    assert_eq!(first, second);
}

#[test]
fn equal_precedence_reduces_left_to_right() {
    let result = run("1 << 2 >> 3").unwrap();
    assert_eq!(
        result,
        vec![
            "1 << 2".to_string(),
            "4".to_string(),
            "4 >> 3".to_string(),
            "0".to_string(),
        ]
    );
}

#[test]
fn double_complement_nests() {
    let result = run("~~12").unwrap();
    assert_eq!(
        result,
        vec![
            "~12".to_string(),
            "4294967283".to_string(),
            "~4294967283".to_string(),
            "12".to_string(),
        ]
    );
}

#[test]
fn keywords_are_case_insensitive() {
    assert_eq!(is_keyword(&"HELP".to_string()), Some("help"));
    assert_eq!(is_keyword(&"Exit".to_string()), Some("exit"));
    assert_eq!(is_keyword(&"version".to_string()), Some("version"));
    assert_eq!(is_keyword(&"License".to_string()), Some("license"));
    assert_eq!(is_keyword(&"bspl".to_string()), None);
    assert_eq!(run("EXIT"), Err(EvaluatorError::Exit));
}

#[test]
fn brackets_are_not_evaluatable() {
    let with_bracket: Tokens = vec![(0, Token::OpenBracket)];
    assert!(!tokens_evaluatable(&with_bracket));
    let bad_text: Tokens = vec![(0, Token::Decimal("12ab".to_string()))];
    assert!(!tokens_evaluatable(&bad_text));
}

#[test]
fn renderings_of_final_values() {
    assert_eq!(u32_to_dec(0), "0");
    assert_eq!(u32_to_dec(4294967295), "4294967295");
    assert_eq!(u32_to_hex(4108), "0x100c");
    assert_eq!(u32_to_hex(0), "0x0");
    assert_eq!(u32_to_bin(5), "0b101");
    assert_eq!(u32_to_bin(0), "0b0");
}

#[test]
fn checked_literal_parsing() {
    assert_eq!(parse_dec_u32("4294967295"), Some(4294967295));
    assert_eq!(parse_dec_u32("4294967296"), None);
    assert_eq!(parse_dec_u32(""), None);
    assert_eq!(parse_dec_u32("12ab"), None);
    assert_eq!(parse_hex_u32("ffffffff"), Some(4294967295));
    assert_eq!(parse_hex_u32("100000000"), None);
    assert_eq!(parse_hex_u32("2A"), Some(42));
    assert_eq!(parse_hex_u32(""), None);
}

#[test]
fn lone_literal_traces_itself() {
    assert_eq!(run("0x2a").unwrap(), vec!["42".to_string()]);
    assert_eq!(run("").unwrap(), Vec::<String>::new());
}
