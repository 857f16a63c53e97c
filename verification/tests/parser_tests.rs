use simple_parser::instruction::Instruction;
use simple_parser::parser::{parse, ParserError};

#[test]
fn parse_print_literal() {
    let result = parse(&String::from("stampa ciao"));
    assert_eq!(result, Ok(vec![Instruction::Print(String::from("ciao"))]));
}

#[test]
fn parse_create_variable() {
    let result = parse(&String::from("crea_variabile x 5"));
    assert_eq!(
        result,
        Ok(vec![Instruction::CreateVariable(
            String::from("x"),
            String::from("5")
        )])
    );
}

#[test]
fn parse_create_then_print_variable() {
    let result = parse(&String::from("crea_variabile x 5 stampa_variabile x"));
    assert_eq!(
        result,
        Ok(vec![
            Instruction::CreateVariable(String::from("x"), String::from("5")),
            Instruction::PrintVariable(String::from("x")),
        ])
    );
}

#[test]
fn parse_missing_value_token() {
    let result = parse(&String::from("crea_variabile x"));
    assert_eq!(result, Err(ParserError::MissingParameter));
}

#[test]
fn parse_missing_print_parameter() {
    let result = parse(&String::from("stampa"));
    assert_eq!(result, Err(ParserError::MissingParameter));
}

#[test]
fn parse_missing_print_variable_parameter() {
    let result = parse(&String::from("stampa_variabile"));
    assert_eq!(result, Err(ParserError::MissingParameter));
}

#[test]
fn parse_missing_both_create_parameters() {
    let result = parse(&String::from("crea_variabile"));
    assert_eq!(result, Err(ParserError::MissingParameter));
}

#[test]
fn parse_unknown_keyword() {
    let result = parse(&String::from("saluta mondo"));
    assert_eq!(
        result,
        Err(ParserError::InvalidInstruction(String::from("saluta")))
    );
}

#[test]
fn parse_failure_discards_partial_results() {
    let result = parse(&String::from("stampa ciao saluta"));
    assert_eq!(
        result,
        Err(ParserError::InvalidInstruction(String::from("saluta")))
    );
}

#[test]
fn parse_empty_source() {
    let result = parse(&String::new());
    assert_eq!(result, Ok(vec![]));
}

#[test]
fn parse_whitespace_only_source() {
    let result = parse(&String::from(" \t\r\n "));
    assert_eq!(result, Ok(vec![]));
}

#[test]
fn parse_tolerates_extra_whitespace() {
    let result = parse(&String::from("  stampa \t ciao\n"));
    assert_eq!(result, Ok(vec![Instruction::Print(String::from("ciao"))]));
}

#[test]
fn parse_keyword_as_operand() {
    let result = parse(&String::from("stampa stampa"));
    assert_eq!(result, Ok(vec![Instruction::Print(String::from("stampa"))]));
}

#[test]
fn parse_returns_one_instruction_per_keyword_in_source_order() {
    let result = parse(&String::from(
        "stampa a crea_variabile x 1 stampa_variabile x",
    ));
    assert_eq!(
        result,
        Ok(vec![
            Instruction::Print(String::from("a")),
            Instruction::CreateVariable(String::from("x"), String::from("1")),
            Instruction::PrintVariable(String::from("x")),
        ])
    );
}

#[test]
fn parse_splits_on_unicode_whitespace() {
    let result = parse(&String::from("stampa\u{a0}ciao"));
    assert_eq!(result, Ok(vec![Instruction::Print(String::from("ciao"))]));
}

#[test]
fn parse_unicode_whitespace_only_source() {
    let result = parse(&String::from("\u{a0}\u{2028}\u{3000}"));
    assert_eq!(result, Ok(vec![]));
}

#[test]
fn parse_ignores_kind_and_amount_of_whitespace() {
    let first = parse(&String::from("stampa ciao"));
    let second = parse(&String::from("\u{a0}stampa\u{2009}\u{1680}ciao\u{85}"));
    assert_eq!(first, second);
    assert_eq!(first, Ok(vec![Instruction::Print(String::from("ciao"))]));
}

#[test]
fn parse_is_idempotent() {
    let source = String::from("crea_variabile x 5 stampa_variabile x stampa fine");
    let first = parse(&source);
    let second = parse(&source);
    assert_eq!(first, second);
}
