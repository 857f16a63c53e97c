use simple_parser::instruction::Instruction;
use simple_parser::interpreter::{run_interpreter, InterpreterError};
use simple_parser::parser::parse;

#[test]
fn run_print_emits_line() {
    let instructions = vec![Instruction::Print(String::from("ciao"))];
    let mut output: Vec<String> = Vec::new();
    let result = run_interpreter(&instructions, &mut output);
    assert_eq!(result, Ok(()));
    assert_eq!(output, vec![String::from("ciao")]);
}

#[test]
fn run_empty_program() {
    let instructions: Vec<Instruction> = vec![];
    let mut output: Vec<String> = Vec::new();
    let result = run_interpreter(&instructions, &mut output);
    assert_eq!(result, Ok(()));
    assert!(output.is_empty());
}

#[test]
fn run_parsed_create_then_print_emits_value() {
    let instructions = parse(&String::from("crea_variabile x 5 stampa_variabile x")).unwrap();
    let mut output: Vec<String> = Vec::new();
    let result = run_interpreter(&instructions, &mut output);
    assert_eq!(result, Ok(()));
    assert_eq!(output, vec![String::from("5")]);
}

#[test]
fn run_redefined_variable_halts() {
    let instructions = vec![
        Instruction::CreateVariable(String::from("x"), String::from("1")),
        Instruction::CreateVariable(String::from("x"), String::from("2")),
    ];
    let mut output: Vec<String> = Vec::new();
    let result = run_interpreter(&instructions, &mut output);
    assert_eq!(
        result,
        Err(InterpreterError::RedefinedVariable(String::from("x")))
    );
    assert!(output.is_empty());
}

#[test]
fn run_redefinition_does_not_mutate_first_binding() {
    let instructions = vec![
        Instruction::CreateVariable(String::from("x"), String::from("1")),
        Instruction::PrintVariable(String::from("x")),
        Instruction::CreateVariable(String::from("x"), String::from("2")),
        Instruction::PrintVariable(String::from("x")),
    ];
    let mut output: Vec<String> = Vec::new();
    let result = run_interpreter(&instructions, &mut output);
    assert_eq!(
        result,
        Err(InterpreterError::RedefinedVariable(String::from("x")))
    );
    assert_eq!(output, vec![String::from("1")]);
}

#[test]
fn run_unbound_variable_fails() {
    let instructions = vec![Instruction::PrintVariable(String::from("y"))];
    let mut output: Vec<String> = Vec::new();
    let result = run_interpreter(&instructions, &mut output);
    assert_eq!(
        result,
        Err(InterpreterError::VariableDoesNotExist(String::from("y")))
    );
    assert!(output.is_empty());
}

#[test]
fn run_failure_keeps_earlier_effects_and_nothing_after() {
    let instructions = vec![
        Instruction::Print(String::from("a")),
        Instruction::CreateVariable(String::from("x"), String::from("1")),
        Instruction::PrintVariable(String::from("x")),
        Instruction::PrintVariable(String::from("y")),
        Instruction::Print(String::from("b")),
    ];
    let mut output: Vec<String> = Vec::new();
    let result = run_interpreter(&instructions, &mut output);
    assert_eq!(
        result,
        Err(InterpreterError::VariableDoesNotExist(String::from("y")))
    );
    assert_eq!(output, vec![String::from("a"), String::from("1")]);
}

#[test]
fn run_appends_to_existing_output() {
    let instructions = vec![Instruction::Print(String::from("nuovo"))];
    let mut output = vec![String::from("prima")];
    let result = run_interpreter(&instructions, &mut output);
    assert_eq!(result, Ok(()));
    assert_eq!(output, vec![String::from("prima"), String::from("nuovo")]);
}
