use bfjit::interpreter::{Interpreter, InterpreterError};
use bfjit::optimiser::optimise;
use bfjit::parser::parse;
use bfjit::Instruction;
use bfjit::Instruction::{AddData, AddPointer};

/// Runs `source` to completion with the given input and returns its output.
fn run_source(source: &str, input: &[u8]) -> Vec<u8> {
    let program = parse(source).unwrap();
    run_program(program, input)
}

fn run_program(program: Vec<Instruction>, input: &[u8]) -> Vec<u8> {
    let mut interpreter = Interpreter::new(program);
    interpreter.set_input(input.to_vec());
    interpreter.run().unwrap();
    interpreter.output().clone()
}

#[test]
fn wraparound_outputs_255() {
    // From a zero cell, one decrement wraps to the byte value 255.
    let output = run_source("-.", &[]);
    assert_eq!(output, vec![255]);
}

#[test]
fn echo_two_bytes() {
    let output = run_source(",.,.", b"hi");
    assert_eq!(output, b"hi".to_vec());
}

#[test]
fn read_past_end_of_input_writes_zero() {
    // A failed host read leaves the cell zeroed.
    let output = run_source("+,.", &[]);
    assert_eq!(output, vec![0]);
}

#[test]
fn nested_loop_multiplies() {
    // 3 * 4 computed with a nested loop, written to the second cell.
    let output = run_source("+++[>++++<-]>.", &[]);
    assert_eq!(output, vec![12]);
}

#[test]
fn cursor_underflow_is_reported() {
    let mut interpreter = Interpreter::new(vec![AddPointer(-1), AddData(1)]);
    let result = interpreter.run();
    assert_eq!(
        result,
        Err(InterpreterError::DataIndexOutOfBounds { index: -1, array_size: 30000 })
    );
}

#[test]
fn step_reports_end_of_program() {
    let mut interpreter = Interpreter::new(vec![Instruction::AddData(1)]);
    assert_eq!(interpreter.step(), Ok(false));
    assert_eq!(interpreter.step(), Ok(true));
    assert_eq!(interpreter.step(), Ok(true));
}

#[test]
fn optimised_program_echoes_like_the_original() {
    let program = parse(",.,.").unwrap();
    let optimised = optimise(program.clone());
    assert_eq!(
        run_program(program, b"ok"),
        run_program(optimised, b"ok")
    );
}

#[test]
fn optimised_nested_loop_matches_original() {
    let source = "++++[>++[>++<-]<-]>>.";
    let program = parse(source).unwrap();
    let optimised = optimise(program.clone());
    let reference = run_program(program, &[]);
    assert_eq!(reference, vec![16]);
    assert_eq!(run_program(optimised, &[]), reference);
}

#[test]
fn optimised_wraparound_matches_original() {
    let source = "--+.";
    let program = parse(source).unwrap();
    let optimised = optimise(program.clone());
    assert_eq!(optimised.len(), 2);
    let reference = run_program(program, &[]);
    assert_eq!(reference, vec![255]);
    assert_eq!(run_program(optimised, &[]), reference);
}
