use bfjit::parser::parse;
use bfjit::Direction::{Backward, Forward};
use bfjit::Instruction::{AddData, AddPointer, Input, Jump, Output};

#[test]
fn simple_program_no_loops() {

    let source = ">><<+-,.";
    let program = parse(source).unwrap();
    let expected_instructions = vec![
        AddPointer(1),
        AddPointer(1),
        AddPointer(-1),
        AddPointer(-1),
        AddData(1),
        AddData(-1),
        Input,
        Output,
    ];

    assert_eq!(program, expected_instructions);
}

#[test]
fn empty_loop() {

    let source = "[]";
    let program = parse(source).unwrap();
    let expected_instructions = vec![
        Jump { index: 2, direction: Forward },
        Jump { index: 1, direction: Backward },
    ];

    assert_eq!(program, expected_instructions);
}

#[test]
fn empty_nested_loops() {

    let source = "[[]]";
    let program = parse(source).unwrap();
    let expected_instructions = vec![
        Jump { index: 4, direction: Forward },
        Jump { index: 3, direction: Forward },
        Jump { index: 2, direction: Backward },
        Jump { index: 1, direction: Backward },
    ];

    assert_eq!(program, expected_instructions);
}

#[test]
fn program_with_other_characters() {
    // Non instruction characters are valid and should just be ignored by the parser.

    let source = ">hello world<\n+";
    let program = parse(source).unwrap();
    let expected_instructions = vec![AddPointer(1), AddPointer(-1), AddData(1)];

    assert_eq!(program, expected_instructions);
}

#[test]
fn unbalanced_forward_jump() {
    let source = "[[]";
    assert!(parse(source).is_err());
}

#[test]
fn unbalanced_backwards_jump() {
    let source = "][]";
    assert!(parse(source).is_err());
}

#[test]
fn two_unclosed_opens_report_both() {
    let errors = parse("[[").unwrap_err();
    assert_eq!(errors.len(), 2);
    // Innermost (most recently opened) bracket first.
    assert_eq!(errors[0], "'[' at line 0, col 1 has no matching ']'.");
    assert_eq!(errors[1], "'[' at line 0, col 0 has no matching ']'.");
}

#[test]
fn unmatched_close_stops_the_scan() {
    // The scan aborts on the first unmatched `]`: the later `[` is never
    // reported.
    let errors = parse("][").unwrap_err();
    assert_eq!(errors.len(), 1);
    assert_eq!(errors[0], "']' at line 0, col 0 has no matching '['.");
}

#[test]
fn error_positions_follow_lines() {
    let errors = parse("+\n->]").unwrap_err();
    assert_eq!(errors.len(), 1);
    // Line 1; the column is measured from the newline character itself.
    assert_eq!(errors[0], "']' at line 1, col 3 has no matching '['.");
}

#[test]
fn round_trip_targets_match() {

    // Brackets nested among comments still resolve to the index one past
    // their partner.
    let program = parse("a[b[c]d]e[f]").unwrap();
    let expected = vec![
        Jump { index: 4, direction: Forward },
        Jump { index: 3, direction: Forward },
        Jump { index: 2, direction: Backward },
        Jump { index: 1, direction: Backward },
        Jump { index: 6, direction: Forward },
        Jump { index: 5, direction: Backward },
    ];
    assert_eq!(program, expected);
}

#[test]
fn multi_digit_positions() {
    let errors = parse("\n\n\n\n\n\n\n\n\n\n\n\n]").unwrap_err();
    assert_eq!(errors.len(), 1);
    assert_eq!(errors[0], "']' at line 12, col 1 has no matching '['.");
}
