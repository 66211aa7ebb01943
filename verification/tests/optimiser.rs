use bfjit::optimiser::{merge_instructions, optimise};
use bfjit::Direction::{Backward, Forward};
use bfjit::Instruction::{AddData, AddPointer, Jump};

#[test]
fn merge_2_add_pointer_ins() {

    let result = merge_instructions(vec![AddPointer(1), AddPointer(1)]);
    assert_eq!(result, vec![AddPointer(2)]);
}

#[test]
fn merge_3_add_data_ins() {

    let result = merge_instructions(vec![AddData(1), AddData(-1), AddData(1)]);
    assert_eq!(result, vec![AddData(1)]);
}

#[test]
fn merge_2_wrapping_add_data_ins() {
    let result = merge_instructions(vec![AddData(1), AddData(-1), AddData(-1)]);
    assert_eq!(result, vec![AddData(-1)]);
}

#[test]
fn merge_empty_2_jumps() {

    let instructions = vec![
        Jump { index: 2, direction: Forward },
        Jump { index: 1, direction: Backward },
    ];
    let result = merge_instructions(instructions);

    // there were no instructions that could be merged, so nothing changes
    assert_eq!(
        result,
        vec![
            Jump { index: 2, direction: Forward },
            Jump { index: 1, direction: Backward }
        ]
    );
}

#[test]
fn merge_relocate_jumps() {

    let result = merge_instructions(vec![
        AddData(1),
        AddData(1),
        Jump { index: 6, direction: Forward },
        AddPointer(1),
        AddPointer(1),
        Jump { index: 3, direction: Backward },
    ]);
    assert_eq!(
        result,
        vec![
            AddData(2),
            Jump { index: 4, direction: Forward },
            AddPointer(2),
            Jump { index: 2, direction: Backward }
        ]
    );
}

#[test]
fn optimise_keeps_mixed_neighbours_apart() {

    // A pointer move between two cell adds stops the fusion.
    let result = optimise(vec![AddData(1), AddPointer(1), AddData(1)]);
    assert_eq!(result, vec![AddData(1), AddPointer(1), AddData(1)]);
}

#[test]
fn optimise_wrapping_pointer_sum() {

    let result = optimise(vec![AddPointer(-3), AddPointer(1), AddPointer(1)]);
    assert_eq!(result, vec![AddPointer(-1)]);
}
