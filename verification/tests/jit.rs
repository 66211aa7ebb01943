use bfjit::jit::translate_to_native;
use bfjit::parser::parse;
use bfjit::Instruction;

const OUT_ADDR: u64 = 0x0807_0605_0403_0201;
const IN_ADDR: u64 = 0x1817_1615_1413_1211;

fn prologue_bytes() -> Vec<u8> {
    let mut v = vec![
        0x55, 0x48, 0x89, 0xE5, // PUSH RBP; MOV RBP, RSP
        0x48, 0x83, 0xEC, 0x18, // SUB RSP, 24
        0x51, // PUSH RCX
        0x48, 0x89, 0xF8, // MOV RAX, RDI
    ];
    v.extend([0x48, 0xB9]); // MOVABSQ RCX, OUT_ADDR
    v.extend(OUT_ADDR.to_le_bytes());
    v.extend([0x48, 0x89, 0x4D, 0xF8]); // MOV [RBP - 8], RCX
    v.extend([0x48, 0xB9]); // MOVABSQ RCX, IN_ADDR
    v.extend(IN_ADDR.to_le_bytes());
    v.extend([0x48, 0x89, 0x4D, 0xF0]); // MOV [RBP - 16], RCX
    v
}

const EPILOGUE: [u8; 6] = [0x59, 0x48, 0x89, 0xEC, 0x5D, 0xC3];

#[test]
fn empty_program_is_prologue_and_epilogue() {
    let code = translate_to_native(vec![], OUT_ADDR, IN_ADDR);
    let mut expected = prologue_bytes();
    expected.extend(EPILOGUE);
    assert_eq!(code, expected);
    assert_eq!(code.len(), 46);
}

#[test]
fn add_data_encodes_in_place_byte_add() {
    let code = translate_to_native(vec![Instruction::AddData(-2)], OUT_ADDR, IN_ADDR);
    let mut expected = prologue_bytes();
    expected.extend([0x80, 0x00, 0xFE]); // ADD BYTE PTR [RAX], -2
    expected.extend(EPILOGUE);
    assert_eq!(code, expected);
}

#[test]
fn add_pointer_encodes_full_word_immediate() {
    let code = translate_to_native(vec![Instruction::AddPointer(-1)], OUT_ADDR, IN_ADDR);
    let mut expected = prologue_bytes();
    expected.extend([0x48, 0xB9]); // MOVABSQ RCX, -1
    expected.extend((-1i64).to_le_bytes());
    expected.extend([0x48, 0x01, 0xC8]); // ADD RAX, RCX
    expected.extend(EPILOGUE);
    assert_eq!(code, expected);
}

#[test]
fn io_instructions_call_through_the_slots() {
    let program = parse(",.").unwrap();
    let code = translate_to_native(program, OUT_ADDR, IN_ADDR);
    let mut expected = prologue_bytes();
    // PUSH RAX; CALL [RBP - 16]; MOV RCX, RAX; POP RAX; MOV [RAX], CL
    expected.extend([0x50, 0xFF, 0x55, 0xF0, 0x48, 0x89, 0xC1, 0x58, 0x88, 0x08]);
    // MOVZX RDI, [RAX]; POP RCX; PUSH RAX; CALL [RBP - 8]; POP RAX; PUSH RCX
    expected.extend([0x48, 0x0F, 0xB6, 0x38, 0x59, 0x50, 0xFF, 0x55, 0xF8, 0x58, 0x51]);
    expected.extend(EPILOGUE);
    assert_eq!(code, expected);
}

#[test]
fn loop_jumps_are_backpatched_relative_displacements() {
    // "[-]": clear the current cell.
    let program = parse("[-]").unwrap();
    let code = translate_to_native(program, OUT_ADDR, IN_ADDR);

    let mut expected = prologue_bytes(); // 40 bytes
    // Forward: CMP BYTE PTR [RAX], 0; JZ +12 (lands just past the JNZ).
    expected.extend([0x80, 0x38, 0x00, 0x0F, 0x84]);
    expected.extend(12i32.to_le_bytes());
    // Body: ADD BYTE PTR [RAX], -1.
    expected.extend([0x80, 0x00, 0xFF]);
    // Backward: CMP BYTE PTR [RAX], 0; JNZ -12 (lands just past the JZ).
    expected.extend([0x80, 0x38, 0x00, 0x0F, 0x85]);
    expected.extend((-12i32).to_le_bytes());
    expected.extend(EPILOGUE);
    assert_eq!(code, expected);
}
