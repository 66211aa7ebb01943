//! Translation of a program into self-contained x86-64 machine code.
//!
//! Register layout: `RAX` holds the cursor for the whole routine, loaded once
//! at entry from the routine's single argument (the cell-array base address,
//! arriving in `RDI`); `RCX` stages large immediates and short-lived values
//! around calls. The entry sequence sets up a frame with two 8-byte stack
//! slots holding the host I/O routines' addresses, which are passed in as
//! plain integers so the emitted bytes are a pure function of the program.
//! Branches are emitted with placeholder displacements and backpatched from
//! an explicit fixup stack once the matching backward branch's position is
//! known; both displacements are signed 4-byte values relative to the byte
//! after the jump instruction.

use crate::{scan_stack, well_formed, Direction, Instruction};
use vstd::prelude::*;

verus! {

/// Largest program the translator accepts: every displacement then fits the
/// signed 4-byte field of a relative jump, with room to spare.
pub const MAX_PROGRAM_LEN: usize = 0xFF_FFFF;

/// Bytes the entry sequence occupies.
pub const PROLOGUE_LEN: usize = 40;

/// Largest number of bytes one instruction can translate to.
pub const MAX_INSTRUCTION_LEN: usize = 13;

/// The unsigned byte with the same bits as `v`.
pub open spec fn two_c_u8(v: i8) -> u8 {
    if v >= 0 {
        v as u8
    } else {
        (v + 0x100) as u8
    }
}

/// The unsigned 64-bit word with the same bits as `v`, sign-extended.
pub open spec fn two_c_u64(v: isize) -> u64 {
    if v >= 0 {
        v as u64
    } else {
        (v + 0x1_0000_0000_0000_0000) as u64
    }
}

/// The unsigned 32-bit word with the same bits as the displacement `d`
/// (meaningful for `-0x8000_0000 <= d < 0x8000_0000`).
pub open spec fn two_c_u32(d: int) -> u32 {
    if d >= 0 {
        d as u32
    } else {
        (d + 0x1_0000_0000) as u32
    }
}

/// The four bytes of `v`, least significant first.
pub open spec fn le_bytes_u32(v: u32) -> Seq<u8> {
    seq![
        (v % 0x100) as u8,
        ((v / 0x100) % 0x100) as u8,
        ((v / 0x1_0000) % 0x100) as u8,
        ((v / 0x100_0000) % 0x100) as u8,
    ]
}

/// The eight bytes of `v`, least significant first.
pub open spec fn le_bytes_u64(v: u64) -> Seq<u8> {
    seq![
        (v % 0x100) as u8,
        ((v / 0x100) % 0x100) as u8,
        ((v / 0x1_0000) % 0x100) as u8,
        ((v / 0x100_0000) % 0x100) as u8,
        ((v / 0x1_0000_0000) % 0x100) as u8,
        ((v / 0x100_0000_0000) % 0x100) as u8,
        ((v / 0x1_0000_0000_0000) % 0x100) as u8,
        ((v / 0x100_0000_0000_0000) % 0x100) as u8,
    ]
}

/// `c` with the four bytes of `v` written at offset `at`, least significant
/// first: the backpatch of one displacement field.
pub open spec fn patch4(c: Seq<u8>, at: int, v: u32) -> Seq<u8> {
    c.update(at, le_bytes_u32(v)[0]).update(at + 1, le_bytes_u32(v)[1]).update(
        at + 2,
        le_bytes_u32(v)[2],
    ).update(at + 3, le_bytes_u32(v)[3])
}

/// The entry sequence: establish the frame (`PUSH RBP; MOV RBP, RSP`),
/// reserve 16-byte-aligned slot space (`SUB RSP, 24; PUSH RCX`), load the
/// cursor (`MOV RAX, RDI`), then store the write routine's address at
/// `[RBP - 8]` and the read routine's address at `[RBP - 16]`, each staged
/// through `RCX` with `MOVABSQ`.
pub open spec fn prologue(output_addr: u64, input_addr: u64) -> Seq<u8> {
    seq![0x55u8, 0x48, 0x89, 0xE5, 0x48, 0x83, 0xEC, 0x18, 0x51, 0x48, 0x89, 0xF8]
        + seq![0x48u8, 0xB9] + le_bytes_u64(output_addr) + seq![0x48u8, 0x89, 0x4D, 0xF8]
        + seq![0x48u8, 0xB9] + le_bytes_u64(input_addr) + seq![0x48u8, 0x89, 0x4D, 0xF0]
}

/// The exit sequence: `POP RCX; MOV RSP, RBP; POP RBP; RET`.
pub open spec fn epilogue() -> Seq<u8> {
    seq![0x59u8, 0x48, 0x89, 0xEC, 0x5D, 0xC3]
}

/// The translator's state between two instructions: the bytes emitted so far
/// and, for each still-open forward branch, the offset of its placeholder
/// displacement field paired with the offset just past the whole jump.
pub ghost struct EmitState {
    pub code: Seq<u8>,
    pub fixups: Seq<(int, int)>,
}

/// The bytes one instruction translates to, appended to the code emitted so
/// far, with displacement fixups resolved against byte offsets:
/// - `AddData`: `ADD BYTE PTR [RAX], v`;
/// - `AddPointer`: `MOVABSQ RCX, v; ADD RAX, RCX`;
/// - `Input`: save the cursor, call through `[RBP - 16]`, store the returned
///   byte at the cursor;
/// - `Output`: load the byte at the cursor into `RDI`, call through
///   `[RBP - 8]` with the cursor saved around the call;
/// - a forward branch: `CMP BYTE PTR [RAX], 0; JZ` with a placeholder
///   displacement, whose field offset and end offset are pushed;
/// - a backward branch: `CMP BYTE PTR [RAX], 0; JNZ` back to its partner's
///   end, then the partner's placeholder is patched to land here.
pub open spec fn emit_step(st: EmitState, ins: Instruction) -> EmitState {
    match ins {
        Instruction::AddData(v) => EmitState {
            code: st.code + seq![0x80u8, 0x00, two_c_u8(v)],
            ..st
        },
        Instruction::AddPointer(v) => EmitState {
            code: st.code + seq![0x48u8, 0xB9] + le_bytes_u64(two_c_u64(v)) + seq![
                0x48u8,
                0x01,
                0xC8,
            ],
            ..st
        },
        Instruction::Input => EmitState {
            code: st.code + seq![0x50u8, 0xFF, 0x55, 0xF0, 0x48, 0x89, 0xC1, 0x58, 0x88, 0x08],
            ..st
        },
        Instruction::Output => EmitState {
            code: st.code + seq![0x48u8, 0x0F, 0xB6, 0x38, 0x59, 0x50, 0xFF, 0x55, 0xF8, 0x58, 0x51],
            ..st
        },
        Instruction::Jump { direction: Direction::Forward, .. } => EmitState {
            code: st.code + seq![0x80u8, 0x38, 0x00, 0x0F, 0x84, 0x00, 0x00, 0x00, 0x00],
            fixups: st.fixups.push((st.code.len() as int + 5, st.code.len() as int + 9)),
        },
        Instruction::Jump { direction: Direction::Backward, .. } => {
            if st.fixups.len() == 0 {
                st
            } else {
                let field = st.fixups.last().0;
                let target = st.fixups.last().1;
                let next_off = st.code.len() as int + 9;
                EmitState {
                    code: patch4(
                        st.code + seq![0x80u8, 0x38, 0x00, 0x0F, 0x85] + le_bytes_u32(
                            two_c_u32(target - next_off),
                        ),
                        field,
                        two_c_u32(next_off - target),
                    ),
                    fixups: st.fixups.drop_last(),
                }
            }
        },
    }
}

/// The translator's state after the first `n` instructions of `p`.
pub open spec fn emit_fold(p: Seq<Instruction>, n: int, output_addr: u64, input_addr: u64) -> EmitState
    decreases n,
{
    if n <= 0 {
        EmitState { code: prologue(output_addr, input_addr), fixups: Seq::empty() }
    } else {
        emit_step(emit_fold(p, n - 1, output_addr, input_addr), p[n - 1])
    }
}

/// The whole routine `p` translates to, given the two host I/O routine
/// addresses.
pub open spec fn translate_spec(
    p: Seq<Instruction>,
    output_addr: u64,
    input_addr: u64,
) -> Seq<u8> {
    emit_fold(p, p.len() as int, output_addr, input_addr).code + epilogue()
}

/// What holds of every intermediate translator state: the code grows by at
/// most [`MAX_INSTRUCTION_LEN`] bytes per instruction, there is one pending
/// fixup per open bracket of the input prefix, and every pending placeholder
/// field lies wholly inside the emitted code, past the prologue.
pub open spec fn emit_inv(p: Seq<Instruction>, n: int, st: EmitState) -> bool {
    &&& st.code.len() <= PROLOGUE_LEN + MAX_INSTRUCTION_LEN * n
    &&& PROLOGUE_LEN <= st.code.len()
    &&& st.fixups.len() == scan_stack(p, n).unwrap().len()
    &&& forall|k: int|
        0 <= k < st.fixups.len() ==> {
            let f = #[trigger] st.fixups[k];
            PROLOGUE_LEN as int <= f.0 && f.0 + 4 == f.1 <= st.code.len()
        }
}

/// Folding the translator over a prefix of a program whose branch scan
/// succeeds always satisfies [`emit_inv`].
pub proof fn lemma_emit_fold_inv(p: Seq<Instruction>, n: int, output_addr: u64, input_addr: u64)
    requires
        0 <= n <= p.len(),
        scan_stack(p, p.len() as int) is Some,
    ensures
        emit_inv(p, n, emit_fold(p, n, output_addr, input_addr)),
    decreases n,
{
    crate::lemma_scan_stack_prefix_some(p, n, p.len() as int);
    if n == 0 {
        assert(prologue(output_addr, input_addr).len() == PROLOGUE_LEN);
    } else {
        lemma_emit_fold_inv(p, n - 1, output_addr, input_addr);
        crate::lemma_scan_stack_prefix_some(p, n - 1, p.len() as int);
        let prev = emit_fold(p, n - 1, output_addr, input_addr);
        let st = emit_fold(p, n, output_addr, input_addr);
        let ins = p[n - 1];
        let in_prev = scan_stack(p, n - 1).unwrap();
        let in_cur = scan_stack(p, n).unwrap();
        if crate::is_close(ins) {
            assert(in_prev.len() > 0);
            assert(prev.fixups.len() > 0);
            let field = prev.fixups.last().0;
            assert(field + 4 <= prev.code.len());
        }
    }
}

/// Appends one byte of machine code.
fn emit_byte(code: &mut Vec<u8>, b: u8)
    ensures
        final(code)@ == old(code)@ + seq![b],
{
    code.push(b);
}

/// Appends a 4-byte immediate, least significant byte first.
fn emit_u32_le(code: &mut Vec<u8>, v: u32)
    ensures
        final(code)@ == old(code)@ + le_bytes_u32(v),
{
    code.push((v % 0x100) as u8);
    code.push(((v / 0x100) % 0x100) as u8);
    code.push(((v / 0x1_0000) % 0x100) as u8);
    code.push(((v / 0x100_0000) % 0x100) as u8);
    proof {
        assert(final(code)@ =~= old(code)@ + le_bytes_u32(v));
    }
}

/// Appends an 8-byte immediate, least significant byte first.
fn emit_u64_le(code: &mut Vec<u8>, v: u64)
    ensures
        final(code)@ == old(code)@ + le_bytes_u64(v),
{
    code.push((v % 0x100) as u8);
    code.push(((v / 0x100) % 0x100) as u8);
    code.push(((v / 0x1_0000) % 0x100) as u8);
    code.push(((v / 0x100_0000) % 0x100) as u8);
    code.push(((v / 0x1_0000_0000) % 0x100) as u8);
    code.push(((v / 0x100_0000_0000) % 0x100) as u8);
    code.push(((v / 0x1_0000_0000_0000) % 0x100) as u8);
    code.push(((v / 0x100_0000_0000_0000) % 0x100) as u8);
    proof {
        assert(final(code)@ =~= old(code)@ + le_bytes_u64(v));
    }
}

/// Overwrites the 4-byte field at `at` — the backpatch of a placeholder
/// displacement.
fn patch_u32_le(code: &mut Vec<u8>, at: usize, v: u32)
    requires
        at + 4 <= old(code)@.len(),
        old(code)@.len() <= usize::MAX,
    ensures
        final(code)@ == patch4(old(code)@, at as int, v),
{
    code.set(at, (v % 0x100) as u8);
    code.set(at + 1, ((v / 0x100) % 0x100) as u8);
    code.set(at + 2, ((v / 0x1_0000) % 0x100) as u8);
    code.set(at + 3, ((v / 0x100_0000) % 0x100) as u8);
}

/// The byte with the same bits as `v`.
fn byte_pattern(v: i8) -> (r: u8)
    ensures
        r == two_c_u8(v),
{
    if v >= 0 {
        v as u8
    } else {
        ((v as i16) + 0x100) as u8
    }
}

/// The 64-bit word with the same bits as `v`, sign-extended.
fn word_pattern(v: isize) -> (r: u64)
    ensures
        r == two_c_u64(v),
{
    let w = v as i64;
    if w >= 0 {
        w as u64
    } else {
        let shifted = (w + i64::MAX) + 1;
        (shifted as u64) + 0x8000_0000_0000_0000u64
    }
}

/// The 4-byte displacement field for a jump from the byte after offset
/// `next` to offset `target`.
fn rel32_pattern(target: usize, next: usize) -> (r: u32)
    requires
        target < 0x8000_0000,
        next < 0x8000_0000,
    ensures
        r == two_c_u32(target - next),
{
    if target >= next {
        (target - next) as u32
    } else {
        let d = next - target;
        (0x1_0000_0000u64 - (d as u64)) as u32
    }
}

/// Translates a well-formed program into the bytes of a self-contained
/// x86-64 routine, exactly as [`translate_spec`] lays them out.
/// `output_addr` and `input_addr` are the host routines the generated code
/// calls to write and read one byte.
#[verifier::rlimit(100)]
#[verifier::spinoff_prover]
pub fn translate_to_native(
    program: Vec<Instruction>,
    output_addr: u64,
    input_addr: u64,
) -> (r: Vec<u8>)
    requires
        well_formed(program@),
        program@.len() <= MAX_PROGRAM_LEN,
    ensures
        r@ == translate_spec(program@, output_addr, input_addr),
{
    let ghost p = program@;
    let n = program.len();
    let mut code: Vec<u8> = Vec::new();
    // Entry: PUSH RBP; MOV RBP, RSP; SUB RSP, 24; PUSH RCX; MOV RAX, RDI.
    emit_byte(&mut code, 0x55);
    emit_byte(&mut code, 0x48);
    emit_byte(&mut code, 0x89);
    emit_byte(&mut code, 0xE5);
    emit_byte(&mut code, 0x48);
    emit_byte(&mut code, 0x83);
    emit_byte(&mut code, 0xEC);
    emit_byte(&mut code, 0x18);
    emit_byte(&mut code, 0x51);
    emit_byte(&mut code, 0x48);
    emit_byte(&mut code, 0x89);
    emit_byte(&mut code, 0xF8);
    // MOVABSQ RCX, output_addr; MOV [RBP - 8], RCX.
    emit_byte(&mut code, 0x48);
    emit_byte(&mut code, 0xB9);
    emit_u64_le(&mut code, output_addr);
    emit_byte(&mut code, 0x48);
    emit_byte(&mut code, 0x89);
    emit_byte(&mut code, 0x4D);
    emit_byte(&mut code, 0xF8);
    // MOVABSQ RCX, input_addr; MOV [RBP - 16], RCX.
    emit_byte(&mut code, 0x48);
    emit_byte(&mut code, 0xB9);
    emit_u64_le(&mut code, input_addr);
    emit_byte(&mut code, 0x48);
    emit_byte(&mut code, 0x89);
    emit_byte(&mut code, 0x4D);
    emit_byte(&mut code, 0xF0);
    proof {
        assert(code@ =~= prologue(output_addr, input_addr));
    }
    let mut jump_stack: Vec<(usize, usize)> = Vec::new();
    let mut i: usize = 0;
    while i < n
        invariant
            program@ == p,
            n == p.len(),
            well_formed(p),
            n <= MAX_PROGRAM_LEN,
            i <= n,
            code@ == emit_fold(p, i as int, output_addr, input_addr).code,
            jump_stack@.len() == emit_fold(p, i as int, output_addr, input_addr).fixups.len(),
            forall|k: int|
                0 <= k < jump_stack@.len() ==> {
                    let e = #[trigger] jump_stack@[k];
                    let f = emit_fold(p, i as int, output_addr, input_addr).fixups[k];
                    e.0 as int == f.0 && e.1 as int == f.1
                },
        decreases n - i,
    {
        proof {
            lemma_emit_fold_inv(p, i as int, output_addr, input_addr);
            lemma_emit_fold_inv(p, i as int + 1, output_addr, input_addr);
            crate::lemma_scan_stack_prefix_some(p, i as int + 1, p.len() as int);
        }
        let ghost st = emit_fold(p, i as int, output_addr, input_addr);
        let ins = program[i];
        assert(emit_fold(p, i as int + 1, output_addr, input_addr) == emit_step(st, ins));
        assert(code@.len() <= PROLOGUE_LEN + MAX_INSTRUCTION_LEN * (i as int));
        match ins {
            Instruction::AddData(val) => {
                // ADD BYTE PTR [RAX], val.
                emit_byte(&mut code, 0x80);
                emit_byte(&mut code, 0x00);
                emit_byte(&mut code, byte_pattern(val));
                proof {
                    assert(code@ =~= emit_step(st, ins).code);
                }
            },
            Instruction::AddPointer(val) => {
                // MOVABSQ RCX, val; ADD RAX, RCX.
                emit_byte(&mut code, 0x48);
                emit_byte(&mut code, 0xB9);
                emit_u64_le(&mut code, word_pattern(val));
                emit_byte(&mut code, 0x48);
                emit_byte(&mut code, 0x01);
                emit_byte(&mut code, 0xC8);
                proof {
                    assert(code@ =~= emit_step(st, ins).code);
                }
            },
            Instruction::Input => {
                // PUSH RAX; CALL [RBP - 16]; MOV RCX, RAX; POP RAX;
                // MOV BYTE PTR [RAX], CL.
                emit_byte(&mut code, 0x50);
                emit_byte(&mut code, 0xFF);
                emit_byte(&mut code, 0x55);
                emit_byte(&mut code, 0xF0);
                emit_byte(&mut code, 0x48);
                emit_byte(&mut code, 0x89);
                emit_byte(&mut code, 0xC1);
                emit_byte(&mut code, 0x58);
                emit_byte(&mut code, 0x88);
                emit_byte(&mut code, 0x08);
                proof {
                    assert(code@ =~= emit_step(st, ins).code);
                }
            },
            Instruction::Output => {
                // MOVZX RDI, BYTE PTR [RAX]; POP RCX; PUSH RAX;
                // CALL [RBP - 8]; POP RAX; PUSH RCX.
                emit_byte(&mut code, 0x48);
                emit_byte(&mut code, 0x0F);
                emit_byte(&mut code, 0xB6);
                emit_byte(&mut code, 0x38);
                emit_byte(&mut code, 0x59);
                emit_byte(&mut code, 0x50);
                emit_byte(&mut code, 0xFF);
                emit_byte(&mut code, 0x55);
                emit_byte(&mut code, 0xF8);
                emit_byte(&mut code, 0x58);
                emit_byte(&mut code, 0x51);
                proof {
                    assert(code@ =~= emit_step(st, ins).code);
                }
            },
            Instruction::Jump { index: _, direction: Direction::Forward } => {
                // CMP BYTE PTR [RAX], 0; JZ with a placeholder displacement.
                emit_byte(&mut code, 0x80);
                emit_byte(&mut code, 0x38);
                emit_byte(&mut code, 0x00);
                let field = code.len() + 2;
                emit_byte(&mut code, 0x0F);
                emit_byte(&mut code, 0x84);
                emit_u32_le(&mut code, 0);
                let next = code.len();
                jump_stack.push((field, next));
                proof {
                    assert(code@ =~= emit_step(st, ins).code);
                    assert(jump_stack@.len() == emit_step(st, ins).fixups.len());
                }
            },
            Instruction::Jump { index: _, direction: Direction::Backward } => {
                proof {
                    assert(scan_stack(p, i as int + 1).unwrap().len() == emit_step(
                        st,
                        ins,
                    ).fixups.len());
                }
                let top = jump_stack.pop().unwrap();
                let field = top.0;
                let target = top.1;
                // CMP BYTE PTR [RAX], 0; JNZ back to the partner's end.
                emit_byte(&mut code, 0x80);
                emit_byte(&mut code, 0x38);
                emit_byte(&mut code, 0x00);
                emit_byte(&mut code, 0x0F);
                emit_byte(&mut code, 0x85);
                let next_offset = code.len() + 4;
                let rel = rel32_pattern(target, next_offset);
                emit_u32_le(&mut code, rel);
                // Land the partner's placeholder just past this jump.
                let back = rel32_pattern(next_offset, target);
                patch_u32_le(&mut code, field, back);
                proof {
                    assert(code@ =~= emit_step(st, ins).code);
                }
            },
        }
        i = i + 1;
    }
    // Exit: POP RCX; MOV RSP, RBP; POP RBP; RET.
    emit_byte(&mut code, 0x59);
    emit_byte(&mut code, 0x48);
    emit_byte(&mut code, 0x89);
    emit_byte(&mut code, 0xEC);
    emit_byte(&mut code, 0x5D);
    emit_byte(&mut code, 0xC3);
    proof {
        assert(code@ =~= translate_spec(p, output_addr, input_addr));
    }
    code
}

} // verus!
