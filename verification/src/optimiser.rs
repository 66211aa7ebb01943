//! Peephole optimisation: fusing runs of like instructions.
//!
//! A single left-to-right pass merges adjacent `AddPointer`s by summing their
//! offsets and adjacent `AddData`s by summing their deltas with 8-bit
//! wraparound. Branches are never fused, but their targets are re-resolved
//! against the positions of the shorter output sequence with the same
//! bracket-matching stack the parser uses, so the structural invariant of
//! [`well_formed`] survives optimisation.

use crate::{
    branch_targets_ok, close_step, is_close, is_open, lemma_close_step_wf,
    lemma_push_non_close_targets, lemma_replace_last_non_jump, lemma_scan_stack_directions,
    lemma_scan_stack_entries, lemma_scan_stack_prefix_some, scan_stack, well_formed, Direction,
    Instruction,
};
use vstd::prelude::*;

verus! {

/// The optimiser's state between two input instructions: the output built so
/// far and the output positions of its still-open forward branches.
pub ghost struct OptState {
    pub out: Seq<Instruction>,
    pub stack: Seq<int>,
}

/// The optimiser's state before any instruction has been read.
pub open spec fn opt_init() -> OptState {
    OptState { out: Seq::empty(), stack: Seq::empty() }
}

/// Effect of one input instruction on the optimiser's state: fuse it into the
/// last output instruction where possible, otherwise append it, re-resolving
/// branch targets against output positions.
pub open spec fn opt_step(st: OptState, ins: Instruction) -> OptState {
    match ins {
        Instruction::AddPointer(b) => {
            if st.out.len() > 0 && st.out.last() is AddPointer {
                let a = st.out.last()->AddPointer_0;
                OptState {
                    out: st.out.drop_last().push(Instruction::AddPointer(a.wrapping_add(b))),
                    ..st
                }
            } else {
                OptState { out: st.out.push(ins), ..st }
            }
        },
        Instruction::AddData(b) => {
            if st.out.len() > 0 && st.out.last() is AddData {
                let a = st.out.last()->AddData_0;
                OptState {
                    out: st.out.drop_last().push(Instruction::AddData(a.wrapping_add(b))),
                    ..st
                }
            } else {
                OptState { out: st.out.push(ins), ..st }
            }
        },
        Instruction::Jump { direction: Direction::Forward, .. } => OptState {
            out: st.out.push(Instruction::Jump { index: 0, direction: Direction::Forward }),
            stack: st.stack.push(st.out.len() as int),
        },
        Instruction::Jump { direction: Direction::Backward, .. } => {
            if st.stack.len() == 0 {
                st
            } else {
                OptState {
                    out: close_step(st.out, st.stack.last()),
                    stack: st.stack.drop_last(),
                }
            }
        },
        _ => OptState { out: st.out.push(ins), ..st },
    }
}

/// The optimiser's state after the first `n` instructions of `p`.
pub open spec fn opt_fold(p: Seq<Instruction>, n: int) -> OptState
    decreases n,
{
    if n <= 0 {
        opt_init()
    } else {
        opt_step(opt_fold(p, n - 1), p[n - 1])
    }
}

/// The program that optimisation turns `p` into.
pub open spec fn optimise_spec(p: Seq<Instruction>) -> Seq<Instruction> {
    opt_fold(p, p.len() as int).out
}

/// What holds of every intermediate optimiser state: the output is no longer
/// than the input read so far, its open-bracket stack mirrors its branch
/// scan, every matched pair in it carries its final targets, and it has
/// exactly as many open brackets as the input prefix.
pub open spec fn opt_state_inv(p: Seq<Instruction>, n: int, st: OptState) -> bool {
    &&& st.out.len() <= n
    &&& scan_stack(st.out, st.out.len() as int) == Some(st.stack)
    &&& branch_targets_ok(st.out)
    &&& st.stack.len() == scan_stack(p, n).unwrap().len()
}

/// Folding the optimiser over a prefix of a program whose branch scan
/// succeeds always satisfies [`opt_state_inv`].
pub proof fn lemma_opt_fold_inv(p: Seq<Instruction>, n: int)
    requires
        0 <= n <= p.len() <= usize::MAX,
        scan_stack(p, p.len() as int) is Some,
    ensures
        opt_state_inv(p, n, opt_fold(p, n)),
    decreases n,
{
    lemma_scan_stack_prefix_some(p, n, p.len() as int);
    if n == 0 {
        assert(scan_stack(opt_fold(p, 0).out, 0) == Some(Seq::<int>::empty()));
    } else {
        lemma_opt_fold_inv(p, n - 1);
        lemma_scan_stack_prefix_some(p, n - 1, p.len() as int);
        let prev = opt_fold(p, n - 1);
        let st = opt_fold(p, n);
        let ins = p[n - 1];
        let out = prev.out;
        let len = out.len() as int;
        let in_prev = scan_stack(p, n - 1).unwrap();
        let in_cur = scan_stack(p, n).unwrap();
        if is_open(ins) {
            assert(in_cur == in_prev.push(n - 1));
            let q = st.out;
            assert(q == out.push(Instruction::Jump { index: 0, direction: Direction::Forward }));
            lemma_scan_stack_directions(out, q, len);
            assert(scan_stack(q, len + 1) == Some(prev.stack.push(len)));
            lemma_push_non_close_targets(
                out,
                Instruction::Jump { index: 0, direction: Direction::Forward },
            );
        } else if is_close(ins) {
            assert(in_prev.len() > 0);
            assert(in_cur == in_prev.drop_last());
            assert(prev.stack.len() > 0);
            lemma_scan_stack_entries(out, len, prev.stack);
            lemma_close_step_wf(out, prev.stack);
            assert(st.out == close_step(out, prev.stack.last()));
        } else {
            assert(in_cur == in_prev);
            match ins {
                Instruction::AddPointer(b) => {
                    if out.len() > 0 && out.last() is AddPointer {
                        let a = out.last()->AddPointer_0;
                        let x = Instruction::AddPointer(a.wrapping_add(b));
                        lemma_replace_last_non_jump(out, x);
                        assert(st.out == out.drop_last().push(x));
                    } else {
                        lemma_push_non_close_targets(out, ins);
                        lemma_scan_stack_directions(out, out.push(ins), len);
                    }
                },
                Instruction::AddData(b) => {
                    if out.len() > 0 && out.last() is AddData {
                        let a = out.last()->AddData_0;
                        let x = Instruction::AddData(a.wrapping_add(b));
                        lemma_replace_last_non_jump(out, x);
                        assert(st.out == out.drop_last().push(x));
                    } else {
                        lemma_push_non_close_targets(out, ins);
                        lemma_scan_stack_directions(out, out.push(ins), len);
                    }
                },
                _ => {
                    lemma_push_non_close_targets(out, ins);
                    lemma_scan_stack_directions(out, out.push(ins), len);
                },
            }
        }
    }
}

/// Optimisation preserves the structural invariant: the result of optimising
/// a well-formed program is well-formed again, and no longer than the input.
pub proof fn lemma_optimise_well_formed(p: Seq<Instruction>)
    requires
        well_formed(p),
        p.len() <= usize::MAX,
    ensures
        well_formed(optimise_spec(p)),
        optimise_spec(p).len() <= p.len(),
{
    lemma_opt_fold_inv(p, p.len() as int);
    let st = opt_fold(p, p.len() as int);
    assert(st.stack =~= Seq::<int>::empty());
}

/// Merges adjacent `AddPointer`/`AddData` instructions, re-resolving branch
/// targets against the shorter output.
///
/// The result is exactly the left-to-right fusion fold of the input, and is
/// well-formed whenever the input is.
pub fn merge_instructions(program: Vec<Instruction>) -> (r: Vec<Instruction>)
    requires
        well_formed(program@),
    ensures
        r@ == optimise_spec(program@),
        well_formed(r@),
        r@.len() <= program@.len(),
{
    let ghost p = program@;
    let n = program.len();
    let mut instructions: Vec<Instruction> = Vec::new();
    let mut jump_stack: Vec<usize> = Vec::new();
    let mut i: usize = 0;
    while i < n
        invariant
            program@ == p,
            n == p.len(),
            well_formed(p),
            i <= n,
            instructions@ == opt_fold(p, i as int).out,
            jump_stack@.len() == opt_fold(p, i as int).stack.len(),
            forall|k: int|
                0 <= k < jump_stack@.len() ==> #[trigger] jump_stack@[k] as int == opt_fold(
                    p,
                    i as int,
                ).stack[k],
        decreases n - i,
    {
        proof {
            lemma_opt_fold_inv(p, i as int);
            lemma_opt_fold_inv(p, i as int + 1);
            lemma_scan_stack_prefix_some(p, i as int + 1, p.len() as int);
            lemma_scan_stack_entries(
                instructions@,
                instructions@.len() as int,
                opt_fold(p, i as int).stack,
            );
        }
        let ghost st = opt_fold(p, i as int);
        let ins = program[i];
        assert(opt_fold(p, i as int + 1) == opt_step(st, ins));
        match ins {
            Instruction::AddPointer(b) => {
                let mut fused = false;
                if instructions.len() > 0 {
                    match instructions[instructions.len() - 1] {
                        Instruction::AddPointer(a) => {
                            instructions.pop();
                            instructions.push(Instruction::AddPointer(a.wrapping_add(b)));
                            fused = true;
                        },
                        _ => {},
                    }
                }
                if !fused {
                    instructions.push(ins);
                }
            },
            Instruction::AddData(b) => {
                let mut fused = false;
                if instructions.len() > 0 {
                    match instructions[instructions.len() - 1] {
                        Instruction::AddData(a) => {
                            instructions.pop();
                            instructions.push(Instruction::AddData(a.wrapping_add(b)));
                            fused = true;
                        },
                        _ => {},
                    }
                }
                if !fused {
                    instructions.push(ins);
                }
            },
            Instruction::Jump { index: _, direction: Direction::Forward } => {
                let index = instructions.len();
                instructions.push(
                    Instruction::Jump { index: 0, direction: Direction::Forward },
                );
                jump_stack.push(index);
            },
            Instruction::Jump { index: _, direction: Direction::Backward } => {
                proof {
                    assert(scan_stack(p, i as int + 1).unwrap().len() == opt_fold(
                        p,
                        i as int + 1,
                    ).stack.len());
                }
                let current_index = instructions.len();
                let target_index = jump_stack.pop().unwrap();
                instructions.push(
                    Instruction::Jump {
                        index: target_index + 1,
                        direction: Direction::Backward,
                    },
                );
                instructions.set(
                    target_index,
                    Instruction::Jump {
                        index: current_index + 1,
                        direction: Direction::Forward,
                    },
                );
                proof {
                    assert(instructions@ =~= close_step(st.out, st.stack.last()));
                }
            },
            _ => {
                instructions.push(ins);
            },
        }
        i = i + 1;
    }
    proof {
        lemma_optimise_well_formed(p);
    }
    instructions
}

/// Optimises a well-formed program into an equivalent, no-longer one;
/// equivalence is proved in [`crate::equiv::lemma_optimiser_equivalence`].
pub fn optimise(program: Vec<Instruction>) -> (r: Vec<Instruction>)
    requires
        well_formed(program@),
    ensures
        r@ == optimise_spec(program@),
        well_formed(r@),
        r@.len() <= program@.len(),
{
    merge_instructions(program)
}

} // verus!
