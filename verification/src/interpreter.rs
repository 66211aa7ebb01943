//! A reference interpreter: fetch-execute cycling over the instruction
//! sequence.
//!
//! The interpreter owns its cell memory and cursor, reads input bytes from an
//! in-memory stream and collects output bytes, so one run is a pure function
//! of the program and the input stream. Its behaviour is pinned, step by
//! step, to the small-step machine semantics [`step_spec`].

use crate::{Instruction, Direction, MEMORY_SIZE};
use vstd::prelude::*;

verus! {

/// A failure of one interpreter step.
#[derive(Clone, Copy, Debug, PartialEq, Eq, Structural)]
pub enum InterpreterError {
    /// The cursor left the cell array: `index` is the offending cursor value
    /// and `array_size` the number of cells.
    DataIndexOutOfBounds { index: isize, array_size: usize },
}

/// The whole observable state of a running machine: cell memory, cursor,
/// instruction pointer, and the input consumed and output produced so far.
pub ghost struct MachineState {
    pub mem: Seq<u8>,
    pub dp: isize,
    pub ip: int,
    pub input: Seq<u8>,
    pub in_pos: int,
    pub output: Seq<u8>,
}

/// The machine state a fresh run starts from: zeroed cells, cursor and
/// instruction pointer at 0, nothing read or written yet.
pub open spec fn init_state(input: Seq<u8>) -> MachineState {
    MachineState {
        mem: Seq::new(MEMORY_SIZE as nat, |i: int| 0u8),
        dp: 0,
        ip: 0,
        input: input,
        in_pos: 0,
        output: Seq::empty(),
    }
}

/// What one machine step does: halt (instruction pointer past the program),
/// fail, or move to the next state.
pub ghost enum StepResult {
    Halted(MachineState),
    Error(InterpreterError, MachineState),
    Next(MachineState),
}

/// The out-of-bounds error a state's cursor produces.
pub open spec fn oob_error(s: MachineState) -> InterpreterError {
    InterpreterError::DataIndexOutOfBounds { index: s.dp, array_size: s.mem.len() as usize }
}

/// True when the cursor addresses a valid cell.
pub open spec fn dp_in_bounds(s: MachineState) -> bool {
    0 <= s.dp < s.mem.len()
}

/// The byte the next `Input` will read: the next input byte, or 0 once the
/// stream is exhausted (a failed host read leaves the buffer zeroed).
pub open spec fn next_input_byte(s: MachineState) -> u8 {
    if s.in_pos < s.input.len() {
        s.input[s.in_pos]
    } else {
        0u8
    }
}

/// The input position after one read: reading past the end consumes nothing.
pub open spec fn next_input_pos(s: MachineState) -> int {
    if s.in_pos < s.input.len() {
        s.in_pos + 1
    } else {
        s.in_pos
    }
}

/// One fetch-execute step of program `p` from state `s`.
///
/// Cursor moves wrap like native word arithmetic and are never checked; every
/// instruction that touches a cell first checks the cursor and fails with
/// [`oob_error`] if it is outside the array. A taken branch moves the
/// instruction pointer to the branch's resolved target; everything else
/// advances it by one. `Input` consumes its byte before the cursor check, as
/// the host read happens first.
pub open spec fn step_spec(p: Seq<Instruction>, s: MachineState) -> StepResult {
    if s.ip < 0 || s.ip >= p.len() {
        StepResult::Halted(s)
    } else {
        match p[s.ip] {
            Instruction::AddPointer(val) => StepResult::Next(
                MachineState { dp: s.dp.wrapping_add(val), ip: s.ip + 1, ..s },
            ),
            Instruction::AddData(val) => {
                if dp_in_bounds(s) {
                    StepResult::Next(
                        MachineState {
                            mem: s.mem.update(
                                s.dp as int,
                                s.mem[s.dp as int].wrapping_add_signed(val),
                            ),
                            ip: s.ip + 1,
                            ..s
                        },
                    )
                } else {
                    StepResult::Error(oob_error(s), s)
                }
            },
            Instruction::Input => {
                let byte = next_input_byte(s);
                let pos = next_input_pos(s);
                if dp_in_bounds(s) {
                    StepResult::Next(
                        MachineState {
                            mem: s.mem.update(s.dp as int, byte),
                            in_pos: pos,
                            ip: s.ip + 1,
                            ..s
                        },
                    )
                } else {
                    StepResult::Error(oob_error(s), MachineState { in_pos: pos, ..s })
                }
            },
            Instruction::Output => {
                if dp_in_bounds(s) {
                    StepResult::Next(
                        MachineState {
                            output: s.output.push(s.mem[s.dp as int]),
                            ip: s.ip + 1,
                            ..s
                        },
                    )
                } else {
                    StepResult::Error(oob_error(s), s)
                }
            },
            Instruction::Jump { index, direction } => {
                if dp_in_bounds(s) {
                    let cell = s.mem[s.dp as int];
                    let taken = (direction == Direction::Forward && cell == 0) || (direction
                        == Direction::Backward && cell != 0);
                    StepResult::Next(
                        MachineState { ip: if taken { index as int } else { s.ip + 1 }, ..s },
                    )
                } else {
                    StepResult::Error(oob_error(s), s)
                }
            },
        }
    }
}

/// The machine after `n` steps: still running (`Next`), halted, or failed.
/// Halting and failing are absorbing.
pub open spec fn run_n(p: Seq<Instruction>, s: MachineState, n: nat) -> StepResult
    decreases n,
{
    if n == 0 {
        StepResult::Next(s)
    } else {
        match run_n(p, s, (n - 1) as nat) {
            StepResult::Next(s2) => step_spec(p, s2),
            done => done,
        }
    }
}

/// The machine halts or fails within `n` steps.
pub open spec fn halts_within(p: Seq<Instruction>, s: MachineState, n: nat) -> bool {
    !(run_n(p, s, n) is Next)
}

/// The machine eventually halts or fails.
pub open spec fn terminates(p: Seq<Instruction>, s: MachineState) -> bool {
    exists|n: nat| halts_within(p, s, n)
}

/// Once the machine has halted or failed, further steps change nothing.
pub proof fn lemma_run_n_stable(p: Seq<Instruction>, s: MachineState, n: nat, m: nat)
    requires
        n <= m,
        !(run_n(p, s, n) is Next),
    ensures
        run_n(p, s, m) == run_n(p, s, n),
    decreases m - n,
{
    if n < m {
        lemma_run_n_stable(p, s, n, (m - 1) as nat);
    }
}

/// A machine still running after `m` steps was running at every earlier step.
pub proof fn lemma_run_n_next_prefix(p: Seq<Instruction>, s: MachineState, n: nat, m: nat)
    requires
        n <= m,
        run_n(p, s, m) is Next,
    ensures
        run_n(p, s, n) is Next,
{
    if !(run_n(p, s, n) is Next) {
        lemma_run_n_stable(p, s, n, m);
    }
}

/// Executes a program against an in-memory input stream, collecting its
/// output.
pub struct Interpreter {
    pub program: Vec<Instruction>,
    pub data_memory: Vec<u8>,
    pub data_pointer: isize,
    pub instruction_pointer: usize,
    pub input: Vec<u8>,
    pub input_pos: usize,
    pub output: Vec<u8>,
}

impl Interpreter {
    /// The machine state this interpreter is in.
    pub open spec fn state(self) -> MachineState {
        MachineState {
            mem: self.data_memory@,
            dp: self.data_pointer,
            ip: self.instruction_pointer as int,
            input: self.input@,
            in_pos: self.input_pos as int,
            output: self.output@,
        }
    }

    /// The program this interpreter runs.
    pub open spec fn prog(self) -> Seq<Instruction> {
        self.program@
    }

    /// The interpreter's internal invariant: the cell array has its fixed
    /// size and the input position never passes the end of the stream.
    pub open spec fn wf(self) -> bool {
        &&& self.data_memory@.len() == MEMORY_SIZE
        &&& self.input_pos <= self.input@.len()
    }

    /// A fresh interpreter for `program`: zeroed cells, empty input stream.
    pub fn new(program: Vec<Instruction>) -> (r: Interpreter)
        ensures
            r.wf(),
            r.prog() == program@,
            r.state() == init_state(Seq::<u8>::empty()),
    {
        let mut data_memory: Vec<u8> = Vec::new();
        let mut i: usize = 0;
        while i < MEMORY_SIZE
            invariant
                i <= MEMORY_SIZE,
                data_memory@.len() == i,
                forall|k: int| 0 <= k < i ==> data_memory@[k] == 0u8,
            decreases MEMORY_SIZE - i,
        {
            data_memory.push(0);
            i = i + 1;
        }
        proof {
            assert(data_memory@ =~= init_state(Seq::<u8>::empty()).mem);
        }
        let r = Interpreter {
            program,
            data_memory,
            data_pointer: 0,
            instruction_pointer: 0,
            input: Vec::new(),
            input_pos: 0,
            output: Vec::new(),
        };
        proof {
            assert(r.state() =~= init_state(Seq::<u8>::empty()));
        }
        r
    }

    /// Replaces the input stream, rewinding to its start.
    pub fn set_input(&mut self, input: Vec<u8>)
        requires
            old(self).wf(),
        ensures
            final(self).wf(),
            final(self).prog() == old(self).prog(),
            final(self).state() == (MachineState { input: input@, in_pos: 0, ..old(self).state() }),
    {
        self.input = input;
        self.input_pos = 0;
    }

    /// The bytes the program has written so far.
    pub fn output(&self) -> (r: &Vec<u8>)
        ensures
            r@ == self.state().output,
    {
        &self.output
    }

    /// The cursor as a cell index, or the out-of-bounds error it stands for.
    #[inline]
    fn get_data_index(&self) -> (r: Result<usize, InterpreterError>)
        ensures
            dp_in_bounds(self.state()) ==> r == Ok::<usize, InterpreterError>(
                self.data_pointer as usize,
            ),
            !dp_in_bounds(self.state()) ==> r == Err::<usize, InterpreterError>(
                oob_error(self.state()),
            ),
    {
        if self.data_pointer >= 0 && (self.data_pointer as usize) < self.data_memory.len() {
            Ok(self.data_pointer as usize)
        } else {
            Err(
                InterpreterError::DataIndexOutOfBounds {
                    index: self.data_pointer,
                    array_size: self.data_memory.len(),
                },
            )
        }
    }

    /// Performs one fetch-execute step, exactly as [`step_spec`] describes
    /// it. Returns `Ok(true)` when the instruction pointer has run past the
    /// program.
    #[must_use]
    pub fn step(&mut self) -> (r: Result<bool, InterpreterError>)
        requires
            old(self).wf(),
        ensures
            final(self).wf(),
            final(self).prog() == old(self).prog(),
            match step_spec(old(self).prog(), old(self).state()) {
                StepResult::Halted(s) => r == Ok::<bool, InterpreterError>(true)
                    && final(self).state() == s,
                StepResult::Next(s) => r == Ok::<bool, InterpreterError>(false)
                    && final(self).state() == s,
                StepResult::Error(e, s) => r == Err::<bool, InterpreterError>(e)
                    && final(self).state() == s,
            },
    {
        if self.instruction_pointer < self.program.len() {
            let ins = self.program[self.instruction_pointer];
            match ins {
                Instruction::AddPointer(val) => {
                    self.data_pointer = self.data_pointer.wrapping_add(val);
                },
                Instruction::AddData(val) => {
                    let data_index = match self.get_data_index() {
                        Ok(i) => i,
                        Err(e) => {
                            return Err(e);
                        },
                    };
                    let cell = self.data_memory[data_index];
                    self.data_memory.set(data_index, cell.wrapping_add_signed(val));
                },
                Instruction::Input => {
                    let byte: u8 = if self.input_pos < self.input.len() {
                        let b = self.input[self.input_pos];
                        self.input_pos = self.input_pos + 1;
                        b
                    } else {
                        0
                    };
                    let data_index = match self.get_data_index() {
                        Ok(i) => i,
                        Err(e) => {
                            return Err(e);
                        },
                    };
                    self.data_memory.set(data_index, byte);
                },
                Instruction::Output => {
                    let data_index = match self.get_data_index() {
                        Ok(i) => i,
                        Err(e) => {
                            return Err(e);
                        },
                    };
                    let cell = self.data_memory[data_index];
                    self.output.push(cell);
                },
                Instruction::Jump { index, direction } => {
                    let data_index = match self.get_data_index() {
                        Ok(i) => i,
                        Err(e) => {
                            return Err(e);
                        },
                    };
                    let cell = self.data_memory[data_index];
                    let taken = match direction {
                        Direction::Forward => cell == 0,
                        Direction::Backward => cell != 0,
                    };
                    if taken {
                        self.instruction_pointer = index;
                    } else {
                        self.instruction_pointer = self.instruction_pointer + 1;
                    }
                    return Ok(false);
                },
            }
            self.instruction_pointer = self.instruction_pointer + 1;
            Ok(false)
        } else {
            Ok(true)
        }
    }

    /// Steps the machine until it halts or fails. The result and the final
    /// state are exactly those that iterating [`step_spec`] reaches.
    pub fn run(&mut self) -> (r: Result<(), InterpreterError>)
        requires
            old(self).wf(),
            terminates(old(self).prog(), old(self).state()),
        ensures
            final(self).wf(),
            final(self).prog() == old(self).prog(),
            match r {
                Ok(()) => exists|n: nat|
                    run_n(old(self).prog(), old(self).state(), n) == StepResult::Halted(
                        final(self).state(),
                    ),
                Err(e) => exists|n: nat|
                    run_n(old(self).prog(), old(self).state(), n) == StepResult::Error(
                        e,
                        final(self).state(),
                    ),
            },
    {
        let ghost p = self.prog();
        let ghost s0 = self.state();
        let ghost fuel = choose|n: nat| halts_within(p, s0, n);
        let ghost mut k: nat = 0;
        loop
            invariant
                self.wf(),
                p == old(self).prog(),
                s0 == old(self).state(),
                self.prog() == p,
                run_n(p, s0, k) == StepResult::Next(self.state()),
                halts_within(p, s0, fuel),
                k <= fuel,
            decreases fuel - k,
        {
            let ghost pre = self.state();
            let r = self.step();
            proof {
                k = k + 1nat;
                assert(run_n(p, s0, k) == step_spec(p, pre));
            }
            match r {
                Ok(done) => {
                    if done {
                        proof {
                            assert(run_n(p, s0, k) == StepResult::Halted(self.state()));
                        }
                        return Ok(());
                    }
                },
                Err(e) => {
                    proof {
                        assert(run_n(p, s0, k) == StepResult::Error(e, self.state()));
                    }
                    return Err(e);
                },
            }
            proof {
                // The machine is still running after k steps, so the halting
                // bound has not been reached yet.
                assert(k != fuel);
            }
        }
    }
}

} // verus!
