//! The executable interpreter, proved against the model in [`crate::semantics`].

use vstd::prelude::*;

use crate::laws::lemma_resolution_bijective;
use crate::semantics::BfError;
use crate::semantics::RunOutcome;
use crate::semantics::State;
use crate::semantics::lemma_run_n_extend;
use crate::semantics::lemma_run_n_stable;
use crate::semantics::run_n;
use crate::semantics::step;
use crate::semantics::instr_effect;
use crate::semantics::is_bracket;
use crate::semantics::jump_seq;
use crate::semantics::resolve_from;
use crate::semantics::resolve_spec;
use crate::semantics::OP_CLOSE;
use crate::semantics::OP_DEC;
use crate::semantics::OP_IN;
use crate::semantics::OP_INC;
use crate::semantics::OP_LEFT;
use crate::semantics::OP_OPEN;
use crate::semantics::OP_OUT;
use crate::semantics::OP_RIGHT;
use crate::semantics::TAPE_LEN;
use crate::semantics::init_state;

verus! {

/// The interpreter: a fixed tape of 30,000 byte cells, a data pointer, a
/// program counter, the jump table built by bracket resolution, and the
/// modelled input and output streams of the current run.
pub struct Bf {
    /// Program counter: index of the next instruction byte.
    pub pc: usize,
    /// The tape cells.
    pub tape: Vec<u8>,
    /// Data pointer: index of the current tape cell.
    pub ptr: usize,
    /// Open brackets still waiting for a partner during resolution.
    pub stack: Vec<usize>,
    /// Jump table: at every bracket position, the index of its partner.
    pub braces: Vec<usize>,
    /// The whole input stream of the current run.
    pub input: Vec<u8>,
    /// How many input bytes have been consumed.
    pub in_pos: usize,
    /// The output emitted so far.
    pub output: Vec<u8>,
}

impl View for Bf {
    type V = State;

    open spec fn view(&self) -> State {
        State {
            pc: self.pc as nat,
            ptr: self.ptr as nat,
            tape: self.tape@,
            input: self.input@,
            in_pos: self.in_pos as nat,
            output: self.output@,
        }
    }
}

impl Bf {
    /// A fresh machine: zeroed tape, pointers at zero, empty streams.
    pub fn new() -> (r: Bf)
        ensures
            r@ == init_state(0, Seq::new(TAPE_LEN as nat, |i: int| 0u8), Seq::empty()),
            r.braces@ == Seq::<usize>::empty(),
            r.stack@ == Seq::<usize>::empty(),
    {
        let mut tape: Vec<u8> = Vec::new();
        while tape.len() < TAPE_LEN
            invariant
                tape@.len() <= TAPE_LEN,
                forall|i: int| 0 <= i < tape@.len() ==> tape@[i] == 0u8,
            decreases TAPE_LEN - tape.len(),
        {
            tape.push(0);
        }
        assert(tape@ =~= Seq::new(TAPE_LEN as nat, |i: int| 0u8));
        Bf {
            pc: 0,
            tape,
            ptr: 0,
            stack: Vec::new(),
            braces: Vec::new(),
            input: Vec::new(),
            in_pos: 0,
            output: Vec::new(),
        }
    }

    /// Bracket resolution: one left-to-right scan that fills the jump table,
    /// exactly as [`resolve_spec`] describes.  Everything else about the
    /// machine is left untouched.
    pub fn resolve(&mut self, instructions: &[u8]) -> (r: Result<(), BfError>)
        ensures
            final(self).tape@ == old(self).tape@,
            final(self).ptr == old(self).ptr,
            final(self).input@ == old(self).input@,
            final(self).in_pos == old(self).in_pos,
            final(self).output@ == old(self).output@,
            (match resolve_spec(instructions@) {
                Ok(m) => r == Ok::<(), BfError>(())
                    && final(self).braces@ == jump_seq(m, instructions@.len()),
                Err(e) => r == Err::<(), BfError>(e),
            }),
    {
        self.stack.clear();
        self.braces.clear();
        while self.braces.len() < instructions.len()
            invariant
                self.braces@.len() <= instructions@.len(),
                forall|k: int| 0 <= k < self.braces@.len() ==> self.braces@[k] == 0usize,
                self.stack@ == Seq::<usize>::empty(),
                self.tape@ == old(self).tape@,
                self.ptr == old(self).ptr,
                self.input@ == old(self).input@,
                self.in_pos == old(self).in_pos,
                self.output@ == old(self).output@,
            decreases instructions.len() - self.braces.len(),
        {
            self.braces.push(0);
        }
        let ghost mut m: Map<int, int> = Map::empty();
        proof {
            assert(self.braces@ =~= jump_seq(m, instructions@.len()));
        }
        self.pc = 0;
        while self.pc < instructions.len()
            invariant
                self.pc <= instructions.len(),
                self.braces@ == jump_seq(m, instructions@.len()),
                forall|k: int| 0 <= k < self.stack@.len() ==> (#[trigger] self.stack@[k]) < self.pc,
                resolve_spec(instructions@) == resolve_from(
                    instructions@,
                    self.pc as int,
                    self.stack@,
                    m,
                ),
                self.tape@ == old(self).tape@,
                self.ptr == old(self).ptr,
                self.input@ == old(self).input@,
                self.in_pos == old(self).in_pos,
                self.output@ == old(self).output@,
            decreases instructions.len() - self.pc,
        {
            let ins = instructions[self.pc];
            if ins == OP_OPEN {
                self.stack.push(self.pc);
            } else if ins == OP_CLOSE {
                match self.stack.pop() {
                    Some(open) => {
                        self.braces.set(self.pc, open);
                        self.braces.set(open, self.pc);
                        proof {
                            m = m.insert(self.pc as int, open as int).insert(
                                open as int,
                                self.pc as int,
                            );
                            assert(self.braces@ =~= jump_seq(m, instructions@.len()));
                        }
                    },
                    None => {
                        return Err(BfError::UnmatchedClose(self.pc));
                    },
                }
            }
            self.pc = self.pc + 1;
        }
        match self.stack.pop() {
            Some(open) => Err(BfError::UnmatchedOpen(open)),
            None => Ok(()),
        }
    }

    /// One instruction's effect on the machine, exactly as [`instr_effect`]
    /// describes: wrapping pointer moves, wrapping cell arithmetic, the
    /// modelled streams for `.` and `,` (end of input stores a zero), and a
    /// jump-table lookup for the two brackets.  An instruction that needs
    /// the current cell while the data pointer is outside the tape is
    /// rejected and changes nothing.  The program counter is not advanced
    /// here; the run loop does that after every instruction.
    pub fn execute(&mut self, instruction: u8) -> (r: Result<(), BfError>)
        requires
            is_bracket(instruction) ==> old(self).pc < old(self).braces@.len(),
        ensures
            final(self).braces@ == old(self).braces@,
            final(self).stack@ == old(self).stack@,
            (match instr_effect(instruction, old(self).braces@, old(self)@) {
                Some(t) => r == Ok::<(), BfError>(()) && final(self)@ == t,
                None => r == Err::<(), BfError>(BfError::PointerOutOfRange)
                    && final(self)@ == old(self)@,
            }),
    {
        if instruction == OP_RIGHT {
            self.ptr = if self.ptr == usize::MAX {
                0
            } else {
                self.ptr + 1
            };
        } else if instruction == OP_LEFT {
            self.ptr = if self.ptr == 0 {
                usize::MAX
            } else {
                self.ptr - 1
            };
        } else if instruction == OP_INC {
            if self.ptr >= self.tape.len() {
                return Err(BfError::PointerOutOfRange);
            }
            let v = self.tape[self.ptr];
            self.tape.set(self.ptr, if v == 255 { 0 } else { v + 1 });
        } else if instruction == OP_DEC {
            if self.ptr >= self.tape.len() {
                return Err(BfError::PointerOutOfRange);
            }
            let v = self.tape[self.ptr];
            self.tape.set(self.ptr, if v == 0 { 255 } else { v - 1 });
        } else if instruction == OP_OUT {
            if self.ptr >= self.tape.len() {
                return Err(BfError::PointerOutOfRange);
            }
            let v = self.tape[self.ptr];
            self.output.push(v);
        } else if instruction == OP_IN {
            if self.ptr >= self.tape.len() {
                return Err(BfError::PointerOutOfRange);
            }
            if self.in_pos < self.input.len() {
                let b = self.input[self.in_pos];
                self.in_pos = self.in_pos + 1;
                self.tape.set(self.ptr, b);
            } else {
                self.tape.set(self.ptr, 0);
            }
        } else if instruction == OP_OPEN {
            if self.ptr >= self.tape.len() {
                return Err(BfError::PointerOutOfRange);
            }
            if self.tape[self.ptr] == 0 {
                self.pc = self.braces[self.pc];
            }
        } else if instruction == OP_CLOSE {
            if self.ptr >= self.tape.len() {
                return Err(BfError::PointerOutOfRange);
            }
            if self.tape[self.ptr] != 0 {
                self.pc = self.braces[self.pc];
            }
        }
        Ok(())
    }

    /// Run a program: resolve its brackets, then execute from its first
    /// byte until the program counter falls off the end, an instruction is
    /// rejected for leaving the tape, or `fuel` instructions have executed.
    ///
    /// The tape and the data pointer are taken over as they are (a fresh
    /// machine has a zeroed tape); the streams start afresh: `input` is the
    /// whole input of the run and the output starts empty.  The result is
    /// `Ok` exactly when execution halts within the budget, and each error
    /// names its cause; the final machine is, in every case, the very state
    /// the model assigns to the run.
    #[verifier::loop_isolation(false)]
    pub fn run(&mut self, instructions: &[u8], input: &[u8], fuel: u64) -> (r: Result<
        (),
        BfError,
    >)
        ensures
            (match resolve_spec(instructions@) {
                Err(e) => {
                    &&& r == Err::<(), BfError>(e)
                    &&& final(self)@.tape == old(self)@.tape
                    &&& final(self)@.ptr == old(self)@.ptr
                    &&& final(self)@.input == input@
                    &&& final(self)@.in_pos == 0
                    &&& final(self)@.output == Seq::<u8>::empty()
                },
                Ok(m) => {
                    &&& final(self).braces@ == jump_seq(m, instructions@.len())
                    &&& (match run_n(
                        instructions@,
                        jump_seq(m, instructions@.len()),
                        init_state(old(self)@.ptr, old(self)@.tape, input@),
                        fuel as nat,
                    ) {
                        RunOutcome::Halted(t) => r == Ok::<(), BfError>(()) && final(self)@ == t,
                        RunOutcome::Faulted(t) => r == Err::<(), BfError>(
                            BfError::PointerOutOfRange,
                        ) && final(self)@ == t,
                        RunOutcome::Running(t) => r == Err::<(), BfError>(
                            BfError::StepLimitExceeded,
                        ) && final(self)@ == t,
                    })
                },
            }),
    {
        let prog_len = instructions.len();
        proof {
            assert(instructions@.len() == prog_len as nat);
        }
        self.in_pos = 0;
        self.output = Vec::new();
        self.input.clear();
        let mut i: usize = 0;
        while i < input.len()
            invariant
                i <= input.len(),
                self.input@ == input@.subrange(0, i as int),
                self.in_pos == 0,
                self.output@ == Seq::<u8>::empty(),
                self.tape@ == old(self).tape@,
                self.ptr == old(self).ptr,
            decreases input.len() - i,
        {
            self.input.push(input[i]);
            i = i + 1;
            proof {
                assert(self.input@ =~= input@.subrange(0, i as int));
            }
        }
        proof {
            assert(self.input@ =~= input@);
        }
        match self.resolve(instructions) {
            Err(e) => {
                return Err(e);
            },
            Ok(()) => {},
        }
        let ghost m = resolve_spec(instructions@)->Ok_0;
        let ghost jt = self.braces@;
        let ghost init = init_state(old(self)@.ptr, old(self)@.tape, input@);
        self.pc = 0;
        proof {
            lemma_resolution_bijective(instructions@, m);
            assert(self@ =~= init);
        }
        let mut steps: u64 = 0;
        while self.pc < instructions.len()
            invariant
                steps <= fuel,
                instructions@.len() <= usize::MAX,
                resolve_spec(instructions@) == Ok::<Map<int, int>, BfError>(m),
                self.braces@ == jt,
                jt == jump_seq(m, instructions@.len()),
                run_n(instructions@, jt, init, steps as nat) == (if self@.pc
                    < instructions@.len() {
                    RunOutcome::Running(self@)
                } else {
                    RunOutcome::Halted(self@)
                }),
            decreases fuel - steps,
        {
            if steps == fuel {
                return Err(BfError::StepLimitExceeded);
            }
            let ins = instructions[self.pc];
            let ghost pre = self@;
            proof {
                lemma_resolution_bijective(instructions@, m);
                assert(is_bracket(ins) ==> m.dom().contains(pre.pc as int));
            }
            match self.execute(ins) {
                Err(e) => {
                    proof {
                        lemma_run_n_extend(instructions@, jt, init, steps as nat, pre);
                        lemma_run_n_stable(
                            instructions@,
                            jt,
                            init,
                            (steps + 1) as nat,
                            fuel as nat,
                        );
                    }
                    return Err(e);
                },
                Ok(()) => {},
            }
            proof {
                assert(is_bracket(ins) ==> m.dom().contains(m[pre.pc as int]));
                assert(self@.pc < instructions@.len());
            }
            self.pc = self.pc + 1;
            proof {
                lemma_run_n_extend(instructions@, jt, init, steps as nat, pre);
                assert(step(instructions@, jt, pre) == Some(self@));
            }
            steps = steps + 1;
        }
        proof {
            lemma_run_n_stable(instructions@, jt, init, steps as nat, fuel as nat);
        }
        Ok(())
    }
}

} // verus!
