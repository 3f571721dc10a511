//! Mathematical model of the tape machine.
//!
//! The model has three parts: the effect of a single instruction byte on a
//! machine state ([`instr_effect`], [`step`]), bounded small-step execution
//! ([`run_n`]), and bracket resolution ([`resolve_spec`]), which pairs every
//! `[` with its matching `]` in a single left-to-right scan.

use vstd::prelude::*;

verus! {

/// Number of cells on the data tape.
pub const TAPE_LEN: usize = 30000;

/// Instruction byte `>`: move the data pointer one cell to the right.
pub const OP_RIGHT: u8 = 62;

/// Instruction byte `<`: move the data pointer one cell to the left.
pub const OP_LEFT: u8 = 60;

/// Instruction byte `+`: increment the current cell modulo 256.
pub const OP_INC: u8 = 43;

/// Instruction byte `-`: decrement the current cell modulo 256.
pub const OP_DEC: u8 = 45;

/// Instruction byte `.`: append the current cell to the output.
pub const OP_OUT: u8 = 46;

/// Instruction byte `,`: read one input byte into the current cell.
pub const OP_IN: u8 = 44;

/// Instruction byte `[`: jump past the matching `]` if the cell is zero.
pub const OP_OPEN: u8 = 91;

/// Instruction byte `]`: jump back to the matching `[` if the cell is nonzero.
pub const OP_CLOSE: u8 = 93;

/// Everything a run can fail with.
#[derive(Clone, Copy, Debug, PartialEq, Eq, Structural)]
pub enum BfError {
    /// A `[` at this byte offset was still open when the program ended.
    UnmatchedOpen(usize),
    /// A `]` at this byte offset has no opening partner.
    UnmatchedClose(usize),
    /// An instruction tried to read or write a cell outside the tape.
    PointerOutOfRange,
    /// The step budget ran out before the program halted.
    StepLimitExceeded,
}

/// The observable state of a run: the machine registers together with the
/// modelled input and output streams.
#[verifier::ext_equal]
pub struct State {
    /// Program counter: index of the next instruction byte.
    pub pc: nat,
    /// Data pointer: index of the current tape cell.
    pub ptr: nat,
    /// The tape cells.
    pub tape: Seq<u8>,
    /// The whole input stream.
    pub input: Seq<u8>,
    /// How many input bytes have been consumed.
    pub in_pos: nat,
    /// The output emitted so far.
    pub output: Seq<u8>,
}

/// The state at the start of a run: program counter at zero, no input
/// consumed, no output emitted.
pub open spec fn init_state(ptr: nat, tape: Seq<u8>, input: Seq<u8>) -> State {
    State { pc: 0, ptr, tape, input, in_pos: 0, output: Seq::empty() }
}

pub open spec fn is_open(b: u8) -> bool {
    b == OP_OPEN
}

pub open spec fn is_close(b: u8) -> bool {
    b == OP_CLOSE
}

pub open spec fn is_bracket(b: u8) -> bool {
    is_open(b) || is_close(b)
}

/// Whether a byte is one of the eight instructions; every other byte is a
/// comment.
pub open spec fn is_instr(b: u8) -> bool {
    ||| b == OP_RIGHT
    ||| b == OP_LEFT
    ||| b == OP_INC
    ||| b == OP_DEC
    ||| b == OP_OUT
    ||| b == OP_IN
    ||| b == OP_OPEN
    ||| b == OP_CLOSE
}

/// The data pointer wraps over the full unsigned machine-word range.
pub open spec fn wrap_inc(p: nat) -> nat {
    if p == usize::MAX { 0 } else { p + 1 }
}

pub open spec fn wrap_dec(p: nat) -> nat {
    if p == 0 { usize::MAX as nat } else { (p - 1) as nat }
}

/// Cell values wrap modulo 256.
pub open spec fn cell_inc(v: u8) -> u8 {
    if v == 255 { 0 } else { (v + 1) as u8 }
}

pub open spec fn cell_dec(v: u8) -> u8 {
    if v == 0 { 255 } else { (v - 1) as u8 }
}

/// The effect of one instruction byte on the state, before the program
/// counter advances.  `jump` is the resolved jump table: at a bracket the
/// program counter is replaced by the partner's index (the increment that
/// follows then lands just past it).  `None` means the instruction needs the
/// current cell but the data pointer is outside the tape; such an access is
/// rejected.
pub open spec fn instr_effect(ins: u8, jump: Seq<usize>, s: State) -> Option<State>
    recommends
        is_bracket(ins) ==> s.pc < jump.len(),
{
    if ins == OP_RIGHT {
        Some(State { ptr: wrap_inc(s.ptr), ..s })
    } else if ins == OP_LEFT {
        Some(State { ptr: wrap_dec(s.ptr), ..s })
    } else if !is_instr(ins) {
        Some(s)
    } else if s.ptr >= s.tape.len() {
        None
    } else if ins == OP_INC {
        Some(State { tape: s.tape.update(s.ptr as int, cell_inc(s.tape[s.ptr as int])), ..s })
    } else if ins == OP_DEC {
        Some(State { tape: s.tape.update(s.ptr as int, cell_dec(s.tape[s.ptr as int])), ..s })
    } else if ins == OP_OUT {
        Some(State { output: s.output.push(s.tape[s.ptr as int]), ..s })
    } else if ins == OP_IN {
        if s.in_pos < s.input.len() {
            Some(
                State {
                    tape: s.tape.update(s.ptr as int, s.input[s.in_pos as int]),
                    in_pos: s.in_pos + 1,
                    ..s
                },
            )
        } else {
            Some(State { tape: s.tape.update(s.ptr as int, 0), ..s })
        }
    } else if ins == OP_OPEN {
        if s.tape[s.ptr as int] == 0 {
            Some(State { pc: jump[s.pc as int] as nat, ..s })
        } else {
            Some(s)
        }
    } else {
        if s.tape[s.ptr as int] != 0 {
            Some(State { pc: jump[s.pc as int] as nat, ..s })
        } else {
            Some(s)
        }
    }
}

/// One full step: the effect of the instruction at the program counter,
/// followed by the unconditional increment of the program counter.
pub open spec fn step(prog: Seq<u8>, jump: Seq<usize>, s: State) -> Option<State>
    recommends
        s.pc < prog.len(),
{
    match instr_effect(prog[s.pc as int], jump, s) {
        Some(t) => Some(State { pc: t.pc + 1, ..t }),
        None => None,
    }
}

/// Where a bounded run ended up.
#[verifier::ext_equal]
pub enum RunOutcome {
    /// The program counter reached the end of the program.
    Halted(State),
    /// An instruction was rejected for touching a cell outside the tape;
    /// the state is the one just before that instruction.
    Faulted(State),
    /// The step budget ran out; the state is where execution stopped.
    Running(State),
}

/// Execution for at most `n` steps from state `s`.
pub open spec fn run_n(prog: Seq<u8>, jump: Seq<usize>, s: State, n: nat) -> RunOutcome
    decreases n,
{
    if s.pc >= prog.len() {
        RunOutcome::Halted(s)
    } else if n == 0 {
        RunOutcome::Running(s)
    } else {
        match step(prog, jump, s) {
            Some(t) => run_n(prog, jump, t, (n - 1) as nat),
            None => RunOutcome::Faulted(s),
        }
    }
}

/// A halted or faulted outcome does not change when the budget grows.
pub proof fn lemma_run_n_stable(prog: Seq<u8>, jump: Seq<usize>, s: State, n1: nat, n2: nat)
    requires
        n1 <= n2,
        !(run_n(prog, jump, s, n1) is Running),
    ensures
        run_n(prog, jump, s, n2) == run_n(prog, jump, s, n1),
    decreases n1,
{
    if s.pc >= prog.len() {
    } else {
        match step(prog, jump, s) {
            Some(t) => lemma_run_n_stable(prog, jump, t, (n1 - 1) as nat, (n2 - 1) as nat),
            None => {},
        }
    }
}

/// Extending a run that is still going by one step takes exactly one more
/// step from the state it stopped in.
pub proof fn lemma_run_n_extend(prog: Seq<u8>, jump: Seq<usize>, s: State, n: nat, cur: State)
    requires
        run_n(prog, jump, s, n) == RunOutcome::Running(cur),
    ensures
        cur.pc < prog.len(),
        run_n(prog, jump, s, n + 1) == (match step(prog, jump, cur) {
            Some(t) => if t.pc >= prog.len() {
                RunOutcome::Halted(t)
            } else {
                RunOutcome::Running(t)
            },
            None => RunOutcome::Faulted(cur),
        }),
    decreases n,
{
    if s.pc >= prog.len() {
    } else if n == 0 {
        assert(cur == s);
        match step(prog, jump, s) {
            Some(t) => {
                assert(run_n(prog, jump, s, 1) == run_n(prog, jump, t, 0));
            },
            None => {
                assert(run_n(prog, jump, s, 1) == RunOutcome::Faulted(s));
            },
        }
    } else {
        match step(prog, jump, s) {
            Some(t) => lemma_run_n_extend(prog, jump, t, (n - 1) as nat, cur),
            None => {},
        }
    }
}

/// `+1` for `[`, `-1` for `]`, `0` for everything else.
pub open spec fn bracket_delta(b: u8) -> int {
    if is_open(b) {
        1
    } else if is_close(b) {
        -1
    } else {
        0
    }
}

/// Number of `[` minus number of `]` among the first `k` program bytes.
pub open spec fn depth(prog: Seq<u8>, k: int) -> int
    decreases k,
{
    if k <= 0 {
        0
    } else {
        depth(prog, k - 1) + bracket_delta(prog[k - 1])
    }
}

/// Bracket resolution from position `i` onward, carrying the stack of open
/// brackets still waiting for a partner and the pairs found so far.  On `[`
/// the index is pushed; on `]` the top of the stack is popped and the two
/// indices are mapped to each other; a `]` with an empty stack and a stack
/// left non-empty at the end are the two failure cases, each reporting the
/// offending byte offset.
pub open spec fn resolve_from(
    prog: Seq<u8>,
    i: int,
    stack: Seq<usize>,
    jump: Map<int, int>,
) -> Result<Map<int, int>, BfError>
    decreases prog.len() - i,
{
    if i < 0 || i >= prog.len() {
        if stack.len() > 0 {
            Err(BfError::UnmatchedOpen(stack.last()))
        } else {
            Ok(jump)
        }
    } else if is_open(prog[i]) {
        resolve_from(prog, i + 1, stack.push(i as usize), jump)
    } else if is_close(prog[i]) {
        if stack.len() == 0 {
            Err(BfError::UnmatchedClose(i as usize))
        } else {
            resolve_from(
                prog,
                i + 1,
                stack.drop_last(),
                jump.insert(i, stack.last() as int).insert(stack.last() as int, i),
            )
        }
    } else {
        resolve_from(prog, i + 1, stack, jump)
    }
}

/// Bracket resolution of a whole program.
pub open spec fn resolve_spec(prog: Seq<u8>) -> Result<Map<int, int>, BfError> {
    resolve_from(prog, 0, Seq::empty(), Map::empty())
}

/// The jump table as a sequence of length `len`: the partner index at every
/// resolved bracket position, zero everywhere else.
pub open spec fn jump_seq(m: Map<int, int>, len: nat) -> Seq<usize> {
    Seq::new(len, |i: int| if m.dom().contains(i) { m[i] as usize } else { 0usize })
}

} // verus!
