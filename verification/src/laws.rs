//! General laws of the model.
//!
//! Bracket resolution: a successful scan pairs the brackets bijectively
//! ([`lemma_resolution_bijective`]), properly nested
//! ([`lemma_resolution_well_nested`]), and the three outcomes are exactly
//! characterised by the bracket depth of the program's prefixes
//! ([`lemma_resolution_outcome`], [`lemma_resolution_unmatched_open`],
//! [`lemma_resolution_unmatched_close`]).
//!
//! Execution: single steps touch nothing but the current cell
//! ([`lemma_step_frame`]), `+`/`-` and `>`/`<` undo each other
//! ([`lemma_inc_dec_identity`], [`lemma_right_left_identity`]), 256
//! increments wrap a cell back to where it started
//! ([`lemma_cell_inc_wraps`]), brackets over a zero cell pass straight
//! through ([`lemma_zero_guard_straight_through`]), and programs with no
//! instruction bytes halt without touching anything
//! ([`lemma_empty_program_halts`], [`lemma_comments_only_halts`]).

use vstd::prelude::*;

use crate::semantics::BfError;
use crate::semantics::State;
use crate::semantics::RunOutcome;
use crate::semantics::bracket_delta;
use crate::semantics::cell_dec;
use crate::semantics::cell_inc;
use crate::semantics::depth;
use crate::semantics::instr_effect;
use crate::semantics::is_bracket;
use crate::semantics::is_close;
use crate::semantics::is_instr;
use crate::semantics::is_open;
use crate::semantics::resolve_from;
use crate::semantics::resolve_spec;
use crate::semantics::OP_DEC;
use crate::semantics::OP_INC;
use crate::semantics::OP_LEFT;
use crate::semantics::OP_RIGHT;
use crate::semantics::run_n;
use crate::semantics::step;
use crate::semantics::wrap_dec;
use crate::semantics::wrap_inc;

verus! {

/// Position `a` opens a resolved pair: it is mapped, and its partner lies
/// to its right.
pub open spec fn paired_in(m: Map<int, int>, a: int) -> bool {
    m.dom().contains(a) && a < m[a]
}

/// Position `k` is on the resolution stack.
pub open spec fn on_stack(stack: Seq<usize>, k: int) -> bool {
    exists|j: int| 0 <= j < stack.len() && (#[trigger] stack[j]) as int == k
}

/// The resolved pairs are bijective: the domain is exactly the bracket
/// positions, the map is an involution, and every `[` points right to a
/// `]` while every `]` points left to a `[`.
pub open spec fn pairing_ok(prog: Seq<u8>, m: Map<int, int>) -> bool {
    &&& forall|k: int| #[trigger] m.dom().contains(k) ==> 0 <= k < prog.len() && is_bracket(
        prog[k],
    )
    &&& forall|k: int|
        0 <= k < prog.len() && is_bracket(#[trigger] prog[k]) ==> m.dom().contains(k)
    &&& forall|k: int| #[trigger] m.dom().contains(k) ==> m.dom().contains(m[k]) && m[m[k]] == k
    &&& forall|k: int| #[trigger] m.dom().contains(k) && is_open(prog[k]) ==> k < m[k] && is_close(
        prog[m[k]],
    )
    &&& forall|k: int| #[trigger] m.dom().contains(k) && is_close(prog[k]) ==> m[k] < k && is_open(
        prog[m[k]],
    )
}

/// Resolved pairs never cross: a pair opened inside another closes inside
/// it.
pub open spec fn nesting_ok(m: Map<int, int>) -> bool {
    forall|a: int, c: int|
        #![trigger paired_in(m, a), paired_in(m, c)]
        paired_in(m, a) && paired_in(m, c) && a < c && c < m[a] ==> m[c] < m[a]
}

/// The invariant of the resolution scan: what holds of the stack and the
/// pairs found so far when the scan has consumed the first `i` bytes.
spec fn rinv(prog: Seq<u8>, i: int, stack: Seq<usize>, m: Map<int, int>) -> bool {
    &&& prog.len() <= usize::MAX
    &&& 0 <= i <= prog.len()
    // the stack holds open brackets before `i`, in strictly increasing
    // order, none of them paired yet
    &&& forall|k: int|
        0 <= k < stack.len() ==> (#[trigger] stack[k]) < i && is_open(prog[stack[k] as int])
            && !m.dom().contains(stack[k] as int)
    &&& forall|k1: int, k2: int|
        #![trigger stack[k1], stack[k2]]
        0 <= k1 < k2 < stack.len() ==> stack[k1] < stack[k2]
    // the pairs found so far lie before `i` and already pair correctly
    &&& forall|k: int| #[trigger] m.dom().contains(k) ==> 0 <= k < i && is_bracket(prog[k])
    &&& forall|k: int| #[trigger] m.dom().contains(k) ==> 0 <= m[k] < i && m.dom().contains(m[k])
        && m[m[k]] == k
    &&& forall|k: int| #[trigger] m.dom().contains(k) && is_open(prog[k]) ==> k < m[k] && is_close(
        prog[m[k]],
    )
    &&& forall|k: int| #[trigger] m.dom().contains(k) && is_close(prog[k]) ==> m[k] < k && is_open(
        prog[m[k]],
    )
    // every bracket before `i` is paired or still on the stack
    &&& forall|k: int|
        0 <= k < i && is_bracket(#[trigger] prog[k]) ==> m.dom().contains(k) || on_stack(stack, k)
    // no waiting open bracket lies inside a finished pair
    &&& forall|a: int, k: int|
        #![trigger m.dom().contains(a), stack[k]]
        m.dom().contains(a) && 0 <= k < stack.len() ==> !(a < stack[k] && stack[k] < m[a])
    // finished pairs do not cross
    &&& nesting_ok(m)
    // the stack height is the bracket depth, which never went negative
    &&& stack.len() == depth(prog, i)
    &&& forall|k: int| 0 <= k <= i ==> #[trigger] depth(prog, k) >= 0
}

/// What each outcome of the rest of the scan guarantees, given the scan
/// invariant.
proof fn lemma_resolve_from_props(prog: Seq<u8>, i: int, stack: Seq<usize>, m: Map<int, int>)
    requires
        rinv(prog, i, stack, m),
    ensures
        (match resolve_from(prog, i, stack, m) {
            Ok(mf) => {
                &&& pairing_ok(prog, mf)
                &&& nesting_ok(mf)
                &&& depth(prog, prog.len() as int) == 0
                &&& forall|k: int| 0 <= k <= prog.len() ==> #[trigger] depth(prog, k) >= 0
            },
            Err(e) => match e {
                BfError::UnmatchedOpen(o) => {
                    &&& o < prog.len()
                    &&& is_open(prog[o as int])
                    &&& depth(prog, prog.len() as int) > 0
                    &&& forall|k: int| 0 <= k <= prog.len() ==> #[trigger] depth(prog, k) >= 0
                },
                BfError::UnmatchedClose(c) => {
                    &&& i <= c < prog.len()
                    &&& is_close(prog[c as int])
                    &&& depth(prog, c as int) == 0
                    &&& forall|k: int| 0 <= k <= c ==> #[trigger] depth(prog, k) >= 0
                },
                _ => false,
            },
        }),
    decreases prog.len() - i,
{
    if i < 0 || i >= prog.len() {
        if stack.len() > 0 {
            assert(stack[stack.len() - 1] < i && is_open(prog[stack[stack.len() - 1] as int]));
        }
    } else if is_open(prog[i]) {
        let stack2 = stack.push(i as usize);
        assert(depth(prog, i + 1) == depth(prog, i) + 1);
        assert forall|k: int|
            0 <= k < i + 1 && is_bracket(#[trigger] prog[k]) implies m.dom().contains(k)
            || on_stack(stack2, k) by {
            if k == i {
                assert(stack2[stack.len() as int] as int == k);
            } else if !m.dom().contains(k) {
                let j = choose|j: int| 0 <= j < stack.len() && (#[trigger] stack[j]) as int == k;
                assert(stack2[j] as int == k);
            }
        }
        assert(rinv(prog, i + 1, stack2, m));
        lemma_resolve_from_props(prog, i + 1, stack2, m);
    } else if is_close(prog[i]) {
        if stack.len() == 0 {
            // the scan fails right here; depth at `i` is the stack height, zero
        } else {
            let open = stack.last();
            let stack2 = stack.drop_last();
            let m2 = m.insert(i, open as int).insert(open as int, i);
            assert(depth(prog, i + 1) == depth(prog, i) - 1);
            assert(stack[stack.len() - 1] == open);
            assert(open < i && is_open(prog[open as int]) && !m.dom().contains(open as int));
            // entries below the top are smaller than the popped bracket
            assert forall|k: int| 0 <= k < stack2.len() implies (#[trigger] stack2[k]) < open by {
                assert(stack[k] < stack[stack.len() - 1]);
            }
            // the new pair repairs clause by clause
            assert forall|k: int| #[trigger] m2.dom().contains(k) implies 0 <= m2[k] < i + 1
                && m2.dom().contains(m2[k]) && m2[m2[k]] == k by {
                if k != i && k as int != open as int {
                    assert(m.dom().contains(k));
                    assert(m[k] != open as int);
                }
            }
            assert forall|k: int|
                0 <= k < i + 1 && is_bracket(#[trigger] prog[k]) implies m2.dom().contains(k)
                || on_stack(stack2, k) by {
                if k < i && !m.dom().contains(k) {
                    let j = choose|j: int| 0 <= j < stack.len() && (#[trigger] stack[j]) as int
                        == k;
                    if j < stack.len() - 1 {
                        assert(stack2[j] as int == k);
                    }
                }
            }
            // no waiting open bracket lies inside a pair of `m2`
            assert forall|a: int, k: int|
                #![trigger m2.dom().contains(a), stack2[k]]
                m2.dom().contains(a) && 0 <= k < stack2.len() implies !(a < stack2[k]
                && stack2[k] < m2[a]) by {
                assert(stack[k] < stack[stack.len() - 1]);
                if a != i && a as int != open as int {
                    assert(m.dom().contains(a));
                    assert(!(a < stack[k] && stack[k] < m[a]));
                    assert(m2[a] == m[a]);
                }
            }
            // pairs still do not cross
            assert forall|a: int, c: int|
                #![trigger paired_in(m2, a), paired_in(m2, c)]
                paired_in(m2, a) && paired_in(m2, c) && a < c && c < m2[a] implies m2[c]
                < m2[a] by {
                if a == open as int {
                    // the new pair is the outer one: `c` was resolved
                    // earlier, so it closed before `i`
                    assert(m.dom().contains(c));
                    assert(m2[c] == m[c]);
                } else if c == open as int {
                    // the popped bracket sat inside the finished pair
                    // `(a, m[a])`: impossible, the stack stays outside pairs
                    assert(m.dom().contains(a));
                    assert(!(a < stack[stack.len() - 1] && stack[stack.len() - 1] < m[a]));
                    assert(false);
                } else {
                    assert(m.dom().contains(a) && m.dom().contains(c));
                    assert(m2[a] == m[a] && m2[c] == m[c]);
                    assert(paired_in(m, a) && paired_in(m, c));
                }
            }
            assert(rinv(prog, i + 1, stack2, m2));
            lemma_resolve_from_props(prog, i + 1, stack2, m2);
        }
    } else {
        assert(depth(prog, i + 1) == depth(prog, i));
        assert(rinv(prog, i + 1, stack, m));
        lemma_resolve_from_props(prog, i + 1, stack, m);
    }
}

/// The scan invariant holds before the first byte.
proof fn lemma_rinv_init(prog: Seq<u8>)
    requires
        prog.len() <= usize::MAX,
    ensures
        rinv(prog, 0, Seq::empty(), Map::empty()),
{
    assert(depth(prog, 0) == 0);
    assert forall|k: int| 0 <= k <= 0 implies #[trigger] depth(prog, k) >= 0 by {
        assert(depth(prog, 0) == 0);
    }
}

/// Resolution of a syntactically valid program pairs its brackets
/// bijectively: the map is defined exactly at the bracket positions, it is
/// an involution, and it sends every `[` right to a `]` and every `]` left
/// to a `[`.
pub proof fn lemma_resolution_bijective(prog: Seq<u8>, m: Map<int, int>)
    requires
        prog.len() <= usize::MAX,
        resolve_spec(prog) == Ok::<Map<int, int>, BfError>(m),
    ensures
        forall|k: int| #[trigger] m.dom().contains(k) ==> 0 <= k < prog.len() && is_bracket(
            prog[k],
        ),
        forall|k: int|
            0 <= k < prog.len() && is_bracket(#[trigger] prog[k]) ==> m.dom().contains(k),
        forall|k: int| #[trigger] m.dom().contains(k) ==> m.dom().contains(m[k]) && m[m[k]] == k
            && m[k] != k,
        forall|k: int| #[trigger] m.dom().contains(k) && is_open(prog[k]) ==> k < m[k] && is_close(
            prog[m[k]],
        ),
        forall|k: int| #[trigger] m.dom().contains(k) && is_close(prog[k]) ==> m[k] < k && is_open(
            prog[m[k]],
        ),
{
    lemma_rinv_init(prog);
    lemma_resolve_from_props(prog, 0, Seq::empty(), Map::empty());
}

/// Resolved pairs nest: a pair opened strictly inside another closes
/// strictly inside it, and every bracket strictly between a pair's ends is
/// paired strictly between them.
pub proof fn lemma_resolution_well_nested(prog: Seq<u8>, m: Map<int, int>)
    requires
        prog.len() <= usize::MAX,
        resolve_spec(prog) == Ok::<Map<int, int>, BfError>(m),
    ensures
        nesting_ok(m),
        forall|a: int, k: int|
            #![trigger paired_in(m, a), prog[k]]
            paired_in(m, a) && a < k < m[a] && is_bracket(prog[k]) ==> m.dom().contains(k) && a
                < m[k] && m[k] < m[a],
{
    lemma_rinv_init(prog);
    lemma_resolve_from_props(prog, 0, Seq::empty(), Map::empty());
    lemma_resolution_bijective(prog, m);
    assert forall|a: int, k: int|
        #![trigger paired_in(m, a), prog[k]]
        paired_in(m, a) && a < k < m[a] && is_bracket(prog[k]) implies m.dom().contains(k) && a
        < m[k] && m[k] < m[a] by {
        assert(m.dom().contains(a));
        assert(m.dom().contains(k));
        if is_open(prog[k]) {
            assert(paired_in(m, k));
            assert(m[k] < m[a]);
        } else {
            let j = m[k];
            assert(m.dom().contains(j) && m[j] == k && j < k && is_open(prog[j]));
            assert(paired_in(m, j));
            if j < a {
                // pairs `(j, k)` and `(a, m[a])` would cross
                assert(m[a] < m[j]);
                assert(false);
            } else if j == a {
                assert(m[a] == k);
                assert(false);
            }
        }
    }
}

/// The three outcomes of resolution, characterised by the bracket depth of
/// the program's prefixes: success exactly when the depth never dips below
/// zero and ends at zero; an unmatched `[` exactly when it never dips below
/// zero but ends positive; an unmatched `]` exactly when it dips below zero
/// somewhere.
pub proof fn lemma_resolution_outcome(prog: Seq<u8>)
    requires
        prog.len() <= usize::MAX,
    ensures
        (resolve_spec(prog) is Ok) <==> ((forall|k: int|
            0 <= k <= prog.len() ==> #[trigger] depth(prog, k) >= 0) && depth(
            prog,
            prog.len() as int,
        ) == 0),
        (exists|o: usize| resolve_spec(prog) == Err::<Map<int, int>, BfError>(
            BfError::UnmatchedOpen(o),
        )) <==> ((forall|k: int| 0 <= k <= prog.len() ==> #[trigger] depth(prog, k) >= 0) && depth(
            prog,
            prog.len() as int,
        ) > 0),
        (exists|c: usize| resolve_spec(prog) == Err::<Map<int, int>, BfError>(
            BfError::UnmatchedClose(c),
        )) <==> (exists|k: int| 0 <= k < prog.len() && #[trigger] depth(prog, k + 1) < 0),
{
    lemma_rinv_init(prog);
    lemma_resolve_from_props(prog, 0, Seq::empty(), Map::empty());
    match resolve_spec(prog) {
        Ok(_) => {},
        Err(e) => match e {
            BfError::UnmatchedOpen(o) => {
                assert(resolve_spec(prog) == Err::<Map<int, int>, BfError>(
                    BfError::UnmatchedOpen(o),
                ));
            },
            BfError::UnmatchedClose(c) => {
                assert(depth(prog, c as int + 1) == depth(prog, c as int) + bracket_delta(
                    prog[c as int],
                ));
                assert(depth(prog, c as int + 1) < 0);
                assert(resolve_spec(prog) == Err::<Map<int, int>, BfError>(
                    BfError::UnmatchedClose(c),
                ));
            },
            _ => {},
        },
    }
    if exists|k: int| 0 <= k < prog.len() && #[trigger] depth(prog, k + 1) < 0 {
        let k = choose|k: int| 0 <= k < prog.len() && #[trigger] depth(prog, k + 1) < 0;
        assert(!(depth(prog, k + 1) >= 0));
    }
}

/// An unmatched-`[` report names an opening bracket of the program, and
/// comes exactly from a program whose bracket depth stays non-negative but
/// ends positive.
pub proof fn lemma_resolution_unmatched_open(prog: Seq<u8>, o: usize)
    requires
        prog.len() <= usize::MAX,
        resolve_spec(prog) == Err::<Map<int, int>, BfError>(BfError::UnmatchedOpen(o)),
    ensures
        o < prog.len(),
        is_open(prog[o as int]),
        depth(prog, prog.len() as int) > 0,
        forall|k: int| 0 <= k <= prog.len() ==> #[trigger] depth(prog, k) >= 0,
{
    lemma_rinv_init(prog);
    lemma_resolve_from_props(prog, 0, Seq::empty(), Map::empty());
}

/// An unmatched-`]` report names the first closing bracket that has no
/// partner: the byte there is a `]`, the bracket depth just before it is
/// zero having never been negative, and no earlier position looks like
/// that.
pub proof fn lemma_resolution_unmatched_close(prog: Seq<u8>, c: usize)
    requires
        prog.len() <= usize::MAX,
        resolve_spec(prog) == Err::<Map<int, int>, BfError>(BfError::UnmatchedClose(c)),
    ensures
        c < prog.len(),
        is_close(prog[c as int]),
        depth(prog, c as int) == 0,
        forall|k: int| 0 <= k <= c ==> #[trigger] depth(prog, k) >= 0,
        forall|j: int| 0 <= j < c ==> !(is_close(#[trigger] prog[j]) && depth(prog, j) == 0),
{
    lemma_rinv_init(prog);
    lemma_resolve_from_props(prog, 0, Seq::empty(), Map::empty());
    assert forall|j: int| 0 <= j < c implies !(is_close(#[trigger] prog[j]) && depth(prog, j)
        == 0) by {
        if is_close(prog[j]) && depth(prog, j) == 0 {
            assert(depth(prog, j + 1) == depth(prog, j) + bracket_delta(prog[j]));
            assert(depth(prog, j + 1) >= 0);
            assert(false);
        }
    }
}

/// The empty program halts at once, with any budget, leaving the state
/// untouched.
pub proof fn lemma_empty_program_halts(prog: Seq<u8>, jump: Seq<usize>, s: State, n: nat)
    requires
        prog.len() == 0,
    ensures
        run_n(prog, jump, s, n) == RunOutcome::Halted(s),
{
}

/// A bracket-free program keeps the bracket depth at zero.
proof fn lemma_no_brackets_depth_zero(prog: Seq<u8>, k: int)
    requires
        forall|j: int| 0 <= j < prog.len() ==> !is_bracket(#[trigger] prog[j]),
        k <= prog.len(),
    ensures
        depth(prog, k) == 0,
    decreases k,
{
    if k > 0 {
        lemma_no_brackets_depth_zero(prog, k - 1);
    }
}

/// A program with no instruction bytes has no brackets, so its resolution
/// succeeds.
pub proof fn lemma_comments_only_resolves(prog: Seq<u8>)
    requires
        prog.len() <= usize::MAX,
        forall|k: int| 0 <= k < prog.len() ==> !is_instr(#[trigger] prog[k]),
    ensures
        resolve_spec(prog) is Ok,
{
    assert forall|k: int| 0 <= k <= prog.len() implies #[trigger] depth(prog, k) >= 0 by {
        lemma_no_brackets_depth_zero(prog, k);
    }
    lemma_no_brackets_depth_zero(prog, prog.len() as int);
    lemma_resolution_outcome(prog);
}

/// A program with no instruction bytes halts after scanning itself: no
/// output, no input consumed, tape and pointer untouched.
pub proof fn lemma_comments_only_halts(prog: Seq<u8>, jump: Seq<usize>, s: State, n: nat)
    requires
        forall|k: int| 0 <= k < prog.len() ==> !is_instr(#[trigger] prog[k]),
        s.pc <= prog.len(),
        n >= prog.len() - s.pc,
    ensures
        run_n(prog, jump, s, n) == RunOutcome::Halted(State { pc: prog.len(), ..s }),
    decreases n,
{
    if s.pc >= prog.len() {
        assert(s =~= State { pc: prog.len(), ..s });
    } else {
        let t = State { pc: s.pc + 1, ..s };
        assert(instr_effect(prog[s.pc as int], jump, s) == Some(s));
        assert(step(prog, jump, s) == Some(t));
        lemma_comments_only_halts(prog, jump, t, (n - 1) as nat);
    }
}

/// A single step never touches a tape cell other than the one under the
/// data pointer, and never changes the tape's length or the input stream.
/// (Cell values are bytes by construction, so they stay within `[0, 255]`.)
pub proof fn lemma_step_frame(prog: Seq<u8>, jump: Seq<usize>, s: State)
    requires
        s.pc < prog.len(),
    ensures
        (match step(prog, jump, s) {
            Some(t) => {
                &&& t.tape.len() == s.tape.len()
                &&& forall|k: int|
                    0 <= k < s.tape.len() && k != s.ptr ==> t.tape[k] == s.tape[k]
                &&& t.input == s.input
            },
            None => true,
        }),
{
}

/// Over any bounded run the tape keeps its length and the input stream
/// stays what it was.
pub proof fn lemma_run_n_frame(prog: Seq<u8>, jump: Seq<usize>, s: State, n: nat)
    ensures
        (match run_n(prog, jump, s, n) {
            RunOutcome::Halted(t) => t.tape.len() == s.tape.len() && t.input == s.input,
            RunOutcome::Faulted(t) => t.tape.len() == s.tape.len() && t.input == s.input,
            RunOutcome::Running(t) => t.tape.len() == s.tape.len() && t.input == s.input,
        }),
    decreases n,
{
    if s.pc < prog.len() && n > 0 {
        match step(prog, jump, s) {
            Some(t) => {
                lemma_run_n_frame(prog, jump, t, (n - 1) as nat);
            },
            None => {},
        }
    }
}

/// `+` then `-` (and `-` then `+`) on the same cell restore the state
/// exactly: cell arithmetic wraps modulo 256 in both directions.
pub proof fn lemma_inc_dec_identity(jump: Seq<usize>, s: State)
    requires
        s.ptr < s.tape.len(),
    ensures
        cell_dec(cell_inc(s.tape[s.ptr as int])) == s.tape[s.ptr as int],
        (match instr_effect(OP_INC, jump, s) {
            Some(t) => instr_effect(OP_DEC, jump, t) == Some(s),
            None => false,
        }),
        (match instr_effect(OP_DEC, jump, s) {
            Some(t) => instr_effect(OP_INC, jump, t) == Some(s),
            None => false,
        }),
{
    let v = s.tape[s.ptr as int];
    let t1 = State { tape: s.tape.update(s.ptr as int, cell_inc(v)), ..s };
    assert(instr_effect(OP_INC, jump, s) == Some(t1));
    assert(t1.tape.update(s.ptr as int, cell_dec(cell_inc(v))) =~= s.tape);
    assert(instr_effect(OP_DEC, jump, t1)->Some_0 =~= s);
    let t2 = State { tape: s.tape.update(s.ptr as int, cell_dec(v)), ..s };
    assert(instr_effect(OP_DEC, jump, s) == Some(t2));
    assert(t2.tape.update(s.ptr as int, cell_inc(cell_dec(v))) =~= s.tape);
    assert(instr_effect(OP_INC, jump, t2)->Some_0 =~= s);
}

/// `>` then `<` (and `<` then `>`) restore the state exactly, through the
/// wrap-around of the data pointer included.
pub proof fn lemma_right_left_identity(jump: Seq<usize>, s: State)
    requires
        s.ptr <= usize::MAX,
    ensures
        wrap_dec(wrap_inc(s.ptr)) == s.ptr,
        wrap_inc(wrap_dec(s.ptr)) == s.ptr,
        (match instr_effect(OP_RIGHT, jump, s) {
            Some(t) => instr_effect(OP_LEFT, jump, t) == Some(s),
            None => false,
        }),
        (match instr_effect(OP_LEFT, jump, s) {
            Some(t) => instr_effect(OP_RIGHT, jump, t) == Some(s),
            None => false,
        }),
{
    assert(instr_effect(OP_LEFT, jump, State { ptr: wrap_inc(s.ptr), ..s })->Some_0 =~= s);
    assert(instr_effect(OP_RIGHT, jump, State { ptr: wrap_dec(s.ptr), ..s })->Some_0 =~= s);
}

/// The cell value after `n` increments.
pub open spec fn iter_cell_inc(v: u8, n: nat) -> u8
    decreases n,
{
    if n == 0 {
        v
    } else {
        cell_inc(iter_cell_inc(v, (n - 1) as nat))
    }
}

/// Repeated increment is addition modulo 256.
pub proof fn lemma_iter_cell_inc_mod(v: u8, n: nat)
    ensures
        iter_cell_inc(v, n) == ((v + n) % 256) as u8,
    decreases n,
{
    if n > 0 {
        lemma_iter_cell_inc_mod(v, (n - 1) as nat);
    }
}

/// Exactly 256 increments bring a cell back to where it started; in
/// particular they leave a zero cell at zero.
pub proof fn lemma_cell_inc_wraps(v: u8)
    ensures
        iter_cell_inc(v, 256) == v,
{
    lemma_iter_cell_inc_mod(v, 256);
}

/// Over a zero cell, `[` jumps straight past its partner and `]` falls
/// through: the next program counter is just past the bracket's target and
/// nothing else — tape, pointer, streams — changes, so no loop body runs.
pub proof fn lemma_zero_guard_straight_through(prog: Seq<u8>, jump: Seq<usize>, s: State)
    requires
        s.pc < prog.len(),
        s.ptr < s.tape.len(),
        s.tape[s.ptr as int] == 0,
    ensures
        is_open(prog[s.pc as int]) ==> step(prog, jump, s) == Some(
            State { pc: jump[s.pc as int] as nat + 1, ..s },
        ),
        is_close(prog[s.pc as int]) ==> step(prog, jump, s) == Some(State { pc: s.pc + 1, ..s }),
{
}

} // verus!
