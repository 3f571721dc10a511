//! End-to-end runs of small programs through the public interpreter.

use bf::interp::Bf;
use bf::semantics::BfError;
use bf::semantics::TAPE_LEN;

const FUEL: u64 = 1_000_000;

#[test]
fn fresh_machine_is_zeroed() {
    let bf = Bf::new();
    assert_eq!(bf.tape.len(), TAPE_LEN);
    assert!(bf.tape.iter().all(|&c| c == 0));
    assert_eq!(bf.pc, 0);
    assert_eq!(bf.ptr, 0);
    assert_eq!(bf.output, Vec::<u8>::new());
}

#[test]
fn empty_program_halts_with_no_output() {
    let mut bf = Bf::new();
    assert_eq!(bf.run(b"", b"ignored", FUEL), Ok(()));
    assert_eq!(bf.output, Vec::<u8>::new());
    assert_eq!(bf.in_pos, 0);
    assert_eq!(bf.tape[0], 0);
}

#[test]
fn comments_only_program_touches_nothing() {
    let mut bf = Bf::new();
    assert_eq!(bf.run(b"just a remark; no instructions here", b"abc", FUEL), Ok(()));
    assert_eq!(bf.output, Vec::<u8>::new());
    assert_eq!(bf.in_pos, 0, "no input byte may be consumed");
    assert!(bf.tape.iter().all(|&c| c == 0));
    assert_eq!(bf.ptr, 0);
}

#[test]
fn three_increments_output_three() {
    let mut bf = Bf::new();
    assert_eq!(bf.run(b"+++.", b"", FUEL), Ok(()));
    assert_eq!(bf.output, vec![3u8]);
}

#[test]
fn comma_dot_echoes_input() {
    let mut bf = Bf::new();
    assert_eq!(bf.run(b",.", b"A", FUEL), Ok(()));
    assert_eq!(bf.output, b"A".to_vec());
}

#[test]
fn copy_loop_adds_two_and_three() {
    let mut bf = Bf::new();
    assert_eq!(bf.run(b"++>+++<[->+<]>.", b"", FUEL), Ok(()));
    assert_eq!(bf.output, vec![5u8]);
}

#[test]
fn countdown_loop_moves_value() {
    let mut bf = Bf::new();
    assert_eq!(bf.run(b"++[>+<-]", b"", FUEL), Ok(()));
    assert_eq!(bf.output, Vec::<u8>::new());
    assert_eq!(bf.tape[0], 0);
    assert_eq!(bf.tape[1], 2);
}

#[test]
fn nested_loops_resolve_to_inner_partner() {
    let mut bf = Bf::new();
    assert_eq!(bf.run(b"++[>++[>+<-]<-]>>.", b"", FUEL), Ok(()));
    assert_eq!(bf.output, vec![4u8]);
}

#[test]
fn plus_then_minus_is_identity() {
    let mut bf = Bf::new();
    assert_eq!(bf.run(b"+-.", b"", FUEL), Ok(()));
    assert_eq!(bf.output, vec![0u8]);
    assert_eq!(bf.tape[0], 0);
}

#[test]
fn right_then_left_is_identity() {
    let mut bf = Bf::new();
    assert_eq!(bf.run(b"+><.", b"", FUEL), Ok(()));
    assert_eq!(bf.output, vec![1u8], "the pointer must be back on the first cell");
    assert_eq!(bf.ptr, 0);
}

#[test]
fn two_hundred_fifty_six_increments_wrap_to_zero() {
    let mut program = vec![b'+'; 256];
    program.push(b'.');
    let mut bf = Bf::new();
    assert_eq!(bf.run(&program, b"", FUEL), Ok(()));
    assert_eq!(bf.output, vec![0u8]);
}

#[test]
fn open_bracket_on_zero_cell_skips_body() {
    let mut bf = Bf::new();
    assert_eq!(bf.run(b"[+++].", b"", FUEL), Ok(()));
    assert_eq!(bf.output, vec![0u8], "the loop body must not have run");
}

#[test]
fn end_of_input_stores_zero() {
    let mut bf = Bf::new();
    assert_eq!(bf.run(b"+,.", b"", FUEL), Ok(()));
    assert_eq!(bf.output, vec![0u8]);
}

#[test]
fn newline_byte_round_trips() {
    let mut bf = Bf::new();
    assert_eq!(bf.run(b",.", b"\n", FUEL), Ok(()));
    assert_eq!(bf.output, vec![10u8]);
}

#[test]
fn lone_open_fails_resolution_without_executing() {
    let mut bf = Bf::new();
    assert_eq!(bf.run(b"[", b"", FUEL), Err(BfError::UnmatchedOpen(0)));
    assert_eq!(bf.output, Vec::<u8>::new());
    assert_eq!(bf.in_pos, 0);
}

#[test]
fn lone_close_fails_resolution_without_executing() {
    let mut bf = Bf::new();
    assert_eq!(bf.run(b"]", b"", FUEL), Err(BfError::UnmatchedClose(0)));
    assert_eq!(bf.output, Vec::<u8>::new());
}

#[test]
fn unmatched_close_reports_first_offender() {
    let mut bf = Bf::new();
    assert_eq!(bf.run(b"[][]]", b"", FUEL), Err(BfError::UnmatchedClose(4)));
}

#[test]
fn unmatched_open_reports_pending_bracket() {
    let mut bf = Bf::new();
    assert_eq!(bf.run(b"[[]", b"", FUEL), Err(BfError::UnmatchedOpen(0)));
}

#[test]
fn pointer_leaving_tape_is_rejected() {
    let mut bf = Bf::new();
    assert_eq!(bf.run(b"<+", b"", FUEL), Err(BfError::PointerOutOfRange));
    assert_eq!(bf.output, Vec::<u8>::new());
}

#[test]
fn infinite_loop_exhausts_step_budget() {
    let mut bf = Bf::new();
    assert_eq!(bf.run(b"+[]", b"", 100), Err(BfError::StepLimitExceeded));
}

#[test]
fn tape_carries_over_between_runs() {
    let mut bf = Bf::new();
    assert_eq!(bf.run(b"+++", b"", FUEL), Ok(()));
    assert_eq!(bf.output, Vec::<u8>::new());
    assert_eq!(bf.run(b".", b"", FUEL), Ok(()));
    assert_eq!(bf.output, vec![3u8], "the second run sees the first run's tape");
}

#[test]
fn hello_world_prints_exactly_its_text() {
    // seed the second cell with 72 (`H`) by the classic 8 x 9 multiply
    // loop, then walk the text emitting each byte from that one cell
    let text: &[u8] = b"Hello, World!\n";
    let mut program: Vec<u8> = b"++++++++[>+++++++++<-]>".to_vec();
    let mut prev: i16 = 72;
    for &b in text {
        let delta = b as i16 - prev;
        if delta >= 0 {
            program.extend(std::iter::repeat(b'+').take(delta as usize));
        } else {
            program.extend(std::iter::repeat(b'-').take((-delta) as usize));
        }
        program.push(b'.');
        prev = b as i16;
    }
    let mut bf = Bf::new();
    assert_eq!(bf.run(&program, b"", FUEL), Ok(()));
    assert_eq!(bf.output, text.to_vec());
}
