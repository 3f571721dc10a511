//! The bracket resolver and single-instruction execution, exercised
//! directly.

use bf::interp::Bf;
use bf::semantics::BfError;

#[test]
fn resolve_pairs_nested_brackets_innermost() {
    let mut bf = Bf::new();
    assert_eq!(bf.resolve(b"[[]]"), Ok(()));
    assert_eq!(bf.braces, vec![3, 2, 1, 0]);
}

#[test]
fn resolve_ignores_comment_bytes() {
    let mut bf = Bf::new();
    assert_eq!(bf.resolve(b"a[b]c"), Ok(()));
    assert_eq!(bf.braces, vec![0, 3, 0, 1, 0]);
}

#[test]
fn resolve_pairs_siblings_separately() {
    let mut bf = Bf::new();
    assert_eq!(bf.resolve(b"[][]"), Ok(()));
    assert_eq!(bf.braces, vec![1, 0, 3, 2]);
}

#[test]
fn resolve_reports_close_with_no_partner() {
    let mut bf = Bf::new();
    assert_eq!(bf.resolve(b"[]]"), Err(BfError::UnmatchedClose(2)));
}

#[test]
fn resolve_reports_last_pending_open() {
    let mut bf = Bf::new();
    assert_eq!(bf.resolve(b"[[][["), Err(BfError::UnmatchedOpen(4)));
}

#[test]
fn execute_increments_current_cell() {
    let mut bf = Bf::new();
    assert_eq!(bf.execute(b'+'), Ok(()));
    assert_eq!(bf.tape[0], 1);
}

#[test]
fn execute_moves_pointer_right() {
    let mut bf = Bf::new();
    assert_eq!(bf.execute(b'>'), Ok(()));
    assert_eq!(bf.ptr, 1);
}

#[test]
fn execute_wraps_pointer_below_zero() {
    let mut bf = Bf::new();
    assert_eq!(bf.execute(b'<'), Ok(()));
    assert_eq!(bf.ptr, usize::MAX);
    assert_eq!(bf.execute(b'+'), Err(BfError::PointerOutOfRange));
}

#[test]
fn execute_decrements_wrap_below_zero() {
    let mut bf = Bf::new();
    assert_eq!(bf.execute(b'-'), Ok(()));
    assert_eq!(bf.tape[0], 255);
}
