use bff::machine::{BFFRun, Outcome};

fn run_tape(tape: Vec<u8>) -> BFFRun {
    BFFRun::from_vec(tape).emulate()
}

#[test]
fn from_vec_defaults() {
    let r = BFFRun::from_vec(b"abcdef".to_vec());
    assert_eq!(r.head0_pos, 0);
    assert_eq!(r.head1_pos, 3);
    assert_eq!(r.pc_pos, 0);
    assert_eq!(r.max_iterations, 128);
    assert_eq!(r.iteration, 0);
    assert_eq!(r.skipped, 0);
    assert_eq!(r.outcome, Outcome::RanOutOfSteps);
}

#[test]
fn replicator_pair_never_hits_unmatched_bracket() {
    // Every `[` in the instruction half has a matching `]`, so the run may
    // finish or exhaust its budget but never stops on an unmatched bracket.
    let mut tape = b"[[{.>]-]                ]-]>.{[[".to_vec();
    assert_eq!(tape.len(), 32);
    tape.extend_from_slice(&[b'0'; 32]);
    let r = run_tape(tape);
    assert!(matches!(r.outcome, Outcome::Finished | Outcome::RanOutOfSteps));
}

#[test]
fn replicator_pair_golden_run() {
    // The instruction half mirrors itself around its midpoint, so its copy
    // loop rewrites every cell with the value it already holds: the run
    // spends its whole budget in the loop and leaves the tape unchanged.
    let mut tape = b"[[{.>]-]                ]-]>.{[[".to_vec();
    tape.extend_from_slice(&[b'0'; 32]);
    let r = run_tape(tape.clone());
    assert_eq!(r.tape, tape);
    assert_eq!(r.outcome, Outcome::RanOutOfSteps);
    assert_eq!(r.pc_pos, 4);
    assert_eq!(r.head0_pos, 31);
    assert_eq!(r.head1_pos, 0);
    assert_eq!(r.iteration, 128);
    assert_eq!(r.skipped, 0);
}

#[test]
fn identical_inputs_give_identical_runs() {
    let mut tape = b"[[{.>]-]                ]-]>.{[[".to_vec();
    tape.extend_from_slice(&[b'0'; 32]);
    let a = run_tape(tape.clone());
    let b = run_tape(tape);
    assert_eq!(a.tape, b.tape);
    assert_eq!(a.head0_pos, b.head0_pos);
    assert_eq!(a.head1_pos, b.head1_pos);
    assert_eq!(a.pc_pos, b.pc_pos);
    assert_eq!(a.iteration, b.iteration);
    assert_eq!(a.skipped, b.skipped);
    assert_eq!(a.outcome, b.outcome);
}

#[test]
fn all_zero_bytes_are_noops() {
    let tape = vec![0u8; 64];
    let r = run_tape(tape.clone());
    assert_eq!(r.outcome, Outcome::Finished);
    assert_eq!(r.pc_pos, 64);
    assert_eq!(r.iteration, 64);
    assert_eq!(r.skipped, 64);
    assert_eq!(r.tape, tape);
}

#[test]
fn open_bracket_skips_to_one_past_matching_close() {
    // head0 sits on '0', so the `[` at index 1 jumps; its match is the `]`
    // at index 5, and the program counter lands one past it.
    let mut r = BFFRun::from_vec(b"0[[x]]y_".to_vec());
    assert!(r.step().is_none()); // '0' is a no-op
    assert!(r.step().is_none()); // '[' jumps
    assert_eq!(r.pc_pos, 6);
    assert_eq!(r.skipped, 1);
}

#[test]
fn close_bracket_jumps_to_one_past_matching_open() {
    // head0 sits on 'x' (not '0'), so the `]` at index 3 jumps back; its
    // match is the `[` at index 1, and the program counter lands one past it.
    let mut r = BFFRun::from_vec(b"x[y]".to_vec());
    assert!(r.step().is_none()); // 'x' is a no-op
    assert!(r.step().is_none()); // '[' does not jump: cell is not '0'
    assert_eq!(r.pc_pos, 2);
    assert!(r.step().is_none()); // 'y' is a no-op
    assert!(r.step().is_none()); // ']' jumps back
    assert_eq!(r.pc_pos, 2);
}

#[test]
fn close_bracket_with_zero_cell_does_not_jump() {
    let r = run_tape(b"0]x".to_vec());
    assert_eq!(r.outcome, Outcome::Finished);
    assert_eq!(r.iteration, 3);
    assert_eq!(r.skipped, 2);
}

#[test]
fn unmatched_open_bracket_halts() {
    let r = run_tape(b"0[".to_vec());
    assert_eq!(r.outcome, Outcome::UnmatchedOpenBracket);
    assert_eq!(r.pc_pos, 1);
    assert_eq!(r.iteration, 1);
}

#[test]
fn unmatched_close_bracket_halts() {
    let r = run_tape(b"]x".to_vec());
    assert_eq!(r.outcome, Outcome::UnmatchedCloseBracket);
    assert_eq!(r.pc_pos, 0);
    assert_eq!(r.iteration, 0);
}

#[test]
fn budget_exhaustion_reports_ran_out_of_steps() {
    // 'x' under head0 keeps the loop alive forever; the budget stops it.
    let r = BFFRun::new(b"x[y]".to_vec(), 0, 0, 0, 7).emulate();
    assert_eq!(r.outcome, Outcome::RanOutOfSteps);
    assert_eq!(r.iteration, 7);
}

#[test]
fn zero_budget_runs_nothing() {
    let r = BFFRun::new(b"++".to_vec(), 0, 0, 0, 0).emulate();
    assert_eq!(r.outcome, Outcome::RanOutOfSteps);
    assert_eq!(r.iteration, 0);
    assert_eq!(r.tape, b"++".to_vec());
}

#[test]
fn head0_wraps_at_both_edges() {
    let r = run_tape(vec![b'<', 7]);
    assert_eq!(r.head0_pos, 1);
    let r = BFFRun::new(vec![b'>', 7], 1, 0, 0, 1).emulate();
    assert_eq!(r.head0_pos, 0);
}

#[test]
fn head1_wraps_at_both_edges() {
    let r = BFFRun::new(vec![b'{', 7], 0, 0, 0, 1).emulate();
    assert_eq!(r.head1_pos, 1);
    let r = BFFRun::new(vec![b'}', 7], 0, 1, 0, 1).emulate();
    assert_eq!(r.head1_pos, 0);
}

#[test]
fn cell_arithmetic_wraps_then_reduces_modulo_255() {
    // The byte wraps around first and is then reduced modulo 255: a cell
    // holding 0 underflows to 255 and lands on 0, and both 254 and 255 step
    // up to 0.
    let r = BFFRun::new(vec![b'-', 0], 1, 0, 0, 1).emulate();
    assert_eq!(r.tape[1], 0);
    let r = BFFRun::new(vec![b'-', 255], 1, 0, 0, 1).emulate();
    assert_eq!(r.tape[1], 254);
    let r = BFFRun::new(vec![b'-', 1], 1, 0, 0, 1).emulate();
    assert_eq!(r.tape[1], 0);
    let r = BFFRun::new(vec![b'+', 254], 1, 0, 0, 1).emulate();
    assert_eq!(r.tape[1], 0);
    let r = BFFRun::new(vec![b'+', 255], 1, 0, 0, 1).emulate();
    assert_eq!(r.tape[1], 0);
    let r = BFFRun::new(vec![b'+', 41], 1, 0, 0, 1).emulate();
    assert_eq!(r.tape[1], 42);
}

#[test]
fn copy_instructions_move_cells_between_heads() {
    let r = BFFRun::new(vec![b'.', 5, 9], 1, 2, 0, 1).emulate();
    assert_eq!(r.tape, vec![b'.', 5, 5]);
    let r = BFFRun::new(vec![b',', 5, 9], 1, 2, 0, 1).emulate();
    assert_eq!(r.tape, vec![b',', 9, 9]);
}
