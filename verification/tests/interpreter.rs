use fivedbf::config::{Config, EofPolicy};
use fivedbf::engine::{Multiverse, RunOutcome, TickStatus};
use fivedbf::error::RuntimeError;
use fivedbf::program::{parse, Token};
use fivedbf::timeline::Timeline;

fn small_cfg() -> Config {
    Config {
        cell_count: 16,
        cell_max: 255,
        wrap_cells: true,
        wrap_pointer: false,
        eof: EofPolicy::MaxValue,
    }
}

fn run_prog(
    src: &[u8],
    input: &[u8],
    cfg: Config,
    fuel: usize,
) -> (Multiverse, Result<RunOutcome, RuntimeError>) {
    let prog = parse(src).unwrap();
    let mut mv = Multiverse::new(prog, cfg, input.to_vec());
    let r = mv.run(fuel);
    (mv, r)
}

fn blank_timeline(cfg: &Config, pc: usize, ptrs: Vec<usize>) -> Timeline {
    let mut tape = Vec::new();
    tape.resize(cfg.cell_count, 0u64);
    Timeline { tape, pc, ptrs, ops: Vec::new(), alive: true }
}

#[test]
fn increment_and_write_emits_cell_value() {
    let (mv, r) = run_prog(b"+++.", b"", small_cfg(), 100);
    assert_eq!(r, Ok(RunOutcome::Halted));
    assert_eq!(mv.output, vec![3u8]);
}

#[test]
fn hello_world_program_prints_hello() {
    let src = b"++++++++[>+++++++++<-]>.+++++++++++++++++++++++++++++.+++++++..+++.";
    let (mv, r) = run_prog(src, b"", small_cfg(), 100_000);
    assert_eq!(r, Ok(RunOutcome::Halted));
    assert_eq!(mv.output, b"Hello".to_vec());
}

#[test]
fn fork_with_data_body_duplicates_parent_once() {
    // "(+)" forks one child whose body is a single increment
    let prog = parse(b"(+).").unwrap();
    let mut mv = Multiverse::new(prog, small_cfg(), Vec::new());
    assert_eq!(mv.tick(), Ok(TickStatus::Running));
    // exactly one new timeline, inserted right after the parent
    assert_eq!(mv.timelines.len(), 2);
    // the parent skipped the body: one past the matching Kill (position 2)
    assert_eq!(mv.timelines[0].pc, 3);
    // the child starts one past the Spawn, with duplicated tape and cursors
    assert_eq!(mv.timelines[1].pc, 1);
    assert_eq!(mv.timelines[1].tape, mv.timelines[0].tape);
    assert_eq!(mv.timelines[1].ptrs, mv.timelines[0].ptrs);
    assert!(mv.timelines[1].ops.is_empty());
    assert!(mv.timelines[1].alive);
}

#[test]
fn fork_isolates_child_memory_from_parent() {
    // the child increments its own copy; the parent's cell stays 0 and is
    // what the Write emits
    let (mv, r) = run_prog(b"(+).", b"", small_cfg(), 100);
    assert_eq!(r, Ok(RunOutcome::Halted));
    assert_eq!(mv.output, vec![0u8]);
}

#[test]
fn fork_child_increments_only_its_own_tape() {
    // wait for the child to run its whole body and die, then write:
    // the parent's cell is still 0 although the child incremented its copy
    let prog = parse(b"(+)@.").unwrap();
    let mut mv = Multiverse::new(prog, small_cfg(), Vec::new());
    assert_eq!(mv.tick(), Ok(TickStatus::Running)); // fork
    assert_eq!(mv.tick(), Ok(TickStatus::Running)); // parent waits, child '+'
    assert_eq!(mv.timelines.len(), 2);
    assert_eq!(mv.timelines[1].tape[0], 1);
    assert_eq!(mv.timelines[0].tape[0], 0);
    let r = mv.run(100);
    assert_eq!(r, Ok(RunOutcome::Halted));
    assert_eq!(mv.output, vec![0u8]);
}

#[test]
fn increment_then_rewind_restores_cell() {
    let prog = parse(b"+~.").unwrap();
    let mut mv = Multiverse::new(prog, small_cfg(), Vec::new());
    assert_eq!(mv.tick(), Ok(TickStatus::Running));
    assert_eq!(mv.timelines[0].tape[0], 1);
    assert_eq!(mv.tick(), Ok(TickStatus::Running));
    assert_eq!(mv.timelines[0].tape[0], 0);
    let r = mv.run(10);
    assert_eq!(r, Ok(RunOutcome::Halted));
    assert_eq!(mv.output, vec![0u8]);
}

#[test]
fn rewind_restores_every_cursor_of_a_superposition() {
    // a timeline holding two active cursors: '+' bumps both cells at once
    // and '~' restores both prior values exactly
    let cfg = small_cfg();
    let prog = parse(b"+~").unwrap();
    let mut t0 = blank_timeline(&cfg, 0, vec![2, 5]);
    t0.tape[2] = 9;
    t0.tape[5] = 30;
    let mut mv = Multiverse {
        program: prog,
        cfg,
        timelines: vec![t0],
        input: Vec::new(),
        in_pos: 0,
        output: Vec::new(),
    };
    assert_eq!(mv.tick(), Ok(TickStatus::Running));
    assert_eq!(mv.timelines[0].tape[2], 10);
    assert_eq!(mv.timelines[0].tape[5], 31);
    assert_eq!(mv.tick(), Ok(TickStatus::Running));
    assert_eq!(mv.timelines[0].tape[2], 9);
    assert_eq!(mv.timelines[0].tape[5], 30);
}

#[test]
fn rewind_on_empty_history_fails() {
    let (_, r) = run_prog(b"~", b"", small_cfg(), 10);
    assert_eq!(r, Err(RuntimeError::EmptyHistory));
}

#[test]
fn jump_zero_branches_only_when_all_cursors_are_zero() {
    let cfg = small_cfg();
    // all cursors zero: the branch is taken, landing one past the target
    let t = blank_timeline(&cfg, 0, vec![0, 3]);
    let mut mv = Multiverse {
        program: vec![Token::JumpZero(1), Token::Inc],
        cfg,
        timelines: vec![t],
        input: Vec::new(),
        in_pos: 0,
        output: Vec::new(),
    };
    assert_eq!(mv.tick(), Ok(TickStatus::Running));
    assert_eq!(mv.timelines[0].pc, 2);

    // one nonzero cursor among two: the conjunction fails, fall through
    let mut t = blank_timeline(&cfg, 0, vec![0, 3]);
    t.tape[3] = 7;
    let mut mv = Multiverse {
        program: vec![Token::JumpZero(1), Token::Inc],
        cfg,
        timelines: vec![t],
        input: Vec::new(),
        in_pos: 0,
        output: Vec::new(),
    };
    assert_eq!(mv.tick(), Ok(TickStatus::Running));
    assert_eq!(mv.timelines[0].pc, 1);
}

#[test]
fn jump_nonzero_branches_when_any_cursor_is_nonzero() {
    let cfg = small_cfg();
    // one nonzero cursor among two: the disjunction holds, branch taken
    let mut t = blank_timeline(&cfg, 1, vec![0, 3]);
    t.tape[0] = 1;
    let mut mv = Multiverse {
        program: vec![Token::Inc, Token::JumpNonzero(0)],
        cfg,
        timelines: vec![t],
        input: Vec::new(),
        in_pos: 0,
        output: Vec::new(),
    };
    assert_eq!(mv.tick(), Ok(TickStatus::Running));
    assert_eq!(mv.timelines[0].pc, 1);

    // both cursors zero: fall through
    let t = blank_timeline(&cfg, 1, vec![0, 3]);
    let mut mv = Multiverse {
        program: vec![Token::Inc, Token::JumpNonzero(0)],
        cfg,
        timelines: vec![t],
        input: Vec::new(),
        in_pos: 0,
        output: Vec::new(),
    };
    assert_eq!(mv.tick(), Ok(TickStatus::Running));
    assert_eq!(mv.timelines[0].pc, 2);
}

#[test]
fn await_repeats_while_lower_neighbor_has_cursors() {
    let cfg = small_cfg();
    let t0 = blank_timeline(&cfg, 0, vec![0]);
    let t1 = blank_timeline(&cfg, 1, vec![0]);
    let mut mv = Multiverse {
        program: vec![Token::Await, Token::Await],
        cfg,
        timelines: vec![t0, t1],
        input: Vec::new(),
        in_pos: 0,
        output: Vec::new(),
    };
    // the lower neighbor's cursor set is nonempty: the counter is unchanged
    assert_eq!(mv.tick(), Ok(TickStatus::Running));
    assert_eq!(mv.timelines[0].pc, 0);
    // the last timeline's Await is always a no-op: its counter advanced
    assert_eq!(mv.timelines[1].pc, 2);
}

#[test]
fn await_falls_through_once_lower_neighbor_is_empty() {
    let cfg = small_cfg();
    let t0 = blank_timeline(&cfg, 0, vec![0]);
    let t1 = blank_timeline(&cfg, 0, Vec::new());
    let mut mv = Multiverse {
        program: vec![Token::Await],
        cfg,
        timelines: vec![t0, t1],
        input: Vec::new(),
        in_pos: 0,
        output: Vec::new(),
    };
    assert_eq!(mv.tick(), Ok(TickStatus::Running));
    assert_eq!(mv.timelines[0].pc, 1);
}

#[test]
fn merge_up_on_root_discards_cursors() {
    let prog = parse(b"^+.").unwrap();
    let mut mv = Multiverse::new(prog, small_cfg(), Vec::new());
    assert_eq!(mv.tick(), Ok(TickStatus::Running));
    assert!(mv.timelines[0].ptrs.is_empty());
    // with no cursors, data instructions act over zero positions
    let r = mv.run(10);
    assert_eq!(r, Ok(RunOutcome::Halted));
    assert_eq!(mv.output, Vec::<u8>::new());
    assert_eq!(mv.timelines[0].tape[0], 0);
}

#[test]
fn merge_up_transfers_cursors_to_upper_neighbor() {
    let cfg = small_cfg();
    let t0 = blank_timeline(&cfg, 0, vec![4]);
    let t1 = blank_timeline(&cfg, 1, vec![7, 2]);
    let mut mv = Multiverse {
        program: vec![Token::Inc, Token::Up],
        cfg,
        timelines: vec![t0, t1],
        input: Vec::new(),
        in_pos: 0,
        output: Vec::new(),
    };
    // t0 increments at its own cursor first; then t1 executes Up and its
    // cursors land after t0's existing one, in order
    assert_eq!(mv.tick(), Ok(TickStatus::Running));
    assert_eq!(mv.timelines[0].ptrs, vec![4, 7, 2]);
    assert!(mv.timelines[1].ptrs.is_empty());
    assert_eq!(mv.timelines[0].tape[4], 1);
}

#[test]
fn merge_down_appends_cursors_after_existing_ones() {
    let cfg = small_cfg();
    let t0 = blank_timeline(&cfg, 0, vec![5]);
    let t1 = blank_timeline(&cfg, 1, vec![7]);
    let mut mv = Multiverse {
        program: vec![Token::Down, Token::Inc],
        cfg,
        timelines: vec![t0, t1],
        input: Vec::new(),
        in_pos: 0,
        output: Vec::new(),
    };
    // t0 transfers its cursor set down to t1, after t1's own cursors; then
    // t1 (already past Down) increments at all of them
    assert_eq!(mv.tick(), Ok(TickStatus::Running));
    assert!(mv.timelines[0].ptrs.is_empty());
    assert_eq!(mv.timelines[1].ptrs, vec![7, 5]);
    assert_eq!(mv.timelines[1].tape[7], 1);
    assert_eq!(mv.timelines[1].tape[5], 1);
}

#[test]
fn pointer_out_of_bounds_is_fatal_without_wrapping() {
    let (_, r) = run_prog(b"<", b"", small_cfg(), 10);
    assert_eq!(r, Err(RuntimeError::PointerOutOfBounds));
}

#[test]
fn pointer_wraps_at_edges_when_configured() {
    let mut cfg = small_cfg();
    cfg.wrap_pointer = true;
    let prog = parse(b"<").unwrap();
    let mut mv = Multiverse::new(prog, cfg, Vec::new());
    assert_eq!(mv.tick(), Ok(TickStatus::Running));
    assert_eq!(mv.timelines[0].ptrs, vec![cfg.cell_count - 1]);
}

#[test]
fn cells_wrap_modulo_width_by_default() {
    let cfg = small_cfg();
    let mut src = Vec::new();
    src.resize(256, b'+');
    src.push(b'.');
    let (mv, r) = run_prog(&src, b"", cfg, 1000);
    assert_eq!(r, Ok(RunOutcome::Halted));
    assert_eq!(mv.output, vec![0u8]);
}

#[test]
fn cells_saturate_when_wrapping_is_off() {
    let mut cfg = small_cfg();
    cfg.wrap_cells = false;
    let mut src = Vec::new();
    src.resize(256, b'+');
    src.push(b'.');
    let (mv, r) = run_prog(&src, b"", cfg, 1000);
    assert_eq!(r, Ok(RunOutcome::Halted));
    assert_eq!(mv.output, vec![255u8]);
    // and decrement saturates at zero
    let (mv, r) = run_prog(b"-.", b"", cfg, 10);
    assert_eq!(r, Ok(RunOutcome::Halted));
    assert_eq!(mv.output, vec![0u8]);
}

#[test]
fn decrement_wraps_to_cell_max() {
    let (mv, r) = run_prog(b"-.", b"", small_cfg(), 10);
    assert_eq!(r, Ok(RunOutcome::Halted));
    assert_eq!(mv.output, vec![255u8]);
}

#[test]
fn read_consumes_input_in_cursor_order() {
    let (mv, r) = run_prog(b",>,.<.", b"AB", small_cfg(), 100);
    assert_eq!(r, Ok(RunOutcome::Halted));
    assert_eq!(mv.output, vec![b'B', b'A']);
    assert_eq!(mv.in_pos, 2);
}

#[test]
fn read_at_eof_writes_max_value_by_default() {
    let (mv, r) = run_prog(b"+,.", b"", small_cfg(), 10);
    assert_eq!(r, Ok(RunOutcome::Halted));
    assert_eq!(mv.output, vec![255u8]);
}

#[test]
fn read_at_eof_zero_policy() {
    let mut cfg = small_cfg();
    cfg.eof = EofPolicy::Zero;
    let (mv, r) = run_prog(b"+,.", b"", cfg, 10);
    assert_eq!(r, Ok(RunOutcome::Halted));
    assert_eq!(mv.output, vec![0u8]);
}

#[test]
fn read_at_eof_unchanged_policy() {
    let mut cfg = small_cfg();
    cfg.eof = EofPolicy::Unchanged;
    let (mv, r) = run_prog(b"+,.", b"", cfg, 10);
    assert_eq!(r, Ok(RunOutcome::Halted));
    assert_eq!(mv.output, vec![1u8]);
}

#[test]
fn write_emits_low_byte_of_wide_cells() {
    let mut cfg = small_cfg();
    cfg.cell_max = 65535;
    let mut src = Vec::new();
    src.resize(260, b'+');
    src.push(b'.');
    let (mv, r) = run_prog(&src, b"", cfg, 1000);
    assert_eq!(r, Ok(RunOutcome::Halted));
    assert_eq!(mv.output, vec![4u8]);
}

#[test]
fn empty_program_halts_at_once() {
    let (mv, r) = run_prog(b"", b"", small_cfg(), 10);
    assert_eq!(r, Ok(RunOutcome::Halted));
    assert_eq!(mv.output, Vec::<u8>::new());
}

#[test]
fn nonterminating_program_runs_out_of_fuel() {
    // "+[]" loops forever: the cell is nonzero, so "]" jumps back at itself
    let (_, r) = run_prog(b"+[]", b"", small_cfg(), 50);
    assert_eq!(r, Ok(RunOutcome::OutOfFuel));
}

#[test]
fn empty_multiverse_is_a_fatal_invariant_violation() {
    let mut mv = Multiverse {
        program: vec![Token::Inc],
        cfg: small_cfg(),
        timelines: Vec::new(),
        input: Vec::new(),
        in_pos: 0,
        output: Vec::new(),
    };
    assert_eq!(mv.tick(), Err(RuntimeError::EmptyMultiverse));
}

#[test]
fn root_killed_by_jump_into_paren_body_empties_multiverse() {
    // "[(])" lets the root jump straight onto the Kill
    let prog = parse(b"[(])").unwrap();
    let mut mv = Multiverse::new(prog, small_cfg(), Vec::new());
    assert_eq!(mv.tick(), Ok(TickStatus::Running)); // root takes the branch
    assert_eq!(mv.tick(), Ok(TickStatus::Running)); // root executes Kill
    assert_eq!(mv.timelines.len(), 0);
    assert_eq!(mv.tick(), Err(RuntimeError::EmptyMultiverse));
}

#[test]
fn duplicate_copies_tape_and_cursors_with_fresh_history() {
    let cfg = small_cfg();
    let mut t = blank_timeline(&cfg, 3, vec![1, 2]);
    t.tape[1] = 17;
    t.snapshot();
    let child = t.duplicate(9);
    assert_eq!(child.pc, 9);
    assert_eq!(child.tape, t.tape);
    assert_eq!(child.ptrs, t.ptrs);
    assert!(child.ops.is_empty());
    assert!(child.alive);
}

#[test]
fn snapshot_records_cursor_values_in_order() {
    let cfg = small_cfg();
    let mut t = blank_timeline(&cfg, 0, vec![4, 1]);
    t.tape[4] = 8;
    t.tape[1] = 3;
    t.snapshot();
    assert_eq!(t.ops.len(), 1);
    assert_eq!(t.ops[0], vec![(4usize, 8u64), (1usize, 3u64)]);
}
