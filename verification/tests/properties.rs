use std::io::{Cursor, Read, Write};

use brainfuck::instruction::Op;
use brainfuck::interpreter::{
    BuildError, BuildErrorKind, Interpreter, Progress, RuntimeError, RuntimeErrorKind,
};
use brainfuck::machine::Machine;

const NO_LIMIT: u64 = u64::MAX;

struct Broken;

impl Read for Broken {
    fn read(&mut self, _buf: &mut [u8]) -> std::io::Result<usize> {
        Err(std::io::Error::new(std::io::ErrorKind::Other, "no reader"))
    }
}

impl Write for Broken {
    fn write(&mut self, _buf: &[u8]) -> std::io::Result<usize> {
        Err(std::io::Error::new(std::io::ErrorKind::Other, "no writer"))
    }

    fn flush(&mut self) -> std::io::Result<()> {
        Ok(())
    }
}

fn run(code: &str, input: &[u8]) -> (Result<Progress, RuntimeError>, Vec<u8>) {
    let program = Interpreter::build(code).unwrap();
    let mut read = Cursor::new(input.to_vec());
    let mut written: Vec<u8> = Vec::new();
    let result = program.execute(&mut read, &mut written, NO_LIMIT);
    (result, written)
}

fn ops(code: &str) -> Vec<Op> {
    Interpreter::build(code).unwrap().ops().clone()
}

fn build_error(code: &str) -> BuildError {
    Interpreter::build(code).unwrap_err()
}

#[test]
fn empty_text_is_the_empty_program() {
    assert_eq!(Vec::<Op>::new(), ops(""));
    let (result, written) = run("", b"");
    assert_eq!(Ok(Progress::Halted), result);
    assert!(written.is_empty());
}

#[test]
fn other_bytes_are_comments() {
    assert_eq!(Vec::<Op>::new(), ops("hello, world".replace(",", ";").as_str()));
    assert_eq!(vec![Op::Add { d: 1 }], ops("caf\u{e9}+"));
}

#[test]
fn zero_sum_runs_vanish() {
    assert_eq!(Vec::<Op>::new(), ops("><"));
    assert_eq!(Vec::<Op>::new(), ops("+-"));
    assert_eq!(vec![Op::Out], ops("<<>>.-+"));
}

#[test]
fn a_comment_ends_a_run() {
    assert_eq!(vec![Op::Add { d: 1 }, Op::Add { d: 1 }], ops("+ +"));
    assert_eq!(vec![Op::Move { d: 2 }, Op::Move { d: -1 }], ops(">>\n<"));
    assert_eq!(vec![Op::Add { d: 3 }], ops("+++"));
    assert_eq!(vec![Op::Move { d: -4 }], ops("<<<<"));
}

#[test]
fn moves_and_adds_are_runs_of_their_own() {
    assert_eq!(
        vec![Op::Add { d: 2 }, Op::Move { d: 1 }, Op::Add { d: -1 }],
        ops("++>-")
    );
}

#[test]
fn nested_loops_point_past_their_partners() {
    assert_eq!(
        vec![
            Op::JmpZ { addr: 4 },
            Op::JmpZ { addr: 3 },
            Op::JmpNz { addr: 2 },
            Op::JmpNz { addr: 1 },
        ],
        ops("[[]]")
    );
    assert_eq!(
        vec![
            Op::Add { d: 1 },
            Op::JmpZ { addr: 6 },
            Op::Move { d: 1 },
            Op::JmpZ { addr: 5 },
            Op::JmpNz { addr: 4 },
            Op::JmpNz { addr: 2 },
            Op::JmpZ { addr: 8 },
            Op::JmpNz { addr: 7 },
        ],
        ops("+[>[]][]")
    );
}

#[test]
fn a_stray_close_is_reported_where_it_stands() {
    assert_eq!(
        BuildError { line: 1, col: 1, kind: BuildErrorKind::BracketNotMatch },
        build_error("]")
    );
    assert_eq!(
        BuildError { line: 1, col: 4, kind: BuildErrorKind::BracketNotMatch },
        build_error("<<<]")
    );
    assert_eq!(
        BuildError { line: 2, col: 3, kind: BuildErrorKind::BracketNotMatch },
        build_error("+\n>>]")
    );
    assert_eq!(
        BuildError { line: 3, col: 1, kind: BuildErrorKind::BracketNotMatch },
        build_error("[]\n\n][")
    );
}

#[test]
fn the_first_stray_close_wins_over_an_unclosed_open() {
    assert_eq!(
        BuildError { line: 1, col: 3, kind: BuildErrorKind::BracketNotMatch },
        build_error("[]][[")
    );
}

#[test]
fn the_outermost_unclosed_open_is_reported() {
    assert_eq!(
        BuildError { line: 1, col: 1, kind: BuildErrorKind::BracketNotClosed },
        build_error("[[")
    );
    assert_eq!(
        BuildError { line: 2, col: 2, kind: BuildErrorKind::BracketNotClosed },
        build_error("[]\n+[ [ ] [")
    );
    assert_eq!(
        BuildError { line: 1, col: 6, kind: BuildErrorKind::BracketNotClosed },
        build_error("++>>.[")
    );
}

#[test]
fn columns_count_bytes() {
    // the two bytes of the letter both count
    assert_eq!(
        BuildError { line: 1, col: 3, kind: BuildErrorKind::BracketNotMatch },
        build_error("\u{e9}]")
    );
}

#[test]
fn a_loop_on_a_zero_cell_is_skipped() {
    let (result, written) = run("[.]", b"");
    assert_eq!(Ok(Progress::Halted), result);
    assert!(written.is_empty());
    let (result, written) = run("[+.[-]]+.", b"");
    assert_eq!(Ok(Progress::Halted), result);
    assert_eq!(vec![1u8], written);
}

#[test]
fn a_loop_ends_when_its_cell_comes_down_to_zero() {
    let (result, written) = run("+++[.-].", b"");
    assert_eq!(Ok(Progress::Halted), result);
    assert_eq!(vec![3u8, 2, 1, 0], written);
    let (result, written) = run("++[>+++<-]>.", b"");
    assert_eq!(Ok(Progress::Halted), result);
    assert_eq!(vec![6u8], written);
}

#[test]
fn cells_wrap_around() {
    let up = format!("{}.+.", "+".repeat(255));
    let (result, written) = run(&up, b"");
    assert_eq!(Ok(Progress::Halted), result);
    assert_eq!(vec![255u8, 0], written);
    let (result, written) = run("-.", b"");
    assert_eq!(Ok(Progress::Halted), result);
    assert_eq!(vec![255u8], written);
    let (result, written) = run(&format!("{}.", "+".repeat(256 * 3 + 7)), b"");
    assert_eq!(Ok(Progress::Halted), result);
    assert_eq!(vec![7u8], written);
    let (result, written) = run(&format!("{}.", "-".repeat(256 + 2)), b"");
    assert_eq!(Ok(Progress::Halted), result);
    assert_eq!(vec![254u8], written);
}

#[test]
fn the_pointer_may_reach_both_ends_of_the_tape() {
    let (result, _) = run(&format!("{}+<.", ">".repeat(29999)), b"");
    assert_eq!(Ok(Progress::Halted), result);
    let (result, written) = run(">+< .", b"");
    assert_eq!(Ok(Progress::Halted), result);
    assert_eq!(vec![0u8], written);
}

#[test]
fn one_step_off_the_tape_is_a_fault() {
    let (result, written) = run(&format!("{}.>", ">".repeat(29999)), b"");
    assert_eq!(
        Err(RuntimeError { kind: RuntimeErrorKind::DataOverflow { idx: 30000 } }),
        result
    );
    assert_eq!(vec![0u8], written);
    let (result, _) = run(">.<.<", b"");
    assert_eq!(
        Err(RuntimeError { kind: RuntimeErrorKind::DataOverflow { idx: -1 } }),
        result
    );
}

#[test]
fn a_folded_move_is_checked_where_it_lands() {
    // from cell 2, five steps left as one instruction: the index reported
    // is the one the whole run would reach
    let (result, _) = run(">> <<<<<", b"");
    assert_eq!(
        Err(RuntimeError { kind: RuntimeErrorKind::DataOverflow { idx: -3 } }),
        result
    );
    // a run that comes back onto the tape is no fault
    let (result, written) = run("<>.", b"");
    assert_eq!(Ok(Progress::Halted), result);
    assert_eq!(vec![0u8], written);
    // the same steps one by one fault at the first
    let (result, _) = run("< >.", b"");
    assert_eq!(
        Err(RuntimeError { kind: RuntimeErrorKind::DataOverflow { idx: -1 } }),
        result
    );
}

#[test]
fn a_fault_stops_the_run_at_once() {
    let (result, written) = run("+.<.", b"");
    assert_eq!(
        Err(RuntimeError { kind: RuntimeErrorKind::DataOverflow { idx: -1 } }),
        result
    );
    assert_eq!(vec![1u8], written);
}

#[test]
fn folded_and_unfolded_texts_behave_alike() {
    let folded = ",>,<[->+<]>.+++.<>><--.>><<.";
    let unfolded: String = folded.chars().map(|c| format!("{} ", c)).collect();
    assert_ne!(ops(folded).len(), ops(&unfolded).len());
    let (result, written) = run(folded, &[20, 22]);
    let (plain_result, plain_written) = run(&unfolded, &[20, 22]);
    assert_eq!(Ok(Progress::Halted), result);
    assert_eq!(result, plain_result);
    assert_eq!(vec![42u8, 45, 43, 43], written);
    assert_eq!(written, plain_written);
}

#[test]
fn input_is_read_byte_by_byte_in_order() {
    let (result, written) = run(",.,.,.", b"abc");
    assert_eq!(Ok(Progress::Halted), result);
    assert_eq!(b"abc".to_vec(), written);
    let (result, written) = run(",[.,]", &[5, 4, 3, 0, 9]);
    assert_eq!(Ok(Progress::Halted), result);
    assert_eq!(vec![5u8, 4, 3], written);
}

#[test]
fn input_that_ends_is_a_fault() {
    let (result, written) = run(",.,.", b"x");
    assert_eq!(b"x".to_vec(), written);
    let err = result.unwrap_err();
    assert!(matches!(err.kind, RuntimeErrorKind::IO { .. }));
    assert!(err.to_string().starts_with("io err: "));
}

#[test]
fn a_failing_stream_is_a_fault_with_its_message() {
    let program = Interpreter::build("+.").unwrap();
    let err = program
        .execute(&mut Cursor::new(Vec::new()), &mut Broken, NO_LIMIT)
        .unwrap_err();
    assert_eq!(
        RuntimeError { kind: RuntimeErrorKind::IO { err: String::from("no writer") } },
        err
    );
    assert_eq!("io err: no writer", err.to_string());
    let program = Interpreter::build("+,").unwrap();
    let mut written: Vec<u8> = Vec::new();
    let err = program
        .execute(&mut Broken, &mut written, NO_LIMIT)
        .unwrap_err();
    assert_eq!("io err: no reader", err.to_string());
}

#[test]
fn faults_read_as_text() {
    let fault = RuntimeError { kind: RuntimeErrorKind::DataOverflow { idx: 30000 } };
    assert_eq!("data overflow, idx = 30000", fault.to_string());
    let fault = RuntimeError { kind: RuntimeErrorKind::DataOverflow { idx: -1 } };
    assert_eq!("data overflow, idx = -1", fault.to_string());
    let fault = RuntimeError { kind: RuntimeErrorKind::DataOverflow { idx: 0 } };
    assert_eq!("data overflow, idx = 0", fault.to_string());
    let fault = RuntimeError { kind: RuntimeErrorKind::DataOverflow { idx: -1234567890 } };
    assert_eq!("data overflow, idx = -1234567890", fault.to_string());
    let fault = RuntimeError { kind: RuntimeErrorKind::IO { err: String::from("boom") } };
    assert_eq!("io err: boom", fault.to_string());
}

#[test]
fn the_step_limit_pauses_a_run() {
    let program = Interpreter::build("+[]").unwrap();
    let mut written: Vec<u8> = Vec::new();
    let result = program.execute(&mut Cursor::new(Vec::new()), &mut written, 1000);
    assert_eq!(Ok(Progress::Running), result);
    let result = program.execute(&mut Cursor::new(Vec::new()), &mut written, 0);
    assert_eq!(Ok(Progress::Running), result);
    let empty = Interpreter::build("").unwrap();
    let result = empty.execute(&mut Cursor::new(Vec::new()), &mut written, 0);
    assert_eq!(Ok(Progress::Halted), result);
}

#[test]
fn a_run_that_ends_on_the_last_allowed_step_has_halted() {
    let program = Interpreter::build("+.>").unwrap();
    let mut written: Vec<u8> = Vec::new();
    let result = program.execute(&mut Cursor::new(Vec::new()), &mut written, 3);
    assert_eq!(Ok(Progress::Halted), result);
    let result = program.execute(&mut Cursor::new(Vec::new()), &mut written, 2);
    assert_eq!(Ok(Progress::Running), result);
}

#[test]
fn a_paused_run_is_taken_up_where_it_stopped() {
    let program = Interpreter::build("+++.>,.<.").unwrap();
    let mut machine = Machine::new();
    let mut read = Cursor::new(vec![9u8]);
    let mut written: Vec<u8> = Vec::new();
    let mut calls = 0;
    loop {
        calls += 1;
        match program.resume(&mut machine, &mut read, &mut written, 2) {
            Ok(Progress::Halted) => break,
            Ok(Progress::Running) => {}
            Err(err) => panic!("{}", err.to_string()),
        }
    }
    assert_eq!(4, calls);
    assert_eq!(vec![3u8, 9, 3], written);
    assert_eq!(7, machine.cursor());
    assert_eq!(0, machine.pointer());
    assert_eq!(3, machine.cell());
}

#[test]
fn a_new_machine_is_all_zero() {
    let machine = Machine::new();
    assert_eq!(0, machine.cell());
    assert_eq!(0, machine.pointer());
    assert_eq!(0, machine.cursor());
}

#[test]
fn a_machine_is_driven_step_by_step() {
    let program = Interpreter::build(",[-]>.").unwrap();
    let mut machine = Machine::new();
    assert_eq!(Some(Op::In), program.pending(&machine));
    assert_eq!(Ok(()), program.step(&mut machine, 2));
    assert_eq!(2, machine.cell());
    assert_eq!(Some(Op::JmpZ { addr: 4 }), program.pending(&machine));
    assert_eq!(Ok(()), program.step(&mut machine, 0));
    assert_eq!(2, machine.cursor());
    assert_eq!(Ok(()), program.step(&mut machine, 0));
    assert_eq!(1, machine.cell());
    assert_eq!(Some(Op::JmpNz { addr: 2 }), program.pending(&machine));
    assert_eq!(Ok(()), program.step(&mut machine, 0));
    assert_eq!(2, machine.cursor());
    assert_eq!(Ok(()), program.step(&mut machine, 0));
    assert_eq!(0, machine.cell());
    assert_eq!(Ok(()), program.step(&mut machine, 0));
    assert_eq!(4, machine.cursor());
    assert_eq!(Ok(()), program.step(&mut machine, 0));
    assert_eq!(1, machine.pointer());
    assert_eq!(Some(Op::Out), program.pending(&machine));
    assert_eq!(Ok(()), program.step(&mut machine, 77));
    assert_eq!(0, machine.cell());
    assert_eq!(None, program.pending(&machine));
    assert_eq!(Ok(()), program.step(&mut machine, 0));
    assert_eq!(6, machine.cursor());
}

#[test]
fn a_step_off_the_tape_leaves_the_machine_as_it_was() {
    let program = Interpreter::build("+<").unwrap();
    let mut machine = Machine::new();
    assert_eq!(Ok(()), program.step(&mut machine, 0));
    assert_eq!(
        Err(RuntimeError { kind: RuntimeErrorKind::DataOverflow { idx: -1 } }),
        program.step(&mut machine, 0)
    );
    assert_eq!(1, machine.cursor());
    assert_eq!(0, machine.pointer());
    assert_eq!(1, machine.cell());
}

#[test]
fn building_twice_gives_the_same_program() {
    let text = "+[>,.<-]\n[[-]>]";
    assert_eq!(ops(text), ops(text));
}
