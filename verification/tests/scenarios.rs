use bfg::bytecode::{assemble, optimize, Stmt};
use bfg::machine::Signal;
use bfg::naive::VM;
use bfg::optcode::convert;
use bfg::parse::{parse, ParseError, Unmatched};

const HELLO: &str = "++++++++[>++++[>++>+++>+++>+<<<<-]>+>+>->>+[<]<-]>>.>---.+++++++..+++.>>.<-.<.+++.------.--------.>>+.>++.";

const TAPE: usize = 30_000;

/// How each back end ended, what it wrote, and the tape it left.
fn on_every_back_end(src: &str, first_cell: u8, input: &[u8], fuel: usize) -> Vec<(Signal, Vec<u8>, Vec<u8>, usize)> {
    let mut tape = vec![0u8; TAPE];
    tape[0] = first_cell;
    let mut results = Vec::new();

    let ir = parse(src).unwrap();
    let mut data = tape.clone();
    let r = bfg::tree::run(&ir, &mut data, input, fuel);
    results.push((r.end, r.output, data, r.cpu.ip));

    let mut data = tape.clone();
    let r = bfg::bytecode::run(&assemble(&ir), &mut data, input, fuel);
    results.push((r.end, r.output, data, r.cpu.ip));

    let fused = optimize(ir);
    let mut data = tape.clone();
    let r = bfg::tree::run(&fused, &mut data, input, fuel);
    results.push((r.end, r.output, data, r.cpu.ip));

    let mut data = tape.clone();
    let r = bfg::bytecode::run(&assemble(&fused), &mut data, input, fuel);
    results.push((r.end, r.output, data, r.cpu.ip));

    let plain = bfg::naive::parse(src).unwrap();
    let mut vm = VM::new(TAPE, plain.clone());
    vm.data[0] = first_cell;
    let r = vm.run(input, fuel);
    results.push((r.end, r.output, vm.data, r.cpu.ip));

    let mut data = tape.clone();
    let r = bfg::optcode::run(&convert(plain), &mut data, input, fuel);
    results.push((r.end, r.output, data, r.cpu.ip));

    results
}

#[test]
fn hello_world() {
    for (end, output, _, _) in on_every_back_end(HELLO, 0, &[], 1_000_000) {
        assert_eq!(end, Signal::Halt);
        assert_eq!(output, b"Hello World!\n".to_vec());
        assert_eq!(output.len(), 13);
    }
}

#[test]
fn hello_world_leaves_the_same_tape_everywhere() {
    let results = on_every_back_end(HELLO, 0, &[], 1_000_000);
    for (_, _, tape, _) in results.iter() {
        assert_eq!(tape, &results[0].2);
    }
}

#[test]
fn read_increment_write() {
    for (end, output, tape, _) in on_every_back_end(",+.", 0, &[0x41], 100) {
        assert_eq!(end, Signal::Halt);
        assert_eq!(output, vec![0x42]);
        assert_eq!(tape[0], 0x42);
    }
}

#[test]
fn endless_loop_runs_out_of_steps() {
    assert_eq!(parse("+[]").unwrap(), vec![Stmt::DAdd(1, 0), Stmt::Jz(1), Stmt::Jnz(-1)]);
    for (end, output, tape, ip) in on_every_back_end("+[]", 0, &[], 10_000) {
        assert_eq!(end, Signal::Next);
        assert!(ip == 1 || ip == 2);
        assert_eq!(tape[0], 1);
        assert!(output.is_empty());
    }
}

#[test]
fn multiply_three_by_three() {
    for (end, output, tape, _) in on_every_back_end("+++[->+++<]>.", 0, &[], 1000) {
        assert_eq!(end, Signal::Halt);
        assert_eq!(tape[1], 9);
        assert_eq!(tape[0], 0);
        assert_eq!(output, vec![0x09]);
    }
}

#[test]
fn lone_brackets_are_rejected() {
    assert_eq!(parse("[").unwrap_err(), ParseError { kind: Unmatched::Open, index: 0 });
    assert_eq!(parse("]").unwrap_err(), ParseError { kind: Unmatched::Close, index: 0 });
    assert_eq!(
        bfg::naive::parse("[").unwrap_err(),
        bfg::naive::ParseError { kind: Unmatched::Open, index: 0 }
    );
    assert_eq!(
        bfg::naive::parse("]").unwrap_err(),
        bfg::naive::ParseError { kind: Unmatched::Close, index: 0 }
    );
}

#[test]
fn decrement_wraps_to_255() {
    for (end, output, tape, _) in on_every_back_end("-.", 0, &[], 10) {
        assert_eq!(end, Signal::Halt);
        assert_eq!(tape[0], 255);
        assert_eq!(output, vec![0xFF]);
    }
}

#[test]
fn increment_wraps_to_zero() {
    for (end, output, tape, _) in on_every_back_end("+.", 255, &[], 10) {
        assert_eq!(end, Signal::Halt);
        assert_eq!(tape[0], 0);
        assert_eq!(output, vec![0]);
    }
}
