use bfg::aot::{plan, Emit};
use bfg::bytecode::{assemble, optimize, Stmt};
use bfg::engine::{build, Backend, Job};
use bfg::machine::{Cpu, Signal};
use bfg::naive::{Bytecode, VM};
use bfg::optcode::{convert, Optcode};
use bfg::parse::{parse, Unmatched};

const GREETING: &str = "++++++++[>++++[>++>+++>+++>+<<<<-]>+>+>->>+[<]<-]>>.>---.+++++++..+++.>>.<-.<.+++.------.--------.>>+.>++.";

#[test]
fn tree_and_bytecode_interpreters_agree() {
    for (src, input) in [
        (GREETING, &b""[..]),
        (",+.", &b"A"[..]),
        (",[.,]", &b"abc\0"[..]),
        ("+++[->+++<]>.", &b""[..]),
        ("<+", &b""[..]),
        ("+[]", &b""[..]),
    ] {
        for level in 0..2 {
            let mut ir = parse(src).unwrap();
            if level == 1 {
                ir = optimize(ir);
            }
            let mut tree_tape = vec![0u8; 30_000];
            let tree = bfg::tree::run(&ir, &mut tree_tape, input, 100_000);
            let mut word_tape = vec![0u8; 30_000];
            let words = bfg::bytecode::run(&assemble(&ir), &mut word_tape, input, 100_000);
            assert_eq!(tree.end, words.end);
            assert_eq!(tree.cpu, words.cpu);
            assert_eq!(tree.output, words.output);
            assert_eq!(tree.consumed, words.consumed);
            assert_eq!(tree.starved, words.starved);
            assert_eq!(tree_tape, word_tape);
        }
    }
}

#[test]
fn a_step_hands_output_and_input_to_the_caller() {
    let code = assemble(&parse(",+.").unwrap());
    let mut data = vec![0u8; 4];
    let mut cpu = Cpu { ip: 0, dp: 0 };
    assert_eq!(bfg::bytecode::step(&code, &mut data, &mut cpu), Signal::Get(0));
    data[0] = 0x41;
    assert_eq!(bfg::bytecode::step(&code, &mut data, &mut cpu), Signal::Next);
    assert_eq!(bfg::bytecode::step(&code, &mut data, &mut cpu), Signal::Put(0x42));
    assert_eq!(cpu, Cpu { ip: 3, dp: 0 });
    assert_eq!(bfg::bytecode::step(&code, &mut data, &mut cpu), Signal::Halt);
    assert_eq!(cpu, Cpu { ip: 3, dp: 0 });
    assert_eq!(data, vec![0x42, 0, 0, 0]);
}

#[test]
fn a_step_of_the_tree_interpreter_branches_by_the_target() {
    let ir = parse("[+]+[-]").unwrap();
    let mut data = vec![0u8; 2];
    let mut cpu = Cpu { ip: 0, dp: 0 };
    assert_eq!(bfg::tree::step(&ir, &mut data, &mut cpu), Signal::Next);
    assert_eq!(cpu.ip, 3);
    assert_eq!(bfg::tree::step(&ir, &mut data, &mut cpu), Signal::Next);
    assert_eq!(bfg::tree::step(&ir, &mut data, &mut cpu), Signal::Next);
    assert_eq!(cpu.ip, 5);
    assert_eq!(bfg::tree::step(&ir, &mut data, &mut cpu), Signal::Next);
    assert_eq!(data[0], 0);
    assert_eq!(bfg::tree::step(&ir, &mut data, &mut cpu), Signal::Next);
    assert_eq!(cpu.ip, 7);
    assert_eq!(bfg::tree::step(&ir, &mut data, &mut cpu), Signal::Halt);
}

#[test]
fn a_cell_outside_the_tape_stops_the_machine() {
    let ir = parse("<+").unwrap();
    let mut data = vec![0u8; 8];
    let report = bfg::tree::run(&ir, &mut data, &[], 10);
    assert_eq!(report.end, Signal::OutOfTape);
    assert_eq!(report.cpu, Cpu { ip: 1, dp: -1 });
    assert_eq!(data, vec![0u8; 8]);

    let ir = parse(">>>.").unwrap();
    let mut data = vec![0u8; 3];
    let report = bfg::tree::run(&ir, &mut data, &[], 10);
    assert_eq!(report.end, Signal::OutOfTape);
    assert_eq!(report.cpu, Cpu { ip: 3, dp: 3 });
}

#[test]
fn the_pointer_may_leave_the_tape_and_come_back() {
    let ir = parse("<<>>+.").unwrap();
    let mut data = vec![0u8; 2];
    let report = bfg::tree::run(&ir, &mut data, &[], 10);
    assert_eq!(report.end, Signal::Halt);
    assert_eq!(report.output, vec![1]);
}

#[test]
fn a_word_with_no_opcode_stops_the_machine() {
    let code = vec![0x0000_0101, 0x0000_0007, 0x0000_0004];
    let mut data = vec![0u8; 2];
    let report = bfg::bytecode::run(&code, &mut data, &[], 10);
    assert_eq!(report.end, Signal::BadWord);
    assert_eq!(report.cpu.ip, 1);
    assert_eq!(data[0], 1);
    assert!(report.output.is_empty());
}

#[test]
fn a_read_at_the_end_of_input_leaves_the_cell() {
    let ir = parse("+++,.").unwrap();
    let mut data = vec![0u8; 2];
    let report = bfg::tree::run(&ir, &mut data, &[], 10);
    assert_eq!(report.end, Signal::Halt);
    assert!(report.starved);
    assert_eq!(report.consumed, 0);
    assert_eq!(report.output, vec![3]);
}

#[test]
fn a_run_stops_when_the_steps_are_used_up() {
    let ir = parse("+++").unwrap();
    let mut data = vec![0u8; 1];
    let report = bfg::tree::run(&ir, &mut data, &[], 2);
    assert_eq!(report.end, Signal::Next);
    assert_eq!(report.cpu.ip, 2);
    assert_eq!(data[0], 2);
    let mut data = vec![0u8; 1];
    let report = bfg::tree::run(&ir, &mut data, &[], 3);
    assert_eq!(report.end, Signal::Halt);
    assert_eq!(data[0], 3);
    let mut data = vec![0u8; 1];
    let report = bfg::tree::run(&[], &mut data, &[], 0);
    assert_eq!(report.end, Signal::Halt);
}

#[test]
fn a_branch_out_of_the_program_halts() {
    let mut data = vec![0u8; 1];
    let report = bfg::tree::run(&[Stmt::Jz(100), Stmt::Putc(0)], &mut data, &[], 10);
    assert_eq!(report.end, Signal::Halt);
    assert_eq!(report.cpu.ip, 2);
    assert!(report.output.is_empty());
    let mut data = vec![1u8; 1];
    let report = bfg::tree::run(&[Stmt::Putc(0), Stmt::Jnz(-100)], &mut data, &[], 10);
    assert_eq!(report.end, Signal::Halt);
    assert_eq!(report.output, vec![1]);
}

#[test]
fn the_plain_machine_reads_source_text() {
    assert_eq!(
        bfg::naive::parse("+[-]>,.<").unwrap(),
        vec![
            Bytecode::SInc,
            Bytecode::Jz(4),
            Bytecode::SDec,
            Bytecode::Jnz(2),
            Bytecode::Inc,
            Bytecode::Getc,
            Bytecode::Putc,
            Bytecode::Dec,
        ]
    );
    assert_eq!(
        bfg::naive::parse("[[]]").unwrap(),
        vec![Bytecode::Jz(4), Bytecode::Jz(3), Bytecode::Jnz(2), Bytecode::Jnz(1)]
    );
    let e = bfg::naive::parse("+]").unwrap_err();
    assert_eq!((e.kind, e.index), (Unmatched::Close, 1));
    let e = bfg::naive::parse("[[]").unwrap_err();
    assert_eq!((e.kind, e.index), (Unmatched::Open, 2));
}

#[test]
fn the_plain_machine_starts_on_a_zeroed_tape() {
    let vm = VM::new(16, vec![Bytecode::Inc]);
    assert_eq!(vm.data, vec![0u8; 16]);
    assert_eq!((vm.ip, vm.dp), (0, 0));
    assert_eq!(vm.code, vec![Bytecode::Inc]);
}

#[test]
fn the_plain_machine_greets() {
    let mut vm = VM::new(30_000, bfg::naive::parse(GREETING).unwrap());
    let report = vm.run(&[], 1_000_000);
    assert_eq!(report.end, Signal::Halt);
    assert_eq!(report.output, b"Hello World!\n".to_vec());
}

#[test]
fn the_plain_machine_runs_on_from_where_it_stands() {
    let mut vm = VM::new(4, bfg::naive::parse("+>++>+++").unwrap());
    let first = vm.run(&[], 4);
    assert_eq!(first.end, Signal::Next);
    assert_eq!((vm.ip, vm.dp), (4, 1));
    assert_eq!(vm.step(), Signal::Next);
    let rest = vm.run(&[], 100);
    assert_eq!(rest.end, Signal::Halt);
    assert_eq!(vm.data, vec![1, 2, 3, 0]);
    assert_eq!(vm.step(), Signal::Halt);
}

#[test]
fn the_fused_machine_is_made_from_the_plain_one() {
    let code = convert(bfg::naive::parse("+++>--<[.,]>>-<+").unwrap());
    assert_eq!(
        code,
        vec![
            Optcode::SAdd(3, 0),
            Optcode::SSub(2, 1),
            Optcode::Jz(6),
            Optcode::Putc,
            Optcode::Getc,
            Optcode::Jnz(3),
            Optcode::SDec(2),
            Optcode::SInc(1),
        ]
    );
    let code = convert(bfg::naive::parse(">[>>]<[<]>>.").unwrap());
    assert_eq!(
        code,
        vec![
            Optcode::Inc,
            Optcode::Jz(4),
            Optcode::Add(2),
            Optcode::Jnz(2),
            Optcode::Sub(1),
            Optcode::Jz(8),
            Optcode::Sub(1),
            Optcode::Jnz(6),
            Optcode::Putci(2),
        ]
    );
}

#[test]
fn the_fused_machine_wraps_long_runs() {
    let src: String = std::iter::repeat('+').take(128).collect();
    assert_eq!(convert(bfg::naive::parse(&src).unwrap()), vec![Optcode::SSub(128, 0)]);
    let src: String = std::iter::repeat('+').take(256).collect();
    assert_eq!(convert(bfg::naive::parse(&src).unwrap()), vec![]);
    let src: String = std::iter::repeat('-').take(3).chain(",".chars()).collect();
    assert_eq!(convert(bfg::naive::parse(&src).unwrap()), vec![Optcode::Getc]);
}

#[test]
fn the_fused_machine_greets() {
    let code = convert(bfg::naive::parse(GREETING).unwrap());
    let mut data = vec![0u8; 30_000];
    let report = bfg::optcode::run(&code, &mut data, &[], 1_000_000);
    assert_eq!(report.end, Signal::Halt);
    assert_eq!(report.output, b"Hello World!\n".to_vec());
    let mut plain = VM::new(30_000, bfg::naive::parse(GREETING).unwrap());
    plain.run(&[], 1_000_000);
    assert_eq!(plain.data, data);
}

#[test]
fn the_fused_machine_steps_through_every_instruction() {
    let code = [
        Optcode::Add(3),
        Optcode::Sub(1),
        Optcode::Inc,
        Optcode::Dec,
        Optcode::SAdd(200, -1),
        Optcode::SAdd(100, -1),
        Optcode::SSub(50, -1),
        Optcode::SInc(0),
        Optcode::SDec(1),
        Optcode::Putci(-1),
        Optcode::Getci(1),
        Optcode::Putc,
        Optcode::Getc,
        Optcode::Jnz(15),
        Optcode::Putc,
        Optcode::Jz(17),
        Optcode::Putc,
    ];
    let mut data = vec![0u8; 5];
    let report = bfg::optcode::run(&code, &mut data, &[9, 8], 100);
    assert_eq!(report.end, Signal::Halt);
    assert_eq!(report.cpu, Cpu { ip: 17, dp: 2 });
    assert_eq!(data, vec![0, 250, 8, 9, 0]);
    assert_eq!(report.output, vec![250, 1, 8]);
    assert_eq!(report.consumed, 2);
}

#[test]
fn loops_are_numbered_as_they_open() {
    let ir = parse("+[[-]>[.]],").unwrap();
    assert_eq!(
        plan(&ir),
        vec![
            Emit::Change(1, 0),
            Emit::Open(0),
            Emit::Open(1),
            Emit::Change(-1, 0),
            Emit::Close(1),
            Emit::Move(1),
            Emit::Open(2),
            Emit::Put(0),
            Emit::Close(2),
            Emit::Close(0),
            Emit::Get(0),
        ]
    );
    assert_eq!(
        plan(&optimize(parse(">>+[<]").unwrap())),
        vec![Emit::Change(1, 2), Emit::Move(2), Emit::Open(0), Emit::Move(-1), Emit::Close(0)]
    );
}

#[test]
fn a_build_follows_level_and_back_end() {
    let built = build("++>+", 1, Backend::Rs).unwrap();
    assert!(!built.level_refused);
    match built.job {
        Job::Interpret(words) => assert_eq!(words, vec![0x0000_0201, 0x0001_0101]),
        other => panic!("{other:?}"),
    }
    let built = build("++>+", 0, Backend::Asm).unwrap();
    assert!(!built.level_refused);
    match built.job {
        Job::Thread(words) => assert_eq!(words, vec![0x0000_0101, 0x0000_0101, 0x0001_0000, 0x0000_0101]),
        other => panic!("{other:?}"),
    }
    let built = build("[-]", 1, Backend::AOT).unwrap();
    match built.job {
        Job::Native(entries) => assert_eq!(entries, vec![Emit::Open(0), Emit::Change(-1, 0), Emit::Close(0)]),
        other => panic!("{other:?}"),
    }
}

#[test]
fn a_level_that_does_not_exist_builds_without_optimization() {
    let built = build("++", 2, Backend::Rs).unwrap();
    assert!(built.level_refused);
    match built.job {
        Job::Interpret(words) => assert_eq!(words, vec![0x0000_0101, 0x0000_0101]),
        other => panic!("{other:?}"),
    }
}

#[test]
fn a_build_passes_parse_errors_on() {
    let err = build("+]", 1, Backend::AOT).unwrap_err();
    assert_eq!((err.kind, err.index), (Unmatched::Close, 1));
    let err = build("[", 0, Backend::Rs).unwrap_err();
    assert_eq!((err.kind, err.index), (Unmatched::Open, 0));
}
