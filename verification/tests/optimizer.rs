use bfg::bytecode::{optimize, Stmt};
use bfg::machine::Signal;
use bfg::parse::parse;

fn optimized(src: &str) -> Vec<Stmt> {
    optimize(parse(src).unwrap())
}

#[test]
fn runs_of_cell_changes_become_one() {
    assert_eq!(optimized("+++"), vec![Stmt::DAdd(3, 0)]);
    assert_eq!(optimized("+++--"), vec![Stmt::DAdd(1, 0)]);
    assert_eq!(optimized("----"), vec![Stmt::DAdd(-4, 0)]);
}

#[test]
fn a_run_that_sums_to_zero_leaves_nothing() {
    assert_eq!(optimized("+-"), vec![]);
    assert_eq!(optimized("++--."), vec![Stmt::Putc(0)]);
}

#[test]
fn pointer_moves_fold_into_offsets() {
    assert_eq!(optimized(">>+"), vec![Stmt::DAdd(1, 2)]);
    assert_eq!(optimized(">>+<<<-"), vec![Stmt::DAdd(1, 2), Stmt::DAdd(-1, -1)]);
    assert_eq!(optimized(">."), vec![Stmt::Putc(1)]);
    assert_eq!(optimized("<<,"), vec![Stmt::Getc(-2)]);
}

#[test]
fn a_trailing_pointer_move_is_dropped() {
    assert_eq!(optimized(">>>"), vec![]);
    assert_eq!(optimized("+>"), vec![Stmt::DAdd(1, 0)]);
}

#[test]
fn branches_commit_the_pointer_move() {
    assert_eq!(
        optimized(">[>]"),
        vec![Stmt::PAdd(1), Stmt::Jz(2), Stmt::PAdd(1), Stmt::Jnz(-2)]
    );
    assert_eq!(
        optimized("+[-]"),
        vec![Stmt::DAdd(1, 0), Stmt::Jz(2), Stmt::DAdd(-1, 0), Stmt::Jnz(-2)]
    );
    assert_eq!(
        optimized("+++[->+++<]>."),
        vec![
            Stmt::DAdd(3, 0),
            Stmt::Jz(3),
            Stmt::DAdd(-1, 0),
            Stmt::DAdd(3, 1),
            Stmt::Jnz(-3),
            Stmt::Putc(1),
        ]
    );
}

#[test]
fn a_read_drops_the_change_gathered_for_its_cell() {
    assert_eq!(optimized("+,"), vec![Stmt::Getc(0)]);
    assert_eq!(optimized(">++,."), vec![Stmt::Getc(1), Stmt::Putc(1)]);
}

#[test]
fn a_sum_that_leaves_a_signed_byte_is_written_out_first() {
    let src: String = std::iter::repeat('+').take(200).collect();
    assert_eq!(optimized(&src), vec![Stmt::DAdd(127, 0), Stmt::DAdd(73, 0)]);
    let src: String = std::iter::repeat('-').take(129).collect();
    assert_eq!(optimized(&src), vec![Stmt::DAdd(-128, 0), Stmt::DAdd(-1, 0)]);
    let src: String = std::iter::repeat('+').take(127).collect();
    assert_eq!(optimized(&src), vec![Stmt::DAdd(127, 0)]);
}

#[test]
fn a_sum_written_out_before_a_read_stays() {
    let mut src: String = std::iter::repeat('+').take(200).collect();
    src.push(',');
    assert_eq!(optimized(&src), vec![Stmt::DAdd(127, 0), Stmt::Getc(0)]);
}

#[test]
fn the_deferred_move_wraps_at_sixteen_bits() {
    let mut src: String = std::iter::repeat('>').take(32_768).collect();
    src.push('.');
    assert_eq!(optimized(&src), vec![Stmt::Putc(i16::MIN)]);
}

#[test]
fn optimized_programs_are_no_longer_and_hold_no_idle_statement() {
    for src in [
        "+++[->+++<]>.",
        ">>><<<+[>+<-]",
        "+-+-[>><<]",
        ",[.,]",
        "++++++++[>++++[>++>+++>+++>+<<<<-]>+>+>->>+[<]<-]>>.",
    ] {
        let ir = parse(src).unwrap();
        let len = ir.len();
        let opt = optimize(ir);
        assert!(opt.len() <= len);
        for (k, stmt) in opt.iter().enumerate() {
            match *stmt {
                Stmt::PAdd(d) => {
                    assert_ne!(d, 0);
                    assert!(matches!(opt[k + 1], Stmt::Jz(_) | Stmt::Jnz(_)));
                }
                Stmt::DAdd(n, _) => assert_ne!(n, 0),
                _ => {}
            }
        }
    }
}

#[test]
fn branches_of_optimized_programs_point_at_their_partners() {
    let opt = optimized("++++++++[>++++[>++>+++>+++>+<<<<-]>+>+>->>+[<]<-]>>.>---.+++++++..+++.");
    let mut seen = 0;
    for (i, stmt) in opt.iter().enumerate() {
        if let Stmt::Jz(t) = *stmt {
            assert!(t > 0);
            assert_eq!(opt[i + t as usize], Stmt::Jnz(-t));
            seen += 1;
        }
        if let Stmt::Jnz(t) = *stmt {
            assert!(t < 0);
            assert_eq!(opt[i - (-t) as usize], Stmt::Jz(-t));
        }
    }
    assert_eq!(seen, 3);
}

fn same_behavior(src: &str, input: &[u8]) {
    let ir = parse(src).unwrap();
    let mut plain_tape = vec![0u8; 30_000];
    let plain = bfg::tree::run(&ir, &mut plain_tape, input, 5_000_000);
    assert_eq!(plain.end, Signal::Halt, "{src}");
    assert!(!plain.starved);
    let opt = optimize(ir);
    let mut opt_tape = vec![0u8; 30_000];
    let fused = bfg::tree::run(&opt, &mut opt_tape, input, 5_000_000);
    assert_eq!(fused.end, Signal::Halt, "{src}");
    assert_eq!(fused.output, plain.output, "{src}");
    assert_eq!(fused.consumed, plain.consumed, "{src}");
    assert!(!fused.starved);
    assert_eq!(opt_tape, plain_tape, "{src}");
}

#[test]
fn optimized_programs_do_what_the_programs_did() {
    same_behavior("+++[->+++<]>.", &[]);
    same_behavior(",+.", &[0x41]);
    same_behavior(",[.,]", b"echo\0");
    same_behavior(">>>+<<<->>.<<.", &[]);
    same_behavior("+>+>+>+<<<[->[->+<]<]>>>.", &[]);
    same_behavior(",>,<[->+<]>.", &[20, 22]);
    same_behavior("++++++++[>++++[>++>+++>+++>+<<<<-]>+>+>->>+[<]<-]>>.>---.+++++++..+++.>>.<-.<.+++.------.--------.>>+.>++.", &[]);
    let long: String = std::iter::repeat('+').take(300).chain(".,.".chars()).collect();
    same_behavior(&long, &[7]);
}

#[test]
fn the_optimized_program_needs_no_more_steps() {
    let src = "+++++[->++<]>.";
    let ir = parse(src).unwrap();
    let mut tape = vec![0u8; 100];
    let mut fuel = 0;
    while bfg::tree::run(&ir, &mut tape, &[], fuel).end != Signal::Halt {
        tape = vec![0u8; 100];
        fuel += 1;
    }
    let opt = optimize(ir);
    let mut tape = vec![0u8; 100];
    let report = bfg::tree::run(&opt, &mut tape, &[], fuel);
    assert_eq!(report.end, Signal::Halt);
    assert_eq!(report.output, vec![10]);
}

#[test]
fn at_the_end_of_input_the_optimized_program_may_differ() {
    let ir = parse("+,.").unwrap();
    let mut tape = vec![0u8; 10];
    let plain = bfg::tree::run(&ir, &mut tape, &[], 100);
    assert!(plain.starved);
    assert_eq!(plain.output, vec![1]);
    let mut tape = vec![0u8; 10];
    let fused = bfg::tree::run(&optimize(ir), &mut tape, &[], 100);
    assert!(fused.starved);
    assert_eq!(fused.output, vec![0]);
}
