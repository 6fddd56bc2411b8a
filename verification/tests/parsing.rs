use bfg::bytecode::{is_raw, Stmt};
use bfg::link::is_balanced;
use bfg::parse::{parse, serialize, ParseError, Unmatched};

#[test]
fn every_command_gives_its_statement() {
    assert_eq!(
        parse("><+-.,").unwrap(),
        vec![
            Stmt::PAdd(1),
            Stmt::PAdd(-1),
            Stmt::DAdd(1, 0),
            Stmt::DAdd(-1, 0),
            Stmt::Putc(0),
            Stmt::Getc(0),
        ]
    );
}

#[test]
fn comments_are_dropped() {
    assert_eq!(parse("a + b\n- c").unwrap(), vec![Stmt::DAdd(1, 0), Stmt::DAdd(-1, 0)]);
    assert_eq!(parse("").unwrap(), vec![]);
    assert_eq!(parse("no commands here").unwrap(), vec![]);
}

#[test]
fn branches_hold_the_distance_to_their_partner() {
    assert_eq!(parse("[]").unwrap(), vec![Stmt::Jz(1), Stmt::Jnz(-1)]);
    assert_eq!(
        parse("+[->+<]").unwrap(),
        vec![
            Stmt::DAdd(1, 0),
            Stmt::Jz(5),
            Stmt::DAdd(-1, 0),
            Stmt::PAdd(1),
            Stmt::DAdd(1, 0),
            Stmt::PAdd(-1),
            Stmt::Jnz(-5),
        ]
    );
    assert_eq!(
        parse("[[][]]").unwrap(),
        vec![Stmt::Jz(5), Stmt::Jz(1), Stmt::Jnz(-1), Stmt::Jz(1), Stmt::Jnz(-1), Stmt::Jnz(-5)]
    );
}

#[test]
fn parse_succeeds_exactly_on_balanced_brackets() {
    for src in ["", "[]", "[[]]", "[][]", "+[-[>]<]", "a[b]c"] {
        assert!(parse(src).is_ok(), "{src}");
    }
    for src in ["[", "]", "][", "[]]", "[[]", "[]][", "+[-[>]<"] {
        assert!(parse(src).is_err(), "{src}");
    }
}

#[test]
fn stray_close_is_reported_where_it_stands() {
    assert_eq!(parse("]").unwrap_err(), ParseError { kind: Unmatched::Close, index: 0 });
    assert_eq!(parse("ab]").unwrap_err(), ParseError { kind: Unmatched::Close, index: 2 });
    assert_eq!(parse("[]]..[").unwrap_err(), ParseError { kind: Unmatched::Close, index: 2 });
    assert_eq!(parse("\u{e9}\u{4e16}]").unwrap_err(), ParseError { kind: Unmatched::Close, index: 2 });
}

#[test]
fn open_loop_is_reported_at_the_last_character() {
    assert_eq!(parse("[").unwrap_err(), ParseError { kind: Unmatched::Open, index: 0 });
    assert_eq!(parse("[+++").unwrap_err(), ParseError { kind: Unmatched::Open, index: 3 });
    assert_eq!(parse("x[y[z]w").unwrap_err(), ParseError { kind: Unmatched::Open, index: 6 });
}

#[test]
fn writing_out_what_was_read_gives_the_commands_back() {
    let src = "read: , then loop [ - > + < ] and write .";
    let ir = parse(src).unwrap();
    assert_eq!(serialize(&ir), ",[->+<].");
    assert_eq!(parse(&serialize(&ir)).unwrap(), ir);
}

#[test]
fn parsed_programs_are_raw_and_balanced() {
    let ir = parse("+[>,.<-]").unwrap();
    assert!(is_raw(&ir));
    assert!(is_balanced(&ir));
    assert!(!is_raw(&[Stmt::DAdd(1, 2)]));
    assert!(!is_raw(&[Stmt::PAdd(1), Stmt::Putc(-1)]));
    assert!(!is_raw(&[Stmt::Getc(7)]));
    assert!(!is_balanced(&[Stmt::Jnz(0), Stmt::Jz(0)]));
    assert!(!is_balanced(&[Stmt::Jz(0)]));
    assert!(is_balanced(&[Stmt::Jz(0), Stmt::PAdd(3), Stmt::Jnz(0)]));
}

#[test]
fn a_loop_longer_than_sixteen_bits_wraps_its_targets() {
    let mut src = String::from("[");
    for _ in 0..40_000 {
        src.push('+');
    }
    src.push(']');
    let ir = parse(&src).unwrap();
    assert_eq!(ir.len(), 40_002);
    assert_eq!(ir[0], Stmt::Jz((40_001i32 - 65_536) as i16));
    assert_eq!(ir[40_001], Stmt::Jnz((65_536i32 - 40_001) as i16));
}
