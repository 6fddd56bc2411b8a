use bfg::bytecode::{assemble, decode, encode, Opcode, Stmt};

#[test]
fn each_statement_has_its_opcode() {
    assert_eq!(Stmt::PAdd(3).opcode(), Opcode::PAdd);
    assert_eq!(Stmt::DAdd(1, 2).opcode(), Opcode::DAdd);
    assert_eq!(Stmt::Jz(1).opcode(), Opcode::Jz);
    assert_eq!(Stmt::Jnz(-1).opcode(), Opcode::Jnz);
    assert_eq!(Stmt::Putc(0).opcode(), Opcode::Putc);
    assert_eq!(Stmt::Getc(0).opcode(), Opcode::Getc);
}

#[test]
fn words_hold_the_three_fields() {
    assert_eq!(encode(Stmt::PAdd(1)), 0x0001_0000);
    assert_eq!(encode(Stmt::PAdd(-1)), 0xffff_0000u32 as i32);
    assert_eq!(encode(Stmt::DAdd(1, 0)), 0x0000_0101);
    assert_eq!(encode(Stmt::DAdd(-1, 0)), 0x0000_ff01);
    assert_eq!(encode(Stmt::DAdd(-128, 3)), 0x0003_8001);
    assert_eq!(encode(Stmt::DAdd(127, -2)), 0xfffe_7f01u32 as i32);
    assert_eq!(encode(Stmt::Jz(5)), 0x0005_0002);
    assert_eq!(encode(Stmt::Jnz(-5)), 0xfffb_0003u32 as i32);
    assert_eq!(encode(Stmt::Putc(0)), 4);
    assert_eq!(encode(Stmt::Getc(-1)), 0xffff_0005u32 as i32);
    assert_eq!(encode(Stmt::Putc(i16::MAX)), 0x7fff_0004);
    assert_eq!(encode(Stmt::Getc(i16::MIN)), 0x8000_0005u32 as i32);
}

#[test]
fn decoding_an_encoded_statement_gives_it_back() {
    let wides = [i16::MIN, -32767, -256, -1, 0, 1, 255, 256, 32767];
    let narrows = [i8::MIN, -127, -1, 0, 1, 127];
    for &i in wides.iter() {
        for stmt in [Stmt::PAdd(i), Stmt::Jz(i), Stmt::Jnz(i), Stmt::Putc(i), Stmt::Getc(i)] {
            assert_eq!(decode(encode(stmt)), Some(stmt));
        }
        for &n in narrows.iter() {
            let stmt = Stmt::DAdd(n, i);
            assert_eq!(decode(encode(stmt)), Some(stmt));
        }
    }
}

#[test]
fn a_word_with_no_opcode_decodes_to_nothing() {
    assert_eq!(decode(6), None);
    assert_eq!(decode(0xff), None);
    assert_eq!(decode(-1), None);
    assert_eq!(decode(0x0001_0006), None);
}

#[test]
fn the_second_byte_counts_for_cell_changes_only() {
    assert_eq!(decode(0x0002_7700), Some(Stmt::PAdd(2)));
    assert_eq!(decode(0x0002_7701), Some(Stmt::DAdd(0x77, 2)));
    assert_eq!(decode(0x0002_8001), Some(Stmt::DAdd(-128, 2)));
}

#[test]
fn a_program_is_packed_word_by_word() {
    let ir = [Stmt::DAdd(3, 0), Stmt::Jz(3), Stmt::DAdd(-1, 0), Stmt::DAdd(3, 1), Stmt::Jnz(-3), Stmt::Putc(1)];
    assert_eq!(
        assemble(&ir),
        vec![0x0000_0301, 0x0003_0002, 0x0000_ff01, 0x0001_0301, 0xfffd_0003u32 as i32, 0x0001_0004]
    );
    assert_eq!(assemble(&[]), Vec::<i32>::new());
}
