//! The intermediate representation and its packed 32-bit encoding.

use vstd::prelude::*;
use crate::fusion::{lemma_fused_len_whole, lemma_optimized_tidy, lemma_optimized_well_formed};
use crate::link::{close_loop, lemma_link_same_shape, lemma_linking_done, lemma_linking_emit, link, linking, open_loop, profile, same_shape, sign, well_formed, wrap16};
use crate::machine::{attend, boot, course, execute, plain, serve, tick, Cpu, Report, Signal, Step, World};
use crate::nesting::{balanced, depth};

verus! {

/// One statement of the intermediate representation.
#[derive(Debug, Clone, Copy, PartialEq, Eq, Structural)]
pub enum Stmt {
    /// Moves the data pointer by the given distance.
    PAdd(i16),
    /// Adds the first value to the cell at the given offset from the data pointer.
    DAdd(i8, i16),
    /// Branches forward past the matching `Jnz` when the current cell is zero.
    Jz(i16),
    /// Branches back to just after the matching `Jz` when the current cell is not zero.
    Jnz(i16),
    /// Writes the cell at the given offset from the data pointer.
    Putc(i16),
    /// Reads one byte into the cell at the given offset from the data pointer.
    Getc(i16),
}

/// The tag of a statement, as it is stored in the low byte of a packed word.
#[derive(Debug, Clone, Copy, PartialEq, Eq, Structural)]
pub enum Opcode {
    PAdd,
    DAdd,
    Jz,
    Jnz,
    Putc,
    Getc,
}

impl Opcode {
    /// The number that stands for this tag in a packed word.
    pub open spec fn number(self) -> int {
        match self {
            Opcode::PAdd => 0,
            Opcode::DAdd => 1,
            Opcode::Jz => 2,
            Opcode::Jnz => 3,
            Opcode::Putc => 4,
            Opcode::Getc => 5,
        }
    }

    /// The number that stands for this tag in a packed word.
    pub fn to_i32(self) -> (n: i32)
        ensures
            n == self.number(),
    {
        match self {
            Opcode::PAdd => 0,
            Opcode::DAdd => 1,
            Opcode::Jz => 2,
            Opcode::Jnz => 3,
            Opcode::Putc => 4,
            Opcode::Getc => 5,
        }
    }
}

impl Stmt {
    /// The tag of this statement.
    pub open spec fn tag(self) -> Opcode {
        match self {
            Stmt::PAdd(_) => Opcode::PAdd,
            Stmt::DAdd(_, _) => Opcode::DAdd,
            Stmt::Jz(_) => Opcode::Jz,
            Stmt::Jnz(_) => Opcode::Jnz,
            Stmt::Putc(_) => Opcode::Putc,
            Stmt::Getc(_) => Opcode::Getc,
        }
    }

    /// The 16-bit field of this statement: a distance, an offset or a branch target.
    pub open spec fn wide(self) -> i16 {
        match self {
            Stmt::PAdd(i) => i,
            Stmt::DAdd(_, i) => i,
            Stmt::Jz(i) => i,
            Stmt::Jnz(i) => i,
            Stmt::Putc(i) => i,
            Stmt::Getc(i) => i,
        }
    }

    /// The 8-bit immediate of this statement, zero for all but `DAdd`.
    pub open spec fn narrow(self) -> i8 {
        match self {
            Stmt::DAdd(n, _) => n,
            _ => 0,
        }
    }

    pub fn opcode(self) -> (op: Opcode)
        ensures
            op == self.tag(),
    {
        match self {
            Stmt::PAdd(_) => Opcode::PAdd,
            Stmt::DAdd(_, _) => Opcode::DAdd,
            Stmt::Jz(_) => Opcode::Jz,
            Stmt::Jnz(_) => Opcode::Jnz,
            Stmt::Putc(_) => Opcode::Putc,
            Stmt::Getc(_) => Opcode::Getc,
        }
    }
}

/// Bit position of the 16-bit field in a packed word.
pub const ISHIFT: u32 = 16;

/// Bit position of the 8-bit immediate in a packed word.
pub const NSHIFT: u32 = 8;

/// The packed word of a statement: the tag in bits 0 to 7, the immediate as
/// an unsigned byte in bits 8 to 15, the 16-bit field, signed, above them.
pub open spec fn packed(s: Stmt) -> int {
    s.wide() * 65536 + (s.narrow() as int % 256) * 256 + s.tag().number()
}

/// The statement that a word stands for, if its low byte is a tag.
pub open spec fn unpacked(w: int) -> Option<Stmt> {
    let wide = (w / 65536) as i16;
    let byte = (w / 256) % 256;
    let narrow = (if byte < 128 { byte } else { byte - 256 }) as i8;
    let tag = w % 256;
    if tag == 0 {
        Some(Stmt::PAdd(wide))
    } else if tag == 1 {
        Some(Stmt::DAdd(narrow, wide))
    } else if tag == 2 {
        Some(Stmt::Jz(wide))
    } else if tag == 3 {
        Some(Stmt::Jnz(wide))
    } else if tag == 4 {
        Some(Stmt::Putc(wide))
    } else if tag == 5 {
        Some(Stmt::Getc(wide))
    } else {
        None
    }
}

/// Packs one statement into its word.
pub fn encode(stmt: Stmt) -> (word: i32)
    ensures
        word as int == packed(stmt),
{
    match stmt {
        Stmt::PAdd(i) | Stmt::Putc(i) | Stmt::Getc(i) | Stmt::Jz(i) | Stmt::Jnz(i) => {
            let op: i32 = stmt.opcode().to_i32();
            let hi: i32 = (i as i32) << ISHIFT;
            assert(hi == i * 65536) by (bit_vector)
                requires
                    hi == (i as i32) << 16u32,
            ;
            let word = op | hi;
            assert(word == hi + op) by (bit_vector)
                requires
                    word == op | hi,
                    0 <= op < 6,
                    hi == (i as i32) << 16u32,
            ;
            word
        },
        Stmt::DAdd(n, i) => {
            let op: i32 = stmt.opcode().to_i32();
            let hi: i32 = (i as i32) << ISHIFT;
            let mid: i32 = (#[verifier::truncate] (n as u8) as i32) << NSHIFT;
            assert(hi == i * 65536) by (bit_vector)
                requires
                    hi == (i as i32) << 16u32,
            ;
            assert(mid == (n as int % 256) * 256) by (bit_vector)
                requires
                    mid == ((n as u8) as i32) << 8u32,
            ;
            let word = op | hi | mid;
            assert(word == hi + mid + op) by (bit_vector)
                requires
                    word == op | hi | mid,
                    0 <= op < 6,
                    hi == (i as i32) << 16u32,
                    mid == ((n as u8) as i32) << 8u32,
            ;
            word
        },
    }
}

/// Reads one word: the tag from the low byte, the 16-bit field by an
/// arithmetic shift, the immediate from the second byte.
pub fn decode(word: i32) -> (stmt: Option<Stmt>)
    ensures
        stmt == unpacked(word as int),
{
    let tag: i32 = word & 0xff;
    let wide: i32 = word >> ISHIFT;
    let byte: i32 = (word >> NSHIFT) & 0xff;
    assert(tag == word as int % 256 && wide == word as int / 65536 && byte == (word as int / 256) % 256) by (bit_vector)
        requires
            tag == word & 0xff,
            wide == word >> 16u32,
            byte == (word >> 8u32) & 0xff,
    ;
    let i: i16 = wide as i16;
    let n: i8 = if byte < 128 {
        byte as i8
    } else {
        (byte - 256) as i8
    };
    if tag == 0 {
        Some(Stmt::PAdd(i))
    } else if tag == 1 {
        Some(Stmt::DAdd(n, i))
    } else if tag == 2 {
        Some(Stmt::Jz(i))
    } else if tag == 3 {
        Some(Stmt::Jnz(i))
    } else if tag == 4 {
        Some(Stmt::Putc(i))
    } else if tag == 5 {
        Some(Stmt::Getc(i))
    } else {
        None
    }
}

/// The three fields of a word can be read off it again.
proof fn lemma_fields(wide: i16, byte: i32, tag: i32, w: i32)
    requires
        0 <= byte < 256,
        0 <= tag < 6,
        w == wide * 65536 + byte * 256 + tag,
    ensures
        w as int / 65536 == wide,
        (w as int / 256) % 256 == byte,
        w as int % 256 == tag,
{
    assert(w as int / 65536 == wide && (w as int / 256) % 256 == byte && w as int % 256 == tag) by (bit_vector)
        requires
            0 <= byte < 256,
            0 <= tag < 6,
            w == wide * 65536 + byte * 256 + tag,
    ;
}

/// A signed byte and the unsigned byte with the same bits.
proof fn lemma_byte(n: i8, byte: i32)
    requires
        byte == n as int % 256,
    ensures
        0 <= byte < 256,
        n >= 0 ==> byte == n,
        n < 0 ==> byte == n + 256,
{
    assert(0 <= byte < 256 && (n >= 0 ==> byte == n) && (n < 0 ==> byte == n + 256)) by (bit_vector)
        requires
            byte == n as int % 256,
    ;
}

/// Reading the word of a statement gives the statement back.
pub proof fn lemma_unpack_packed(s: Stmt)
    ensures
        i32::MIN <= packed(s) <= i32::MAX,
        unpacked(packed(s)) == Some(s),
{
    let byte = s.narrow() as int % 256;
    lemma_byte(s.narrow(), byte as i32);
    lemma_fields(s.wide(), byte as i32, s.tag().number() as i32, packed(s) as i32);
}

/// The program that a sequence of words stands for.
pub open spec fn decoded(words: Seq<i32>) -> Seq<Option<Stmt>> {
    Seq::new(words.len(), |k: int| unpacked(words[k] as int))
}

/// The words are the statements, packed one by one.
pub open spec fn packs(words: Seq<i32>, code: Seq<Stmt>) -> bool {
    &&& words.len() == code.len()
    &&& forall|k: int| 0 <= k < code.len() ==> words[k] as int == packed(#[trigger] code[k])
}

/// Packs a program, one word for each statement, in order.
pub fn assemble(code: &[Stmt]) -> (words: Vec<i32>)
    ensures
        packs(words@, code@),
{
    let mut res: Vec<i32> = Vec::new();
    let mut k: usize = 0;
    while k < code.len()
        invariant
            k <= code@.len(),
            res@.len() == k,
            forall|m: int| 0 <= m < k ==> res@[m] as int == packed(#[trigger] code@[m]),
        decreases code.len() - k,
    {
        res.push(encode(code[k]));
        k = k + 1;
    }
    res
}

/// A packed program stands for the program it was packed from.
pub proof fn lemma_decoded_assembled(code: Seq<Stmt>, words: Seq<i32>)
    requires
        packs(words, code),
    ensures
        decoded(words) == plain(code),
{
    assert forall|k: int| 0 <= k < code.len() implies decoded(words)[k] == plain(code)[k] by {
        lemma_unpack_packed(code[k]);
    }
    assert(decoded(words) =~= plain(code));
}

/// The tree interpreter and the bytecode interpreter agree: a program and
/// the words it is packed into run alike, from every world and for every
/// number of steps.
pub proof fn lemma_backends_agree(code: Seq<Stmt>, words: Seq<i32>, w: World, fuel: nat)
    requires
        packs(words, code),
    ensures
        course(decoded(words), w, fuel) == course(plain(code), w, fuel),
{
    lemma_decoded_assembled(code, words);
}

/// Runs the word at the program counter, if there is one. A byte to write or
/// a cell to read into is handed to the caller, who resumes by calling again.
pub fn step(code: &[i32], data: &mut [u8], cpu: &mut Cpu) -> (signal: Signal)
    ensures
        tick(decoded(code@), *old(cpu), old(data)@) == (Step { cpu: *final(cpu), tape: final(data)@, signal }),
{
    if cpu.ip < code.len() {
        match decode(code[cpu.ip]) {
            Some(stmt) => execute(stmt, code.len(), data, cpu),
            None => Signal::BadWord,
        }
    } else {
        Signal::Halt
    }
}

/// Runs a packed program from its first word for at most `fuel` steps, reading from `input`.
pub fn run(code: &[i32], data: &mut [u8], input: &[u8], fuel: usize) -> (report: Report)
    ensures
        course(decoded(code@), boot(old(data)@, input@), fuel as nat) == (
            report.world(final(data)@, input@),
            report.end,
        ),
{
    let mut cpu = Cpu { ip: 0, dp: 0 };
    let mut output: Vec<u8> = Vec::new();
    let mut consumed: usize = 0;
    let mut starved = false;
    let mut left = fuel;
    assert(input@.skip(0) =~= input@);
    while left > 0
        invariant
            consumed <= input@.len(),
            course(decoded(code@), boot(old(data)@, input@), fuel as nat) == course(
                decoded(code@),
                World { cpu, tape: data@, input: input@.skip(consumed as int), output: output@, starved },
                left as nat,
            ),
        decreases left,
    {
        let ghost before = World { cpu, tape: data@, input: input@.skip(consumed as int), output: output@, starved };
        let signal = step(code, data, &mut cpu);
        match signal {
            Signal::Halt | Signal::OutOfTape | Signal::BadWord => {
                return Report { end: signal, cpu, output, consumed, starved };
            },
            _ => {},
        }
        let ghost stepped = Step { cpu, tape: data@, signal };
        attend(signal, data, input, &mut output, &mut consumed, &mut starved);
        proof {
            let after = World { cpu, tape: data@, input: input@.skip(consumed as int), output: output@, starved };
            assert(serve(before, stepped) == after);
        }
        left = left - 1;
    }
    let end = if cpu.ip < code.len() { Signal::Next } else { Signal::Halt };
    Report { end, cpu, output, consumed, starved }
}

/// Every cell access of the program is at the data pointer itself, as in a
/// program that comes straight from source text.
pub open spec fn raw(code: Seq<Stmt>) -> bool {
    forall|k: int|
        0 <= k < code.len() ==> match #[trigger] code[k] {
            Stmt::DAdd(_, off) => off == 0,
            Stmt::Putc(off) => off == 0,
            Stmt::Getc(off) => off == 0,
            _ => true,
        }
}

/// Tells whether every cell access of a program is at the data pointer itself.
pub fn is_raw(code: &[Stmt]) -> (r: bool)
    ensures
        r == raw(code@),
{
    let mut k: usize = 0;
    while k < code.len()
        invariant
            k <= code@.len(),
            raw(code@.take(k as int)),
        decreases code.len() - k,
    {
        let plain = match code[k] {
            Stmt::DAdd(_, off) => off == 0,
            Stmt::Putc(off) => off == 0,
            Stmt::Getc(off) => off == 0,
            _ => true,
        };
        if !plain {
            return false;
        }
        assert forall|m: int| 0 <= m < k + 1 implies match #[trigger] code@.take(k + 1)[m] {
            Stmt::DAdd(_, off) => off == 0,
            Stmt::Putc(off) => off == 0,
            Stmt::Getc(off) => off == 0,
            _ => true,
        } by {
            if m < k {
                assert(code@.take(k as int)[m] == code@[m]);
            }
        }
        k = k + 1;
    }
    assert(code@.take(k as int) =~= code@);
    true
}

/// The value fits a signed byte.
pub open spec fn fits8(x: int) -> bool {
    -128 <= x <= 127
}

/// The pointer move that is deferred after the first `p` statements: the sum
/// of the moves since the last branch, cut to sixteen bits.
pub open spec fn shift(code: Seq<Stmt>, p: int) -> i16
    decreases p,
{
    if p <= 0 {
        0
    } else {
        match code[p - 1] {
            Stmt::PAdd(i) => wrap16(shift(code, p - 1) + i),
            Stmt::Jz(_) | Stmt::Jnz(_) => 0,
            _ => shift(code, p - 1),
        }
    }
}

/// The change to the current cell that is gathered, and not yet written,
/// after the first `p` statements.
pub open spec fn bump(code: Seq<Stmt>, p: int) -> i8
    decreases p,
{
    if p <= 0 {
        0
    } else {
        match code[p - 1] {
            Stmt::DAdd(n, _) => if fits8(bump(code, p - 1) + n) {
                (bump(code, p - 1) + n) as i8
            } else {
                n
            },
            _ => 0,
        }
    }
}

/// The write of a gathered cell change at a deferred pointer move; nothing if there is no change.
pub open spec fn flush(v: i8, d: i16) -> Seq<Stmt> {
    if v != 0 {
        seq![Stmt::DAdd(v, d)]
    } else {
        Seq::empty()
    }
}

/// The deferred pointer move itself; nothing if it is zero.
pub open spec fn commit(d: i16) -> Seq<Stmt> {
    if d != 0 {
        seq![Stmt::PAdd(d)]
    } else {
        Seq::empty()
    }
}

/// What the statement at `p` adds to the fused program. A pointer move adds
/// nothing of its own. A cell change is gathered, and written out only where
/// the sum would leave a signed byte. A branch writes out what is gathered
/// and deferred first. Output folds the deferred move into its offset, and so
/// does input, which drops the gathered change: the read overwrites the cell.
pub open spec fn emitted(code: Seq<Stmt>, p: int) -> Seq<Stmt> {
    let d = shift(code, p);
    let v = bump(code, p);
    match code[p] {
        Stmt::PAdd(_) => flush(v, d),
        Stmt::DAdd(n, _) => if fits8(v + n) {
            Seq::empty()
        } else {
            flush(v, d)
        },
        Stmt::Jz(_) => flush(v, d) + commit(d) + seq![Stmt::Jz(0)],
        Stmt::Jnz(_) => flush(v, d) + commit(d) + seq![Stmt::Jnz(0)],
        Stmt::Putc(_) => flush(v, d) + seq![Stmt::Putc(d)],
        Stmt::Getc(_) => seq![Stmt::Getc(d)],
    }
}

/// The fused form of the first `p` statements, branch targets not yet set.
pub open spec fn fused(code: Seq<Stmt>, p: int) -> Seq<Stmt>
    decreases p,
{
    if p <= 0 {
        Seq::empty()
    } else {
        fused(code, p - 1) + emitted(code, p - 1)
    }
}

/// The fused form of a whole program: a cell change still gathered at the end
/// is written out, a pointer move still deferred is dropped.
pub open spec fn fuse(code: Seq<Stmt>) -> Seq<Stmt> {
    fused(code, code.len() as int) + flush(bump(code, code.len() as int), shift(code, code.len() as int))
}

/// The optimized program: fused, then linked.
pub open spec fn optimized(code: Seq<Stmt>) -> Seq<Stmt> {
    link(fuse(code))
}

/// No statement of the program is idle: no pointer move and no cell change
/// is by zero, and a pointer move stands only right before a branch, so that
/// no two of them follow each other.
pub open spec fn tidy(code: Seq<Stmt>) -> bool {
    &&& forall|k: int|
        0 <= k < code.len() && #[trigger] code[k] is PAdd ==> {
            &&& code[k]->PAdd_0 != 0
            &&& k + 1 < code.len()
            &&& sign(code[k + 1]) != 0
        }
    &&& forall|k: int| 0 <= k < code.len() && #[trigger] code[k] is DAdd ==> code[k]->DAdd_0 != 0
}

/// Appending the same statements to two programs of one shape gives two programs of one shape.
proof fn lemma_same_shape_add(a: Seq<Stmt>, b: Seq<Stmt>, t: Seq<Stmt>)
    requires
        same_shape(a, b),
    ensures
        same_shape(a + t, b + t),
{
    assert forall|k: int| 0 <= k < (a + t).len() implies sign(#[trigger] (a + t)[k]) == sign((b + t)[k]) by {
        if k < a.len() {
            assert((a + t)[k] == a[k]);
        }
    }
    assert forall|k: int| 0 <= k < (a + t).len() && sign(#[trigger] (a + t)[k]) == 0 implies (a + t)[k] == (b + t)[k] by {
        if k < a.len() {
            assert((a + t)[k] == a[k]);
        }
    }
}

/// Peephole fusion of a program that comes straight from source text. Runs
/// of pointer moves and of cell changes become one statement each, pointer
/// moves are folded into the offsets of the cell accesses that follow them,
/// and the branch targets are set anew.
pub fn optimize(code: Vec<Stmt>) -> (res: Vec<Stmt>)
    requires
        raw(code@),
        balanced(profile(code@)),
    ensures
        res@ == optimized(code@),
        res@.len() <= code@.len(),
        balanced(profile(res@)),
        tidy(res@),
        well_formed(code@) || res@.len() <= 32767 ==> well_formed(res@),
{
    let mut res: Vec<Stmt> = Vec::new();
    let mut labels: Vec<usize> = Vec::new();
    let mut dp_offset: i16 = 0;
    let mut value_offset: i8 = 0;
    let mut pos: usize = 0;
    while pos < code.len()
        invariant
            pos <= code.len(),
            balanced(profile(code@)),
            linking(res@, labels@),
            same_shape(res@, fused(code@, pos as int)),
            labels@.len() == depth(profile(code@), pos as int),
            dp_offset == shift(code@, pos as int),
            value_offset == bump(code@, pos as int),
        decreases code.len() - pos,
    {
        let ghost before = res@;
        let ghost base = fused(code@, pos as int);
        let ghost added = emitted(code@, pos as int);
        proof {
            assert(depth(profile(code@), pos as int + 1) == depth(profile(code@), pos as int) + sign(
                code@[pos as int],
            ));
            assert(depth(profile(code@), pos as int + 1) >= 0);
        }
        match code[pos] {
            Stmt::PAdd(i) => {
                commit_write(&mut res, dp_offset, value_offset);
                proof {
                    lemma_linking_add(before, labels@, flush(value_offset, dp_offset));
                }
                value_offset = 0;
                dp_offset = dp_offset.wrapping_add(i);
            },
            Stmt::DAdd(n, _) => {
                match value_offset.checked_add(n) {
                    Some(sum) => {
                        value_offset = sum;
                    },
                    None => {
                        commit_write(&mut res, dp_offset, value_offset);
                        proof {
                            lemma_linking_add(before, labels@, flush(value_offset, dp_offset));
                        }
                        value_offset = n;
                    },
                }
            },
            Stmt::Jz(_) => {
                commit_write(&mut res, dp_offset, value_offset);
                commit_dp(&mut res, dp_offset);
                proof {
                    lemma_linking_add(before, labels@, flush(value_offset, dp_offset));
                    lemma_linking_add(before + flush(value_offset, dp_offset), labels@, commit(dp_offset));
                    lemma_same_shape_add(before, base, flush(value_offset, dp_offset) + commit(dp_offset));
                    assert(res@ =~= before + (flush(value_offset, dp_offset) + commit(dp_offset)));
                    assert(base + added =~= (base + (flush(value_offset, dp_offset) + commit(dp_offset))).push(Stmt::Jz(0)));
                }
                value_offset = 0;
                dp_offset = 0;
                open_loop(&mut res, &mut labels);
            },
            Stmt::Jnz(_) => {
                commit_write(&mut res, dp_offset, value_offset);
                commit_dp(&mut res, dp_offset);
                proof {
                    lemma_linking_add(before, labels@, flush(value_offset, dp_offset));
                    lemma_linking_add(before + flush(value_offset, dp_offset), labels@, commit(dp_offset));
                    lemma_same_shape_add(before, base, flush(value_offset, dp_offset) + commit(dp_offset));
                    assert(res@ =~= before + (flush(value_offset, dp_offset) + commit(dp_offset)));
                    assert(base + added =~= (base + (flush(value_offset, dp_offset) + commit(dp_offset))).push(Stmt::Jnz(0)));
                }
                value_offset = 0;
                dp_offset = 0;
                close_loop(&mut res, &mut labels);
            },
            Stmt::Putc(_) => {
                commit_write(&mut res, dp_offset, value_offset);
                res.push(Stmt::Putc(dp_offset));
                proof {
                    lemma_linking_add(before, labels@, flush(value_offset, dp_offset));
                    lemma_linking_emit(before + flush(value_offset, dp_offset), labels@, Stmt::Putc(dp_offset));
                    assert(res@ =~= before + added);
                }
                value_offset = 0;
            },
            Stmt::Getc(_) => {
                res.push(Stmt::Getc(dp_offset));
                proof {
                    lemma_linking_emit(before, labels@, Stmt::Getc(dp_offset));
                    assert(res@ =~= before + added);
                }
                value_offset = 0;
            },
        }
        proof {
            if !(code@[pos as int] is Jz || code@[pos as int] is Jnz) {
                assert(res@ =~= before + added);
                lemma_same_shape_add(before, base, added);
            }
        }
        pos = pos + 1;
    }
    let ghost before = res@;
    commit_write(&mut res, dp_offset, value_offset);
    proof {
        lemma_linking_add(before, labels@, flush(value_offset, dp_offset));
        lemma_same_shape_add(before, fused(code@, pos as int), flush(value_offset, dp_offset));
        lemma_linking_done(res@, labels@);
        lemma_link_same_shape(res@, fuse(code@));
        lemma_fused_len_whole(code@);
        lemma_optimized_tidy(code@);
        if well_formed(code@) {
            lemma_optimized_well_formed(code@);
        }
    }
    res
}

/// Writing out a gathered cell change or a deferred pointer move keeps the linking state.
proof fn lemma_linking_add(res: Seq<Stmt>, labels: Seq<usize>, t: Seq<Stmt>)
    requires
        linking(res, labels),
        t.len() <= 1,
        forall|k: int| 0 <= k < t.len() ==> sign(t[k]) == 0,
    ensures
        linking(res + t, labels),
{
    if t.len() == 0 {
        assert(res + t =~= res);
    } else {
        lemma_linking_emit(res, labels, t[0]);
        assert(res + t =~= res.push(t[0]));
    }
}

/// Appends the deferred pointer move, unless it is zero.
fn commit_dp(res: &mut Vec<Stmt>, dp_offset: i16)
    ensures
        final(res)@ == old(res)@ + commit(dp_offset),
{
    if dp_offset != 0 {
        res.push(Stmt::PAdd(dp_offset));
        assert(res@ =~= old(res)@ + commit(dp_offset));
    } else {
        assert(res@ =~= old(res)@ + commit(dp_offset));
    }
}

/// Appends the write of the gathered cell change, unless it is zero.
fn commit_write(res: &mut Vec<Stmt>, dp_offset: i16, value_offset: i8)
    ensures
        final(res)@ == old(res)@ + flush(value_offset, dp_offset),
{
    if value_offset != 0 {
        res.push(Stmt::DAdd(value_offset, dp_offset));
        assert(res@ =~= old(res)@ + flush(value_offset, dp_offset));
    } else {
        assert(res@ =~= old(res)@ + flush(value_offset, dp_offset));
    }
}

} // verus!
