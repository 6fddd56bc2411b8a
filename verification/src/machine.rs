//! The abstract machine that every back end realizes: a program counter, a
//! data pointer, a tape of bytes, and one byte of input or output at a time.

use vstd::prelude::*;
use crate::bytecode::Stmt;

verus! {

/// The two registers of the machine.
#[derive(Debug, Clone, Copy, PartialEq, Eq, Structural)]
pub struct Cpu {
    /// Index of the next statement.
    pub ip: usize,
    /// The data pointer, as an index into the tape. It may leave the tape; a
    /// cell access through it may not.
    pub dp: i64,
}

/// What one step of the machine asks of its surroundings.
#[derive(Debug, Clone, Copy, PartialEq, Eq, Structural)]
pub enum Signal {
    /// A statement ran and nothing is asked.
    Next,
    /// The program counter is behind the last statement: nothing ran.
    Halt,
    /// A statement ran and this byte is to be written out.
    Put(u8),
    /// A statement ran and one byte of input is to be stored in the cell with this index.
    Get(usize),
    /// The statement reaches outside the tape, or moves the data pointer
    /// beyond the range of its register: nothing ran.
    OutOfTape,
    /// The word at the program counter holds no statement: nothing ran.
    BadWord,
}

/// The registers and the tape after one step, with what the step asks.
pub struct Step {
    pub cpu: Cpu,
    pub tape: Seq<u8>,
    pub signal: Signal,
}

/// The index is one of a cell of the tape.
pub open spec fn on_tape(tape: Seq<u8>, i: int) -> bool {
    0 <= i < tape.len()
}

/// Addition of a signed byte to a cell, modulo 256.
pub open spec fn add8(x: u8, n: i8) -> u8 {
    ((x + n) % 256) as u8
}

/// Where a branch lands: `t` statements from `next`, or behind the last
/// statement if that is no place in the program.
pub open spec fn land(len: usize, next: int, t: i16) -> usize {
    if 0 <= next + t <= len {
        (next + t) as usize
    } else {
        len
    }
}

/// One statement, run at `cpu` on `tape`, in a program of `len` statements.
pub open spec fn perform(s: Stmt, len: usize, cpu: Cpu, tape: Seq<u8>) -> Step {
    let next = (cpu.ip + 1) as usize;
    let dp = cpu.dp;
    let refused = Step { cpu, tape, signal: Signal::OutOfTape };
    match s {
        Stmt::PAdd(d) => if i64::MIN <= dp + d <= i64::MAX {
            Step { cpu: Cpu { ip: next, dp: (dp + d) as i64 }, tape, signal: Signal::Next }
        } else {
            refused
        },
        Stmt::DAdd(n, off) => if on_tape(tape, dp + off) {
            Step {
                cpu: Cpu { ip: next, dp },
                tape: tape.update(dp + off, add8(tape[dp + off], n)),
                signal: Signal::Next,
            }
        } else {
            refused
        },
        Stmt::Jz(t) => if on_tape(tape, dp as int) {
            Step {
                cpu: Cpu { ip: if tape[dp as int] == 0 { land(len, next as int, t) } else { next }, dp },
                tape,
                signal: Signal::Next,
            }
        } else {
            refused
        },
        Stmt::Jnz(t) => if on_tape(tape, dp as int) {
            Step {
                cpu: Cpu { ip: if tape[dp as int] != 0 { land(len, next as int, t) } else { next }, dp },
                tape,
                signal: Signal::Next,
            }
        } else {
            refused
        },
        Stmt::Putc(off) => if on_tape(tape, dp + off) {
            Step { cpu: Cpu { ip: next, dp }, tape, signal: Signal::Put(tape[dp + off]) }
        } else {
            refused
        },
        Stmt::Getc(off) => if on_tape(tape, dp + off) {
            Step { cpu: Cpu { ip: next, dp }, tape, signal: Signal::Get((dp + off) as usize) }
        } else {
            refused
        },
    }
}

/// The machine together with its surroundings: the input not yet read, the
/// output written so far, and whether a read has found the input at its end.
pub struct World {
    pub cpu: Cpu,
    pub tape: Seq<u8>,
    pub input: Seq<u8>,
    pub output: Seq<u8>,
    pub starved: bool,
}

/// The world after the surroundings have done what a step asked. A byte
/// written is appended to the output. A read takes the next byte of input
/// into the cell; at the end of input the cell stays as it is.
pub open spec fn serve(w: World, s: Step) -> World {
    match s.signal {
        Signal::Put(b) => World { cpu: s.cpu, tape: s.tape, output: w.output.push(b), ..w },
        Signal::Get(i) => if w.input.len() > 0 {
            World { cpu: s.cpu, tape: s.tape.update(i as int, w.input[0]), input: w.input.drop_first(), ..w }
        } else {
            World { cpu: s.cpu, tape: s.tape, starved: true, ..w }
        },
        _ => World { cpu: s.cpu, tape: s.tape, ..w },
    }
}

/// The world in which a run starts: both registers zero, nothing written.
pub open spec fn boot(tape: Seq<u8>, input: Seq<u8>) -> World {
    World { cpu: Cpu { ip: 0, dp: 0 }, tape, input, output: Seq::empty(), starved: false }
}

/// One step of a program whose statements are given as far as they could be
/// read: at a place that holds none, the machine stops with `BadWord`.
pub open spec fn tick(prog: Seq<Option<Stmt>>, cpu: Cpu, tape: Seq<u8>) -> Step {
    if cpu.ip < prog.len() {
        match prog[cpu.ip as int] {
            Some(s) => perform(s, prog.len() as usize, cpu, tape),
            None => Step { cpu, tape, signal: Signal::BadWord },
        }
    } else {
        Step { cpu, tape, signal: Signal::Halt }
    }
}

/// The world after at most `fuel` steps, and how the run ended: `Halt` at the
/// end of the program, `OutOfTape` or `BadWord` at a statement that could not
/// run, `Next` if the steps were used up before any of these.
pub open spec fn course(prog: Seq<Option<Stmt>>, w: World, fuel: nat) -> (World, Signal)
    decreases fuel,
{
    let s = tick(prog, w.cpu, w.tape);
    if fuel == 0 {
        (w, if s.signal == Signal::Halt { Signal::Halt } else { Signal::Next })
    } else {
        match s.signal {
            Signal::Halt | Signal::OutOfTape | Signal::BadWord => (w, s.signal),
            _ => course(prog, serve(w, s), (fuel - 1) as nat),
        }
    }
}

/// A program of statements, each of them readable.
pub open spec fn plain(code: Seq<Stmt>) -> Seq<Option<Stmt>> {
    Seq::new(code.len(), |k: int| Some(code[k]))
}

/// What a bounded run on given input left behind, beside the tape.
#[derive(Debug)]
pub struct Report {
    /// How the run ended: `Halt`, `OutOfTape`, `BadWord`, or `Next` when the steps were used up.
    pub end: Signal,
    /// The registers at the end.
    pub cpu: Cpu,
    /// The bytes written, in order.
    pub output: Vec<u8>,
    /// How many bytes of the input were read.
    pub consumed: usize,
    /// Whether a read found the input at its end.
    pub starved: bool,
}

impl Report {
    /// The world that this report and the tape describe, after a run on `input`.
    pub open spec fn world(self, tape: Seq<u8>, input: Seq<u8>) -> World {
        World {
            cpu: self.cpu,
            tape,
            input: input.skip(self.consumed as int),
            output: self.output@,
            starved: self.starved,
        }
    }
}

/// Does for a run on given input what the surroundings are asked: appends a
/// byte written to `output`, stores the next byte of `input` in the cell that
/// wants one, and notes the end of input.
pub(crate) fn attend(
    signal: Signal,
    data: &mut [u8],
    input: &[u8],
    output: &mut Vec<u8>,
    consumed: &mut usize,
    starved: &mut bool,
)
    requires
        *old(consumed) <= input@.len(),
        signal matches Signal::Get(i) ==> i < old(data)@.len(),
    ensures
        *final(consumed) <= input@.len(),
        serve(
            World {
                cpu: Cpu { ip: 0, dp: 0 },
                tape: old(data)@,
                input: input@.skip(*old(consumed) as int),
                output: old(output)@,
                starved: *old(starved),
            },
            Step { cpu: Cpu { ip: 0, dp: 0 }, tape: old(data)@, signal },
        ) == (World {
            cpu: Cpu { ip: 0, dp: 0 },
            tape: final(data)@,
            input: input@.skip(*final(consumed) as int),
            output: final(output)@,
            starved: *final(starved),
        }),
{
    match signal {
        Signal::Put(b) => {
            output.push(b);
        },
        Signal::Get(i) => {
            if *consumed < input.len() {
                data[i] = input[*consumed];
                assert(input@.skip(*consumed as int).drop_first() =~= input@.skip(*consumed as int + 1));
                *consumed = *consumed + 1;
            } else {
                *starved = true;
            }
        },
        _ => {},
    }
}

/// Runs one statement on the machine.
pub fn execute(stmt: Stmt, len: usize, data: &mut [u8], cpu: &mut Cpu) -> (signal: Signal)
    requires
        old(cpu).ip < len,
    ensures
        perform(stmt, len, *old(cpu), old(data)@) == (Step { cpu: *final(cpu), tape: final(data)@, signal }),
{
    let next: usize = cpu.ip + 1;
    match stmt {
        Stmt::PAdd(d) => {
            match cpu.dp.checked_add(d as i64) {
                Some(dp) => {
                    cpu.dp = dp;
                    cpu.ip = next;
                    Signal::Next
                },
                None => Signal::OutOfTape,
            }
        },
        Stmt::DAdd(n, off) => {
            match locate(data, cpu.dp, off) {
                Some(i) => {
                    let sum = bump_cell(data[i], n);
                    data[i] = sum;
                    cpu.ip = next;
                    Signal::Next
                },
                None => Signal::OutOfTape,
            }
        },
        Stmt::Jz(t) => {
            match locate(data, cpu.dp, 0) {
                Some(i) => {
                    cpu.ip = if data[i] == 0 { branch(len, next, t) } else { next };
                    Signal::Next
                },
                None => Signal::OutOfTape,
            }
        },
        Stmt::Jnz(t) => {
            match locate(data, cpu.dp, 0) {
                Some(i) => {
                    cpu.ip = if data[i] != 0 { branch(len, next, t) } else { next };
                    Signal::Next
                },
                None => Signal::OutOfTape,
            }
        },
        Stmt::Putc(off) => {
            match locate(data, cpu.dp, off) {
                Some(i) => {
                    cpu.ip = next;
                    Signal::Put(data[i])
                },
                None => Signal::OutOfTape,
            }
        },
        Stmt::Getc(off) => {
            match locate(data, cpu.dp, off) {
                Some(i) => {
                    cpu.ip = next;
                    Signal::Get(i)
                },
                None => Signal::OutOfTape,
            }
        },
    }
}

/// The index of the cell at `off` from the data pointer, if it is on the tape.
pub(crate) fn locate(data: &[u8], dp: i64, off: i16) -> (r: Option<usize>)
    ensures
        r is Some <==> on_tape(data@, dp + off),
        r is Some ==> r->0 == dp + off,
{
    let i: i128 = dp as i128 + off as i128;
    if 0 <= i && i < data.len() as i128 {
        Some(i as usize)
    } else {
        None
    }
}

/// Adds a signed byte to a cell, modulo 256.
fn bump_cell(x: u8, n: i8) -> (r: u8)
    ensures
        r == add8(x, n),
{
    let sum: i16 = x as i16 + n as i16;
    if sum < 0 {
        (sum + 256) as u8
    } else if sum > 255 {
        (sum - 256) as u8
    } else {
        sum as u8
    }
}

/// The statement index on which a taken branch lands.
fn branch(len: usize, next: usize, t: i16) -> (r: usize)
    requires
        next <= len,
    ensures
        r == land(len, next as int, t),
{
    let to: i128 = next as i128 + t as i128;
    if 0 <= to && to <= len as i128 {
        to as usize
    } else {
        len
    }
}

} // verus!
