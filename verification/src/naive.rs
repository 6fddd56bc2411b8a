//! The plain machine: one instruction for each command character, branches
//! by absolute index.

use vstd::prelude::*;
use vstd::std_specs::iter::IteratorSpec;
use crate::bytecode::Stmt;
use crate::machine::{attend, boot, on_tape, execute, perform, serve, Cpu, Report, Signal, Step, World};
use crate::nesting::{balanced, close_of, depth, keeps, lemma_depth_push, lemma_track_close, lemma_track_done, lemma_track_open, lemma_track_plain, open_at, open_of, resolved, tracking, waiting};
use crate::parse::{left_open, marks, sign_of_char, stray_close, Unmatched};

verus! {

/// One instruction of the plain machine.
#[derive(Debug, Clone, Copy, PartialEq, Eq, Structural)]
pub enum Bytecode {
    /// Moves the data pointer one cell up.
    Inc,
    /// Moves the data pointer one cell down.
    Dec,
    /// Adds one to the current cell.
    SInc,
    /// Subtracts one from the current cell.
    SDec,
    /// Goes to the given index when the current cell is zero.
    Jz(usize),
    /// Goes to the given index when the current cell is not zero.
    Jnz(usize),
    /// Writes the current cell.
    Putc,
    /// Reads one byte into the current cell.
    Getc,
}

/// Why a source text is no program, and the index of the character at which that was found.
#[derive(Debug, Clone, Copy, PartialEq, Eq, Structural)]
pub struct ParseError {
    pub kind: Unmatched,
    pub index: usize,
}

/// The instruction that a command character stands for; every other character is a comment.
pub open spec fn token(c: char) -> Option<Bytecode> {
    if c == '>' {
        Some(Bytecode::Inc)
    } else if c == '<' {
        Some(Bytecode::Dec)
    } else if c == '+' {
        Some(Bytecode::SInc)
    } else if c == '-' {
        Some(Bytecode::SDec)
    } else if c == '[' {
        Some(Bytecode::Jz(0))
    } else if c == ']' {
        Some(Bytecode::Jnz(0))
    } else if c == '.' {
        Some(Bytecode::Putc)
    } else if c == ',' {
        Some(Bytecode::Getc)
    } else {
        None
    }
}

/// The instructions of a source text in order, comments dropped, branch targets not yet set.
pub open spec fn lex(src: Seq<char>) -> Seq<Bytecode>
    decreases src.len(),
{
    if src.len() == 0 {
        Seq::empty()
    } else {
        match token(src.last()) {
            Some(op) => lex(src.drop_last()).push(op),
            None => lex(src.drop_last()),
        }
    }
}

/// The sign of an instruction in a bracket profile: `Jz` opens, `Jnz` closes.
pub open spec fn sign(op: Bytecode) -> int {
    match op {
        Bytecode::Jz(_) => 1,
        Bytecode::Jnz(_) => -1,
        _ => 0,
    }
}

/// The bracket profile of a program.
pub open spec fn profile(code: Seq<Bytecode>) -> Seq<int> {
    Seq::new(code.len(), |k: int| sign(code[k]))
}

/// The instruction at `k` with its branch target set: the index just behind its partner.
pub open spec fn bind_at(code: Seq<Bytecode>, k: int) -> Bytecode {
    match code[k] {
        Bytecode::Jz(_) => Bytecode::Jz((close_of(profile(code), k) + 1) as usize),
        Bytecode::Jnz(_) => Bytecode::Jnz((open_of(profile(code), k) + 1) as usize),
        other => other,
    }
}

/// The program with every branch target set.
pub open spec fn bind(code: Seq<Bytecode>) -> Seq<Bytecode> {
    Seq::new(code.len(), |k: int| bind_at(code, k))
}

/// Two programs differ in their branch targets at most.
pub open spec fn same_shape(a: Seq<Bytecode>, b: Seq<Bytecode>) -> bool {
    &&& a.len() == b.len()
    &&& forall|k: int| 0 <= k < a.len() ==> sign(#[trigger] a[k]) == sign(b[k])
    &&& forall|k: int| 0 <= k < a.len() && sign(#[trigger] a[k]) == 0 ==> a[k] == b[k]
}

/// The places of the openers that a label stack stands for: each label is
/// the slot after its opener.
pub open spec fn slots(labels: Seq<usize>) -> Seq<int> {
    Seq::new(labels.len(), |l: int| labels[l] - 1)
}

/// The bracket at `k` of a program under construction, unless it waits on
/// the stack of open loops, holds the target that `bind` gives it.
pub open spec fn aimed(res: Seq<Bytecode>, opens: Seq<int>, k: int) -> bool {
    let b = profile(res);
    match res[k] {
        Bytecode::Jz(t) => waiting(b, opens, k) || t == close_of(b, k) + 1,
        Bytecode::Jnz(t) => t == open_of(b, k) + 1,
        _ => true,
    }
}

/// The state of single-pass binding: `labels` holds, innermost last, the slot
/// after each `Jz` that is still open, and all closed loops are bound.
pub open spec fn binding(res: Seq<Bytecode>, labels: Seq<usize>) -> bool {
    &&& tracking(profile(res), slots(labels))
    &&& forall|k: int| 0 <= k < res.len() ==> #[trigger] aimed(res, slots(labels), k)
}

/// A bracket that holds its target keeps it when the program grows by one
/// instruction, as long as the stack still holds it if it waited there.
proof fn lemma_aimed_kept(r0: Seq<Bytecode>, o0: Seq<int>, r1: Seq<Bytecode>, o1: Seq<int>, k: int)
    requires
        0 <= k < r0.len(),
        r1.len() == r0.len() + 1,
        r1[k] == r0[k],
        profile(r1) == profile(r0).push(sign(r1[r0.len() as int])),
        keeps(profile(r0), profile(r1)),
        resolved(profile(r0), o0, k),
        aimed(r0, o0, k),
        waiting(profile(r0), o0, k) ==> waiting(profile(r1), o1, k),
    ensures
        aimed(r1, o1, k),
{
    assert(profile(r0)[k] == sign(r0[k]));
}

/// Appending an instruction that is no bracket keeps the binding state.
proof fn lemma_binding_emit(r0: Seq<Bytecode>, labels: Seq<usize>, op: Bytecode)
    requires
        binding(r0, labels),
        sign(op) == 0,
    ensures
        binding(r0.push(op), labels),
{
    let r1 = r0.push(op);
    let opens = slots(labels);
    assert(profile(r1) =~= profile(r0).push(0));
    lemma_track_plain(profile(r0), opens);
    lemma_depth_push(profile(r0), 0);
    assert forall|k: int| 0 <= k < r1.len() implies #[trigger] aimed(r1, opens, k) by {
        if k < r0.len() {
            assert(aimed(r0, opens, k));
            assert(resolved(profile(r0), opens, k));
            lemma_aimed_kept(r0, opens, r1, opens, k);
        }
    }
}

/// Appending a `Jz` and its label keeps the binding state.
proof fn lemma_binding_open(r0: Seq<Bytecode>, l0: Seq<usize>, t: usize)
    requires
        binding(r0, l0),
        r0.len() < usize::MAX,
    ensures
        binding(r0.push(Bytecode::Jz(t)), l0.push((r0.len() + 1) as usize)),
{
    let op = Bytecode::Jz(t);
    let r1 = r0.push(op);
    let l1 = l0.push((r0.len() + 1) as usize);
    let o0 = slots(l0);
    let o1 = slots(l1);
    assert(o1 =~= o0.push(r0.len() as int));
    assert(profile(r1) =~= profile(r0).push(1));
    lemma_track_open(profile(r0), o0);
    assert forall|k: int| 0 <= k < r1.len() implies #[trigger] aimed(r1, o1, k) by {
        if k < r0.len() {
            assert(aimed(r0, o0, k));
            assert(resolved(profile(r0), o0, k));
            lemma_aimed_kept(r0, o0, r1, o1, k);
        }
    }
}

/// Closing the innermost open loop, with both targets set, keeps the binding state.
proof fn lemma_binding_close(r0: Seq<Bytecode>, l0: Seq<usize>)
    requires
        binding(r0, l0),
        l0.len() > 0,
        r0.len() < usize::MAX,
    ensures
        ({
            let i = l0.last() - 1;
            let j = r0.len() as int;
            &&& 0 <= i < j
            &&& r0[i] is Jz
            &&& binding(
                r0.push(Bytecode::Jnz((i + 1) as usize)).update(i, Bytecode::Jz((j + 1) as usize)),
                l0.drop_last(),
            )
        }),
{
    let i = l0.last() - 1;
    let j = r0.len() as int;
    let o0 = slots(l0);
    let o1 = slots(l0.drop_last());
    assert(o1 =~= o0.drop_last());
    assert(o0.last() == i);
    assert(open_at(profile(r0), o0[o0.len() - 1], o0.len() - 1));
    let close = Bytecode::Jnz((i + 1) as usize);
    let rm = r0.push(close);
    let r1 = rm.update(i, Bytecode::Jz((j + 1) as usize));
    assert(profile(rm) =~= profile(r0).push(-1));
    lemma_track_close(profile(r0), o0);
    assert(profile(r1) =~= profile(rm));
    assert forall|k: int| 0 <= k < r1.len() implies #[trigger] aimed(r1, o1, k) by {
        if k < r0.len() && k != i {
            assert(aimed(r0, o0, k));
            assert(resolved(profile(r0), o0, k));
            lemma_aimed_kept(r0, o0, r1, o1, k);
        }
    }
}

/// With no loop left open, the program is balanced and holds the targets that `bind` gives it.
proof fn lemma_binding_done(res: Seq<Bytecode>, labels: Seq<usize>, shape: Seq<Bytecode>)
    requires
        binding(res, labels),
        labels.len() == 0,
        same_shape(res, shape),
    ensures
        balanced(profile(res)),
        res == bind(shape),
{
    lemma_track_done(profile(res), slots(labels));
    assert(profile(res) =~= profile(shape));
    assert forall|k: int| 0 <= k < res.len() implies res[k] == bind_at(shape, k) by {
        assert(aimed(res, slots(labels), k));
    }
    assert(res =~= bind(shape));
}

/// Reads a source text. The result holds one instruction for each command
/// character, in order, with the branch targets set; or the first bracket
/// that has no partner.
pub fn parse(code: &str) -> (r: Result<Vec<Bytecode>, ParseError>)
    ensures
        r is Ok <==> balanced(marks(code@)),
        match r {
            Ok(program) => program@ == bind(lex(code@)) && balanced(profile(program@)),
            Err(e) => match e.kind {
                Unmatched::Close => stray_close(code@, e.index as int),
                Unmatched::Open => left_open(code@) && e.index == code@.len() - 1,
            },
        },
{
    let total = code.unicode_len();
    let mut res: Vec<Bytecode> = Vec::new();
    let mut labels: Vec<usize> = Vec::new();
    let mut index: usize = 0;
    assert(code@.take(0) =~= Seq::<char>::empty());
    for c in it: code.chars()
        invariant
            it.seq() == code@,
            index == it.index(),
            total == code@.len(),
            binding(res@, labels@),
            same_shape(res@, lex(code@.take(index as int))),
            labels@.len() == depth(marks(code@), index as int),
            forall|p: int| 0 <= p <= index ==> depth(marks(code@), p) >= 0,
    {
        let ghost before = code@.take(index as int);
        let ghost after = code@.take(index as int + 1);
        let ghost r0 = res@;
        proof {
            assert(after.drop_last() =~= before);
            assert(after.last() == c);
            assert(marks(code@)[index as int] == sign_of_char(c));
        }
        if c == '>' {
            res.push(Bytecode::Inc);
            proof {
                lemma_binding_emit(r0, labels@, Bytecode::Inc);
            }
        } else if c == '<' {
            res.push(Bytecode::Dec);
            proof {
                lemma_binding_emit(r0, labels@, Bytecode::Dec);
            }
        } else if c == '+' {
            res.push(Bytecode::SInc);
            proof {
                lemma_binding_emit(r0, labels@, Bytecode::SInc);
            }
        } else if c == '-' {
            res.push(Bytecode::SDec);
            proof {
                lemma_binding_emit(r0, labels@, Bytecode::SDec);
            }
        } else if c == '[' {
            res.push(Bytecode::Jz(0));
            let slot = res.len();
            proof {
                lemma_binding_open(r0, labels@, 0);
            }
            labels.push(slot);
        } else if c == ']' {
            if labels.len() == 0 {
                assert(depth(marks(code@), index as int + 1) < 0);
                return Err(ParseError { kind: Unmatched::Close, index });
            }
            let ghost l0 = labels@;
            let target = labels.pop().unwrap();
            res.push(Bytecode::Jnz(target));
            let behind = res.len();
            proof {
                lemma_binding_close(r0, l0);
            }
            res.set(target - 1, Bytecode::Jz(behind));
        } else if c == '.' {
            res.push(Bytecode::Putc);
            proof {
                lemma_binding_emit(r0, labels@, Bytecode::Putc);
            }
        } else if c == ',' {
            res.push(Bytecode::Getc);
            proof {
                lemma_binding_emit(r0, labels@, Bytecode::Getc);
            }
        }
        index = index + 1;
    }
    proof {
        assert(code@.take(index as int) =~= code@);
    }
    if labels.len() != 0 {
        Err(ParseError { kind: Unmatched::Open, index: index - 1 })
    } else {
        proof {
            lemma_binding_done(res@, labels@, lex(code@));
        }
        Ok(res)
    }
}

/// Tells whether the brackets of a program nest.
pub fn is_balanced(code: &[Bytecode]) -> (r: bool)
    ensures
        r == balanced(profile(code@)),
{
    let mut open: usize = 0;
    let mut k: usize = 0;
    while k < code.len()
        invariant
            k <= code@.len(),
            open == depth(profile(code@), k as int),
            open <= k,
            forall|p: int| 0 <= p <= k ==> depth(profile(code@), p) >= 0,
        decreases code.len() - k,
    {
        assert(depth(profile(code@), k as int + 1) == depth(profile(code@), k as int) + sign(code@[k as int]));
        match code[k] {
            Bytecode::Jz(_) => {
                open = open + 1;
            },
            Bytecode::Jnz(_) => {
                if open == 0 {
                    return false;
                }
                open = open - 1;
            },
            _ => {},
        }
        k = k + 1;
    }
    open == 0
}

/// One instruction, run at `cpu` on `tape`. All but the branches do what the
/// statements `PAdd(1)`, `PAdd(-1)`, `DAdd(1, 0)`, `DAdd(-1, 0)`, `Putc(0)` and
/// `Getc(0)` do; a branch that is taken goes to the index it holds.
pub open spec fn act(op: Bytecode, len: usize, cpu: Cpu, tape: Seq<u8>) -> Step {
    let next = (cpu.ip + 1) as usize;
    let refused = Step { cpu, tape, signal: Signal::OutOfTape };
    match op {
        Bytecode::Inc => perform(Stmt::PAdd(1), len, cpu, tape),
        Bytecode::Dec => perform(Stmt::PAdd(-1i16), len, cpu, tape),
        Bytecode::SInc => perform(Stmt::DAdd(1, 0), len, cpu, tape),
        Bytecode::SDec => perform(Stmt::DAdd(-1i8, 0), len, cpu, tape),
        Bytecode::Putc => perform(Stmt::Putc(0), len, cpu, tape),
        Bytecode::Getc => perform(Stmt::Getc(0), len, cpu, tape),
        Bytecode::Jz(dest) => if on_tape(tape, cpu.dp as int) {
            Step {
                cpu: Cpu { ip: if tape[cpu.dp as int] == 0 { dest } else { next }, dp: cpu.dp },
                tape,
                signal: Signal::Next,
            }
        } else {
            refused
        },
        Bytecode::Jnz(dest) => if on_tape(tape, cpu.dp as int) {
            Step {
                cpu: Cpu { ip: if tape[cpu.dp as int] != 0 { dest } else { next }, dp: cpu.dp },
                tape,
                signal: Signal::Next,
            }
        } else {
            refused
        },
    }
}

/// One step of a program.
pub open spec fn tick(code: Seq<Bytecode>, cpu: Cpu, tape: Seq<u8>) -> Step {
    if cpu.ip < code.len() {
        act(code[cpu.ip as int], code.len() as usize, cpu, tape)
    } else {
        Step { cpu, tape, signal: Signal::Halt }
    }
}

/// The world after at most `fuel` steps, and how the run ended: `Halt` behind
/// the last instruction, `OutOfTape` at an instruction that could not run,
/// `Next` if the steps were used up before either.
pub open spec fn course(code: Seq<Bytecode>, w: World, fuel: nat) -> (World, Signal)
    decreases fuel,
{
    let s = tick(code, w.cpu, w.tape);
    if fuel == 0 {
        (w, if s.signal == Signal::Halt { Signal::Halt } else { Signal::Next })
    } else {
        match s.signal {
            Signal::Halt | Signal::OutOfTape | Signal::BadWord => (w, s.signal),
            _ => course(code, serve(w, s), (fuel - 1) as nat),
        }
    }
}

/// A program with its registers and its tape.
#[derive(Debug)]
pub struct VM {
    pub code: Vec<Bytecode>,
    pub ip: usize,
    pub data: Vec<u8>,
    pub dp: i64,
}

impl VM {
    /// The two registers.
    pub open spec fn cpu(self) -> Cpu {
        Cpu { ip: self.ip, dp: self.dp }
    }

    /// A machine at the start of `code`, on a tape of `mem_size` cells that hold zero.
    pub fn new(mem_size: usize, code: Vec<Bytecode>) -> (vm: VM)
        ensures
            vm.code@ == code@,
            vm.cpu() == (Cpu { ip: 0, dp: 0 }),
            vm.data@ == Seq::new(mem_size as nat, |i: int| 0u8),
    {
        let data: Vec<u8> = vec![0u8; mem_size];
        assert(data@ =~= Seq::new(mem_size as nat, |i: int| 0u8));
        VM { code, ip: 0, data, dp: 0 }
    }

    /// Runs the instruction at the program counter, if there is one. A byte
    /// to write or a cell to read into is handed to the caller, who resumes
    /// by calling again.
    pub fn step(&mut self) -> (signal: Signal)
        ensures
            final(self).code@ == old(self).code@,
            tick(old(self).code@, old(self).cpu(), old(self).data@) == (Step {
                cpu: final(self).cpu(),
                tape: final(self).data@,
                signal,
            }),
    {
        if self.ip >= self.code.len() {
            return Signal::Halt;
        }
        let len = self.code.len();
        let mut cpu = Cpu { ip: self.ip, dp: self.dp };
        let signal = match self.code[self.ip] {
            Bytecode::Inc => execute(Stmt::PAdd(1), len, self.data.as_mut_slice(), &mut cpu),
            Bytecode::Dec => execute(Stmt::PAdd(-1), len, self.data.as_mut_slice(), &mut cpu),
            Bytecode::SInc => execute(Stmt::DAdd(1, 0), len, self.data.as_mut_slice(), &mut cpu),
            Bytecode::SDec => execute(Stmt::DAdd(-1, 0), len, self.data.as_mut_slice(), &mut cpu),
            Bytecode::Putc => execute(Stmt::Putc(0), len, self.data.as_mut_slice(), &mut cpu),
            Bytecode::Getc => execute(Stmt::Getc(0), len, self.data.as_mut_slice(), &mut cpu),
            Bytecode::Jz(dest) => {
                if cpu.dp >= 0 && (cpu.dp as u64) < self.data.len() as u64 {
                    cpu.ip = if self.data[cpu.dp as usize] == 0 { dest } else { cpu.ip + 1 };
                    Signal::Next
                } else {
                    Signal::OutOfTape
                }
            },
            Bytecode::Jnz(dest) => {
                if cpu.dp >= 0 && (cpu.dp as u64) < self.data.len() as u64 {
                    cpu.ip = if self.data[cpu.dp as usize] != 0 { dest } else { cpu.ip + 1 };
                    Signal::Next
                } else {
                    Signal::OutOfTape
                }
            },
        };
        self.ip = cpu.ip;
        self.dp = cpu.dp;
        signal
    }

    /// Runs on from where the machine stands, for at most `fuel` steps, reading from `input`.
    pub fn run(&mut self, input: &[u8], fuel: usize) -> (report: Report)
        ensures
            final(self).code@ == old(self).code@,
            report.cpu == final(self).cpu(),
            course(
                old(self).code@,
                World { cpu: old(self).cpu(), ..boot(old(self).data@, input@) },
                fuel as nat,
            ) == (report.world(final(self).data@, input@), report.end),
    {
        let mut output: Vec<u8> = Vec::new();
        let mut consumed: usize = 0;
        let mut starved = false;
        let mut left = fuel;
        assert(input@.skip(0) =~= input@);
        while left > 0
            invariant
                consumed <= input@.len(),
                self.code@ == old(self).code@,
                course(
                    old(self).code@,
                    World { cpu: old(self).cpu(), ..boot(old(self).data@, input@) },
                    fuel as nat,
                ) == course(
                    self.code@,
                    World {
                        cpu: self.cpu(),
                        tape: self.data@,
                        input: input@.skip(consumed as int),
                        output: output@,
                        starved,
                    },
                    left as nat,
                ),
            decreases left,
        {
            let ghost before = World {
                cpu: self.cpu(),
                tape: self.data@,
                input: input@.skip(consumed as int),
                output: output@,
                starved,
            };
            let signal = self.step();
            match signal {
                Signal::Halt | Signal::OutOfTape | Signal::BadWord => {
                    return Report { end: signal, cpu: Cpu { ip: self.ip, dp: self.dp }, output, consumed, starved };
                },
                _ => {},
            }
            let ghost stepped = Step { cpu: self.cpu(), tape: self.data@, signal };
            attend(signal, self.data.as_mut_slice(), input, &mut output, &mut consumed, &mut starved);
            proof {
                let after = World {
                    cpu: self.cpu(),
                    tape: self.data@,
                    input: input@.skip(consumed as int),
                    output: output@,
                    starved,
                };
                assert(serve(before, stepped) == after);
            }
            left = left - 1;
        }
        let end = if self.ip < self.code.len() { Signal::Next } else { Signal::Halt };
        Report { end, cpu: Cpu { ip: self.ip, dp: self.dp }, output, consumed, starved }
    }
}

/// The statement that does what an instruction does, branch targets apart.
pub open spec fn lowered(op: Bytecode) -> Stmt {
    match op {
        Bytecode::Inc => Stmt::PAdd(1),
        Bytecode::Dec => Stmt::PAdd(-1i16),
        Bytecode::SInc => Stmt::DAdd(1, 0),
        Bytecode::SDec => Stmt::DAdd(-1i8, 0),
        Bytecode::Jz(_) => Stmt::Jz(0),
        Bytecode::Jnz(_) => Stmt::Jnz(0),
        Bytecode::Putc => Stmt::Putc(0),
        Bytecode::Getc => Stmt::Getc(0),
    }
}

/// A source text gives the plain machine and the intermediate
/// representation the same program, instruction by statement.
proof fn lemma_lex_lowered(src: Seq<char>)
    ensures
        crate::parse::lex(src).len() == lex(src).len(),
        forall|k: int| 0 <= k < lex(src).len() ==> crate::parse::lex(src)[k] == lowered(#[trigger] lex(src)[k]),
        crate::link::profile(crate::parse::lex(src)) == profile(lex(src)),
    decreases src.len(),
{
    if src.len() > 0 {
        lemma_lex_lowered(src.drop_last());
    }
    assert(crate::link::profile(crate::parse::lex(src)) =~= profile(lex(src)));
}

/// The plain machine steps as the tree interpreter does.
proof fn lemma_plain_tick(src: Seq<char>, cpu: Cpu, tape: Seq<u8>)
    requires
        crate::link::well_formed(crate::link::link(crate::parse::lex(src))),
        lex(src).len() <= usize::MAX,
    ensures
        tick(bind(lex(src)), cpu, tape) == crate::machine::tick(
            crate::machine::plain(crate::link::link(crate::parse::lex(src))),
            cpu,
            tape,
        ),
{
    let ops = lex(src);
    let ir = crate::link::link(crate::parse::lex(src));
    lemma_lex_lowered(src);
    assert(crate::link::profile(ir) =~= profile(ops));
    if cpu.ip < ops.len() {
        let k = cpu.ip as int;
        assert(crate::parse::lex(src)[k] == lowered(ops[k]));
        if sign(ops[k]) != 0 {
            crate::link::lemma_well_formed_at(ir, k);
            if ops[k] is Jz {
                crate::nesting::lemma_partner(profile(ops), k, k + ir[k].wide());
            } else {
                crate::nesting::lemma_partner(profile(ops), k + ir[k].wide(), k);
            }
        }
    }
}

/// The plain machine and the tree interpreter agree: the programs that they
/// read from one source text run alike, from every world and for every
/// number of steps, where no loop of the text is longer than a branch of the
/// intermediate representation can tell.
pub proof fn lemma_plain_machine_agrees(src: Seq<char>, w: World, fuel: nat)
    requires
        crate::link::well_formed(crate::link::link(crate::parse::lex(src))),
        lex(src).len() <= usize::MAX,
    ensures
        course(bind(lex(src)), w, fuel) == crate::machine::course(
            crate::machine::plain(crate::link::link(crate::parse::lex(src))),
            w,
            fuel,
        ),
    decreases fuel,
{
    lemma_plain_tick(src, w.cpu, w.tape);
    let s = tick(bind(lex(src)), w.cpu, w.tape);
    if fuel > 0 && !(s.signal is Halt) && !(s.signal is OutOfTape) && !(s.signal is BadWord) {
        lemma_plain_machine_agrees(src, serve(w, s), (fuel - 1) as nat);
    }
}

} // verus!
