//! The plan of ahead-of-time code generation: what is to be emitted for each
//! statement, and which loop each branch belongs to. Emitting the machine
//! code itself is left to the caller.

use vstd::prelude::*;
use crate::bytecode::Stmt;
use crate::link::{lemma_well_formed_at, profile, sign, well_formed};
use crate::machine::{course, on_tape, perform, plain, serve, tick, Cpu, Signal, Step, World};
use crate::nesting::{balanced, depth, lemma_loops_kept, lemma_matched_unique, lemma_partner, lemma_track_close, lemma_track_open, lemma_track_plain, open_of, tracking};

verus! {

/// What is emitted for one statement.
#[derive(Debug, Clone, Copy, PartialEq, Eq, Structural)]
pub enum Emit {
    /// Add the distance to the data pointer.
    Move(i16),
    /// Add the first value to the byte at the given offset from the data pointer.
    Change(i8, i16),
    /// The head of the loop with the given number: compare the current cell
    /// with zero, jump to the loop's exit label if it is zero, then place the
    /// loop's entry label.
    Open(usize),
    /// The tail of the loop with the given number: compare the current cell
    /// with zero, jump to the loop's entry label if it is not zero, then place
    /// the loop's exit label.
    Close(usize),
    /// Load the byte at the given offset from the data pointer and hand it to the host's output.
    Put(i16),
    /// Call the host's input and store the low byte at the given offset from the data pointer.
    Get(i16),
}

/// The number of loops that open among the first `p` statements.
pub open spec fn loops_before(ir: Seq<Stmt>, p: int) -> nat
    decreases p,
{
    if p <= 0 {
        0
    } else {
        loops_before(ir, p - 1) + if ir[p - 1] is Jz { 1nat } else { 0nat }
    }
}

/// What is emitted for the statement at `k`. Loops are numbered in the order
/// in which they open; the tail of a loop bears the number of its head.
pub open spec fn planned(ir: Seq<Stmt>, k: int) -> Emit {
    match ir[k] {
        Stmt::PAdd(d) => Emit::Move(d),
        Stmt::DAdd(n, off) => Emit::Change(n, off),
        Stmt::Jz(_) => Emit::Open(loops_before(ir, k) as usize),
        Stmt::Jnz(_) => Emit::Close(loops_before(ir, open_of(profile(ir), k)) as usize),
        Stmt::Putc(off) => Emit::Put(off),
        Stmt::Getc(off) => Emit::Get(off),
    }
}

/// No more loops open before a place than statements stand before it.
proof fn lemma_loops_bound(ir: Seq<Stmt>, p: int)
    requires
        0 <= p,
    ensures
        loops_before(ir, p) <= p,
    decreases p,
{
    if p > 0 {
        lemma_loops_bound(ir, p - 1);
    }
}

/// The profile of a program up to a place, with one statement more.
proof fn lemma_profile_take(ir: Seq<Stmt>, p: int)
    requires
        0 <= p < ir.len(),
    ensures
        profile(ir.take(p + 1)) == profile(ir.take(p)).push(sign(ir[p])),
        depth(profile(ir), p + 1) == depth(profile(ir), p) + sign(ir[p]),
{
    assert(profile(ir.take(p + 1)) =~= profile(ir.take(p)).push(sign(ir[p])));
}

/// Plans the code for a program: one entry for each statement, in order.
pub fn plan(ir: &[Stmt]) -> (out: Vec<Emit>)
    requires
        balanced(profile(ir@)),
    ensures
        plans(out@, ir@),
{
    let mut out: Vec<Emit> = Vec::new();
    let mut loops: Vec<usize> = Vec::new();
    let mut count: usize = 0;
    let ghost mut opens: Seq<int> = Seq::empty();
    let mut pos: usize = 0;
    assert(profile(ir@.take(0)) =~= Seq::<int>::empty());
    while pos < ir.len()
        invariant
            pos <= ir@.len(),
            balanced(profile(ir@)),
            out@.len() == pos,
            forall|k: int| 0 <= k < pos ==> out@[k] == planned(ir@, k),
            count == loops_before(ir@, pos as int),
            tracking(profile(ir@.take(pos as int)), opens),
            loops@.len() == opens.len(),
            loops@.len() == depth(profile(ir@), pos as int),
            forall|l: int| 0 <= l < opens.len() ==> loops@[l] == loops_before(ir@, #[trigger] opens[l]),
        decreases ir.len() - pos,
    {
        let ghost before = profile(ir@.take(pos as int));
        proof {
            lemma_profile_take(ir@, pos as int);
            lemma_loops_bound(ir@, pos as int + 1);
            assert(depth(profile(ir@), pos as int + 1) >= 0);
        }
        let entry = match ir[pos] {
            Stmt::PAdd(d) => {
                proof {
                    lemma_track_plain(before, opens);
                }
                Emit::Move(d)
            },
            Stmt::DAdd(n, off) => {
                proof {
                    lemma_track_plain(before, opens);
                }
                Emit::Change(n, off)
            },
            Stmt::Putc(off) => {
                proof {
                    lemma_track_plain(before, opens);
                }
                Emit::Put(off)
            },
            Stmt::Getc(off) => {
                proof {
                    lemma_track_plain(before, opens);
                }
                Emit::Get(off)
            },
            Stmt::Jz(_) => {
                proof {
                    lemma_track_open(before, opens);
                    opens = opens.push(pos as int);
                }
                loops.push(count);
                count = count + 1;
                Emit::Open(count - 1)
            },
            Stmt::Jnz(_) => {
                proof {
                    lemma_track_close(before, opens);
                    lemma_loops_kept(
                        profile(ir@.take(pos as int + 1)),
                        profile(ir@),
                        opens.last(),
                        pos as int,
                    );
                    opens = opens.drop_last();
                }
                let number = loops.pop().unwrap();
                Emit::Close(number)
            },
        };
        out.push(entry);
        pos = pos + 1;
    }
    out
}

/// The place of the head of the loop with the given number.
pub open spec fn head_of(entries: Seq<Emit>, number: usize) -> int {
    choose|i: int| 0 <= i < entries.len() && entries[i] == Emit::Open(number)
}

/// The place of the tail of the loop with the given number.
pub open spec fn tail_of(entries: Seq<Emit>, number: usize) -> int {
    choose|j: int| 0 <= j < entries.len() && entries[j] == Emit::Close(number)
}

/// What the code emitted for one entry does, as long as it stays on the
/// tape: the head of a loop jumps behind the tail of its loop, where the exit
/// label stands, and the tail jumps behind the head, where the entry label
/// stands.
pub open spec fn carried(entries: Seq<Emit>, k: int, cpu: Cpu, tape: Seq<u8>) -> Step {
    let len = entries.len() as usize;
    let next = (cpu.ip + 1) as usize;
    let refused = Step { cpu, tape, signal: Signal::OutOfTape };
    match entries[k] {
        Emit::Move(d) => perform(Stmt::PAdd(d), len, cpu, tape),
        Emit::Change(n, off) => perform(Stmt::DAdd(n, off), len, cpu, tape),
        Emit::Put(off) => perform(Stmt::Putc(off), len, cpu, tape),
        Emit::Get(off) => perform(Stmt::Getc(off), len, cpu, tape),
        Emit::Open(number) => if on_tape(tape, cpu.dp as int) {
            Step {
                cpu: Cpu {
                    ip: if tape[cpu.dp as int] == 0 { (tail_of(entries, number) + 1) as usize } else { next },
                    dp: cpu.dp,
                },
                tape,
                signal: Signal::Next,
            }
        } else {
            refused
        },
        Emit::Close(number) => if on_tape(tape, cpu.dp as int) {
            Step {
                cpu: Cpu {
                    ip: if tape[cpu.dp as int] != 0 { (head_of(entries, number) + 1) as usize } else { next },
                    dp: cpu.dp,
                },
                tape,
                signal: Signal::Next,
            }
        } else {
            refused
        },
    }
}

/// One step of the code emitted for a plan.
pub open spec fn plan_tick(entries: Seq<Emit>, cpu: Cpu, tape: Seq<u8>) -> Step {
    if cpu.ip < entries.len() {
        carried(entries, cpu.ip as int, cpu, tape)
    } else {
        Step { cpu, tape, signal: Signal::Halt }
    }
}

/// The world after at most `fuel` steps of the code emitted for a plan, and how the run ended.
pub open spec fn plan_course(entries: Seq<Emit>, w: World, fuel: nat) -> (World, Signal)
    decreases fuel,
{
    let s = plan_tick(entries, w.cpu, w.tape);
    if fuel == 0 {
        (w, if s.signal == Signal::Halt { Signal::Halt } else { Signal::Next })
    } else {
        match s.signal {
            Signal::Halt | Signal::OutOfTape | Signal::BadWord => (w, s.signal),
            _ => plan_course(entries, serve(w, s), (fuel - 1) as nat),
        }
    }
}

/// The plan of a program, entry by entry.
pub open spec fn plans(entries: Seq<Emit>, ir: Seq<Stmt>) -> bool {
    &&& entries.len() == ir.len()
    &&& forall|k: int| 0 <= k < ir.len() ==> entries[k] == planned(ir, k)
}

/// Behind a `Jz` more loops have opened than before it.
proof fn lemma_loops_grow(ir: Seq<Stmt>, a: int, b: int)
    requires
        0 <= a <= b,
    ensures
        loops_before(ir, a) <= loops_before(ir, b),
        a < b && ir[a] is Jz ==> loops_before(ir, a) < loops_before(ir, b),
    decreases b - a,
{
    if a < b {
        lemma_loops_grow(ir, a, b - 1);
    }
}

/// Two heads of loops with one number are one head.
proof fn lemma_one_head(ir: Seq<Stmt>, i: int, i2: int)
    requires
        0 <= i < ir.len() <= usize::MAX,
        0 <= i2 < ir.len(),
        ir[i] is Jz,
        ir[i2] is Jz,
        loops_before(ir, i) as usize == loops_before(ir, i2) as usize,
    ensures
        i == i2,
{
    lemma_loops_bound(ir, i);
    lemma_loops_bound(ir, i2);
    if i < i2 {
        lemma_loops_grow(ir, i, i2);
    } else {
        lemma_loops_grow(ir, i2, i);
    }
}

/// In the plan of a well-formed program each loop has one head and one
/// tail, and they stand where the branch and its partner stand.
proof fn lemma_labels(ir: Seq<Stmt>, entries: Seq<Emit>, i: int, j: int)
    requires
        well_formed(ir),
        ir.len() <= usize::MAX,
        plans(entries, ir),
        crate::nesting::matched(profile(ir), i, j),
    ensures
        entries[i] == Emit::Open(loops_before(ir, i) as usize),
        entries[j] == Emit::Close(loops_before(ir, i) as usize),
        head_of(entries, loops_before(ir, i) as usize) == i,
        tail_of(entries, loops_before(ir, i) as usize) == j,
{
    let number = loops_before(ir, i) as usize;
    let b = profile(ir);
    lemma_partner(b, i, j);
    assert(ir[i] is Jz && ir[j] is Jnz) by {
        assert(b[i] == sign(ir[i]) && b[j] == sign(ir[j]));
    }
    assert(entries[i] == planned(ir, i));
    assert(entries[j] == planned(ir, j));
    let h = head_of(entries, number);
    assert(entries[h] == planned(ir, h));
    lemma_one_head(ir, i, h);
    let t = tail_of(entries, number);
    assert(entries[t] == planned(ir, t));
    lemma_well_formed_at(ir, t);
    let opener = t + ir[t].wide();
    lemma_partner(b, opener, t);
    assert(ir[opener] is Jz) by {
        assert(b[opener] == sign(ir[opener]));
    }
    lemma_one_head(ir, i, opener);
    lemma_matched_unique(b, i, j, opener, t);
}

/// The code emitted for the plan of a well-formed program steps as the program does.
proof fn lemma_plan_tick(ir: Seq<Stmt>, entries: Seq<Emit>, cpu: Cpu, tape: Seq<u8>)
    requires
        well_formed(ir),
        ir.len() <= usize::MAX,
        plans(entries, ir),
    ensures
        plan_tick(entries, cpu, tape) == tick(plain(ir), cpu, tape),
{
    if cpu.ip < ir.len() {
        let k = cpu.ip as int;
        assert(entries[k] == planned(ir, k));
        match ir[k] {
            Stmt::Jz(t) => {
                lemma_well_formed_at(ir, k);
                lemma_labels(ir, entries, k, k + t);
            },
            Stmt::Jnz(t) => {
                lemma_well_formed_at(ir, k);
                lemma_labels(ir, entries, k + t, k);
                lemma_partner(profile(ir), k + t, k);
            },
            _ => {},
        }
    }
}

/// The code emitted ahead of time and the tree interpreter agree: the code
/// emitted for the plan of a well-formed program runs as the program does,
/// from every world and for every number of steps, as long as it stays on
/// the tape.
pub proof fn lemma_plan_agrees(ir: Seq<Stmt>, entries: Seq<Emit>, w: World, fuel: nat)
    requires
        well_formed(ir),
        ir.len() <= usize::MAX,
        plans(entries, ir),
    ensures
        plan_course(entries, w, fuel) == course(plain(ir), w, fuel),
    decreases fuel,
{
    lemma_plan_tick(ir, entries, w.cpu, w.tape);
    let s = tick(plain(ir), w.cpu, w.tape);
    if fuel > 0 && !(s.signal is Halt) && !(s.signal is OutOfTape) && !(s.signal is BadWord) {
        lemma_plan_agrees(ir, entries, serve(w, s), (fuel - 1) as nat);
    }
}

} // verus!
