//! The fused machine: runs of pointer moves and of cell changes are one
//! instruction each, cell accesses carry an offset, branches go by absolute
//! index.

use vstd::prelude::*;
use crate::machine::{attend, boot, locate, on_tape, serve, Cpu, Report, Signal, Step, World};
use crate::naive::Bytecode;
use crate::nesting::{balanced, close_of, depth, keeps, lemma_depth_push, lemma_track_close, lemma_track_done, lemma_track_open, lemma_track_plain, open_at, open_of, resolved, tracking, waiting};

verus! {

/// One instruction of the fused machine.
#[derive(Debug, Clone, Copy, PartialEq, Eq, Structural)]
pub enum Optcode {
    /// Moves the data pointer one cell up.
    Inc,
    /// Moves the data pointer one cell down.
    Dec,
    /// Moves the data pointer up by the given number of cells.
    Add(u16),
    /// Moves the data pointer down by the given number of cells.
    Sub(u16),
    /// Adds one to the cell at the given offset.
    SInc(i16),
    /// Subtracts one from the cell at the given offset.
    SDec(i16),
    /// Adds the first value to the cell at the given offset.
    SAdd(u8, i16),
    /// Subtracts the first value from the cell at the given offset.
    SSub(u8, i16),
    /// Goes to the given index when the current cell is zero.
    Jz(u16),
    /// Goes to the given index when the current cell is not zero.
    Jnz(u16),
    /// Writes the current cell.
    Putc,
    /// Reads one byte into the current cell.
    Getc,
    /// Writes the cell at the given offset.
    Putci(i16),
    /// Reads one byte into the cell at the given offset.
    Getci(i16),
}

/// The sum of two signed 16-bit values, cut to sixteen bits.
pub open spec fn add16(a: i16, b: int) -> i16 {
    if a + b > i16::MAX {
        (a + b - 65536) as i16
    } else if a + b < i16::MIN {
        (a + b + 65536) as i16
    } else {
        (a + b) as i16
    }
}

/// The sum of two signed bytes, cut to eight bits.
pub open spec fn add8(a: i8, b: int) -> i8 {
    if a + b > i8::MAX {
        (a + b - 256) as i8
    } else if a + b < i8::MIN {
        (a + b + 256) as i8
    } else {
        (a + b) as i8
    }
}

/// The pointer move that is deferred after the first `p` instructions: the
/// sum of the moves since the last branch, cut to sixteen bits.
pub open spec fn shift(code: Seq<Bytecode>, p: int) -> i16
    decreases p,
{
    if p <= 0 {
        0
    } else {
        match code[p - 1] {
            Bytecode::Inc => add16(shift(code, p - 1), 1),
            Bytecode::Dec => add16(shift(code, p - 1), -1),
            Bytecode::Jz(_) | Bytecode::Jnz(_) => 0,
            _ => shift(code, p - 1),
        }
    }
}

/// The change to the current cell that is gathered, and not yet written,
/// after the first `p` instructions, cut to eight bits.
pub open spec fn bump(code: Seq<Bytecode>, p: int) -> i8
    decreases p,
{
    if p <= 0 {
        0
    } else {
        match code[p - 1] {
            Bytecode::SInc => add8(bump(code, p - 1), 1),
            Bytecode::SDec => add8(bump(code, p - 1), -1),
            _ => 0,
        }
    }
}

/// The write of a gathered cell change at a deferred pointer move; nothing if there is no change.
pub open spec fn flush(v: i8, d: i16) -> Seq<Optcode> {
    if v == 1 {
        seq![Optcode::SInc(d)]
    } else if v > 0 {
        seq![Optcode::SAdd(v as u8, d)]
    } else if v == -1 {
        seq![Optcode::SDec(d)]
    } else if v < 0 {
        seq![Optcode::SSub((-v) as u8, d)]
    } else {
        Seq::empty()
    }
}

/// The deferred pointer move itself; nothing if it is zero. A move down is
/// always written with its distance, also where that is one.
pub open spec fn commit(d: i16) -> Seq<Optcode> {
    if d == 1 {
        seq![Optcode::Inc]
    } else if d > 0 {
        seq![Optcode::Add(d as u16)]
    } else if d < 0 {
        seq![Optcode::Sub((-d) as u16)]
    } else {
        Seq::empty()
    }
}

/// The write or the read at a deferred pointer move.
pub open spec fn put_at(d: i16) -> Optcode {
    if d == 0 {
        Optcode::Putc
    } else {
        Optcode::Putci(d)
    }
}

/// The read at a deferred pointer move.
pub open spec fn get_at(d: i16) -> Optcode {
    if d == 0 {
        Optcode::Getc
    } else {
        Optcode::Getci(d)
    }
}

/// What the instruction at `p` adds to the fused program. A pointer move or
/// a branch ends a run of cell changes, which is written out; a cell change
/// adds nothing of its own. A branch writes out the deferred move first.
/// Output and input fold the deferred move into their offset; input drops
/// the gathered change, for the read overwrites the cell.
pub open spec fn emitted(code: Seq<Bytecode>, p: int) -> Seq<Optcode> {
    let d = shift(code, p);
    let v = bump(code, p);
    match code[p] {
        Bytecode::Inc | Bytecode::Dec => flush(v, d),
        Bytecode::SInc | Bytecode::SDec => Seq::empty(),
        Bytecode::Jz(_) => flush(v, d) + commit(d) + seq![Optcode::Jz(0)],
        Bytecode::Jnz(_) => flush(v, d) + commit(d) + seq![Optcode::Jnz(0)],
        Bytecode::Putc => flush(v, d) + seq![put_at(d)],
        Bytecode::Getc => seq![get_at(d)],
    }
}

/// The fused form of the first `p` instructions, branch targets not yet set.
pub open spec fn fused(code: Seq<Bytecode>, p: int) -> Seq<Optcode>
    decreases p,
{
    if p <= 0 {
        Seq::empty()
    } else {
        fused(code, p - 1) + emitted(code, p - 1)
    }
}

/// The fused form of a whole program: a cell change still gathered at the end
/// is written out, a pointer move still deferred is dropped.
pub open spec fn fuse(code: Seq<Bytecode>) -> Seq<Optcode> {
    fused(code, code.len() as int) + flush(bump(code, code.len() as int), shift(code, code.len() as int))
}

/// The sign of an instruction in a bracket profile: `Jz` opens, `Jnz` closes.
pub open spec fn sign(op: Optcode) -> int {
    match op {
        Optcode::Jz(_) => 1,
        Optcode::Jnz(_) => -1,
        _ => 0,
    }
}

/// The bracket profile of a program.
pub open spec fn profile(code: Seq<Optcode>) -> Seq<int> {
    Seq::new(code.len(), |k: int| sign(code[k]))
}

/// The instruction at `k` with its branch target set: the index just behind its partner.
pub open spec fn bind_at(code: Seq<Optcode>, k: int) -> Optcode {
    match code[k] {
        Optcode::Jz(_) => Optcode::Jz((close_of(profile(code), k) + 1) as u16),
        Optcode::Jnz(_) => Optcode::Jnz((open_of(profile(code), k) + 1) as u16),
        other => other,
    }
}

/// The program with every branch target set.
pub open spec fn bind(code: Seq<Optcode>) -> Seq<Optcode> {
    Seq::new(code.len(), |k: int| bind_at(code, k))
}

/// The fused program: fused, then bound.
pub open spec fn converted(code: Seq<Bytecode>) -> Seq<Optcode> {
    bind(fuse(code))
}

/// Two programs differ in their branch targets at most.
pub open spec fn same_shape(a: Seq<Optcode>, b: Seq<Optcode>) -> bool {
    &&& a.len() == b.len()
    &&& forall|k: int| 0 <= k < a.len() ==> sign(#[trigger] a[k]) == sign(b[k])
    &&& forall|k: int| 0 <= k < a.len() && sign(#[trigger] a[k]) == 0 ==> a[k] == b[k]
}

/// The places of the openers that a label stack stands for: each label is
/// the slot after its opener.
pub open spec fn slots(labels: Seq<u16>) -> Seq<int> {
    Seq::new(labels.len(), |l: int| labels[l] - 1)
}

/// The bracket at `k` of a program under construction, unless it waits on
/// the stack of open loops, holds the target that `bind` gives it.
pub open spec fn aimed(res: Seq<Optcode>, opens: Seq<int>, k: int) -> bool {
    let b = profile(res);
    match res[k] {
        Optcode::Jz(t) => waiting(b, opens, k) || t == close_of(b, k) + 1,
        Optcode::Jnz(t) => t == open_of(b, k) + 1,
        _ => true,
    }
}

/// The state of single-pass binding: `labels` holds, innermost last, the slot
/// after each `Jz` that is still open, and all closed loops are bound.
pub open spec fn binding(res: Seq<Optcode>, labels: Seq<u16>) -> bool {
    &&& tracking(profile(res), slots(labels))
    &&& forall|k: int| 0 <= k < res.len() ==> #[trigger] aimed(res, slots(labels), k)
}

/// A bracket that holds its target keeps it when the program grows by one
/// instruction, as long as the stack still holds it if it waited there.
proof fn lemma_aimed_kept(r0: Seq<Optcode>, o0: Seq<int>, r1: Seq<Optcode>, o1: Seq<int>, k: int)
    requires
        0 <= k < r0.len(),
        r1.len() == r0.len() + 1,
        r1[k] == r0[k],
        profile(r1) == profile(r0).push(sign(r1[r0.len() as int])),
        keeps(profile(r0), profile(r1)),
        resolved(profile(r0), o0, k),
        aimed(r0, o0, k),
        waiting(profile(r0), o0, k) ==> waiting(profile(r1), o1, k),
    ensures
        aimed(r1, o1, k),
{
    assert(profile(r0)[k] == sign(r0[k]));
}

/// Appending an instruction that is no bracket keeps the binding state.
proof fn lemma_binding_emit(r0: Seq<Optcode>, labels: Seq<u16>, op: Optcode)
    requires
        binding(r0, labels),
        sign(op) == 0,
    ensures
        binding(r0.push(op), labels),
{
    let r1 = r0.push(op);
    let opens = slots(labels);
    assert(profile(r1) =~= profile(r0).push(0));
    lemma_track_plain(profile(r0), opens);
    lemma_depth_push(profile(r0), 0);
    assert forall|k: int| 0 <= k < r1.len() implies #[trigger] aimed(r1, opens, k) by {
        if k < r0.len() {
            assert(aimed(r0, opens, k));
            assert(resolved(profile(r0), opens, k));
            lemma_aimed_kept(r0, opens, r1, opens, k);
        }
    }
}

/// Writing out a gathered cell change or a deferred pointer move keeps the binding state.
proof fn lemma_binding_add(res: Seq<Optcode>, labels: Seq<u16>, t: Seq<Optcode>)
    requires
        binding(res, labels),
        t.len() <= 1,
        forall|k: int| 0 <= k < t.len() ==> sign(t[k]) == 0,
    ensures
        binding(res + t, labels),
{
    if t.len() == 0 {
        assert(res + t =~= res);
    } else {
        lemma_binding_emit(res, labels, t[0]);
        assert(res + t =~= res.push(t[0]));
    }
}

/// Appending a `Jz` and its label keeps the binding state.
proof fn lemma_binding_open(r0: Seq<Optcode>, l0: Seq<u16>, t: u16)
    requires
        binding(r0, l0),
        r0.len() < u16::MAX,
    ensures
        binding(r0.push(Optcode::Jz(t)), l0.push((r0.len() + 1) as u16)),
{
    let op = Optcode::Jz(t);
    let r1 = r0.push(op);
    let l1 = l0.push((r0.len() + 1) as u16);
    let o0 = slots(l0);
    let o1 = slots(l1);
    assert(o1 =~= o0.push(r0.len() as int));
    assert(profile(r1) =~= profile(r0).push(1));
    lemma_track_open(profile(r0), o0);
    assert forall|k: int| 0 <= k < r1.len() implies #[trigger] aimed(r1, o1, k) by {
        if k < r0.len() {
            assert(aimed(r0, o0, k));
            assert(resolved(profile(r0), o0, k));
            lemma_aimed_kept(r0, o0, r1, o1, k);
        }
    }
}

/// Closing the innermost open loop, with both targets set, keeps the binding state.
proof fn lemma_binding_close(r0: Seq<Optcode>, l0: Seq<u16>)
    requires
        binding(r0, l0),
        l0.len() > 0,
        r0.len() < u16::MAX,
    ensures
        ({
            let i = l0.last() - 1;
            let j = r0.len() as int;
            &&& 0 <= i < j
            &&& r0[i] is Jz
            &&& binding(
                r0.push(Optcode::Jnz((i + 1) as u16)).update(i, Optcode::Jz((j + 1) as u16)),
                l0.drop_last(),
            )
        }),
{
    let i = l0.last() - 1;
    let j = r0.len() as int;
    let o0 = slots(l0);
    let o1 = slots(l0.drop_last());
    assert(o1 =~= o0.drop_last());
    assert(o0.last() == i);
    assert(open_at(profile(r0), o0[o0.len() - 1], o0.len() - 1));
    let close = Optcode::Jnz((i + 1) as u16);
    let rm = r0.push(close);
    let r1 = rm.update(i, Optcode::Jz((j + 1) as u16));
    assert(profile(rm) =~= profile(r0).push(-1));
    lemma_track_close(profile(r0), o0);
    assert(profile(r1) =~= profile(rm));
    assert forall|k: int| 0 <= k < r1.len() implies #[trigger] aimed(r1, o1, k) by {
        if k < r0.len() && k != i {
            assert(aimed(r0, o0, k));
            assert(resolved(profile(r0), o0, k));
            lemma_aimed_kept(r0, o0, r1, o1, k);
        }
    }
}

/// With no loop left open, the program is balanced and holds the targets that `bind` gives it.
proof fn lemma_binding_done(res: Seq<Optcode>, labels: Seq<u16>, shape: Seq<Optcode>)
    requires
        binding(res, labels),
        labels.len() == 0,
        same_shape(res, shape),
    ensures
        balanced(profile(res)),
        res == bind(shape),
{
    lemma_track_done(profile(res), slots(labels));
    assert(profile(res) =~= profile(shape));
    assert forall|k: int| 0 <= k < res.len() implies res[k] == bind_at(shape, k) by {
        assert(aimed(res, slots(labels), k));
    }
    assert(res =~= bind(shape));
}

/// Appending the same instructions to two programs of one shape gives two programs of one shape.
proof fn lemma_same_shape_add(a: Seq<Optcode>, b: Seq<Optcode>, t: Seq<Optcode>)
    requires
        same_shape(a, b),
    ensures
        same_shape(a + t, b + t),
{
    assert forall|k: int| 0 <= k < (a + t).len() implies sign(#[trigger] (a + t)[k]) == sign((b + t)[k]) by {
        if k < a.len() {
            assert((a + t)[k] == a[k]);
        }
    }
    assert forall|k: int| 0 <= k < (a + t).len() && sign(#[trigger] (a + t)[k]) == 0 implies (a + t)[k] == (b + t)[k] by {
        if k < a.len() {
            assert((a + t)[k] == a[k]);
        }
    }
}

/// The statements that are still to be written out for what is gathered and
/// deferred: at most one for each.
pub open spec fn owed(v: i8, d: i16) -> int {
    (if v != 0 { 1int } else { 0int }) + (if d != 0 { 1int } else { 0int })
}

/// Appends the deferred pointer move, unless it is zero.
fn commit_dp(res: &mut Vec<Optcode>, dp_offset: i16)
    ensures
        final(res)@ == old(res)@ + commit(dp_offset),
{
    if dp_offset > 0 {
        if dp_offset == 1 {
            res.push(Optcode::Inc);
        } else {
            res.push(Optcode::Add(dp_offset as u16));
        }
    } else if dp_offset < 0 {
        res.push(Optcode::Sub((-(dp_offset as i32)) as u16));
    }
    assert(res@ =~= old(res)@ + commit(dp_offset));
}

/// Appends the write of the gathered cell change, unless it is zero.
fn commit_write(res: &mut Vec<Optcode>, dp_offset: i16, value_offset: i8)
    ensures
        final(res)@ == old(res)@ + flush(value_offset, dp_offset),
{
    if value_offset > 0 {
        if value_offset == 1 {
            res.push(Optcode::SInc(dp_offset));
        } else {
            res.push(Optcode::SAdd(value_offset as u8, dp_offset));
        }
    } else if value_offset < 0 {
        if value_offset == -1 {
            res.push(Optcode::SDec(dp_offset));
        } else {
            res.push(Optcode::SSub((-(value_offset as i16)) as u8, dp_offset));
        }
    }
    assert(res@ =~= old(res)@ + flush(value_offset, dp_offset));
}

/// Fuses a program of the plain machine into one of the fused machine.
pub fn convert(code: Vec<Bytecode>) -> (res: Vec<Optcode>)
    requires
        balanced(crate::naive::profile(code@)),
        code@.len() <= u16::MAX,
    ensures
        res@ == converted(code@),
        res@.len() <= code@.len(),
{
    let mut res: Vec<Optcode> = Vec::new();
    let mut labels: Vec<u16> = Vec::new();
    let mut dp_offset: i16 = 0;
    let mut value_offset: i8 = 0;
    let mut pos: usize = 0;
    while pos < code.len()
        invariant
            pos <= code.len(),
            code@.len() <= u16::MAX,
            balanced(crate::naive::profile(code@)),
            binding(res@, labels@),
            same_shape(res@, fused(code@, pos as int)),
            labels@.len() == depth(crate::naive::profile(code@), pos as int),
            dp_offset == shift(code@, pos as int),
            value_offset == bump(code@, pos as int),
            res@.len() + owed(value_offset, dp_offset) <= pos,
        decreases code.len() - pos,
    {
        let ghost before = res@;
        let ghost base = fused(code@, pos as int);
        let ghost added = emitted(code@, pos as int);
        let ghost written = flush(value_offset, dp_offset) + commit(dp_offset);
        proof {
            assert(depth(crate::naive::profile(code@), pos as int + 1) == depth(
                crate::naive::profile(code@),
                pos as int,
            ) + crate::naive::sign(code@[pos as int]));
            assert(depth(crate::naive::profile(code@), pos as int + 1) >= 0);
        }
        match code[pos] {
            Bytecode::Inc => {
                commit_write(&mut res, dp_offset, value_offset);
                proof {
                    lemma_binding_add(before, labels@, flush(value_offset, dp_offset));
                }
                value_offset = 0;
                dp_offset = dp_offset.wrapping_add(1);
            },
            Bytecode::Dec => {
                commit_write(&mut res, dp_offset, value_offset);
                proof {
                    lemma_binding_add(before, labels@, flush(value_offset, dp_offset));
                }
                value_offset = 0;
                dp_offset = dp_offset.wrapping_sub(1);
            },
            Bytecode::SInc => {
                value_offset = value_offset.wrapping_add(1);
            },
            Bytecode::SDec => {
                value_offset = value_offset.wrapping_sub(1);
            },
            Bytecode::Jz(_) => {
                commit_write(&mut res, dp_offset, value_offset);
                commit_dp(&mut res, dp_offset);
                proof {
                    lemma_binding_add(before, labels@, flush(value_offset, dp_offset));
                    lemma_binding_add(before + flush(value_offset, dp_offset), labels@, commit(dp_offset));
                    lemma_same_shape_add(before, base, written);
                    assert(res@ =~= before + written);
                    assert(base + added =~= (base + written).push(Optcode::Jz(0)));
                    lemma_binding_open(res@, labels@, 0);
                }
                value_offset = 0;
                dp_offset = 0;
                res.push(Optcode::Jz(0));
                labels.push(res.len() as u16);
            },
            Bytecode::Jnz(_) => {
                commit_write(&mut res, dp_offset, value_offset);
                commit_dp(&mut res, dp_offset);
                proof {
                    lemma_binding_add(before, labels@, flush(value_offset, dp_offset));
                    lemma_binding_add(before + flush(value_offset, dp_offset), labels@, commit(dp_offset));
                    lemma_same_shape_add(before, base, written);
                    assert(res@ =~= before + written);
                    assert(base + added =~= (base + written).push(Optcode::Jnz(0)));
                    lemma_binding_close(res@, labels@);
                }
                value_offset = 0;
                dp_offset = 0;
                let target = labels.pop().unwrap();
                res.push(Optcode::Jnz(target));
                let behind = res.len() as u16;
                res.set(target as usize - 1, Optcode::Jz(behind));
            },
            Bytecode::Putc => {
                commit_write(&mut res, dp_offset, value_offset);
                res.push(if dp_offset == 0 { Optcode::Putc } else { Optcode::Putci(dp_offset) });
                proof {
                    lemma_binding_add(before, labels@, flush(value_offset, dp_offset));
                    lemma_binding_emit(before + flush(value_offset, dp_offset), labels@, put_at(dp_offset));
                    assert(res@ =~= before + added);
                }
                value_offset = 0;
            },
            Bytecode::Getc => {
                res.push(if dp_offset == 0 { Optcode::Getc } else { Optcode::Getci(dp_offset) });
                proof {
                    lemma_binding_emit(before, labels@, get_at(dp_offset));
                    assert(res@ =~= before + added);
                }
                value_offset = 0;
            },
        }
        proof {
            if !(code@[pos as int] is Jz || code@[pos as int] is Jnz) {
                assert(res@ =~= before + added);
                lemma_same_shape_add(before, base, added);
            }
        }
        pos = pos + 1;
    }
    let ghost before = res@;
    commit_write(&mut res, dp_offset, value_offset);
    proof {
        lemma_binding_add(before, labels@, flush(value_offset, dp_offset));
        lemma_same_shape_add(before, fused(code@, pos as int), flush(value_offset, dp_offset));
        lemma_binding_done(res@, labels@, fuse(code@));
    }
    res
}

/// The step that moves the data pointer by `k` cells.
pub open spec fn moved(cpu: Cpu, tape: Seq<u8>, k: int) -> Step {
    if i64::MIN <= cpu.dp + k <= i64::MAX {
        Step { cpu: Cpu { ip: (cpu.ip + 1) as usize, dp: (cpu.dp + k) as i64 }, tape, signal: Signal::Next }
    } else {
        Step { cpu, tape, signal: Signal::OutOfTape }
    }
}

/// The step that adds `k`, modulo 256, to the cell at `off` from the data pointer.
pub open spec fn changed(cpu: Cpu, tape: Seq<u8>, off: i16, k: int) -> Step {
    if on_tape(tape, cpu.dp + off) {
        Step {
            cpu: Cpu { ip: (cpu.ip + 1) as usize, dp: cpu.dp },
            tape: tape.update(cpu.dp + off, ((tape[cpu.dp + off] + k) % 256) as u8),
            signal: Signal::Next,
        }
    } else {
        Step { cpu, tape, signal: Signal::OutOfTape }
    }
}

/// The step that goes to `dest` if the current cell is zero, or is not, as `on_zero` says.
pub open spec fn jumped(cpu: Cpu, tape: Seq<u8>, on_zero: bool, dest: u16) -> Step {
    if on_tape(tape, cpu.dp as int) {
        Step {
            cpu: Cpu {
                ip: if (tape[cpu.dp as int] == 0) == on_zero { dest as usize } else { (cpu.ip + 1) as usize },
                dp: cpu.dp,
            },
            tape,
            signal: Signal::Next,
        }
    } else {
        Step { cpu, tape, signal: Signal::OutOfTape }
    }
}

/// The step that writes the cell at `off` from the data pointer.
pub open spec fn wrote(cpu: Cpu, tape: Seq<u8>, off: i16) -> Step {
    if on_tape(tape, cpu.dp + off) {
        Step { cpu: Cpu { ip: (cpu.ip + 1) as usize, dp: cpu.dp }, tape, signal: Signal::Put(tape[cpu.dp + off]) }
    } else {
        Step { cpu, tape, signal: Signal::OutOfTape }
    }
}

/// The step that asks for a byte for the cell at `off` from the data pointer.
pub open spec fn asked(cpu: Cpu, tape: Seq<u8>, off: i16) -> Step {
    if on_tape(tape, cpu.dp + off) {
        Step { cpu: Cpu { ip: (cpu.ip + 1) as usize, dp: cpu.dp }, tape, signal: Signal::Get((cpu.dp + off) as usize) }
    } else {
        Step { cpu, tape, signal: Signal::OutOfTape }
    }
}

/// One instruction, run at `cpu` on `tape`.
pub open spec fn act(op: Optcode, cpu: Cpu, tape: Seq<u8>) -> Step {
    match op {
        Optcode::Inc => moved(cpu, tape, 1),
        Optcode::Dec => moved(cpu, tape, -1),
        Optcode::Add(n) => moved(cpu, tape, n as int),
        Optcode::Sub(n) => moved(cpu, tape, -(n as int)),
        Optcode::SInc(off) => changed(cpu, tape, off, 1),
        Optcode::SDec(off) => changed(cpu, tape, off, -1),
        Optcode::SAdd(n, off) => changed(cpu, tape, off, n as int),
        Optcode::SSub(n, off) => changed(cpu, tape, off, -(n as int)),
        Optcode::Jz(dest) => jumped(cpu, tape, true, dest),
        Optcode::Jnz(dest) => jumped(cpu, tape, false, dest),
        Optcode::Putc => wrote(cpu, tape, 0),
        Optcode::Getc => asked(cpu, tape, 0),
        Optcode::Putci(off) => wrote(cpu, tape, off),
        Optcode::Getci(off) => asked(cpu, tape, off),
    }
}

/// One step of a program.
pub open spec fn tick(code: Seq<Optcode>, cpu: Cpu, tape: Seq<u8>) -> Step {
    if cpu.ip < code.len() {
        act(code[cpu.ip as int], cpu, tape)
    } else {
        Step { cpu, tape, signal: Signal::Halt }
    }
}

/// The world after at most `fuel` steps, and how the run ended: `Halt` behind
/// the last instruction, `OutOfTape` at an instruction that could not run,
/// `Next` if the steps were used up before either.
pub open spec fn course(code: Seq<Optcode>, w: World, fuel: nat) -> (World, Signal)
    decreases fuel,
{
    let s = tick(code, w.cpu, w.tape);
    if fuel == 0 {
        (w, if s.signal == Signal::Halt { Signal::Halt } else { Signal::Next })
    } else {
        match s.signal {
            Signal::Halt | Signal::OutOfTape | Signal::BadWord => (w, s.signal),
            _ => course(code, serve(w, s), (fuel - 1) as nat),
        }
    }
}

/// Moves the data pointer by `k` cells.
fn go(cpu: &mut Cpu, k: i64) -> (signal: Signal)
    requires
        old(cpu).ip < usize::MAX,
    ensures
        forall|tape: Seq<u8>| moved(*old(cpu), tape, k as int) == (Step { cpu: *final(cpu), tape, signal }),
{
    match cpu.dp.checked_add(k) {
        Some(dp) => {
            cpu.dp = dp;
            cpu.ip = cpu.ip + 1;
            Signal::Next
        },
        None => Signal::OutOfTape,
    }
}

/// Adds `k`, modulo 256, to the cell at `off` from the data pointer.
fn change(data: &mut [u8], cpu: &mut Cpu, off: i16, k: i16) -> (signal: Signal)
    requires
        old(cpu).ip < usize::MAX,
        -255 <= k <= 255,
    ensures
        changed(*old(cpu), old(data)@, off, k as int) == (Step { cpu: *final(cpu), tape: final(data)@, signal }),
{
    match locate(data, cpu.dp, off) {
        Some(i) => {
            let sum: i16 = data[i] as i16 + k;
            let cell: u8 = if sum < 0 {
                (sum + 256) as u8
            } else if sum > 255 {
                (sum - 256) as u8
            } else {
                sum as u8
            };
            data[i] = cell;
            cpu.ip = cpu.ip + 1;
            Signal::Next
        },
        None => Signal::OutOfTape,
    }
}

/// Goes to `dest` if the current cell is zero, or is not, as `on_zero` says.
fn jump(data: &[u8], cpu: &mut Cpu, on_zero: bool, dest: u16) -> (signal: Signal)
    requires
        old(cpu).ip < usize::MAX,
    ensures
        jumped(*old(cpu), data@, on_zero, dest) == (Step { cpu: *final(cpu), tape: data@, signal }),
{
    match locate(data, cpu.dp, 0) {
        Some(i) => {
            cpu.ip = if (data[i] == 0) == on_zero { dest as usize } else { cpu.ip + 1 };
            Signal::Next
        },
        None => Signal::OutOfTape,
    }
}

/// Hands out the cell at `off` from the data pointer.
fn write(data: &[u8], cpu: &mut Cpu, off: i16) -> (signal: Signal)
    requires
        old(cpu).ip < usize::MAX,
    ensures
        wrote(*old(cpu), data@, off) == (Step { cpu: *final(cpu), tape: data@, signal }),
{
    match locate(data, cpu.dp, off) {
        Some(i) => {
            cpu.ip = cpu.ip + 1;
            Signal::Put(data[i])
        },
        None => Signal::OutOfTape,
    }
}

/// Asks for a byte for the cell at `off` from the data pointer.
fn ask(data: &[u8], cpu: &mut Cpu, off: i16) -> (signal: Signal)
    requires
        old(cpu).ip < usize::MAX,
    ensures
        asked(*old(cpu), data@, off) == (Step { cpu: *final(cpu), tape: data@, signal }),
{
    match locate(data, cpu.dp, off) {
        Some(i) => {
            cpu.ip = cpu.ip + 1;
            Signal::Get(i)
        },
        None => Signal::OutOfTape,
    }
}

/// Runs the instruction at the program counter, if there is one. A byte to
/// write or a cell to read into is handed to the caller, who resumes by
/// calling again.
pub fn step(code: &[Optcode], data: &mut [u8], cpu: &mut Cpu) -> (signal: Signal)
    ensures
        tick(code@, *old(cpu), old(data)@) == (Step { cpu: *final(cpu), tape: final(data)@, signal }),
{
    if cpu.ip >= code.len() {
        return Signal::Halt;
    }
    match code[cpu.ip] {
        Optcode::Inc => go(cpu, 1),
        Optcode::Dec => go(cpu, -1),
        Optcode::Add(n) => go(cpu, n as i64),
        Optcode::Sub(n) => go(cpu, -(n as i64)),
        Optcode::SInc(off) => change(data, cpu, off, 1),
        Optcode::SDec(off) => change(data, cpu, off, -1),
        Optcode::SAdd(n, off) => change(data, cpu, off, n as i16),
        Optcode::SSub(n, off) => change(data, cpu, off, -(n as i16)),
        Optcode::Jz(dest) => jump(data, cpu, true, dest),
        Optcode::Jnz(dest) => jump(data, cpu, false, dest),
        Optcode::Putc => write(data, cpu, 0),
        Optcode::Getc => ask(data, cpu, 0),
        Optcode::Putci(off) => write(data, cpu, off),
        Optcode::Getci(off) => ask(data, cpu, off),
    }
}

/// Runs a program from its first instruction for at most `fuel` steps, reading from `input`.
pub fn run(code: &[Optcode], data: &mut [u8], input: &[u8], fuel: usize) -> (report: Report)
    ensures
        course(code@, boot(old(data)@, input@), fuel as nat) == (report.world(final(data)@, input@), report.end),
{
    let mut cpu = Cpu { ip: 0, dp: 0 };
    let mut output: Vec<u8> = Vec::new();
    let mut consumed: usize = 0;
    let mut starved = false;
    let mut left = fuel;
    assert(input@.skip(0) =~= input@);
    while left > 0
        invariant
            consumed <= input@.len(),
            course(code@, boot(old(data)@, input@), fuel as nat) == course(
                code@,
                World { cpu, tape: data@, input: input@.skip(consumed as int), output: output@, starved },
                left as nat,
            ),
        decreases left,
    {
        let ghost before = World { cpu, tape: data@, input: input@.skip(consumed as int), output: output@, starved };
        let signal = step(code, data, &mut cpu);
        match signal {
            Signal::Halt | Signal::OutOfTape | Signal::BadWord => {
                return Report { end: signal, cpu, output, consumed, starved };
            },
            _ => {},
        }
        let ghost stepped = Step { cpu, tape: data@, signal };
        attend(signal, data, input, &mut output, &mut consumed, &mut starved);
        proof {
            let after = World { cpu, tape: data@, input: input@.skip(consumed as int), output: output@, starved };
            assert(serve(before, stepped) == after);
        }
        left = left - 1;
    }
    let end = if cpu.ip < code.len() { Signal::Next } else { Signal::Halt };
    Report { end, cpu, output, consumed, starved }
}

} // verus!
