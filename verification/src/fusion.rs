//! Why peephole fusion keeps what a program does: every step of the
//! program as it was written is answered by steps of the fused program, and the
//! two worlds stay related.

use vstd::prelude::*;
use crate::bytecode::{bump, commit, emitted, fits8, flush, fuse, fused, optimized, raw, shift, tidy, Stmt};
use crate::link::{lemma_link_same_shape, lemma_linked_well_formed, lemma_well_formed_at, profile, same_shape, sign, well_formed, wrap16};
use crate::machine::{add8, boot, course, on_tape, plain, serve, tick, Cpu, Signal, World};
use crate::nesting::{balanced, close_of, depth, lemma_depth_agrees, lemma_matched_unique, lemma_partner, matched, open_of};

verus! {

/// The number of statements that the first `p` statements fuse to: the place
/// in the fused program that answers to place `p` in the program as written.
pub open spec fn reach(code: Seq<Stmt>, p: int) -> int {
    fused(code, p).len() as int
}

/// The statements that are still to be written out for what is gathered and
/// deferred after the first `p` statements: at most one for each.
pub open spec fn owed(code: Seq<Stmt>, p: int) -> int {
    (if bump(code, p) != 0 { 1int } else { 0int }) + (if shift(code, p) != 0 { 1int } else { 0int })
}

/// The fused program only grows as more statements are taken in.
pub proof fn lemma_fused_grows(code: Seq<Stmt>, p: int, q: int)
    requires
        0 <= p <= q,
    ensures
        reach(code, p) <= reach(code, q),
        forall|k: int| 0 <= k < reach(code, p) ==> fused(code, q)[k] == fused(code, p)[k],
    decreases q - p,
{
    if p < q {
        lemma_fused_grows(code, p, q - 1);
    }
}

/// What a statement adds stands in the fused program at the place that answers to it.
pub proof fn lemma_fuse_at(code: Seq<Stmt>, p: int, t: int)
    requires
        0 <= p < code.len(),
        0 <= t < emitted(code, p).len(),
    ensures
        reach(code, p) + t < reach(code, p + 1) <= fuse(code).len(),
        fuse(code)[reach(code, p) + t] == emitted(code, p)[t],
{
    lemma_fused_grows(code, p + 1, code.len() as int);
    assert(fused(code, p + 1) == fused(code, p) + emitted(code, p));
    assert(fused(code, p + 1)[reach(code, p) + t] == emitted(code, p)[t]);
}

/// Each statement takes a place in the fused program only if a statement
/// before it has not yet been answered: the fused program, with what is still
/// owed, is no longer than the program as written.
pub proof fn lemma_fused_len(code: Seq<Stmt>, p: int)
    requires
        0 <= p <= code.len(),
    ensures
        reach(code, p) + owed(code, p) <= p,
    decreases p,
{
    if p > 0 {
        lemma_fused_len(code, p - 1);
        assert(fused(code, p) == fused(code, p - 1) + emitted(code, p - 1));
    }
}

/// Statements that are no brackets leave the depth as it is.
proof fn lemma_depth_flat(a: Seq<Stmt>, t: Seq<Stmt>, n: int)
    requires
        0 <= n <= t.len(),
        forall|k: int| 0 <= k < n ==> sign(t[k]) == 0,
    ensures
        depth(profile(a + t), a.len() + n) == depth(profile(a + t), a.len() as int),
    decreases n,
{
    if n > 0 {
        lemma_depth_flat(a, t, n - 1);
        assert((a + t)[a.len() + n - 1] == t[n - 1]);
    }
}

/// What a statement adds holds a bracket in its last place only, and there
/// only if the statement is that bracket.
proof fn lemma_emitted_signs(code: Seq<Stmt>, p: int)
    requires
        0 <= p < code.len(),
    ensures
        forall|k: int| 0 <= k < emitted(code, p).len() - 1 ==> sign(emitted(code, p)[k]) == 0,
        sign(code[p]) != 0 ==> emitted(code, p).len() > 0 && emitted(code, p).last() == (if code[p] is Jz {
            Stmt::Jz(0)
        } else {
            Stmt::Jnz(0)
        }),
        sign(code[p]) == 0 ==> forall|k: int| 0 <= k < emitted(code, p).len() ==> sign(emitted(code, p)[k]) == 0,
{
}

/// Between the places that answer to `p` and to `p + 1` the fused program
/// is as deep as the program as written is at `p`; at the place that
/// answers to `p + 1` it is as deep as that one is there.
proof fn lemma_depth_answers(code: Seq<Stmt>, p: int)
    requires
        0 <= p <= code.len(),
    ensures
        depth(profile(fused(code, p)), reach(code, p)) == depth(profile(code), p),
        p > 0 ==> forall|k: int|
            reach(code, p - 1) <= k < reach(code, p) ==> depth(profile(fused(code, p)), k) == depth(
                profile(code),
                p - 1,
            ),
    decreases p,
{
    if p > 0 {
        lemma_depth_answers(code, p - 1);
        let a = fused(code, p - 1);
        let t = emitted(code, p - 1);
        let b = fused(code, p);
        assert(b == a + t);
        lemma_emitted_signs(code, p - 1);
        lemma_depth_agrees(profile(a), profile(b), a.len() as int);
        assert forall|k: int| reach(code, p - 1) <= k < reach(code, p) implies depth(profile(b), k) == depth(
            profile(code),
            p - 1,
        ) by {
            lemma_depth_flat(a, t, k - a.len());
        }
        if sign(code[p - 1]) == 0 {
            lemma_depth_flat(a, t, t.len() as int);
        } else {
            lemma_depth_flat(a, t, t.len() - 1);
            assert(b[b.len() - 1] == t.last());
        }
    }
}

/// The depths of the fused program, read off the whole of it.
proof fn lemma_depth_fuse(code: Seq<Stmt>, p: int)
    requires
        0 <= p <= code.len(),
    ensures
        reach(code, p) <= fuse(code).len(),
        depth(profile(fuse(code)), reach(code, p)) == depth(profile(code), p),
        p < code.len() ==> forall|k: int|
            reach(code, p) <= k < reach(code, p + 1) ==> depth(profile(fuse(code)), k) == depth(profile(code), p),
{
    lemma_depth_answers(code, p);
    lemma_fused_grows(code, p, code.len() as int);
    lemma_depth_agrees(profile(fused(code, p)), profile(fuse(code)), reach(code, p));
    if p < code.len() {
        lemma_depth_answers(code, p + 1);
        lemma_fused_grows(code, p + 1, code.len() as int);
        assert forall|k: int| reach(code, p) <= k < reach(code, p + 1) implies depth(profile(fuse(code)), k)
            == depth(profile(code), p) by {
            lemma_depth_agrees(profile(fused(code, p + 1)), profile(fuse(code)), k);
        }
    }
}

/// Every place of the fused program before the one that answers to `hi`, and
/// not before the one that answers to `lo`, belongs to what one statement
/// between them adds.
proof fn lemma_locate(code: Seq<Stmt>, lo: int, hi: int, k: int) -> (p: int)
    requires
        0 <= lo <= hi <= code.len(),
        reach(code, lo) <= k < reach(code, hi),
    ensures
        lo <= p < hi,
        reach(code, p) <= k < reach(code, p + 1),
    decreases hi - lo,
{
    if k < reach(code, hi - 1) {
        lemma_locate(code, lo, hi - 1, k)
    } else {
        hi - 1
    }
}

/// The brackets that enclose a loop of the program as written answer to brackets
/// that enclose a loop of the fused program.
pub proof fn lemma_pairs_answer(code: Seq<Stmt>, i: int, j: int)
    requires
        matched(profile(code), i, j),
    ensures
        matched(profile(fuse(code)), reach(code, i + 1) - 1, reach(code, j + 1) - 1),
{
    let f = fuse(code);
    let a = reach(code, i + 1) - 1;
    let b = reach(code, j + 1) - 1;
    lemma_emitted_signs(code, i);
    lemma_emitted_signs(code, j);
    lemma_fuse_at(code, i, emitted(code, i).len() - 1);
    lemma_fuse_at(code, j, emitted(code, j).len() - 1);
    lemma_fused_grows(code, i + 1, j);
    lemma_depth_fuse(code, i);
    lemma_depth_fuse(code, j + 1);
    assert(depth(profile(f), a) == depth(profile(code), i));
    assert forall|k: int| a < k <= b implies depth(profile(f), k) > depth(profile(f), a) by {
        let p = lemma_locate(code, i + 1, j + 1, k);
        lemma_depth_fuse(code, p);
    }
}

/// The pointer move that is deferred after the first `p` statements, not cut
/// to sixteen bits: the sum of the moves since the last branch.
pub open spec fn drift(code: Seq<Stmt>, p: int) -> int
    decreases p,
{
    if p <= 0 {
        0
    } else {
        match code[p - 1] {
            Stmt::PAdd(i) => drift(code, p - 1) + i,
            Stmt::Jz(_) | Stmt::Jnz(_) => 0,
            _ => drift(code, p - 1),
        }
    }
}

/// At every statement but a pointer move, the moves since the last branch
/// sum to no more than sixteen bits hold.
pub open spec fn steady(code: Seq<Stmt>) -> bool {
    forall|p: int|
        0 <= p < code.len() && !(#[trigger] code[p] is PAdd) ==> -32768 <= drift(code, p) <= 32767
}

/// Every deferred pointer move at which a cell on the tape is reached fits
/// sixteen bits: the tape has no more than 32768 cells, or the program is steady.
pub open spec fn moves_fit(code: Seq<Stmt>, cells: nat) -> bool {
    cells <= 32768 || steady(code)
}

/// The tape is one that a machine can hold, and the moves fit on it.
pub open spec fn housed(code: Seq<Stmt>, cells: nat) -> bool {
    cells <= usize::MAX && moves_fit(code, cells)
}

/// The deferred move is the sum of the moves since the last branch, cut to sixteen bits.
pub proof fn lemma_shift_drift(code: Seq<Stmt>, p: int)
    ensures
        shift(code, p) == wrap16(drift(code, p)),
    decreases p,
{
    if p > 0 {
        lemma_shift_drift(code, p - 1);
    }
}

/// Between two places the fused program grows by no more than the program
/// as written, once what is owed at the first place is counted in.
pub proof fn lemma_fused_len_between(code: Seq<Stmt>, p: int, q: int)
    requires
        0 <= p <= q <= code.len(),
    ensures
        reach(code, q) + owed(code, q) <= reach(code, p) + owed(code, p) + (q - p),
    decreases q - p,
{
    if p < q {
        lemma_fused_len_between(code, p, q - 1);
        assert(fused(code, q) == fused(code, q - 1) + emitted(code, q - 1));
    }
}

/// A bracket of the fused program is the last of what a bracket of the
/// program as written adds.
proof fn lemma_bracket_origin(code: Seq<Stmt>, a: int) -> (p: int)
    requires
        0 <= a < fuse(code).len(),
        sign(fuse(code)[a]) != 0,
    ensures
        0 <= p < code.len(),
        a == reach(code, p + 1) - 1,
        sign(code[p]) == sign(fuse(code)[a]),
{
    let n = code.len() as int;
    assert(fuse(code) == fused(code, n) + flush(bump(code, n), shift(code, n)));
    assert(a < reach(code, n)) by {
        if a >= reach(code, n) {
            assert(fuse(code)[a] == flush(bump(code, n), shift(code, n))[a - reach(code, n)]);
        }
    }
    let p = lemma_locate(code, 0, n, a);
    lemma_emitted_signs(code, p);
    lemma_fuse_at(code, p, a - reach(code, p));
    assert(fused(code, p + 1) == fused(code, p) + emitted(code, p));
    p
}

/// The fused program is balanced if the program as written is.
proof fn lemma_fuse_balanced(code: Seq<Stmt>)
    requires
        balanced(profile(code)),
    ensures
        balanced(profile(fuse(code))),
{
    let n = code.len() as int;
    let f = fuse(code);
    let b = profile(f);
    assert(f == fused(code, n) + flush(bump(code, n), shift(code, n)));
    lemma_depth_fuse(code, n);
    assert(depth(b, f.len() as int) == 0) by {
        if f.len() > reach(code, n) {
            assert(sign(f[reach(code, n)]) == 0);
        }
    }
    assert forall|k: int| 0 <= k <= f.len() implies depth(b, k) >= 0 by {
        if k < reach(code, n) {
            let p = lemma_locate(code, 0, n, k);
            lemma_depth_fuse(code, p);
        }
    }
}

/// The optimized form of a well-formed program is well-formed.
pub proof fn lemma_optimized_well_formed(code: Seq<Stmt>)
    requires
        well_formed(code),
    ensures
        well_formed(optimized(code)),
{
    let o = optimized(code);
    let f = fuse(code);
    let b = profile(f);
    assert(profile(o) =~= b);
    assert(balanced(profile(code))) by {
        reveal(well_formed);
    }
    lemma_fuse_balanced(code);
    assert(same_shape(o, f));
    lemma_link_same_shape(o, f);
    assert forall|k: int| 0 <= k < o.len() && #[trigger] o[k] is Jz implies matched(b, k, close_of(b, k)) by {
        let p = lemma_bracket_origin(code, k);
        lemma_well_formed_at(code, p);
        lemma_pairs_answer(code, p, p + code[p].wide());
        lemma_partner(b, k, reach(code, p + code[p].wide() + 1) - 1);
    }
    assert forall|k: int| 0 <= k < o.len() && #[trigger] o[k] is Jnz implies matched(b, open_of(b, k), k) by {
        let p = lemma_bracket_origin(code, k);
        lemma_well_formed_at(code, p);
        lemma_pairs_answer(code, p + code[p].wide(), p);
        lemma_partner(b, reach(code, p + code[p].wide() + 1) - 1, k);
    }
    assert forall|i: int, j: int| matched(b, i, j) implies j - i <= 32767 by {
        let p = lemma_bracket_origin(code, i);
        lemma_well_formed_at(code, p);
        let q = p + code[p].wide();
        lemma_pairs_answer(code, p, q);
        lemma_matched_unique(b, i, j, i, reach(code, q + 1) - 1);
        lemma_fused_len_between(code, p + 1, q + 1);
    }
    lemma_linked_well_formed(o);
}

/// A statement of the optimized program that is no bracket is not idle.
proof fn lemma_optimized_busy(code: Seq<Stmt>, k: int)
    requires
        0 <= k < optimized(code).len(),
        sign(optimized(code)[k]) == 0,
    ensures
        optimized(code)[k] is DAdd ==> optimized(code)[k]->DAdd_0 != 0,
        optimized(code)[k] is PAdd ==> {
            &&& optimized(code)[k]->PAdd_0 != 0
            &&& k + 1 < optimized(code).len()
            &&& sign(optimized(code)[k + 1]) != 0
        },
{
    let n = code.len() as int;
    let f = fuse(code);
    assert(f == fused(code, n) + flush(bump(code, n), shift(code, n)));
    lemma_optimized_at(code, k);
    if k >= reach(code, n) {
        assert(f[k] == flush(bump(code, n), shift(code, n))[k - reach(code, n)]);
    } else {
        let p = lemma_locate(code, 0, n, k);
        let t = k - reach(code, p);
        assert(fused(code, p + 1) == fused(code, p) + emitted(code, p));
        lemma_fuse_at(code, p, t);
        if f[k] is PAdd {
            lemma_fuse_at(code, p, t + 1);
            lemma_optimized_at(code, k + 1);
        }
    }
}

/// The optimized program is tidy.
pub proof fn lemma_optimized_tidy(code: Seq<Stmt>)
    ensures
        tidy(optimized(code)),
{
    let o = optimized(code);
    assert forall|k: int| 0 <= k < o.len() && #[trigger] o[k] is PAdd implies {
        &&& o[k]->PAdd_0 != 0
        &&& k + 1 < o.len()
        &&& sign(o[k + 1]) != 0
    } by {
        lemma_optimized_busy(code, k);
    }
    assert forall|k: int| 0 <= k < o.len() && #[trigger] o[k] is DAdd implies o[k]->DAdd_0 != 0 by {
        lemma_optimized_busy(code, k);
    }
}

/// The tape with a gathered change applied to one cell.
pub open spec fn poke(tape: Seq<u8>, i: int, v: i8) -> Seq<u8> {
    if v != 0 {
        tape.update(i, add8(tape[i], v))
    } else {
        tape
    }
}

/// The world `wr` of the program as written, at place `p`, and the world `wo`
/// of the optimized program answer to each other: `wo` stands where the
/// first `p` statements fuse to, its data pointer lags by the moves since the last branch, its
/// tape lacks the gathered change, and nothing else differs.
pub open spec fn related(code: Seq<Stmt>, p: int, wr: World, wo: World) -> bool {
    &&& 0 <= p <= code.len()
    &&& wr.cpu.ip == p
    &&& wo.cpu.ip == reach(code, p)
    &&& wr.cpu.dp - wo.cpu.dp == drift(code, p)
    &&& 0 <= wo.cpu.dp
    &&& wo.cpu.dp < wo.tape.len() || wo.cpu.dp == 0
    &&& wr.tape.len() == wo.tape.len()
    &&& bump(code, p) != 0 ==> on_tape(wr.tape, wr.cpu.dp as int)
    &&& wr.tape == poke(wo.tape, wr.cpu.dp as int, bump(code, p))
    &&& wr.input == wo.input
    &&& wr.output == wo.output
    &&& !wr.starved
    &&& !wo.starved
}

/// What the simulation asks of a program: it comes straight from source
/// text, and its branches hold the exact distances.
pub open spec fn sound(code: Seq<Stmt>) -> bool {
    &&& raw(code)
    &&& well_formed(code)
    &&& code.len() <= usize::MAX
}

/// A run that has not ended takes one step and goes on with one step less.
pub proof fn lemma_course_step(prog: Seq<Option<Stmt>>, w: World, fuel: nat)
    requires
        fuel > 0,
        !(tick(prog, w.cpu, w.tape).signal is Halt),
        !(tick(prog, w.cpu, w.tape).signal is OutOfTape),
        !(tick(prog, w.cpu, w.tape).signal is BadWord),
    ensures
        course(prog, w, fuel) == course(prog, serve(w, tick(prog, w.cpu, w.tape)), (fuel - 1) as nat),
{
}

/// Once a read has found the input at its end, the run ends with that noted.
pub proof fn lemma_starved_stays(prog: Seq<Option<Stmt>>, w: World, fuel: nat)
    requires
        w.starved,
    ensures
        course(prog, w, fuel).0.starved,
    decreases fuel,
{
    let s = tick(prog, w.cpu, w.tape);
    if fuel > 0 && !(s.signal is Halt) && !(s.signal is OutOfTape) && !(s.signal is BadWord) {
        lemma_starved_stays(prog, serve(w, s), (fuel - 1) as nat);
    }
}

/// The fused program and the optimized one have the same length, and differ in branch targets only.
pub proof fn lemma_optimized_at(code: Seq<Stmt>, k: int)
    requires
        0 <= k < fuse(code).len(),
    ensures
        optimized(code).len() == fuse(code).len(),
        profile(optimized(code)) == profile(fuse(code)),
        sign(optimized(code)[k]) == sign(fuse(code)[k]),
        sign(fuse(code)[k]) == 0 ==> optimized(code)[k] == fuse(code)[k],
{
    assert(profile(optimized(code)) =~= profile(fuse(code)));
}

/// Where the program as written reaches a cell on the tape, the deferred
/// move is the exact distance between the two data pointers.
proof fn lemma_exact(code: Seq<Stmt>, p: int, wr: World, wo: World)
    requires
        related(code, p, wr, wo),
        on_tape(wr.tape, wr.cpu.dp as int),
        housed(code, wr.tape.len()),
        bump(code, p) != 0 || (p < code.len() && !(code[p] is PAdd)),
    ensures
        shift(code, p) == wr.cpu.dp - wo.cpu.dp,
{
    lemma_shift_drift(code, p);
    if bump(code, p) != 0 {
        assert(code[p - 1] is DAdd);
        assert(drift(code, p) == drift(code, p - 1));
    }
}

/// The optimized program writes out the gathered change, if there is one:
/// after that its tape is that of the program as written.
proof fn lemma_flush(code: Seq<Stmt>, p: int, wr: World, wo: World, m: nat) -> (w1: World)
    requires
        code.len() <= usize::MAX,
        housed(code, wr.tape.len()),
        related(code, p, wr, wo),
        bump(code, p) != 0 ==> m >= 1 && reach(code, p) < fuse(code).len() && fuse(code)[reach(code, p)]
            == Stmt::DAdd(bump(code, p), shift(code, p)),
    ensures
        w1 == (World {
            cpu: Cpu { ip: (reach(code, p) + flush(bump(code, p), shift(code, p)).len()) as usize, dp: wo.cpu.dp },
            tape: wr.tape,
            ..wo
        }),
        course(plain(optimized(code)), wo, m) == course(
            plain(optimized(code)),
            w1,
            (m - flush(bump(code, p), shift(code, p)).len()) as nat,
        ),
{
    let o = optimized(code);
    let v = bump(code, p);
    if v != 0 {
        lemma_optimized_at(code, reach(code, p));
        lemma_fused_len_whole(code);
        lemma_exact(code, p, wr, wo);
        lemma_course_step(plain(o), wo, m);
        let w1 = serve(wo, tick(plain(o), wo.cpu, wo.tape));
        assert(w1.tape =~= wr.tape);
        w1
    } else {
        let w1 = World { cpu: wo.cpu, tape: wr.tape, ..wo };
        assert(w1 == wo);
        w1
    }
}

/// The optimized program is no longer than the program as written.
pub proof fn lemma_fused_len_whole(code: Seq<Stmt>)
    ensures
        fuse(code).len() <= code.len(),
        optimized(code).len() == fuse(code).len(),
{
    lemma_fused_len(code, code.len() as int);
}

/// The world of the program as written can take a step that asks nothing that cannot be given.
pub open spec fn ready(code: Seq<Stmt>, wr: World, wo: World, m: nat) -> bool {
    let s = tick(plain(code), wr.cpu, wr.tape);
    &&& raw(code)
    &&& code.len() <= usize::MAX
    &&& housed(code, wr.tape.len())
    &&& wr.cpu.ip < code.len()
    &&& related(code, wr.cpu.ip as int, wr, wo)
    &&& !(s.signal is OutOfTape)
    &&& s.signal is Get ==> wr.input.len() > 0
    &&& m >= 1 + owed(code, wr.cpu.ip as int)
}

/// The optimized program, run from `wo` with `m` steps, comes to `w1` with
/// `m1` steps left; `w1` answers to the world after the step of the program as
/// written, and what is owed there is covered by the steps that the
/// optimized program has saved.
pub open spec fn answered(code: Seq<Stmt>, wr: World, wo: World, m: nat, w1: World, m1: nat) -> bool {
    let wr1 = serve(wr, tick(plain(code), wr.cpu, wr.tape));
    &&& related(code, wr1.cpu.ip as int, wr1, w1)
    &&& course(plain(optimized(code)), wo, m) == course(plain(optimized(code)), w1, m1)
    &&& m1 - owed(code, wr1.cpu.ip as int) >= m - 1 - owed(code, wr.cpu.ip as int)
}

/// A pointer move of the program as written is deferred by the optimized one.
proof fn lemma_answer_padd(code: Seq<Stmt>, wr: World, wo: World, m: nat) -> (r: (World, nat))
    requires
        ready(code, wr, wo, m),
        code[wr.cpu.ip as int] is PAdd,
    ensures
        answered(code, wr, wo, m, r.0, r.1),
{
    let p = wr.cpu.ip as int;
    let v = bump(code, p);
    let d = shift(code, p);
    assert(emitted(code, p) == flush(v, d));
    assert(fused(code, p + 1) == fused(code, p) + emitted(code, p));
    lemma_fused_len(code, p + 1);
    if v != 0 {
        lemma_fuse_at(code, p, 0);
    }
    let w1 = lemma_flush(code, p, wr, wo, m);
    let wr1 = serve(wr, tick(plain(code), wr.cpu, wr.tape));
    let m1 = (m - flush(v, d).len()) as nat;
    assert(wr1.cpu.ip == p + 1);
    assert(wr1.cpu.dp == wr.cpu.dp + code[p]->PAdd_0);
    assert(w1.cpu.ip == reach(code, p + 1));
    assert(bump(code, p + 1) == 0);
    assert(wr1.tape == poke(w1.tape, wr1.cpu.dp as int, bump(code, p + 1)));
    assert(related(code, p + 1, wr1, w1));
    assert(m1 - owed(code, p + 1) >= m - 1 - owed(code, p));
    (w1, m1)
}

/// Two additions to a cell are one addition of the sum.
proof fn lemma_add8_twice(x: u8, v: i8, n: i8)
    requires
        fits8(v + n),
    ensures
        add8(add8(x, v), n) == add8(x, (v + n) as i8),
        add8(x, 0) == x,
{
}

/// A cell change of the program as written is gathered by the optimized one,
/// which first writes out what it has gathered where the sum would not fit.
proof fn lemma_answer_dadd(code: Seq<Stmt>, wr: World, wo: World, m: nat) -> (r: (World, nat))
    requires
        ready(code, wr, wo, m),
        code[wr.cpu.ip as int] is DAdd,
    ensures
        answered(code, wr, wo, m, r.0, r.1),
{
    let p = wr.cpu.ip as int;
    let v = bump(code, p);
    let d = shift(code, p);
    let n = code[p]->DAdd_0;
    let at = wr.cpu.dp as int;
    let wr1 = serve(wr, tick(plain(code), wr.cpu, wr.tape));
    assert(code[p]->DAdd_1 == 0);
    assert(on_tape(wr.tape, at));
    assert(fused(code, p + 1) == fused(code, p) + emitted(code, p));
    lemma_fused_len(code, p + 1);
    if fits8(v + n) {
        assert(emitted(code, p) =~= Seq::<Stmt>::empty());
        lemma_add8_twice(wo.tape[at], v, n);
        assert(wr1.tape =~= poke(wo.tape, at, (v + n) as i8));
        (wo, m)
    } else {
        assert(emitted(code, p) == flush(v, d));
        lemma_fuse_at(code, p, 0);
        let w1 = lemma_flush(code, p, wr, wo, m);
        assert(wr1.tape =~= poke(w1.tape, at, n));
        (w1, (m - 1) as nat)
    }
}

/// A write of the program as written is answered by a write at the deferred move.
proof fn lemma_answer_putc(code: Seq<Stmt>, wr: World, wo: World, m: nat) -> (r: (World, nat))
    requires
        ready(code, wr, wo, m),
        code[wr.cpu.ip as int] is Putc,
    ensures
        answered(code, wr, wo, m, r.0, r.1),
{
    let p = wr.cpu.ip as int;
    let v = bump(code, p);
    let d = shift(code, p);
    let o = optimized(code);
    let wr1 = serve(wr, tick(plain(code), wr.cpu, wr.tape));
    assert(code[p]->Putc_0 == 0);
    assert(on_tape(wr.tape, wr.cpu.dp as int));
    assert(emitted(code, p) == flush(v, d) + seq![Stmt::Putc(d)]);
    assert(fused(code, p + 1) == fused(code, p) + emitted(code, p));
    lemma_fused_len(code, p + 1);
    lemma_fused_len_whole(code);
    if v != 0 {
        lemma_fuse_at(code, p, 0);
    }
    let n = flush(v, d).len() as int;
    lemma_fuse_at(code, p, n);
    lemma_optimized_at(code, reach(code, p) + n);
    lemma_exact(code, p, wr, wo);
    let w1 = lemma_flush(code, p, wr, wo, m);
    let m1 = (m - n) as nat;
    lemma_course_step(plain(o), w1, m1);
    let w2 = serve(w1, tick(plain(o), w1.cpu, w1.tape));
    assert(w2.output == wr1.output);
    assert(related(code, p + 1, wr1, w2));
    (w2, (m1 - 1) as nat)
}

/// A read of the program as written is answered by a read at the deferred
/// move; the change that was gathered for the cell is overwritten.
proof fn lemma_answer_getc(code: Seq<Stmt>, wr: World, wo: World, m: nat) -> (r: (World, nat))
    requires
        ready(code, wr, wo, m),
        code[wr.cpu.ip as int] is Getc,
    ensures
        answered(code, wr, wo, m, r.0, r.1),
{
    let p = wr.cpu.ip as int;
    let d = shift(code, p);
    let o = optimized(code);
    let wr1 = serve(wr, tick(plain(code), wr.cpu, wr.tape));
    assert(code[p]->Getc_0 == 0);
    assert(on_tape(wr.tape, wr.cpu.dp as int));
    assert(emitted(code, p) == seq![Stmt::Getc(d)]);
    assert(fused(code, p + 1) == fused(code, p) + emitted(code, p));
    lemma_fused_len(code, p + 1);
    lemma_fused_len_whole(code);
    lemma_fuse_at(code, p, 0);
    lemma_optimized_at(code, reach(code, p));
    lemma_exact(code, p, wr, wo);
    lemma_course_step(plain(o), wo, m);
    let st = tick(plain(o), wo.cpu, wo.tape);
    assert(plain(o)[wo.cpu.ip as int] == Some(Stmt::Getc(d)));
    assert(st.signal == Signal::Get(wr.cpu.dp as usize));
    let w1 = serve(wo, st);
    assert(wr1.tape == wr.tape.update(wr.cpu.dp as int, wr.input[0]));
    assert(w1.tape == wo.tape.update(wr.cpu.dp as int, wr.input[0]));
    assert(w1.tape =~= wr1.tape);
    assert(related(code, p + 1, wr1, w1));
    (w1, (m - 1) as nat)
}

/// The branch at `p` of the program as written and the branch that answers to
/// it in the optimized program land on places that answer to each other.
pub open spec fn twin_branches(code: Seq<Stmt>, p: int) -> bool {
    let t = code[p].wide();
    let back = optimized(code)[reach(code, p + 1) - 1];
    &&& 0 <= p + t < code.len()
    &&& sign(code[p + t]) != 0
    &&& sign(back) == sign(code[p])
    &&& reach(code, p + 1) + back.wide() == reach(code, p + 1 + t)
}

/// Before a branch the optimized program writes out what is gathered and
/// what is deferred: after that its tape and its data pointer are those of
/// the program as written, and it stands at the branch.
proof fn lemma_catch_up(code: Seq<Stmt>, p: int, wr: World, wo: World, m: nat) -> (w2: World)
    requires
        code.len() <= usize::MAX,
        housed(code, wr.tape.len()),
        related(code, p, wr, wo),
        0 <= p < code.len(),
        sign(code[p]) != 0,
        on_tape(wr.tape, wr.cpu.dp as int),
        m >= owed(code, p),
    ensures
        w2 == (World { cpu: Cpu { ip: (reach(code, p + 1) - 1) as usize, dp: wr.cpu.dp }, tape: wr.tape, ..wo }),
        0 <= reach(code, p + 1) - 1 < optimized(code).len() <= usize::MAX,
        course(plain(optimized(code)), wo, m) == course(plain(optimized(code)), w2, (m - owed(code, p)) as nat),
{
    let v = bump(code, p);
    let d = shift(code, p);
    let o = optimized(code);
    let last = if code[p] is Jz { Stmt::Jz(0) } else { Stmt::Jnz(0) };
    assert(emitted(code, p) == flush(v, d) + commit(d) + seq![last]);
    assert(fused(code, p + 1) == fused(code, p) + emitted(code, p));
    lemma_fused_len(code, p + 1);
    lemma_fused_len_whole(code);
    lemma_fused_grows(code, p + 1, code.len() as int);
    lemma_exact(code, p, wr, wo);
    let nf = flush(v, d).len() as int;
    if v != 0 {
        lemma_fuse_at(code, p, 0);
    }
    let w1 = lemma_flush(code, p, wr, wo, m);
    let m1 = (m - nf) as nat;
    if d != 0 {
        lemma_fuse_at(code, p, nf);
        lemma_optimized_at(code, reach(code, p) + nf);
        lemma_course_step(plain(o), w1, m1);
        serve(w1, tick(plain(o), w1.cpu, w1.tape))
    } else {
        w1
    }
}

/// A branch of the program as written is answered by the same branch, after
/// what is gathered and deferred has been written out.
proof fn lemma_answer_branch(code: Seq<Stmt>, wr: World, wo: World, m: nat) -> (r: (World, nat))
    requires
        ready(code, wr, wo, m),
        sign(code[wr.cpu.ip as int]) != 0,
        twin_branches(code, wr.cpu.ip as int),
    ensures
        answered(code, wr, wo, m, r.0, r.1),
{
    let p = wr.cpu.ip as int;
    let o = optimized(code);
    let t = code[p].wide();
    let wr1 = serve(wr, tick(plain(code), wr.cpu, wr.tape));
    assert(on_tape(wr.tape, wr.cpu.dp as int));
    let w2 = lemma_catch_up(code, p, wr, wo, m);
    let m2 = (m - owed(code, p)) as nat;
    lemma_fused_grows(code, p + 1 + t, code.len() as int);
    lemma_fused_len_whole(code);
    lemma_course_step(plain(o), w2, m2);
    let w3 = serve(w2, tick(plain(o), w2.cpu, w2.tape));
    assert(drift(code, p + 1) == 0 && bump(code, p + 1) == 0 && shift(code, p + 1) == 0);
    assert(drift(code, p + 1 + t) == 0 && bump(code, p + 1 + t) == 0 && shift(code, p + 1 + t) == 0);
    assert(wr1.cpu.ip == p + 1 || wr1.cpu.ip == p + 1 + t);
    assert(w3.cpu.ip == reach(code, wr1.cpu.ip as int));
    assert(related(code, wr1.cpu.ip as int, wr1, w3));
    (w3, (m2 - 1) as nat)
}

/// In a sound program every branch has its twin in the optimized program.
proof fn lemma_twin_branches(code: Seq<Stmt>, p: int)
    requires
        sound(code),
        0 <= p < code.len(),
        sign(code[p]) != 0,
    ensures
        twin_branches(code, p),
{
    let o = optimized(code);
    let f = fuse(code);
    let t = code[p].wide() as int;
    let at = reach(code, p + 1) - 1;
    lemma_emitted_signs(code, p);
    lemma_fuse_at(code, p, emitted(code, p).len() - 1);
    lemma_optimized_at(code, at);
    lemma_optimized_well_formed(code);
    assert(fused(code, p + 1) == fused(code, p) + emitted(code, p));
    let back = o[at];
    if code[p] is Jz {
        lemma_well_formed_at(code, p);
        lemma_pairs_answer(code, p, p + t);
        lemma_well_formed_at(o, at);
        lemma_matched_unique(profile(f), at, reach(code, p + t + 1) - 1, at, at + back.wide());
    } else {
        lemma_well_formed_at(code, p);
        lemma_pairs_answer(code, p + t, p);
        lemma_well_formed_at(o, at);
        lemma_matched_unique(profile(f), reach(code, p + t + 1) - 1, at, at + back.wide(), at);
    }
}

/// Whatever statement the program as written runs next, the optimized one answers it.
proof fn lemma_answer(code: Seq<Stmt>, wr: World, wo: World, m: nat) -> (r: (World, nat))
    requires
        ready(code, wr, wo, m),
        sound(code),
    ensures
        answered(code, wr, wo, m, r.0, r.1),
{
    let p = wr.cpu.ip as int;
    match code[p] {
        Stmt::PAdd(_) => lemma_answer_padd(code, wr, wo, m),
        Stmt::DAdd(_, _) => lemma_answer_dadd(code, wr, wo, m),
        Stmt::Putc(_) => lemma_answer_putc(code, wr, wo, m),
        Stmt::Getc(_) => lemma_answer_getc(code, wr, wo, m),
        _ => {
            lemma_twin_branches(code, p);
            lemma_answer_branch(code, wr, wo, m)
        },
    }
}

/// The two runs ended alike: at the end of the program, with the same tape,
/// the same output, the same input left, and no read that found none.
pub open spec fn same_end(a: (World, Signal), b: (World, Signal)) -> bool {
    &&& a.1 == Signal::Halt
    &&& b.1 == Signal::Halt
    &&& a.0.tape == b.0.tape
    &&& a.0.output == b.0.output
    &&& a.0.input == b.0.input
    &&& !a.0.starved
    &&& !b.0.starved
}

/// At the end of the program as written, the optimized program writes out the
/// change that is still gathered and ends too.
proof fn lemma_finish(code: Seq<Stmt>, wr: World, wo: World, n: nat, m: nat)
    requires
        code.len() <= usize::MAX,
        housed(code, wr.tape.len()),
        wr.cpu.ip == code.len(),
        related(code, wr.cpu.ip as int, wr, wo),
        m >= owed(code, wr.cpu.ip as int),
    ensures
        same_end(course(plain(code), wr, n), course(plain(optimized(code)), wo, m)),
{
    let p = code.len() as int;
    let o = optimized(code);
    let v = bump(code, p);
    let d = shift(code, p);
    lemma_fused_len_whole(code);
    assert(fuse(code) == fused(code, p) + flush(v, d));
    if v != 0 {
        lemma_optimized_at(code, reach(code, p));
        let w1 = lemma_flush(code, p, wr, wo, m);
        assert(course(plain(o), w1, (m - 1) as nat).1 == Signal::Halt);
    } else {
        assert(course(plain(o), wo, m).1 == Signal::Halt);
    }
}

/// From worlds that answer to each other, a run of the program as written
/// that ends at the end of the program is matched by the run of the
/// optimized program, which needs no more steps than that run and what is owed.
proof fn lemma_simulation(code: Seq<Stmt>, wr: World, wo: World, n: nat, m: nat)
    requires
        sound(code),
        housed(code, wr.tape.len()),
        related(code, wr.cpu.ip as int, wr, wo),
        course(plain(code), wr, n).1 == Signal::Halt,
        !course(plain(code), wr, n).0.starved,
        m >= n + owed(code, wr.cpu.ip as int),
    ensures
        same_end(course(plain(code), wr, n), course(plain(optimized(code)), wo, m)),
    decreases n,
{
    if wr.cpu.ip == code.len() {
        lemma_finish(code, wr, wo, n, m);
    } else {
        let s = tick(plain(code), wr.cpu, wr.tape);
        assert(n > 0);
        let wr1 = serve(wr, s);
        if s.signal is Get && wr.input.len() == 0 {
            lemma_starved_stays(plain(code), wr1, (n - 1) as nat);
        }
        let r = lemma_answer(code, wr, wo, m);
        assert(wr1.tape.len() == wr.tape.len());
        lemma_simulation(code, wr1, r.0, (n - 1) as nat, r.1);
    }
}

/// A program that comes straight from source text and its optimized form do
/// the same: if a run of the first ends at the end of the program within
/// `fuel` steps, without a read that finds the input at its end, then so does
/// the run of the second, with the same tape and the same output, having read
/// the same input. The tape has at most 32768 cells, or the program is steady.
pub proof fn lemma_optimize_keeps_behavior(code: Seq<Stmt>, tape: Seq<u8>, input: Seq<u8>, fuel: nat)
    requires
        raw(code),
        well_formed(code),
        code.len() <= usize::MAX,
        tape.len() <= usize::MAX,
        moves_fit(code, tape.len()),
        course(plain(code), boot(tape, input), fuel).1 == Signal::Halt,
        !course(plain(code), boot(tape, input), fuel).0.starved,
    ensures
        same_end(
            course(plain(code), boot(tape, input), fuel),
            course(plain(optimized(code)), boot(tape, input), fuel),
        ),
{
    lemma_simulation(code, boot(tape, input), boot(tape, input), fuel, fuel);
}

} // verus!
