//! Branch targets: each `Jz` and `Jnz` holds the signed distance to its
//! partner, cut to sixteen bits.

use vstd::prelude::*;
use crate::bytecode::Stmt;
use crate::nesting::{balanced, close_of, depth, keeps, lemma_depth_push, lemma_partner, lemma_track_close, lemma_track_done, lemma_track_open, lemma_track_plain, matched, open_at, open_of, resolved, tracking, waiting};

verus! {

/// The signed 16-bit value that shares its low sixteen bits with `x`.
pub open spec fn wrap16(x: int) -> i16 {
    let m = x % 65536;
    if m < 32768 {
        m as i16
    } else {
        (m - 65536) as i16
    }
}

/// Cuts a length to sixteen bits, as a cast to `i16` does.
pub(crate) fn cut16(x: usize) -> (r: i16)
    ensures
        r == wrap16(x as int),
{
    let m: usize = x % 65536;
    if m < 32768 {
        m as i16
    } else {
        (m as i32 - 65536) as i16
    }
}

/// The sign of a statement in a bracket profile: `Jz` opens, `Jnz` closes.
pub open spec fn sign(s: Stmt) -> int {
    match s {
        Stmt::Jz(_) => 1,
        Stmt::Jnz(_) => -1,
        _ => 0,
    }
}

/// The bracket profile of a program.
pub open spec fn profile(code: Seq<Stmt>) -> Seq<int> {
    Seq::new(code.len(), |k: int| sign(code[k]))
}

/// The statement at `k` with its branch target set: a `Jz` holds the distance
/// forward to its `Jnz`, a `Jnz` the distance back to its `Jz`.
pub open spec fn link_at(code: Seq<Stmt>, k: int) -> Stmt {
    match code[k] {
        Stmt::Jz(_) => Stmt::Jz(wrap16(close_of(profile(code), k) - k)),
        Stmt::Jnz(_) => Stmt::Jnz(wrap16(open_of(profile(code), k) - k)),
        other => other,
    }
}

/// The program with every branch target set.
pub open spec fn link(code: Seq<Stmt>) -> Seq<Stmt> {
    Seq::new(code.len(), |k: int| link_at(code, k))
}

/// Two programs differ in their branch targets at most.
pub open spec fn same_shape(a: Seq<Stmt>, b: Seq<Stmt>) -> bool {
    &&& a.len() == b.len()
    &&& forall|k: int| 0 <= k < a.len() ==> sign(#[trigger] a[k]) == sign(b[k])
    &&& forall|k: int| 0 <= k < a.len() && sign(#[trigger] a[k]) == 0 ==> a[k] == b[k]
}

/// The brackets of the program nest, and every branch lands just behind its
/// partner: a `Jz` at `i` with target `t` has at `i + t` a `Jnz` with target `-t`.
#[verifier::opaque]
pub open spec fn well_formed(code: Seq<Stmt>) -> bool {
    &&& balanced(profile(code))
    &&& forall|i: int|
        0 <= i < code.len() && #[trigger] code[i] is Jz ==> {
            let t = code[i]->Jz_0 as int;
            &&& matched(profile(code), i, i + t)
            &&& code[i + t] == Stmt::Jnz((-t) as i16)
        }
    &&& forall|j: int|
        0 <= j < code.len() && #[trigger] code[j] is Jnz ==> {
            let t = code[j]->Jnz_0 as int;
            &&& matched(profile(code), j + t, j)
            &&& code[j + t] == Stmt::Jz((-t) as i16)
        }
}

/// Every bracket of the program has its partner.
pub open spec fn paired(code: Seq<Stmt>) -> bool {
    &&& forall|k: int|
        0 <= k < code.len() && #[trigger] code[k] is Jz ==> matched(
            profile(code),
            k,
            close_of(profile(code), k),
        )
    &&& forall|k: int|
        0 <= k < code.len() && #[trigger] code[k] is Jnz ==> matched(
            profile(code),
            open_of(profile(code), k),
            k,
        )
}

/// A balanced program that holds the targets that `link` gives it is
/// well-formed, if no loop of it is longer than sixteen bits can tell.
pub proof fn lemma_linked_well_formed(code: Seq<Stmt>)
    requires
        balanced(profile(code)),
        paired(code),
        code == link(code),
        forall|i: int, j: int| matched(profile(code), i, j) ==> j - i <= 32767,
    ensures
        well_formed(code),
{
    reveal(well_formed);
    let b = profile(code);
    assert forall|i: int| 0 <= i < code.len() && #[trigger] code[i] is Jz implies {
        let t = code[i]->Jz_0 as int;
        &&& matched(b, i, i + t)
        &&& code[i + t] == Stmt::Jnz((-t) as i16)
    } by {
        let j = close_of(b, i);
        assert(code[i] == link_at(code, i));
        assert(code[j] == link_at(code, j));
        lemma_partner(b, i, j);
    }
    assert forall|j: int| 0 <= j < code.len() && #[trigger] code[j] is Jnz implies {
        let t = code[j]->Jnz_0 as int;
        &&& matched(b, j + t, j)
        &&& code[j + t] == Stmt::Jz((-t) as i16)
    } by {
        let i = open_of(b, j);
        assert(code[i] == link_at(code, i));
        assert(code[j] == link_at(code, j));
        lemma_partner(b, i, j);
    }
}

/// What a well-formed program holds at a branch.
pub proof fn lemma_well_formed_at(code: Seq<Stmt>, k: int)
    requires
        well_formed(code),
        0 <= k < code.len(),
        sign(code[k]) != 0,
    ensures
        balanced(profile(code)),
        0 <= k + code[k].wide() < code.len(),
        code[k] is Jz ==> matched(profile(code), k, k + code[k].wide()) && code[k + code[k].wide()]
            == Stmt::Jnz((-code[k].wide()) as i16),
        code[k] is Jnz ==> matched(profile(code), k + code[k].wide(), k) && code[k + code[k].wide()]
            == Stmt::Jz((-code[k].wide()) as i16),
{
    reveal(well_formed);
}

/// The places of the openers that a label stack stands for: each label is
/// the slot after its opener.
pub open spec fn slots(labels: Seq<usize>) -> Seq<int> {
    Seq::new(labels.len(), |l: int| labels[l] - 1)
}

/// The bracket at `k` of a program under construction, unless it waits on
/// the stack of open loops, holds the target that `link` gives it.
pub open spec fn aimed(res: Seq<Stmt>, opens: Seq<int>, k: int) -> bool {
    let b = profile(res);
    match res[k] {
        Stmt::Jz(t) => waiting(b, opens, k) || t == wrap16(close_of(b, k) - k),
        Stmt::Jnz(t) => t == wrap16(open_of(b, k) - k),
        _ => true,
    }
}

/// The state of single-pass linking: `labels` holds, innermost last, the slot
/// after each `Jz` that is still open, and all closed loops are linked.
pub open spec fn linking(res: Seq<Stmt>, labels: Seq<usize>) -> bool {
    &&& tracking(profile(res), slots(labels))
    &&& forall|k: int| 0 <= k < res.len() ==> #[trigger] aimed(res, slots(labels), k)
}

/// Appending a statement appends its sign to the profile.
pub proof fn lemma_profile_push(res: Seq<Stmt>, s: Stmt)
    ensures
        profile(res.push(s)) == profile(res).push(sign(s)),
{
    assert(profile(res.push(s)) =~= profile(res).push(sign(s)));
}

/// A bracket that holds its target keeps it when the program grows by one
/// statement, as long as the stack still holds it if it waited there.
proof fn lemma_aimed_kept(r0: Seq<Stmt>, o0: Seq<int>, r1: Seq<Stmt>, o1: Seq<int>, k: int)
    requires
        0 <= k < r0.len(),
        r1.len() == r0.len() + 1,
        r1[k] == r0[k],
        profile(r1) == profile(r0).push(sign(r1[r0.len() as int])),
        keeps(profile(r0), profile(r1)),
        resolved(profile(r0), o0, k),
        aimed(r0, o0, k),
        waiting(profile(r0), o0, k) ==> waiting(profile(r1), o1, k),
    ensures
        aimed(r1, o1, k),
{
    assert(profile(r0)[k] == sign(r0[k]));
}

/// Appending a statement that is no bracket keeps the linking state.
pub proof fn lemma_linking_emit(r0: Seq<Stmt>, labels: Seq<usize>, s: Stmt)
    requires
        linking(r0, labels),
        sign(s) == 0,
    ensures
        linking(r0.push(s), labels),
{
    let r1 = r0.push(s);
    let opens = slots(labels);
    lemma_profile_push(r0, s);
    lemma_track_plain(profile(r0), opens);
    lemma_depth_push(profile(r0), 0);
    assert forall|k: int| 0 <= k < r1.len() implies #[trigger] aimed(r1, opens, k) by {
        if k < r0.len() {
            assert(aimed(r0, opens, k));
            assert(resolved(profile(r0), opens, k));
            lemma_aimed_kept(r0, opens, r1, opens, k);
        }
    }
}

/// Appending a `Jz` and its label keeps the linking state.
proof fn lemma_linking_open(r0: Seq<Stmt>, l0: Seq<usize>, t: i16)
    requires
        linking(r0, l0),
        r0.len() < usize::MAX,
    ensures
        linking(r0.push(Stmt::Jz(t)), l0.push((r0.len() + 1) as usize)),
{
    let s = Stmt::Jz(t);
    let r1 = r0.push(s);
    let l1 = l0.push((r0.len() + 1) as usize);
    let o0 = slots(l0);
    let o1 = slots(l1);
    assert(o1 =~= o0.push(r0.len() as int));
    lemma_profile_push(r0, s);
    lemma_track_open(profile(r0), o0);
    assert forall|k: int| 0 <= k < r1.len() implies #[trigger] aimed(r1, o1, k) by {
        if k < r0.len() {
            assert(aimed(r0, o0, k));
            assert(resolved(profile(r0), o0, k));
            lemma_aimed_kept(r0, o0, r1, o1, k);
        }
    }
}

/// Closing the innermost open loop, with both targets set, keeps the linking state.
proof fn lemma_linking_close(r0: Seq<Stmt>, l0: Seq<usize>)
    requires
        linking(r0, l0),
        l0.len() > 0,
    ensures
        ({
            let i = l0.last() - 1;
            let j = r0.len() as int;
            &&& 0 <= i < j
            &&& r0[i] is Jz
            &&& linking(
                r0.push(Stmt::Jnz(wrap16(i - j))).update(i, Stmt::Jz(wrap16(j - i))),
                l0.drop_last(),
            )
        }),
{
    let i = l0.last() - 1;
    let j = r0.len() as int;
    let o0 = slots(l0);
    let o1 = slots(l0.drop_last());
    assert(o1 =~= o0.drop_last());
    assert(o0.last() == i);
    assert(open_at(profile(r0), o0[o0.len() - 1], o0.len() - 1));
    let close = Stmt::Jnz(wrap16(i - j));
    let rm = r0.push(close);
    let r1 = rm.update(i, Stmt::Jz(wrap16(j - i)));
    lemma_profile_push(r0, close);
    lemma_track_close(profile(r0), o0);
    assert(profile(r1) =~= profile(rm));
    assert forall|k: int| 0 <= k < r1.len() implies #[trigger] aimed(r1, o1, k) by {
        if k < r0.len() && k != i {
            assert(aimed(r0, o0, k));
            assert(resolved(profile(r0), o0, k));
            lemma_aimed_kept(r0, o0, r1, o1, k);
        }
    }
}

/// With no loop left open, the program is balanced and holds the targets
/// that `link` gives it; it is well-formed if it is short enough.
pub proof fn lemma_linking_done(res: Seq<Stmt>, labels: Seq<usize>)
    requires
        linking(res, labels),
        labels.len() == 0,
    ensures
        balanced(profile(res)),
        paired(res),
        res == link(res),
        res.len() <= 32767 ==> well_formed(res),
{
    let b = profile(res);
    lemma_track_done(b, slots(labels));
    assert forall|k: int| 0 <= k < res.len() implies res[k] == link_at(res, k) by {
        assert(aimed(res, slots(labels), k));
    }
    assert(res =~= link(res));
    assert forall|k: int| 0 <= k < res.len() && #[trigger] res[k] is Jz implies matched(b, k, close_of(b, k)) by {
        assert(b[k] == 1);
    }
    assert forall|k: int| 0 <= k < res.len() && #[trigger] res[k] is Jnz implies matched(b, open_of(b, k), k) by {
        assert(b[k] == -1);
    }
    if res.len() <= 32767 {
        lemma_linked_well_formed(res);
    }
}

/// Linking looks at the brackets and not at the targets they hold.
pub proof fn lemma_link_same_shape(a: Seq<Stmt>, b: Seq<Stmt>)
    requires
        same_shape(a, b),
    ensures
        link(a) == link(b),
{
    assert(profile(a) =~= profile(b));
    assert(link(a) =~= link(b));
}

/// Appends a statement that is no bracket.
pub(crate) fn emit(res: &mut Vec<Stmt>, labels: &Vec<usize>, s: Stmt)
    requires
        linking(old(res)@, labels@),
        sign(s) == 0,
    ensures
        final(res)@ == old(res)@.push(s),
        linking(final(res)@, labels@),
{
    proof {
        lemma_linking_emit(res@, labels@, s);
    }
    res.push(s);
}

/// Opens a loop: appends a `Jz` whose target is still to come and notes the slot after it.
pub(crate) fn open_loop(res: &mut Vec<Stmt>, labels: &mut Vec<usize>)
    requires
        linking(old(res)@, old(labels)@),
    ensures
        final(res)@ == old(res)@.push(Stmt::Jz(0)),
        final(labels)@ == old(labels)@.push(final(res)@.len() as usize),
        linking(final(res)@, final(labels)@),
{
    res.push(Stmt::Jz(0));
    let slot = res.len();
    proof {
        lemma_linking_open(old(res)@, labels@, 0);
    }
    labels.push(slot);
}

/// Closes the innermost open loop: appends its `Jnz` and sets the targets of both ends.
pub(crate) fn close_loop(res: &mut Vec<Stmt>, labels: &mut Vec<usize>)
    requires
        linking(old(res)@, old(labels)@),
        old(labels)@.len() > 0,
    ensures
        final(res)@.len() == old(res)@.len() + 1,
        same_shape(final(res)@, old(res)@.push(Stmt::Jnz(0))),
        final(labels)@ == old(labels)@.drop_last(),
        linking(final(res)@, final(labels)@),
{
    proof {
        lemma_linking_close(res@, labels@);
    }
    let target = labels.pop().unwrap();
    let diff = cut16(res.len() - target + 1);
    res.push(Stmt::Jnz(0i16.wrapping_sub(diff)));
    res.set(target - 1, Stmt::Jz(diff));
}

/// Tells whether the brackets of a program nest.
pub fn is_balanced(code: &[Stmt]) -> (r: bool)
    ensures
        r == balanced(profile(code@)),
{
    let mut open: usize = 0;
    let mut k: usize = 0;
    while k < code.len()
        invariant
            k <= code@.len(),
            open == depth(profile(code@), k as int),
            open <= k,
            forall|p: int| 0 <= p <= k ==> depth(profile(code@), p) >= 0,
        decreases code.len() - k,
    {
        assert(depth(profile(code@), k as int + 1) == depth(profile(code@), k as int) + sign(code@[k as int]));
        match code[k] {
            Stmt::Jz(_) => {
                open = open + 1;
            },
            Stmt::Jnz(_) => {
                if open == 0 {
                    return false;
                }
                open = open - 1;
            },
            _ => {},
        }
        k = k + 1;
    }
    open == 0
}

} // verus!
