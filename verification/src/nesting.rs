//! Bracket nesting over a profile: a sequence of integers in which an opener
//! is `1`, a closer is `-1` and everything else is `0`.

use vstd::prelude::*;

verus! {

/// Nesting depth after the first `p` entries: openers minus closers among them.
pub open spec fn depth(b: Seq<int>, p: int) -> int
    decreases p,
{
    if p <= 0 {
        0
    } else {
        depth(b, p - 1) + b[p - 1]
    }
}

/// Every prefix holds at least as many openers as closers, and the whole
/// profile holds as many of one as of the other.
pub open spec fn balanced(b: Seq<int>) -> bool {
    &&& depth(b, b.len() as int) == 0
    &&& forall|p: int| 0 <= p <= b.len() ==> depth(b, p) >= 0
}

/// The opener at `i` and the closer at `j` enclose one loop: the depth
/// returns to its value before `i` right after `j`, and not earlier.
pub open spec fn matched(b: Seq<int>, i: int, j: int) -> bool {
    &&& 0 <= i < j < b.len()
    &&& b[i] == 1
    &&& b[j] == -1
    &&& depth(b, j + 1) == depth(b, i)
    &&& forall|k: int| i < k <= j ==> depth(b, k) > depth(b, i)
}

/// The closer that ends the loop opened at `i`.
pub open spec fn close_of(b: Seq<int>, i: int) -> int {
    choose|j: int| matched(b, i, j)
}

/// The opener of the loop that the closer at `j` ends.
pub open spec fn open_of(b: Seq<int>, j: int) -> int {
    choose|i: int| matched(b, i, j)
}

/// The depth after `p` entries depends on those entries only.
pub proof fn lemma_depth_agrees(a: Seq<int>, b: Seq<int>, p: int)
    requires
        p <= a.len(),
        p <= b.len(),
        forall|k: int| 0 <= k < p ==> a[k] == b[k],
    ensures
        depth(a, p) == depth(b, p),
    decreases p,
{
    if p > 0 {
        lemma_depth_agrees(a, b, p - 1);
    }
}

/// A loop found in a profile is found in every profile with the same entries up to its closer.
pub proof fn lemma_matched_agrees(a: Seq<int>, b: Seq<int>, i: int, j: int)
    requires
        matched(a, i, j),
        j < b.len(),
        forall|k: int| 0 <= k <= j ==> a[k] == b[k],
    ensures
        matched(b, i, j),
{
    lemma_depth_agrees(a, b, i);
    lemma_depth_agrees(a, b, j + 1);
    assert forall|k: int| i < k <= j implies depth(b, k) > depth(b, i) by {
        lemma_depth_agrees(a, b, k);
    }
}

/// An opener starts at most one loop, and a closer ends at most one.
pub proof fn lemma_matched_unique(b: Seq<int>, i: int, j: int, i2: int, j2: int)
    requires
        matched(b, i, j),
        matched(b, i2, j2),
    ensures
        i == i2 <==> j == j2,
{
    if i == i2 && j != j2 {
        if j < j2 {
            assert(depth(b, j + 1) > depth(b, i2));
        } else {
            assert(depth(b, j2 + 1) > depth(b, i));
        }
    }
    if j == j2 && i != i2 {
        if i < i2 {
            assert(depth(b, i2) > depth(b, i));
        } else {
            assert(depth(b, i) > depth(b, i2));
        }
    }
}

/// Once a loop is known, `close_of` and `open_of` name its two ends.
pub proof fn lemma_partner(b: Seq<int>, i: int, j: int)
    requires
        matched(b, i, j),
    ensures
        close_of(b, i) == j,
        open_of(b, j) == i,
{
    lemma_matched_unique(b, i, j, i, close_of(b, i));
    lemma_matched_unique(b, i, j, open_of(b, j), j);
}

/// The opener at `i` stands at nesting level `l` and is still open at the end of the profile.
pub open spec fn open_at(b: Seq<int>, i: int, l: int) -> bool {
    &&& 0 <= i < b.len()
    &&& b[i] == 1
    &&& depth(b, i) == l
    &&& forall|k: int| i < k <= b.len() ==> depth(b, k) > l
}

/// The stack of open loops holds the opener at `k`, at the place of its nesting level.
pub open spec fn waiting(b: Seq<int>, opens: Seq<int>, k: int) -> bool {
    0 <= depth(b, k) < opens.len() && opens[depth(b, k)] == k
}

/// The bracket at `k`, if there is one, is on the stack of open loops or has its partner.
pub open spec fn resolved(b: Seq<int>, opens: Seq<int>, k: int) -> bool {
    &&& b[k] == 1 ==> waiting(b, opens, k) || matched(b, k, close_of(b, k))
    &&& b[k] == -1 ==> matched(b, open_of(b, k), k)
}

/// The state of a single pass over a profile with a stack: `opens` holds,
/// innermost last, the openers that are not closed yet, and every other
/// bracket has its partner.
pub open spec fn tracking(b: Seq<int>, opens: Seq<int>) -> bool {
    &&& opens.len() == depth(b, b.len() as int)
    &&& forall|p: int| 0 <= p <= b.len() ==> depth(b, p) >= 0
    &&& forall|l: int| 0 <= l < opens.len() ==> open_at(b, #[trigger] opens[l], l)
    &&& forall|k: int| 0 <= k < b.len() ==> #[trigger] resolved(b, opens, k)
}

/// A longer profile keeps the partners that the brackets of its prefix have.
pub open spec fn keeps(b0: Seq<int>, b1: Seq<int>) -> bool {
    &&& forall|k: int| #[trigger] matched(b0, k, close_of(b0, k)) ==> close_of(b1, k) == close_of(b0, k)
    &&& forall|k: int| #[trigger] matched(b0, open_of(b0, k), k) ==> open_of(b1, k) == open_of(b0, k)
}

/// A longer profile keeps every loop of its prefix, and both ends of each.
pub proof fn lemma_loops_kept(b0: Seq<int>, b1: Seq<int>, i: int, j: int)
    requires
        matched(b0, i, j),
        b0.len() <= b1.len(),
        forall|k: int| 0 <= k < b0.len() ==> b0[k] == b1[k],
    ensures
        matched(b1, i, j),
        close_of(b1, i) == j,
        open_of(b1, j) == i,
        close_of(b0, i) == j,
        open_of(b0, j) == i,
{
    lemma_matched_agrees(b0, b1, i, j);
    lemma_partner(b1, i, j);
    lemma_partner(b0, i, j);
}

/// Appending an entry keeps the partners that are known.
pub proof fn lemma_keeps(b0: Seq<int>, x: int)
    ensures
        keeps(b0, b0.push(x)),
{
    let b1 = b0.push(x);
    assert forall|k: int| #[trigger] matched(b0, k, close_of(b0, k)) implies close_of(b1, k) == close_of(b0, k) by {
        lemma_loops_kept(b0, b1, k, close_of(b0, k));
    }
    assert forall|k: int| #[trigger] matched(b0, open_of(b0, k), k) implies open_of(b1, k) == open_of(b0, k) by {
        lemma_loops_kept(b0, b1, open_of(b0, k), k);
    }
}

/// An opener that is still open stays so when an entry that does not close it is appended.
proof fn lemma_open_kept(b0: Seq<int>, x: int, i: int, l: int)
    requires
        open_at(b0, i, l),
        depth(b0, b0.len() as int) + x > l,
    ensures
        open_at(b0.push(x), i, l),
{
    let b1 = b0.push(x);
    assert forall|k: int| i < k <= b1.len() implies depth(b1, k) > l by {
        if k <= b0.len() {
            lemma_depth_agrees(b0, b1, k);
        } else {
            lemma_depth_agrees(b0, b1, k - 1);
        }
    }
    lemma_depth_agrees(b0, b1, i);
}

/// A bracket that is resolved stays so when an entry is appended, as long
/// as the stack still holds it if it waited there.
proof fn lemma_resolved_kept(b0: Seq<int>, o0: Seq<int>, x: int, o1: Seq<int>, k: int)
    requires
        0 <= k < b0.len(),
        resolved(b0, o0, k),
        waiting(b0, o0, k) ==> waiting(b0, o1, k),
    ensures
        resolved(b0.push(x), o1, k),
{
    let b1 = b0.push(x);
    lemma_depth_agrees(b0, b1, k);
    if b0[k] == 1 && !waiting(b0, o0, k) {
        lemma_loops_kept(b0, b1, k, close_of(b0, k));
    }
    if b0[k] == -1 {
        lemma_loops_kept(b0, b1, open_of(b0, k), k);
    }
}

/// The depths of a profile with one more entry.
pub proof fn lemma_depth_push(b0: Seq<int>, x: int)
    ensures
        forall|p: int| 0 <= p <= b0.len() ==> depth(b0.push(x), p) == depth(b0, p),
        depth(b0.push(x), b0.len() as int + 1) == depth(b0, b0.len() as int) + x,
{
    let b1 = b0.push(x);
    assert forall|p: int| 0 <= p <= b0.len() implies depth(b1, p) == depth(b0, p) by {
        lemma_depth_agrees(b0, b1, p);
    }
}

/// An entry that is no bracket leaves the pass as it is.
pub proof fn lemma_track_plain(b0: Seq<int>, opens: Seq<int>)
    requires
        tracking(b0, opens),
    ensures
        tracking(b0.push(0), opens),
        keeps(b0, b0.push(0)),
{
    let b1 = b0.push(0);
    lemma_depth_push(b0, 0);
    lemma_keeps(b0, 0);
    assert forall|p: int| 0 <= p <= b1.len() implies depth(b1, p) >= 0 by {
        if p <= b0.len() {
            assert(depth(b1, p) == depth(b0, p));
        }
    }
    assert forall|l: int| 0 <= l < opens.len() implies open_at(b1, #[trigger] opens[l], l) by {
        lemma_open_kept(b0, 0, opens[l], l);
    }
    assert forall|k: int| 0 <= k < b1.len() implies #[trigger] resolved(b1, opens, k) by {
        if k < b0.len() {
            assert(resolved(b0, opens, k));
            lemma_resolved_kept(b0, opens, 0, opens, k);
        }
    }
}

/// An opener goes on the stack.
pub proof fn lemma_track_open(b0: Seq<int>, opens: Seq<int>)
    requires
        tracking(b0, opens),
    ensures
        tracking(b0.push(1), opens.push(b0.len() as int)),
        keeps(b0, b0.push(1)),
        forall|k: int| 0 <= k < b0.len() && waiting(b0, opens, k) ==> waiting(b0.push(1), opens.push(b0.len() as int), k),
        waiting(b0.push(1), opens.push(b0.len() as int), b0.len() as int),
{
    let b1 = b0.push(1);
    let o1 = opens.push(b0.len() as int);
    lemma_depth_push(b0, 1);
    lemma_keeps(b0, 1);
    assert forall|p: int| 0 <= p <= b1.len() implies depth(b1, p) >= 0 by {
        if p <= b0.len() {
            assert(depth(b1, p) == depth(b0, p));
        }
    }
    assert forall|l: int| 0 <= l < o1.len() implies open_at(b1, #[trigger] o1[l], l) by {
        if l < opens.len() {
            assert(o1[l] == opens[l]);
            lemma_open_kept(b0, 1, opens[l], l);
        }
    }
    assert forall|k: int| 0 <= k < b1.len() implies #[trigger] resolved(b1, o1, k) by {
        if k < b0.len() {
            assert(resolved(b0, opens, k));
            lemma_resolved_kept(b0, opens, 1, o1, k);
        }
    }
}

/// A closer takes the innermost opener off the stack and is its partner.
pub proof fn lemma_track_close(b0: Seq<int>, opens: Seq<int>)
    requires
        tracking(b0, opens),
        opens.len() > 0,
    ensures
        tracking(b0.push(-1), opens.drop_last()),
        keeps(b0, b0.push(-1)),
        0 <= opens.last() < b0.len(),
        matched(b0.push(-1), opens.last(), b0.len() as int),
        close_of(b0.push(-1), opens.last()) == b0.len(),
        open_of(b0.push(-1), b0.len() as int) == opens.last(),
        waiting(b0, opens, opens.last()),
        forall|k: int|
            0 <= k < b0.len() && k != opens.last() && waiting(b0, opens, k) ==> waiting(
                b0.push(-1),
                opens.drop_last(),
                k,
            ),
{
    let b1 = b0.push(-1);
    let o1 = opens.drop_last();
    let top = opens.len() - 1;
    let i = opens.last();
    let j = b0.len() as int;
    assert(open_at(b0, opens[top], top));
    lemma_depth_push(b0, -1);
    lemma_keeps(b0, -1);
    assert forall|p: int| 0 <= p <= b1.len() implies depth(b1, p) >= 0 by {
        if p <= b0.len() {
            assert(depth(b1, p) == depth(b0, p));
        }
    }
    assert(matched(b1, i, j)) by {
        assert forall|k: int| i < k <= j implies depth(b1, k) > depth(b1, i) by {
            assert(depth(b1, k) == depth(b0, k));
        }
    }
    lemma_partner(b1, i, j);
    assert forall|l: int| 0 <= l < o1.len() implies open_at(b1, #[trigger] o1[l], l) by {
        assert(o1[l] == opens[l]);
        lemma_open_kept(b0, -1, opens[l], l);
    }
    assert forall|k: int| 0 <= k < b1.len() implies #[trigger] resolved(b1, o1, k) by {
        if k < b0.len() && k != i {
            assert(resolved(b0, opens, k));
            lemma_resolved_kept(b0, opens, -1, o1, k);
        }
    }
}

/// With the stack empty at the end of the pass, the profile is balanced and
/// every bracket has its partner.
pub proof fn lemma_track_done(b: Seq<int>, opens: Seq<int>)
    requires
        tracking(b, opens),
        opens.len() == 0,
    ensures
        balanced(b),
        forall|k: int| 0 <= k < b.len() && #[trigger] b[k] == 1 ==> matched(b, k, close_of(b, k)),
        forall|k: int| 0 <= k < b.len() && #[trigger] b[k] == -1 ==> matched(b, open_of(b, k), k),
{
    assert forall|k: int| 0 <= k < b.len() && #[trigger] b[k] == 1 implies matched(b, k, close_of(b, k)) by {
        assert(resolved(b, opens, k));
    }
    assert forall|k: int| 0 <= k < b.len() && #[trigger] b[k] == -1 implies matched(b, open_of(b, k), k) by {
        assert(resolved(b, opens, k));
    }
}

} // verus!
