//! Decomposition of a pair table into an ordered tree of loops.
//!
//! A pair is named by its opening base `i` (so the pair is `(i, p[i])`).
//! The external loop is index 0; every other loop is closed by one pair.

use vstd::prelude::*;
use crate::types::{LoopInfo, PairTable, is_pairing};
use crate::elements::bases_below;

verus! {

/// Base `i` opens a pair `(i, p[i])`.
pub open spec fn opens(p: Seq<usize>, i: int) -> bool {
    0 <= i < p.len() && i < p[i]
}

/// The pair opened at `m` strictly encloses the pair opened at `k`.
pub open spec fn encloses(p: Seq<usize>, m: int, k: int) -> bool {
    opens(p, m) && opens(p, k) && m < k && p[k] < p[m]
}

pub open spec fn span(p: Seq<usize>, m: int) -> int {
    p[m] - m
}

/// `m` is the smallest pair enclosing `k`.
pub open spec fn is_parent(p: Seq<usize>, m: int, k: int) -> bool {
    &&& encloses(p, m, k)
    &&& forall|m2: int| #[trigger] encloses(p, m2, k) ==> span(p, m) <= span(p, m2)
}

/// `k` opens a pair that no pair encloses.
pub open spec fn is_outermost(p: Seq<usize>, k: int) -> bool {
    &&& opens(p, k)
    &&& forall|m: int| !#[trigger] encloses(p, m, k)
}

/// `k` is a pair directly nested in the loop closed by `owner` (the external loop for `None`).
pub open spec fn is_child_of(p: Seq<usize>, owner: Option<int>, k: int) -> bool {
    match owner {
        None => is_outermost(p, k),
        Some(m) => is_parent(p, m, k),
    }
}

/// Pairs below `hi` directly nested in the loop of `owner`, by opening base.
pub open spec fn child_list(p: Seq<usize>, owner: Option<int>, hi: int) -> Seq<usize>
    decreases hi,
{
    if hi <= 0 {
        Seq::empty()
    } else if is_child_of(p, owner, hi - 1) {
        child_list(p, owner, hi - 1).push((hi - 1) as usize)
    } else {
        child_list(p, owner, hi - 1)
    }
}

/// The pairs directly nested in the loop of `owner`.
pub open spec fn children(p: Seq<usize>, owner: Option<int>) -> Seq<usize> {
    child_list(p, owner, p.len() as int)
}

/// Base `b` lies strictly inside the pair closing the loop of `owner`.
pub open spec fn within(p: Seq<usize>, owner: Option<int>, b: int) -> bool {
    match owner {
        None => true,
        Some(m) => m < b < p[m],
    }
}

/// Some pair of `cs` spans base `b`, ends included.
pub open spec fn covered(p: Seq<usize>, cs: Seq<usize>, b: int) -> bool {
    exists|t: int| 0 <= t < cs.len() && cs[t] <= b <= #[trigger] p[cs[t] as int]
}

/// `b` is an unpaired base of the loop of `owner`: inside it, and spanned by none of its children.
pub open spec fn is_free_in(p: Seq<usize>, owner: Option<int>, b: int) -> bool {
    &&& 0 <= b < p.len()
    &&& p[b] == b
    &&& within(p, owner, b)
    &&& !covered(p, children(p, owner), b)
}

/// Unpaired bases below `hi` of the loop of `owner`, increasing.
pub open spec fn free_list(p: Seq<usize>, owner: Option<int>, hi: int) -> Seq<usize>
    decreases hi,
{
    if hi <= 0 {
        Seq::empty()
    } else if is_free_in(p, owner, hi - 1) {
        free_list(p, owner, hi - 1).push((hi - 1) as usize)
    } else {
        free_list(p, owner, hi - 1)
    }
}

/// An owner given as a base index, seen as an integer.
pub open spec fn as_owner(o: Option<usize>) -> Option<int> {
    match o {
        None => None,
        Some(m) => Some(m as int),
    }
}

pub open spec fn pair_of(p: Seq<usize>, k: usize) -> (usize, usize) {
    (k, p[k as int])
}

/// `info` is the loop of `owner`, before strand breaks are assigned.
pub open spec fn has_shape(p: Seq<usize>, info: LoopInfo, owner: Option<int>) -> bool {
    &&& info.parent_pair == match owner {
        None => None,
        Some(m) => Some((m as usize, p[m])),
    }
    &&& info.child_pairs@ == children(p, owner).map_values(|k: usize| pair_of(p, k))
    &&& info.unpaired_bases@ == free_list(p, owner, p.len() as int)
}

/// The table of smallest enclosing pairs: for each opening base, its parent, or
/// `None` for an outermost pair.
pub open spec fn is_parent_table(p: Seq<usize>, par: Seq<Option<usize>>) -> bool {
    &&& par.len() == p.len()
    &&& forall|k: int|
        #![trigger par[k]]
        opens(p, k) ==> match par[k] {
            None => is_outermost(p, k),
            Some(m) => is_parent(p, m as int, k),
        }
}

/// In a valid pairing, a pair has at most one smallest enclosing pair.
proof fn lemma_parent_unique(p: Seq<usize>, m1: int, m2: int, k: int)
    requires
        is_pairing(p),
        is_parent(p, m1, k),
        is_parent(p, m2, k),
    ensures
        m1 == m2,
{
    assert(span(p, m1) <= span(p, m2));
    assert(span(p, m2) <= span(p, m1));
    if m1 < m2 {
        // both span k, so m2 lies inside m1 and is strictly shorter
        assert(p[m2 as int] < p[m1 as int]);
    } else if m2 < m1 {
        assert(p[m1 as int] < p[m2 as int]);
    }
}

/// The smallest pair enclosing the pair opened at `k`, if any.
fn smallest_enclosing(pt: &PairTable, k: usize) -> (r: Option<usize>)
    requires
        pt.wf(),
        opens(pt.pairs@, k as int),
    ensures
        match r {
            None => is_outermost(pt.pairs@, k as int),
            Some(m) => is_parent(pt.pairs@, m as int, k as int),
        },
{
    let ghost p = pt.pairs@;
    let n = pt.n_bases;
    let kj = pt.pairs[k];
    let mut best: Option<usize> = None;
    let mut best_span: usize = usize::MAX;
    for m in 0..n
        invariant
            n == p.len(),
            pt.wf(),
            p == pt.pairs@,
            opens(p, k as int),
            kj == p[k as int],
            match best {
                None => forall|m2: int| 0 <= m2 < m ==> !#[trigger] encloses(p, m2, k as int),
                Some(b) => {
                    &&& encloses(p, b as int, k as int)
                    &&& best_span == span(p, b as int)
                    &&& forall|m2: int|
                        0 <= m2 < m && #[trigger] encloses(p, m2, k as int) ==> best_span <= span(
                            p,
                            m2,
                        )
                },
            },
    {
        let mj = pt.pairs[m];
        if m < mj && m < k && kj < mj {
            let s = mj - m;
            if best.is_none() || s < best_span {
                best = Some(m);
                best_span = s;
            }
        }
    }
    proof {
        match best {
            None => {
                assert forall|m2: int| !#[trigger] encloses(p, m2, k as int) by {
                    if encloses(p, m2, k as int) {
                        assert(0 <= m2 < n);
                    }
                }
            },
            Some(b) => {
                assert forall|m2: int| #[trigger] encloses(p, m2, k as int) implies span(
                    p,
                    b as int,
                ) <= span(p, m2) by {
                    assert(0 <= m2 < n);
                }
            },
        }
    }
    best
}

/// For every opening base, its smallest enclosing pair.
fn parent_table(pt: &PairTable) -> (r: Vec<Option<usize>>)
    requires
        pt.wf(),
    ensures
        is_parent_table(pt.pairs@, r@),
{
    let n = pt.n_bases;
    let mut par: Vec<Option<usize>> = Vec::new();
    for k in 0..n
        invariant
            n == pt.pairs@.len(),
            pt.wf(),
            par@.len() == k,
            forall|k2: int|
                #![trigger par@[k2]]
                0 <= k2 < k && opens(pt.pairs@, k2) ==> match par@[k2] {
                    None => is_outermost(pt.pairs@, k2),
                    Some(m) => is_parent(pt.pairs@, m as int, k2),
                },
    {
        if k < pt.pairs[k] {
            let e = smallest_enclosing(pt, k);
            par.push(e);
        } else {
            par.push(None);
        }
    }
    par
}

/// The pairs directly nested in the loop of `owner`, by opening base.
fn child_list_of(pt: &PairTable, par: &Vec<Option<usize>>, owner: Option<usize>) -> (r: Vec<usize>)
    requires
        pt.wf(),
        is_parent_table(pt.pairs@, par@),
        match owner {
            None => true,
            Some(m) => opens(pt.pairs@, m as int),
        },
    ensures
        r@ == children(pt.pairs@, as_owner(owner)),
{
    let ghost p = pt.pairs@;
    let ghost o = as_owner(owner);
    let n = pt.n_bases;
    let mut r: Vec<usize> = Vec::new();
    for k in 0..n
        invariant
            n == p.len(),
            p == pt.pairs@,
            pt.wf(),
            is_parent_table(p, par@),
            o == as_owner(owner),
            r@ == child_list(p, o, k as int),
    {
        let is_child = if k < pt.pairs[k] {
            match (par[k], owner) {
                (None, None) => true,
                (Some(a), Some(b)) => a == b,
                _ => false,
            }
        } else {
            false
        };
        proof {
            if opens(p, k as int) {
                match (par@[k as int], owner) {
                    (Some(a), Some(b)) => {
                        if is_parent(p, b as int, k as int) {
                            lemma_parent_unique(p, a as int, b as int, k as int);
                        }
                    },
                    (Some(a), None) => {
                        assert(encloses(p, a as int, k as int));
                    },
                    (None, Some(b)) => {
                        if is_parent(p, b as int, k as int) {
                            assert(encloses(p, b as int, k as int));
                        }
                    },
                    _ => {},
                }
            }
            assert(is_child == is_child_of(p, o, k as int));
        }
        if is_child {
            r.push(k);
        }
    }
    r
}

/// For each base, whether one of the pairs `cs` spans it, ends included.
fn spanned_by(pt: &PairTable, cs: &Vec<usize>) -> (r: Vec<bool>)
    requires
        pt.wf(),
        forall|t: int| 0 <= t < cs@.len() ==> opens(pt.pairs@, #[trigger] cs@[t] as int),
    ensures
        r@.len() == pt.pairs@.len(),
        forall|b: int| 0 <= b < r@.len() ==> #[trigger] r@[b] == covered(pt.pairs@, cs@, b),
{
    let ghost p = pt.pairs@;
    let n = pt.n_bases;
    let mut r: Vec<bool> = Vec::new();
    for b in 0..n
        invariant
            r@.len() == b,
            forall|x: int| 0 <= x < b ==> !#[trigger] r@[x],
    {
        r.push(false);
    }
    for t in 0..cs.len()
        invariant
            n == p.len(),
            p == pt.pairs@,
            pt.wf(),
            forall|t2: int| 0 <= t2 < cs@.len() ==> opens(p, #[trigger] cs@[t2] as int),
            r@.len() == n,
            forall|b: int| 0 <= b < n ==> #[trigger] r@[b] == covered(p, cs@.take(t as int), b),
    {
        let c = cs[t];
        let j = pt.pairs[c];
        let ghost before = r@;
        for x in c..j + 1
            invariant
                n == p.len(),
                p == pt.pairs@,
                c == cs@[t as int],
                j == p[c as int],
                c < j < n,
                r@.len() == n,
                forall|b: int|
                    0 <= b < n ==> #[trigger] r@[b] == (before[b] || (c <= b < x)),
        {
            r.set(x, true);
        }
        proof {
            let nc = cs@.take(t + 1);
            assert forall|b: int| 0 <= b < n implies #[trigger] r@[b] == covered(p, nc, b) by {
                if covered(p, cs@.take(t as int), b) {
                    let w = choose|w: int|
                        0 <= w < cs@.take(t as int).len() && cs@.take(t as int)[w] <= b
                            <= #[trigger] p[cs@.take(t as int)[w] as int];
                    assert(nc[w] == cs@.take(t as int)[w]);
                }
                if c <= b <= j {
                    assert(nc[t as int] == c);
                }
                if covered(p, nc, b) {
                    let w = choose|w: int|
                        0 <= w < nc.len() && nc[w] <= b <= #[trigger] p[nc[w] as int];
                    if w < t {
                        assert(cs@.take(t as int)[w] == nc[w]);
                    }
                }
            }
        }
    }
    proof {
        assert(cs@.take(cs@.len() as int) == cs@);
    }
    r
}

/// The loop of `owner` (the external loop for `None`), with no strand breaks yet.
fn loop_of(pt: &PairTable, par: &Vec<Option<usize>>, owner: Option<usize>) -> (r: LoopInfo)
    requires
        pt.wf(),
        is_parent_table(pt.pairs@, par@),
        match owner {
            None => true,
            Some(m) => opens(pt.pairs@, m as int),
        },
    ensures
        has_shape(pt.pairs@, r, as_owner(owner)),
        r.nicks_in_loop@.len() == 0,
        bases_below(r, pt.n_bases),
{
    let ghost p = pt.pairs@;
    let ghost o = as_owner(owner);
    let n = pt.n_bases;
    let kids = child_list_of(pt, par, owner);
    proof {
        lemma_child_list_members(p, o, n as int);
    }
    let mut child_pairs: Vec<(usize, usize)> = Vec::new();
    for t in 0..kids.len()
        invariant
            p == pt.pairs@,
            n == p.len(),
            kids@ == children(p, o),
            child_pairs@ == kids@.take(t as int).map_values(|k: usize| pair_of(p, k)),
            forall|t2: int| 0 <= t2 < kids@.len() ==> opens(p, #[trigger] kids@[t2] as int),
    {
        let c = kids[t];
        child_pairs.push((c, pt.pairs[c]));
        proof {
            assert(kids@.take(t + 1).map_values(|k: usize| pair_of(p, k)) =~= kids@.take(
                t as int,
            ).map_values(|k: usize| pair_of(p, k)).push(pair_of(p, c)));
        }
    }
    proof {
        assert(kids@.take(kids@.len() as int) == kids@);
    }
    let enclosed = spanned_by(pt, &kids);
    let mut unpaired: Vec<usize> = Vec::new();
    for b in 0..n
        invariant
            p == pt.pairs@,
            n == p.len(),
            kids@ == children(p, o),
            o == as_owner(owner),
            enclosed@.len() == n,
            forall|x: int| 0 <= x < n ==> #[trigger] enclosed@[x] == covered(p, kids@, x),
            unpaired@ == free_list(p, o, b as int),
    {
        let inside = match owner {
            None => true,
            Some(m) => m < b && b < pt.pairs[m],
        };
        if inside && !enclosed[b] && pt.pairs[b] == b {
            unpaired.push(b);
        }
    }
    proof {
        lemma_free_list_members(p, o, n as int);
        assert forall|t: int| 0 <= t < child_pairs@.len() implies (#[trigger] child_pairs@[t]).0 < n
            && child_pairs@[t].1 < n by {
            assert(child_pairs@[t] == pair_of(p, kids@[t]));
        }
    }
    LoopInfo {
        parent_pair: match owner {
            None => None,
            Some(m) => Some((m, pt.pairs[m])),
        },
        child_pairs,
        unpaired_bases: unpaired,
        nicks_in_loop: Vec::new(),
    }
}

/// Every listed unpaired base lies below `hi`.
proof fn lemma_free_list_members(p: Seq<usize>, o: Option<int>, hi: int)
    requires
        hi <= p.len() <= usize::MAX,
    ensures
        forall|t: int| 0 <= t < free_list(p, o, hi).len() ==> #[trigger] free_list(p, o, hi)[t] < hi,
    decreases hi,
{
    if hi > 0 {
        lemma_free_list_members(p, o, hi - 1);
        let prev = free_list(p, o, hi - 1);
        let cur = free_list(p, o, hi);
        assert forall|t: int| 0 <= t < cur.len() implies #[trigger] cur[t] < hi by {
            if t < prev.len() {
                assert(cur[t] == prev[t]);
            }
        }
    }
}

/// Every listed child opens a pair, and the list grows by increasing base.
proof fn lemma_child_list_members(p: Seq<usize>, o: Option<int>, hi: int)
    requires
        hi <= p.len() <= usize::MAX,
    ensures
        forall|t: int|
            0 <= t < child_list(p, o, hi).len() ==> {
                &&& opens(p, #[trigger] child_list(p, o, hi)[t] as int)
                &&& is_child_of(p, o, child_list(p, o, hi)[t] as int)
                &&& child_list(p, o, hi)[t] < hi
            },
    decreases hi,
{
    if hi > 0 {
        lemma_child_list_members(p, o, hi - 1);
        let prev = child_list(p, o, hi - 1);
        let cur = child_list(p, o, hi);
        assert forall|t: int| 0 <= t < cur.len() implies {
            &&& opens(p, #[trigger] cur[t] as int)
            &&& is_child_of(p, o, cur[t] as int)
            &&& cur[t] < hi
        } by {
            if t < prev.len() {
                assert(cur[t] == prev[t]);
            }
        }
    }
}

/// The loops below the pair opened at `m`, in listing order: the children of
/// `m` in sequence order, then the subtree of each child, last child first.
pub open spec fn subtree(p: Seq<usize>, m: int) -> Seq<usize>
    decreases span(p, m), 1int, 0int,
{
    if opens(p, m) {
        children(p, Some(m)) + rev_subtrees(p, m, children(p, Some(m)).len() as int)
    } else {
        Seq::empty()
    }
}

/// The subtrees of the first `k` children of `m`, from the `k`-th back to the first.
pub open spec fn rev_subtrees(p: Seq<usize>, m: int, k: int) -> Seq<usize>
    decreases span(p, m), 0int, k,
{
    if k <= 0 || !opens(p, m) || k > children(p, Some(m)).len() {
        Seq::empty()
    } else {
        let c = children(p, Some(m))[k - 1] as int;
        (if encloses(p, m, c) {
            subtree(p, c)
        } else {
            Seq::empty()
        }) + rev_subtrees(p, m, k - 1)
    }
}

/// The subtrees of the pairs in `cs`, from the last back to the first.
pub open spec fn rev_list(p: Seq<usize>, cs: Seq<usize>) -> Seq<usize>
    decreases cs.len(),
{
    if cs.len() == 0 {
        Seq::empty()
    } else {
        subtree(p, cs.last() as int) + rev_list(p, cs.drop_last())
    }
}

/// The subtrees of the outermost pairs but the first, from the `k`-th back to the second.
pub open spec fn rev_outer(p: Seq<usize>, k: int) -> Seq<usize>
    decreases k,
{
    if k <= 1 || k > children(p, None).len() {
        Seq::empty()
    } else {
        subtree(p, children(p, None)[k - 1] as int) + rev_outer(p, k - 1)
    }
}

/// The closing pairs of loops `1..`, in listing order: the first outermost pair
/// and its subtree, then the other outermost pairs in sequence order, then
/// their subtrees, last first.
pub open spec fn loop_order(p: Seq<usize>) -> Seq<usize> {
    let e = children(p, None);
    if e.len() == 0 {
        Seq::empty()
    } else {
        seq![e[0]] + subtree(p, e[0] as int) + e.drop_first() + rev_outer(p, e.len() as int)
    }
}

/// `loops` is the external loop followed by the loops closed by `order`, none
/// with strand breaks yet.
pub open spec fn lists_loops(p: Seq<usize>, loops: Seq<LoopInfo>, order: Seq<usize>) -> bool {
    &&& loops.len() == order.len() + 1
    &&& has_shape(p, loops[0], None)
    &&& forall|j: int| 0 <= j < order.len() ==> has_shape(p, loops[j + 1], Some(#[trigger] order[j] as int))
    &&& forall|l: int| 0 <= l < loops.len() ==> (#[trigger] loops[l]).nicks_in_loop@.len() == 0
    &&& forall|l: int| 0 <= l < loops.len() ==> bases_below(#[trigger] loops[l], p.len() as usize)
}

proof fn lemma_rev_list_append(p: Seq<usize>, st: Seq<usize>, cs: Seq<usize>)
    ensures
        rev_list(p, st + cs) == rev_list(p, cs) + rev_list(p, st),
    decreases cs.len(),
{
    if cs.len() == 0 {
        assert(st + cs == st);
    } else {
        assert((st + cs).drop_last() == st + cs.drop_last());
        assert((st + cs).last() == cs.last());
        lemma_rev_list_append(p, st, cs.drop_last());
    }
}

pub proof fn lemma_rev_subtrees_list(p: Seq<usize>, m: int, k: int)
    requires
        p.len() <= usize::MAX,
        opens(p, m),
        0 <= k <= children(p, Some(m)).len(),
    ensures
        rev_subtrees(p, m, k) == rev_list(p, children(p, Some(m)).take(k)),
    decreases k,
{
    let cs = children(p, Some(m));
    if k > 0 {
        lemma_child_list_members(p, Some(m), p.len() as int);
        assert(is_child_of(p, Some(m), cs[k - 1] as int));
        assert(cs.take(k).drop_last() == cs.take(k - 1));
        lemma_rev_subtrees_list(p, m, k - 1);
    }
}

/// Appends the loop of `owner`.
fn push_loop(
    pt: &PairTable,
    par: &Vec<Option<usize>>,
    owner: usize,
    loops: &mut Vec<LoopInfo>,
    order: Ghost<Seq<usize>>,
)
    requires
        pt.wf(),
        is_parent_table(pt.pairs@, par@),
        opens(pt.pairs@, owner as int),
        lists_loops(pt.pairs@, old(loops)@, order@),
    ensures
        lists_loops(pt.pairs@, final(loops)@, order@.push(owner)),
{
    let info = loop_of(pt, par, Some(owner));
    loops.push(info);
    proof {
        let o2 = order@.push(owner);
        assert forall|j: int| 0 <= j < o2.len() implies has_shape(
            pt.pairs@,
            loops@[j + 1],
            Some(#[trigger] o2[j] as int),
        ) by {
            if j < order@.len() {
                assert(o2[j] == order@[j]);
            }
        }
    }
}

/// Appends the loops of the subtree below `root`, in listing order. An explicit
/// stack keeps deep stems off the call stack.
fn process_subtree(
    pt: &PairTable,
    par: &Vec<Option<usize>>,
    root: usize,
    loops: &mut Vec<LoopInfo>,
    order: Ghost<Seq<usize>>,
)
    requires
        pt.wf(),
        is_parent_table(pt.pairs@, par@),
        opens(pt.pairs@, root as int),
        lists_loops(pt.pairs@, old(loops)@, order@),
    ensures
        lists_loops(pt.pairs@, final(loops)@, order@ + subtree(pt.pairs@, root as int)),
{
    let ghost p = pt.pairs@;
    let ghost goal = subtree(p, root as int);
    let mut stack: Vec<usize> = Vec::new();
    stack.push(root);
    let ghost mut done: Seq<usize> = Seq::empty();
    proof {
        assert(stack@.drop_last() =~= Seq::<usize>::empty());
        assert(rev_list(p, stack@) == subtree(p, root as int) + rev_list(p, Seq::<usize>::empty()));
        assert(done + rev_list(p, stack@) =~= goal);
        assert(order@ + done =~= order@);
    }
    while stack.len() > 0
        invariant
            p == pt.pairs@,
            pt.wf(),
            is_parent_table(p, par@),
            goal == subtree(p, root as int),
            done + rev_list(p, stack@) == goal,
            forall|t: int| 0 <= t < stack@.len() ==> opens(p, #[trigger] stack@[t] as int),
            lists_loops(p, loops@, order@ + done),
        decreases goal.len() - done.len() + stack@.len(),
    {
        let ghost st0 = stack@;
        let pk = stack.pop().unwrap();
        proof {
            assert(opens(p, st0[st0.len() - 1] as int));
            assert(st0.drop_last() == stack@);
            assert(rev_list(p, st0) == subtree(p, pk as int) + rev_list(p, stack@));
        }
        let kids = child_list_of(pt, par, Some(pk));
        proof {
            lemma_child_list_members(p, Some(pk as int), p.len() as int);
        }
        let ghost st1 = stack@;
        let ghost done0 = done;
        for t in 0..kids.len()
            invariant
                p == pt.pairs@,
                pt.wf(),
                is_parent_table(p, par@),
                kids@ == children(p, Some(pk as int)),
                forall|t2: int| 0 <= t2 < kids@.len() ==> opens(p, #[trigger] kids@[t2] as int),
                forall|t2: int| 0 <= t2 < st1.len() ==> opens(p, #[trigger] st1[t2] as int),
                stack@ == st1 + kids@.take(t as int),
                done == done0 + kids@.take(t as int),
                lists_loops(p, loops@, order@ + done),
        {
            let c = kids[t];
            proof {
                assert(kids@.take(t + 1) == kids@.take(t as int).push(c));
                assert(order@ + done.push(c) == (order@ + done).push(c));
            }
            push_loop(pt, par, c, loops, Ghost(order@ + done));
            stack.push(c);
            proof {
                done = done.push(c);
            }
        }
        proof {
            assert(kids@.take(kids@.len() as int) == kids@);
            lemma_rev_list_append(p, st1, kids@);
            lemma_rev_subtrees_list(p, pk as int, kids@.len() as int);
            assert(subtree(p, pk as int) == kids@ + rev_subtrees(p, pk as int, kids@.len() as int));
            assert(stack@ == st1 + kids@);
            assert(done == done0 + kids@);
            assert(rev_list(p, stack@) == rev_list(p, kids@) + rev_list(p, st1));
            assert(done + rev_list(p, stack@) =~= done0 + (subtree(p, pk as int) + rev_list(p, st1)));
            assert forall|t2: int| 0 <= t2 < stack@.len() implies opens(p, #[trigger] stack@[t2] as int) by {
                if t2 < st1.len() {
                    assert(stack@[t2] == st1[t2]);
                } else {
                    assert(stack@[t2] == kids@[t2 - st1.len()]);
                }
            }
        }
    }
    proof {
        assert(done == goal);
    }
}

/// What the strand-break rule reads of a loop: closing pair, child pairs, unpaired bases.
pub type Skeleton = (Option<(usize, usize)>, Seq<(usize, usize)>, Seq<usize>);

pub open spec fn skeletons(loops: Seq<LoopInfo>) -> Seq<Skeleton> {
    loops.map_values(|i: LoopInfo| (i.parent_pair, i.child_pairs@, i.unpaired_bases@))
}

/// Base `b` belongs to the loop: an unpaired base of it, or an end of its
/// closing pair or of one of its child pairs.
pub open spec fn is_member(s: Skeleton, b: usize) -> bool {
    ||| s.2.contains(b)
    ||| exists|t: int| 0 <= t < s.1.len() && ((#[trigger] s.1[t]).0 == b || s.1[t].1 == b)
    ||| (s.0 is Some && (s.0->Some_0.0 == b || s.0->Some_0.1 == b))
}

/// The first loop below `hi` closed by `pair`.
pub open spec fn first_closed_by(sk: Seq<Skeleton>, pair: (usize, usize), hi: int) -> Option<int>
    decreases hi,
{
    if hi <= 0 {
        None
    } else {
        match first_closed_by(sk, pair, hi - 1) {
            Some(x) => Some(x),
            None => if sk[hi - 1].0 == Some(pair) {
                Some(hi - 1)
            } else {
                None
            },
        }
    }
}

/// The first loop below `hi` that holds `pair` as a child pair.
pub open spec fn first_holding(sk: Seq<Skeleton>, pair: (usize, usize), hi: int) -> Option<int>
    decreases hi,
{
    if hi <= 0 {
        None
    } else {
        match first_holding(sk, pair, hi - 1) {
            Some(x) => Some(x),
            None => if sk[hi - 1].1.contains(pair) {
                Some(hi - 1)
            } else {
                None
            },
        }
    }
}

/// The last loop below `hi` of which both `a` and `b` are members.
pub open spec fn last_sharing(sk: Seq<Skeleton>, a: usize, b: usize, hi: int) -> Option<int>
    decreases hi,
{
    if hi <= 0 {
        None
    } else if is_member(sk[hi - 1], a) && is_member(sk[hi - 1], b) {
        Some(hi - 1)
    } else {
        last_sharing(sk, a, b, hi - 1)
    }
}

/// The loop that receives the strand break before base `nick` (for `nick == 0`,
/// the break between the last and the first base). Where the two bases on either
/// side form a pair, it goes to the loop that pair closes, or for the break at 0
/// to the loop holding that pair as a child; otherwise to the highest-indexed
/// loop of which both bases are members. A break after the last base has no loop.
pub open spec fn nick_owner(sk: Seq<Skeleton>, p: Seq<usize>, nick: usize) -> Option<int> {
    let n = p.len();
    if nick == 0 {
        if p[n - 1] == 0 {
            first_holding(sk, (0usize, (n - 1) as usize), sk.len() as int)
        } else {
            last_sharing(sk, (n - 1) as usize, 0usize, sk.len() as int)
        }
    } else if p[nick - 1] == nick {
        first_closed_by(sk, ((nick - 1) as usize, nick), sk.len() as int)
    } else {
        last_sharing(sk, (nick - 1) as usize, nick, sk.len() as int)
    }
}

/// The breaks of `nicks`, in order, that go to loop `l`.
pub open spec fn owned_nicks(sk: Seq<Skeleton>, p: Seq<usize>, nicks: Seq<usize>, l: int) -> Seq<usize>
    decreases nicks.len(),
{
    if nicks.len() == 0 {
        Seq::empty()
    } else if nick_owner(sk, p, nicks.last()) == Some(l) {
        owned_nicks(sk, p, nicks.drop_last(), l).push(nicks.last())
    } else {
        owned_nicks(sk, p, nicks.drop_last(), l)
    }
}

fn holds_child_pair(info: &LoopInfo, pair: (usize, usize)) -> (r: bool)
    ensures
        r == info.child_pairs@.contains(pair),
{
    let mut found = false;
    for t in 0..info.child_pairs.len()
        invariant
            found == exists|i: int| 0 <= i < t && info.child_pairs@[i] == pair,
    {
        let (a, b) = info.child_pairs[t];
        if a == pair.0 && b == pair.1 {
            found = true;
        }
    }
    found
}

fn has_member(info: &LoopInfo, b: usize) -> (r: bool)
    ensures
        r == is_member((info.parent_pair, info.child_pairs@, info.unpaired_bases@), b),
{
    let mut in_unpaired = false;
    for t in 0..info.unpaired_bases.len()
        invariant
            in_unpaired == exists|i: int| 0 <= i < t && info.unpaired_bases@[i] == b,
    {
        if info.unpaired_bases[t] == b {
            in_unpaired = true;
        }
    }
    let mut in_child = false;
    for t in 0..info.child_pairs.len()
        invariant
            in_child == exists|i: int|
                0 <= i < t && ((#[trigger] info.child_pairs@[i]).0 == b || info.child_pairs@[i].1 == b),
    {
        let (x, y) = info.child_pairs[t];
        if x == b || y == b {
            in_child = true;
        }
    }
    let in_parent = match info.parent_pair {
        Some((x, y)) => x == b || y == b,
        None => false,
    };
    proof {
        let s = (info.parent_pair, info.child_pairs@, info.unpaired_bases@);
        if in_unpaired {
            let i = choose|i: int| 0 <= i < info.unpaired_bases@.len() && info.unpaired_bases@[i] == b;
            assert(s.2[i] == b);
        }
        if s.2.contains(b) {
            let i = choose|i: int| 0 <= i < s.2.len() && s.2[i] == b;
            assert(info.unpaired_bases@[i] == b);
        }
        assert(in_unpaired == s.2.contains(b));
        if exists|t: int| 0 <= t < s.1.len() && ((#[trigger] s.1[t]).0 == b || s.1[t].1 == b) {
            let i = choose|t: int| 0 <= t < s.1.len() && ((#[trigger] s.1[t]).0 == b || s.1[t].1 == b);
            assert(info.child_pairs@[i] == s.1[i]);
            assert(in_child);
        }
        if in_child {
            let i = choose|i: int|
                0 <= i < info.child_pairs@.len() && ((#[trigger] info.child_pairs@[i]).0 == b || info.child_pairs@[i].1 == b);
            assert(s.1[i] == info.child_pairs@[i]);
        }
        assert(in_parent == (s.0 is Some && (s.0->Some_0.0 == b || s.0->Some_0.1 == b)));
    }
    in_unpaired || in_child || in_parent
}

/// The loop that receives the strand break before base `nick`.
fn nick_owner_of(loops: &Vec<LoopInfo>, pt: &PairTable, nick: usize) -> (r: Option<usize>)
    requires
        pt.wf(),
        pt.n_bases > 0,
        nick <= pt.n_bases,
    ensures
        as_owner(r) == nick_owner(skeletons(loops@), pt.pairs@, nick),
        match r {
            Some(x) => x < loops@.len(),
            None => true,
        },
{
    let ghost sk = skeletons(loops@);
    let n = pt.n_bases;
    let paired_at_zero = nick == 0 && pt.pairs[n - 1] == 0;
    let paired_inside = nick > 0 && pt.pairs[nick - 1] == nick;
    let (a, b) = if nick == 0 {
        (n - 1, 0)
    } else {
        (nick - 1, nick)
    };
    let mut found: Option<usize> = None;
    for l in 0..loops.len()
        invariant
            sk == skeletons(loops@),
            n == pt.n_bases,
            n > 0,
            !(paired_at_zero && paired_inside),
            match found {
                Some(x) => x < l,
                None => true,
            },
            paired_at_zero ==> as_owner(found) == first_holding(sk, (0usize, (n - 1) as usize), l as int),
            paired_inside ==> as_owner(found) == first_closed_by(sk, (a, b), l as int),
            !paired_at_zero && !paired_inside ==> as_owner(found) == last_sharing(sk, a, b, l as int),
    {
        let info = &loops[l];
        assert(sk[l as int] == (info.parent_pair, info.child_pairs@, info.unpaired_bases@));
        if paired_at_zero {
            if found.is_none() && holds_child_pair(info, (0, n - 1)) {
                found = Some(l);
            }
        } else if paired_inside {
            let hit = match info.parent_pair {
                Some((x, y)) => x == a && y == b,
                None => false,
            };
            if found.is_none() && hit {
                found = Some(l);
            }
        } else if has_member(info, a) && has_member(info, b) {
            found = Some(l);
        }
    }
    found
}

/// Determine which strand breaks belong to which loops.
fn assign_nicks_to_loops(loops: &mut Vec<LoopInfo>, pt: &PairTable)
    requires
        pt.wf(),
        pt.n_bases > 0,
        forall|l: int| 0 <= l < old(loops)@.len() ==> (#[trigger] old(loops)@[l]).nicks_in_loop@.len() == 0,
    ensures
        skeletons(final(loops)@) == skeletons(old(loops)@),
        forall|l: int|
            0 <= l < final(loops)@.len() ==> (#[trigger] final(loops)@[l]).nicks_in_loop@ == owned_nicks(
                skeletons(old(loops)@),
                pt.pairs@,
                pt.nicks@,
                l,
            ),
{
    let ghost sk = skeletons(loops@);
    let ghost nk = pt.nicks@;
    for t in 0..pt.nicks.len()
        invariant
            pt.wf(),
            pt.n_bases > 0,
            nk == pt.nicks@,
            sk.len() == loops@.len(),
            skeletons(loops@) =~= sk,
            forall|l: int|
                0 <= l < loops@.len() ==> (#[trigger] loops@[l]).nicks_in_loop@ == owned_nicks(
                    sk,
                    pt.pairs@,
                    nk.take(t as int),
                    l,
                ),
    {
        let nick = pt.nicks[t];
        let owner = nick_owner_of(loops, pt, nick);
        proof {
            assert(nk.take(t + 1).drop_last() == nk.take(t as int));
            assert(nk.take(t + 1).last() == nick);
        }
        match owner {
            Some(li) => {
                let ghost before = loops@;
                loops[li].nicks_in_loop.push(nick);
                proof {
                    assert forall|l: int| 0 <= l < loops@.len() implies (#[trigger] skeletons(loops@)[l]) == sk[l] by {
                        if l != li {
                            assert(loops@[l] == before[l]);
                        }
                        assert(skeletons(before)[l] == sk[l]);
                    }
                }
            },
            None => {},
        }
    }
    proof {
        assert(nk.take(nk.len() as int) == nk);
    }
}

/// Some base opens a pair.
pub open spec fn has_pairs(p: Seq<usize>) -> bool {
    exists|i: int| opens(p, i)
}

/// `loops` is the external loop followed by the loops closed by `order`.
pub open spec fn shapes_follow(p: Seq<usize>, loops: Seq<LoopInfo>, order: Seq<usize>) -> bool {
    &&& loops.len() == order.len() + 1
    &&& has_shape(p, loops[0], None)
    &&& forall|j: int| 0 <= j < order.len() ==> has_shape(p, loops[j + 1], Some(#[trigger] order[j] as int))
}

/// The listing is complete: the external loop, then one loop per pair in
/// `loop_order`, each with its child pairs, unpaired bases and strand breaks.
pub open spec fn is_decomposition(p: Seq<usize>, nicks: Seq<usize>, loops: Seq<LoopInfo>) -> bool {
    &&& shapes_follow(p, loops, loop_order(p))
    &&& forall|l: int|
        0 <= l < loops.len() ==> (#[trigger] loops[l]).nicks_in_loop@ == owned_nicks(
            skeletons(loops),
            p,
            nicks,
            l,
        )
}

proof fn lemma_child_list_nonempty(p: Seq<usize>, o: Option<int>, k: int, hi: int)
    requires
        0 <= k < hi,
        is_child_of(p, o, k),
    ensures
        child_list(p, o, hi).len() > 0,
    decreases hi,
{
    if k < hi - 1 {
        lemma_child_list_nonempty(p, o, k, hi - 1);
    }
}

/// Decompose the pair table into a hierarchical loop tree.
///
/// Index 0 is the external loop. The first outermost pair's loop follows with
/// its whole subtree; then the loops of the other outermost pairs in sequence
/// order, and then their subtrees, last first. Every subtree lists the children
/// of a loop in sequence order and then their subtrees, last child first.
/// A table without pairs gives no loops.
pub fn decompose(pt: &PairTable) -> (r: Vec<LoopInfo>)
    requires
        pt.wf(),
    ensures
        !has_pairs(pt.pairs@) ==> r@.len() == 0,
        has_pairs(pt.pairs@) ==> is_decomposition(pt.pairs@, pt.nicks@, r@),
        forall|l: int| 0 <= l < r@.len() ==> bases_below(#[trigger] r@[l], pt.n_bases),
{
    let ghost p = pt.pairs@;
    let n = pt.n_bases;
    let mut first: Option<usize> = None;
    for i in 0..n
        invariant
            n == p.len(),
            p == pt.pairs@,
            match first {
                None => forall|x: int| 0 <= x < i ==> !opens(p, x),
                Some(f) => opens(p, f as int) && forall|x: int| 0 <= x < f ==> !opens(p, x),
            },
    {
        if first.is_none() && i < pt.pairs[i] {
            first = Some(i);
        }
    }
    let f = match first {
        None => {
            return Vec::new();
        },
        Some(f) => f,
    };
    proof {
        assert(is_outermost(p, f as int));
        lemma_child_list_nonempty(p, None, f as int, n as int);
        lemma_child_list_members(p, None, n as int);
    }
    let par = parent_table(pt);
    let outer = child_list_of(pt, &par, None);
    let ghost e = outer@;
    let mut loops: Vec<LoopInfo> = Vec::new();
    loops.push(loop_of(pt, &par, None));
    proof {
        assert(lists_loops(p, loops@, Seq::empty()));
    }
    let first_outer = outer[0];
    push_loop(pt, &par, first_outer, &mut loops, Ghost(Seq::empty()));
    let ghost o1 = seq![e[0]];
    proof {
        assert(Seq::<usize>::empty().push(first_outer) == o1);
    }
    process_subtree(pt, &par, first_outer, &mut loops, Ghost(o1));
    let ghost head = seq![e[0]] + subtree(p, e[0] as int);
    for t in 1..outer.len()
        invariant
            p == pt.pairs@,
            pt.wf(),
            is_parent_table(p, par@),
            outer@ == e,
            e == children(p, None),
            forall|t2: int| 0 <= t2 < e.len() ==> opens(p, #[trigger] e[t2] as int),
            lists_loops(p, loops@, head + e.subrange(1, t as int)),
    {
        proof {
            assert(head + e.subrange(1, t + 1) == (head + e.subrange(1, t as int)).push(e[t as int]));
        }
        push_loop(pt, &par, outer[t], &mut loops, Ghost(head + e.subrange(1, t as int)));
    }
    let ghost mid = head + e.drop_first();
    proof {
        assert(e.subrange(1, e.len() as int) == e.drop_first());
        assert(loop_order(p) == mid + rev_outer(p, e.len() as int));
    }
    let mut t = outer.len();
    let ghost mut done: Seq<usize> = mid;
    while t > 1
        invariant
            p == pt.pairs@,
            pt.wf(),
            is_parent_table(p, par@),
            outer@ == e,
            e == children(p, None),
            forall|t2: int| 0 <= t2 < e.len() ==> opens(p, #[trigger] e[t2] as int),
            t <= e.len(),
            done + rev_outer(p, t as int) == loop_order(p),
            lists_loops(p, loops@, done),
        decreases t,
    {
        process_subtree(pt, &par, outer[t - 1], &mut loops, Ghost(done));
        proof {
            assert(rev_outer(p, t as int) == subtree(p, e[t - 1] as int) + rev_outer(p, t - 1));
            assert(done + subtree(p, e[t - 1] as int) + rev_outer(p, t - 1) =~= done + rev_outer(p, t as int));
            done = done + subtree(p, e[t - 1] as int);
        }
        t = t - 1;
    }
    proof {
        assert(done == loop_order(p));
    }
    let ghost before = loops@;
    assign_nicks_to_loops(&mut loops, pt);
    proof {
        assert forall|l: int| 0 <= l < loops@.len() implies #[trigger] loops@[l].parent_pair == before[l].parent_pair
            && loops@[l].child_pairs@ == before[l].child_pairs@ && loops@[l].unpaired_bases@
            == before[l].unpaired_bases@ by {
            assert(skeletons(loops@)[l] == skeletons(before)[l]);
        }
        assert(loops@.len() == skeletons(loops@).len());
        assert(before.len() == skeletons(before).len());
        let ord = loop_order(p);
        assert(loops@[0].parent_pair == before[0].parent_pair);
        assert forall|j: int| 0 <= j < ord.len() implies has_shape(p, loops@[j + 1], Some(#[trigger] ord[j] as int)) by {
            assert(loops@[j + 1].parent_pair == before[j + 1].parent_pair);
            assert(has_shape(p, before[j + 1], Some(ord[j] as int)));
        }
        assert(shapes_follow(p, loops@, loop_order(p)));
        assert forall|l: int| 0 <= l < loops@.len() implies bases_below(#[trigger] loops@[l], n) by {
            assert(bases_below(before[l], n));
            lemma_owned_nicks_from(skeletons(before), p, pt.nicks@, l);
            let own = owned_nicks(skeletons(before), p, pt.nicks@, l);
            assert forall|t: int| 0 <= t < loops@[l].nicks_in_loop@.len() implies #[trigger] loops@[l].nicks_in_loop@[t] <= n by {
                let w = choose|w: int| 0 <= w < pt.nicks@.len() && pt.nicks@[w] == own[t];
                assert(pt.nicks@[w] <= n);
            }
        }
    }
    loops
}

/// The breaks a loop receives are breaks of the table.
proof fn lemma_owned_nicks_from(sk: Seq<Skeleton>, p: Seq<usize>, nicks: Seq<usize>, l: int)
    ensures
        forall|t: int|
            0 <= t < owned_nicks(sk, p, nicks, l).len() ==> exists|w: int|
                0 <= w < nicks.len() && nicks[w] == #[trigger] owned_nicks(sk, p, nicks, l)[t],
    decreases nicks.len(),
{
    if nicks.len() > 0 {
        let prev_n = nicks.drop_last();
        lemma_owned_nicks_from(sk, p, prev_n, l);
        let prev = owned_nicks(sk, p, prev_n, l);
        let cur = owned_nicks(sk, p, nicks, l);
        assert forall|t: int| 0 <= t < cur.len() implies exists|w: int|
            0 <= w < nicks.len() && nicks[w] == #[trigger] cur[t] by {
            if t < prev.len() {
                assert(cur[t] == prev[t]);
                let w = choose|w: int| 0 <= w < prev_n.len() && prev_n[w] == prev[t];
                assert(nicks[w] == prev_n[w]);
            } else {
                assert(nicks[nicks.len() - 1] == cur[t]);
            }
        }
    }
}

} // verus!
