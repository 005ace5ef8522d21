//! The loop tree covers the pair table: every pair closes exactly one loop.

use vstd::prelude::*;
use crate::loops::{
    child_list, children, encloses, is_child_of, is_outermost, is_parent, loop_order, opens,
    rev_list, rev_outer, span, subtree,
};
use crate::types::is_pairing;
use vstd::seq_lib::lemma_no_dup_in_concat;

verus! {

/// Two pairs that both enclose a third are nested, one in the other.
proof fn lemma_nested(p: Seq<usize>, a: int, b: int, k: int)
    requires
        is_pairing(p),
        encloses(p, a, k),
        encloses(p, b, k),
        a != b,
    ensures
        encloses(p, a, b) || encloses(p, b, a),
{
    if a < b {
        assert(p[b] < p[a]);
    } else {
        assert(p[a] < p[b]);
    }
}

/// A candidate for the pair of `o`'s loop on the way to `k`: inside `o` and
/// equal to or enclosing `k`.
pub open spec fn on_way(p: Seq<usize>, o: Option<int>, k: int, q: int) -> bool {
    &&& match o {
        None => opens(p, q),
        Some(m) => encloses(p, m, q),
    }
    &&& (q == k || encloses(p, q, k))
}

/// The widest candidate below `hi`, or -1 if there is none.
proof fn widest(p: Seq<usize>, o: Option<int>, k: int, hi: int) -> (c: int)
    ensures
        c == -1 ==> forall|q: int| 0 <= q < hi ==> !#[trigger] on_way(p, o, k, q),
        c != -1 ==> 0 <= c < hi && on_way(p, o, k, c) && forall|q: int|
            0 <= q < hi && #[trigger] on_way(p, o, k, q) ==> span(p, q) <= span(p, c),
    decreases hi,
{
    if hi <= 0 {
        -1
    } else {
        let c0 = widest(p, o, k, hi - 1);
        if on_way(p, o, k, hi - 1) && (c0 == -1 || span(p, c0) < span(p, hi - 1)) {
            hi - 1
        } else {
            c0
        }
    }
}

/// Inside the loop of `o`, the way to a pair `k` that `o` encloses (or any
/// pair, for the external loop) passes through a child of that loop.
proof fn lemma_child_on_way(p: Seq<usize>, o: Option<int>, k: int) -> (c: int)
    requires
        is_pairing(p),
        on_way(p, o, k, k),
    ensures
        is_child_of(p, o, c),
        c == k || encloses(p, c, k),
{
    let c = widest(p, o, k, p.len() as int);
    assert(on_way(p, o, k, k));
    assert(c != -1);
    match o {
        None => {
            assert forall|m2: int| !#[trigger] encloses(p, m2, c) by {
                if encloses(p, m2, c) {
                    assert(on_way(p, o, k, m2));
                }
            }
        },
        Some(m) => {
            assert forall|m2: int| #[trigger] encloses(p, m2, c) implies span(p, m) <= span(p, m2) by {
                if span(p, m2) < span(p, m) {
                    lemma_nested(p, m, m2, c);
                    assert(on_way(p, o, k, m2));
                }
            }
        },
    }
    c
}

proof fn lemma_child_list_complete(p: Seq<usize>, o: Option<int>, k: int, hi: int)
    requires
        0 <= k < hi <= p.len() <= usize::MAX,
        is_child_of(p, o, k),
    ensures
        child_list(p, o, hi).contains(k as usize),
    decreases hi,
{
    if k < hi - 1 {
        lemma_child_list_complete(p, o, k, hi - 1);
        let prev = child_list(p, o, hi - 1);
        let w = choose|w: int| 0 <= w < prev.len() && prev[w] == k as usize;
        assert(child_list(p, o, hi)[w] == k as usize);
    } else {
        let cur = child_list(p, o, hi);
        assert(cur[cur.len() - 1] == k as usize);
    }
}

proof fn lemma_child_list_sound(p: Seq<usize>, o: Option<int>, hi: int)
    requires
        hi <= p.len() <= usize::MAX,
    ensures
        forall|t: int|
            0 <= t < child_list(p, o, hi).len() ==> is_child_of(p, o, #[trigger] child_list(p, o, hi)[t] as int)
                && child_list(p, o, hi)[t] < hi,
        forall|s: int, t: int|
            0 <= s < t < child_list(p, o, hi).len() ==> #[trigger] child_list(p, o, hi)[s]
                < #[trigger] child_list(p, o, hi)[t],
    decreases hi,
{
    if hi > 0 {
        lemma_child_list_sound(p, o, hi - 1);
        let prev = child_list(p, o, hi - 1);
        let cur = child_list(p, o, hi);
        assert forall|t: int| 0 <= t < cur.len() implies is_child_of(p, o, #[trigger] cur[t] as int) && cur[t] < hi by {
            if t < prev.len() {
                assert(cur[t] == prev[t]);
            }
        }
        assert forall|s: int, t: int| 0 <= s < t < cur.len() implies #[trigger] cur[s] < #[trigger] cur[t] by {
            if t < prev.len() {
                assert(cur[s] == prev[s] && cur[t] == prev[t]);
            } else {
                assert(cur[s] == prev[s]);
            }
        }
    }
}

proof fn lemma_rev_list_contains(p: Seq<usize>, cs: Seq<usize>, x: usize)
    ensures
        rev_list(p, cs).contains(x) <==> exists|j: int| 0 <= j < cs.len() && #[trigger] subtree(p, cs[j] as int).contains(x),
    decreases cs.len(),
{
    if cs.len() > 0 {
        let last = cs.last() as int;
        let front = cs.drop_last();
        lemma_rev_list_contains(p, front, x);
        let a = subtree(p, last);
        let b = rev_list(p, front);
        assert(rev_list(p, cs) == a + b);
        if rev_list(p, cs).contains(x) {
            let i = choose|i: int| 0 <= i < (a + b).len() && (a + b)[i] == x;
            if i < a.len() {
                assert(a[i] == x);
                assert(subtree(p, cs[cs.len() - 1] as int).contains(x));
            } else {
                assert(b[i - a.len()] == x);
                let j = choose|j: int| 0 <= j < front.len() && #[trigger] subtree(p, front[j] as int).contains(x);
                assert(front[j] == cs[j]);
            }
        }
        if exists|j: int| 0 <= j < cs.len() && #[trigger] subtree(p, cs[j] as int).contains(x) {
            let j = choose|j: int| 0 <= j < cs.len() && #[trigger] subtree(p, cs[j] as int).contains(x);
            if j == cs.len() - 1 {
                let i = choose|i: int| 0 <= i < a.len() && a[i] == x;
                assert((a + b)[i] == x);
            } else {
                assert(front[j] == cs[j]);
                let i = choose|i: int| 0 <= i < b.len() && b[i] == x;
                assert((a + b)[a.len() + i] == x);
            }
        }
    }
}

/// The loops listed below a pair are closed by exactly the pairs it encloses.
proof fn lemma_subtree_members(p: Seq<usize>, m: int)
    requires
        is_pairing(p),
        p.len() <= usize::MAX,
        opens(p, m),
    ensures
        forall|x: usize| #[trigger] subtree(p, m).contains(x) <==> encloses(p, m, x as int),
    decreases span(p, m),
{
    let kids = children(p, Some(m));
    lemma_child_list_sound(p, Some(m), p.len() as int);
    crate::loops::lemma_rev_subtrees_list(p, m, kids.len() as int);
    assert(kids.take(kids.len() as int) == kids);
    assert(subtree(p, m) == kids + rev_list(p, kids));
    assert forall|j: int, x: usize| 0 <= j < kids.len() implies (#[trigger] subtree(
        p,
        kids[j] as int,
    ).contains(x) <==> encloses(p, kids[j] as int, x as int)) by {
        assert(is_parent(p, m, kids[j] as int));
        lemma_subtree_members(p, kids[j] as int);
    }
    assert forall|x: usize| #[trigger] subtree(p, m).contains(x) <==> encloses(p, m, x as int) by {
        lemma_rev_list_contains(p, kids, x);
        let a = kids;
        let b = rev_list(p, kids);
        if subtree(p, m).contains(x) {
            let i = choose|i: int| 0 <= i < (a + b).len() && (a + b)[i] == x;
            if i < a.len() {
                assert(a[i] == x);
            } else {
                assert(b[i - a.len()] == x);
                assert(b.contains(x));
                let j = choose|j: int| 0 <= j < kids.len() && #[trigger] subtree(p, kids[j] as int).contains(x);
                assert(is_parent(p, m, kids[j] as int));
            }
        }
        if encloses(p, m, x as int) {
            assert(on_way(p, Some(m), x as int, x as int));
            let c = lemma_child_on_way(p, Some(m), x as int);
            lemma_child_list_complete(p, Some(m), c, p.len() as int);
            let j = choose|j: int| 0 <= j < kids.len() && kids[j] == c as usize;
            if c == x as int {
                assert((a + b)[j] == x);
            } else {
                assert(subtree(p, kids[j] as int).contains(x));
                assert(b.contains(x));
                let i = choose|i: int| 0 <= i < b.len() && b[i] == x;
                assert((a + b)[a.len() + i] == x);
            }
        }
    }
}

proof fn lemma_concat_contains(a: Seq<usize>, b: Seq<usize>, x: usize)
    ensures
        (a + b).contains(x) <==> a.contains(x) || b.contains(x),
{
    if (a + b).contains(x) {
        let i = choose|i: int| 0 <= i < (a + b).len() && (a + b)[i] == x;
        if i < a.len() {
            assert(a[i] == x);
        } else {
            assert(b[i - a.len()] == x);
        }
    }
    if a.contains(x) {
        let i = choose|i: int| 0 <= i < a.len() && a[i] == x;
        assert((a + b)[i] == x);
    }
    if b.contains(x) {
        let i = choose|i: int| 0 <= i < b.len() && b[i] == x;
        assert((a + b)[a.len() + i] == x);
    }
}

proof fn lemma_concat_distinct(a: Seq<usize>, b: Seq<usize>)
    requires
        a.no_duplicates(),
        b.no_duplicates(),
        forall|x: usize| #[trigger] a.contains(x) ==> !b.contains(x),
    ensures
        (a + b).no_duplicates(),
{
    assert forall|i: int, j: int| 0 <= i < a.len() && 0 <= j < b.len() implies a[i] != b[j] by {
        assert(a.contains(a[i]));
        if a[i] == b[j] {
            assert(b.contains(b[j]));
        }
    }
    lemma_no_dup_in_concat(a, b);
}

/// No child of a loop lies inside another child of the same loop.
proof fn lemma_children_apart(p: Seq<usize>, o: Option<int>, c1: int, c2: int)
    requires
        is_child_of(p, o, c1),
        is_child_of(p, o, c2),
    ensures
        !encloses(p, c1, c2),
{
    match o {
        None => {},
        Some(m) => {
            if encloses(p, c1, c2) {
                assert(span(p, m) <= span(p, c1));
            }
        },
    }
}

/// Strictly increasing lists hold no value twice.
proof fn lemma_increasing_distinct(s: Seq<usize>)
    requires
        forall|i: int, j: int| 0 <= i < j < s.len() ==> #[trigger] s[i] < #[trigger] s[j],
    ensures
        s.no_duplicates(),
{
    assert forall|i: int, j: int| 0 <= i < s.len() && 0 <= j < s.len() && i != j implies s[i] != s[j] by {
        if i < j {
            assert(s[i] < s[j]);
        } else {
            assert(s[j] < s[i]);
        }
    }
}

/// The subtrees of distinct children of one loop are disjoint, so listing them
/// one after the other repeats no pair.
proof fn lemma_rev_list_distinct(p: Seq<usize>, o: Option<int>, cs: Seq<usize>)
    requires
        is_pairing(p),
        p.len() <= usize::MAX,
        cs.no_duplicates(),
        forall|j: int| 0 <= j < cs.len() ==> is_child_of(p, o, #[trigger] cs[j] as int),
        forall|j: int| 0 <= j < cs.len() ==> (#[trigger] subtree(p, cs[j] as int)).no_duplicates(),
    ensures
        rev_list(p, cs).no_duplicates(),
        forall|x: usize| #[trigger] rev_list(p, cs).contains(x) <==> exists|j: int|
            0 <= j < cs.len() && encloses(p, #[trigger] cs[j] as int, x as int),
    decreases cs.len(),
{
    if cs.len() > 0 {
        let last = cs.last() as int;
        let front = cs.drop_last();
        assert(is_child_of(p, o, cs[cs.len() - 1] as int));
        assert(subtree(p, cs[cs.len() - 1] as int).no_duplicates());
        assert forall|j: int| 0 <= j < front.len() implies is_child_of(p, o, #[trigger] front[j] as int) by {
            assert(front[j] == cs[j]);
        }
        assert forall|j: int| 0 <= j < front.len() implies (#[trigger] subtree(p, front[j] as int)).no_duplicates() by {
            assert(front[j] == cs[j]);
        }
        lemma_rev_list_distinct(p, o, front);
        let a = subtree(p, last);
        let b = rev_list(p, front);
        assert(rev_list(p, cs) == a + b);
        assert(opens(p, last));
        lemma_subtree_members(p, last);
        assert forall|x: usize| #[trigger] a.contains(x) implies !b.contains(x) by {
            if b.contains(x) {
                let j = choose|j: int| 0 <= j < front.len() && encloses(p, #[trigger] front[j] as int, x as int);
                assert(front[j] == cs[j]);
                assert(cs[j] != cs[cs.len() - 1]);
                lemma_nested(p, last, front[j] as int, x as int);
                lemma_children_apart(p, o, last, front[j] as int);
                lemma_children_apart(p, o, front[j] as int, last);
            }
        }
        lemma_concat_distinct(a, b);
        assert forall|x: usize| #[trigger] rev_list(p, cs).contains(x) <==> exists|j: int|
            0 <= j < cs.len() && encloses(p, #[trigger] cs[j] as int, x as int) by {
            lemma_concat_contains(a, b, x);
            if exists|j: int| 0 <= j < cs.len() && encloses(p, #[trigger] cs[j] as int, x as int) {
                let j = choose|j: int| 0 <= j < cs.len() && encloses(p, #[trigger] cs[j] as int, x as int);
                if j < front.len() {
                    assert(front[j] == cs[j]);
                }
            }
            if b.contains(x) {
                let j = choose|j: int| 0 <= j < front.len() && encloses(p, #[trigger] front[j] as int, x as int);
                assert(front[j] == cs[j]);
            }
        }
    }
}

/// No pair is listed twice below a pair.
proof fn lemma_subtree_distinct(p: Seq<usize>, m: int)
    requires
        is_pairing(p),
        p.len() <= usize::MAX,
        opens(p, m),
    ensures
        subtree(p, m).no_duplicates(),
    decreases span(p, m),
{
    let kids = children(p, Some(m));
    lemma_child_list_sound(p, Some(m), p.len() as int);
    crate::loops::lemma_rev_subtrees_list(p, m, kids.len() as int);
    assert(kids.take(kids.len() as int) == kids);
    assert(subtree(p, m) == kids + rev_list(p, kids));
    assert forall|j: int| 0 <= j < kids.len() implies (#[trigger] subtree(p, kids[j] as int)).no_duplicates() by {
        assert(is_parent(p, m, kids[j] as int));
        lemma_subtree_distinct(p, kids[j] as int);
    }
    lemma_increasing_distinct(kids);
    lemma_rev_list_distinct(p, Some(m), kids);
    assert forall|x: usize| #[trigger] kids.contains(x) implies !rev_list(p, kids).contains(x) by {
        let i = choose|i: int| 0 <= i < kids.len() && kids[i] == x;
        if rev_list(p, kids).contains(x) {
            let j = choose|j: int| 0 <= j < kids.len() && encloses(p, #[trigger] kids[j] as int, x as int);
            lemma_children_apart(p, Some(m), kids[j] as int, kids[i] as int);
        }
    }
    lemma_concat_distinct(kids, rev_list(p, kids));
}

proof fn lemma_rev_outer_list(p: Seq<usize>, k: int)
    requires
        1 <= k <= children(p, None).len(),
    ensures
        rev_outer(p, k) == rev_list(p, children(p, None).subrange(1, k)),
    decreases k,
{
    let e = children(p, None);
    if k > 1 {
        lemma_rev_outer_list(p, k - 1);
        assert(e.subrange(1, k).drop_last() == e.subrange(1, k - 1));
        assert(e.subrange(1, k).last() == e[k - 1]);
    } else {
        assert(e.subrange(1, k) =~= Seq::<usize>::empty());
    }
}

/// Every pair of a valid table closes exactly one loop: the closing pairs of
/// loops `1..` are the pairs of the table, none listed twice.
pub proof fn lemma_each_pair_closes_one_loop(p: Seq<usize>)
    requires
        is_pairing(p),
        p.len() <= usize::MAX,
    ensures
        loop_order(p).no_duplicates(),
        forall|x: usize| #[trigger] loop_order(p).contains(x) <==> opens(p, x as int),
{
    let e = children(p, None);
    let n = p.len() as int;
    lemma_child_list_sound(p, None, n);
    assert forall|x: usize| opens(p, x as int) implies e.contains(x) || exists|j: int|
        0 <= j < e.len() && encloses(p, #[trigger] e[j] as int, x as int) by {
        assert(on_way(p, None, x as int, x as int));
        let c = lemma_child_on_way(p, None, x as int);
        lemma_child_list_complete(p, None, c, n);
        let j = choose|j: int| 0 <= j < e.len() && e[j] == c as usize;
        if c != x as int {
            assert(encloses(p, e[j] as int, x as int));
        }
    }
    if e.len() == 0 {
        assert forall|x: usize| #[trigger] loop_order(p).contains(x) <==> opens(p, x as int) by {
            if opens(p, x as int) {
                assert(e.contains(x) || exists|j: int| 0 <= j < e.len() && encloses(p, #[trigger] e[j] as int, x as int));
            }
        }
        return;
    }
    let e0 = e[0] as int;
    let rest = e.subrange(1, e.len() as int);
    assert(rest == e.drop_first());
    lemma_rev_outer_list(p, e.len() as int);
    assert forall|j: int| 0 <= j < e.len() implies (#[trigger] subtree(p, e[j] as int)).no_duplicates() by {
        assert(is_outermost(p, e[j] as int));
        lemma_subtree_distinct(p, e[j] as int);
    }
    assert forall|j: int| 0 <= j < rest.len() implies is_child_of(p, None, #[trigger] rest[j] as int)
        && subtree(p, rest[j] as int).no_duplicates() by {
        assert(rest[j] == e[j + 1]);
    }
    lemma_increasing_distinct(e);
    lemma_increasing_distinct(rest);
    lemma_rev_list_distinct(p, None, rest);
    assert(opens(p, e0));
    lemma_subtree_members(p, e0);
    lemma_subtree_distinct(p, e0);
    let a = seq![e[0]] + subtree(p, e0);
    let c = rev_list(p, rest);
    assert(loop_order(p) == a + rest + c);
    // the first outermost pair, then its subtree
    assert forall|x: usize| #[trigger] seq![e[0]].contains(x) implies !subtree(p, e0).contains(x) by {
        assert(seq![e[0]][0] == x);
    }
    lemma_concat_distinct(seq![e[0]], subtree(p, e0));
    // then the other outermost pairs
    assert forall|x: usize| #[trigger] a.contains(x) implies !rest.contains(x) by {
        lemma_concat_contains(seq![e[0]], subtree(p, e0), x);
        if rest.contains(x) {
            let j = choose|j: int| 0 <= j < rest.len() && rest[j] == x;
            assert(rest[j] == e[j + 1]);
            assert(is_outermost(p, x as int));
            if seq![e[0]].contains(x) {
                assert(seq![e[0]][0] == x);
                assert(e[0] < e[j + 1]);
            }
        }
    }
    lemma_concat_distinct(a, rest);
    // then their subtrees
    assert forall|x: usize| #[trigger] (a + rest).contains(x) implies !c.contains(x) by {
        lemma_concat_contains(a, rest, x);
        lemma_concat_contains(seq![e[0]], subtree(p, e0), x);
        if c.contains(x) {
            let j = choose|j: int| 0 <= j < rest.len() && encloses(p, #[trigger] rest[j] as int, x as int);
            assert(rest[j] == e[j + 1]);
            assert(is_outermost(p, e[j + 1] as int));
            if rest.contains(x) {
                let i = choose|i: int| 0 <= i < rest.len() && rest[i] == x;
                assert(rest[i] == e[i + 1]);
                assert(is_outermost(p, x as int));
            }
            if seq![e[0]].contains(x) {
                assert(seq![e[0]][0] == x);
            }
            if subtree(p, e0).contains(x) {
                lemma_nested(p, e0, rest[j] as int, x as int);
            }
        }
    }
    lemma_concat_distinct(a + rest, c);
    // and together they hold every pair
    assert forall|x: usize| #[trigger] loop_order(p).contains(x) <==> opens(p, x as int) by {
        lemma_concat_contains(a + rest, c, x);
        lemma_concat_contains(a, rest, x);
        lemma_concat_contains(seq![e[0]], subtree(p, e0), x);
        if opens(p, x as int) {
            if e.contains(x) {
                let j = choose|j: int| 0 <= j < e.len() && e[j] == x;
                if j == 0 {
                    assert(seq![e[0]][0] == x);
                } else {
                    assert(rest[j - 1] == x);
                }
            } else {
                let j = choose|j: int| 0 <= j < e.len() && encloses(p, #[trigger] e[j] as int, x as int);
                if j > 0 {
                    assert(rest[j - 1] == e[j]);
                }
            }
        }
        if seq![e[0]].contains(x) {
            assert(seq![e[0]][0] == x);
        }
        if rest.contains(x) {
            let i = choose|i: int| 0 <= i < rest.len() && rest[i] == x;
            assert(rest[i] == e[i + 1]);
        }
    }
}

} // verus!
