//! The elements on a loop's circle, in the order a layout walks them, and the
//! other integer bookkeeping of the layout: the kind of step between two
//! elements, the pair bonds of a loop and the loop across each, which rule
//! fixes a loop's radius, and whether a loop's backbone runs along its circle.

use vstd::prelude::*;
use crate::types::{LoopInfo, PairTable};

verus! {

/// One element on a loop's circle.
#[derive(Clone, Copy, Debug, PartialEq, Eq)]
pub enum Elem {
    /// First base of a pair bond in walking order: (base, partner, bond closes this loop).
    PairFirst(usize, usize, bool),
    /// Second base of a pair bond in walking order: (base, partner, bond closes this loop).
    PairLast(usize, usize, bool),
    Unpaired(usize),
    /// A strand break between the elements on either side.
    Nick,
}

/// The base an element stands at (none for a break marker).
pub open spec fn key(e: Elem) -> int {
    match e {
        Elem::PairFirst(b, _, _) => b as int,
        Elem::PairLast(b, _, _) => b as int,
        Elem::Unpaired(b) => b as int,
        Elem::Nick => -1,
    }
}

/// The two elements of each child pair, in listing order.
pub open spec fn child_elems(cs: Seq<(usize, usize)>) -> Seq<Elem>
    decreases cs.len(),
{
    if cs.len() == 0 {
        Seq::empty()
    } else {
        let (ci, cj) = cs.last();
        child_elems(cs.drop_last()) + seq![Elem::PairFirst(ci, cj, false), Elem::PairLast(cj, ci, false)]
    }
}

pub open spec fn unpaired_elems(us: Seq<usize>) -> Seq<Elem> {
    us.map_values(|b: usize| Elem::Unpaired(b))
}

/// The loop's elements in listing order: the closing pair (its 3' base first),
/// then the child pairs, then the unpaired bases.
pub open spec fn loop_items(info: LoopInfo) -> Seq<Elem> {
    let head = match info.parent_pair {
        Some((pi, pj)) => seq![Elem::PairFirst(pj, pi, true), Elem::PairLast(pi, pj, true)],
        None => Seq::empty(),
    };
    head + child_elems(info.child_pairs@) + unpaired_elems(info.unpaired_bases@)
}

/// The elements of `items` that stand at base `b`, in their order.
pub open spec fn at_base(items: Seq<Elem>, b: int) -> Seq<Elem>
    decreases items.len(),
{
    if items.len() == 0 {
        Seq::empty()
    } else if key(items.last()) == b {
        at_base(items.drop_last(), b).push(items.last())
    } else {
        at_base(items.drop_last(), b)
    }
}

/// The elements of `items` at bases below `hi`, by increasing base; elements at
/// one base keep their order.
pub open spec fn by_base(items: Seq<Elem>, hi: int) -> Seq<Elem>
    decreases hi,
{
    if hi <= 0 {
        Seq::empty()
    } else {
        by_base(items, hi - 1) + at_base(items, hi - 1)
    }
}

/// The first position of `s` whose element stands at base `b`.
pub open spec fn first_at(s: Seq<Elem>, b: int, hi: int) -> Option<int>
    decreases hi,
{
    if hi <= 0 {
        None
    } else {
        match first_at(s, b, hi - 1) {
            Some(x) => Some(x),
            None => if key(s[hi - 1]) == b {
                Some(hi - 1)
            } else {
                None
            },
        }
    }
}

/// Where the walk starts: at the 3' base of the closing pair for an internal
/// loop, else at the 3' base of the first child pair (position 0 if absent).
pub open spec fn walk_start(info: LoopInfo, sorted: Seq<Elem>) -> int {
    let anchor = match info.parent_pair {
        Some((_, pj)) => Some(pj as int),
        None => if info.child_pairs@.len() > 0 {
            Some(info.child_pairs@[0].1 as int)
        } else {
            None
        },
    };
    match anchor {
        None => 0,
        Some(b) => match first_at(sorted, b, sorted.len() as int) {
            Some(x) => x,
            None => 0,
        },
    }
}

/// The sorted elements walked from `start`: backwards (decreasing base,
/// wrapping) for an internal loop, forwards for the external loop.
pub open spec fn walk(sorted: Seq<Elem>, start: int, backward: bool) -> Seq<Elem> {
    let n = sorted.len() as int;
    Seq::new(
        sorted.len(),
        |i: int|
            if backward {
                if start >= i {
                    sorted[start - i]
                } else {
                    sorted[start + n - i]
                }
            } else {
                if start + i < n {
                    sorted[start + i]
                } else {
                    sorted[start + i - n]
                }
            },
    )
}

/// The pair of bases a strand break falls between.
pub open spec fn nick_edge(nick: usize, n_bases: usize) -> (int, int) {
    if nick == 0 {
        (n_bases - 1, 0)
    } else {
        (nick - 1, nick as int)
    }
}

/// The first break not yet used that falls between bases `a` and `b`, either way round.
pub open spec fn free_break(edges: Seq<(int, int)>, used: Seq<bool>, a: int, b: int, hi: int) -> Option<int>
    decreases hi,
{
    if hi <= 0 {
        None
    } else {
        match free_break(edges, used, a, b, hi - 1) {
            Some(x) => Some(x),
            None => {
                let e = edges[hi - 1];
                if !used[hi - 1] && ((a == e.0 && b == e.1) || (a == e.1 && b == e.0)) {
                    Some(hi - 1)
                } else {
                    None
                }
            },
        }
    }
}

/// The walk from position `i` on, with a break marker after each element
/// whose gap to the next one holds a break not yet used, each break used at
/// most once; last, the gap from the final element back to the first.
pub open spec fn with_breaks(ord: Seq<Elem>, edges: Seq<(int, int)>, used: Seq<bool>, i: int) -> Seq<Elem>
    decreases ord.len() - i,
{
    let n = ord.len() as int;
    if i >= n {
        if n >= 2 && free_break(edges, used, key(ord[n - 1]), key(ord[0]), edges.len() as int) is Some {
            seq![Elem::Nick]
        } else {
            Seq::empty()
        }
    } else if i < 0 {
        Seq::empty()
    } else if i + 1 < n {
        match free_break(edges, used, key(ord[i]), key(ord[i + 1]), edges.len() as int) {
            Some(x) => seq![ord[i], Elem::Nick] + with_breaks(ord, edges, used.update(x, true), i + 1),
            None => seq![ord[i]] + with_breaks(ord, edges, used, i + 1),
        }
    } else {
        seq![ord[i]] + with_breaks(ord, edges, used, i + 1)
    }
}

/// Every base that an element of the loop stands at is below `n_bases`.
pub open spec fn bases_below(info: LoopInfo, n_bases: usize) -> bool {
    &&& forall|t: int| 0 <= t < info.unpaired_bases@.len() ==> #[trigger] info.unpaired_bases@[t] < n_bases
    &&& forall|t: int|
        0 <= t < info.child_pairs@.len() ==> (#[trigger] info.child_pairs@[t]).0 < n_bases
            && info.child_pairs@[t].1 < n_bases
    &&& match info.parent_pair {
        Some((pi, pj)) => pi < n_bases && pj < n_bases,
        None => true,
    }
    &&& forall|t: int| 0 <= t < info.nicks_in_loop@.len() ==> #[trigger] info.nicks_in_loop@[t] <= n_bases
}

/// The elements of a loop in walking order, with a marker at each strand break.
pub open spec fn walked_elements(info: LoopInfo, n_bases: usize) -> Seq<Elem> {
    let sorted = by_base(loop_items(info), n_bases as int);
    let ord = walk(sorted, walk_start(info, sorted), info.parent_pair is Some);
    let edges = info.nicks_in_loop@.map_values(|nk: usize| nick_edge(nk, n_bases));
    with_breaks(ord, edges, Seq::new(edges.len(), |x: int| false), 0)
}

proof fn lemma_at_base_keys(items: Seq<Elem>, b: int)
    ensures
        forall|x: int| 0 <= x < at_base(items, b).len() ==> key(#[trigger] at_base(items, b)[x]) == b,
    decreases items.len(),
{
    if items.len() > 0 {
        lemma_at_base_keys(items.drop_last(), b);
        let prev = at_base(items.drop_last(), b);
        assert forall|x: int| 0 <= x < at_base(items, b).len() implies key(#[trigger] at_base(items, b)[x]) == b by {
            if x < prev.len() {
                assert(at_base(items, b)[x] == prev[x]);
            }
        }
    }
}

proof fn lemma_by_base_keys(items: Seq<Elem>, hi: int)
    ensures
        forall|x: int| 0 <= x < by_base(items, hi).len() ==> 0 <= key(#[trigger] by_base(items, hi)[x]) < hi,
    decreases hi,
{
    if hi > 0 {
        lemma_by_base_keys(items, hi - 1);
        lemma_at_base_keys(items, hi - 1);
        let a = by_base(items, hi - 1);
        let b = at_base(items, hi - 1);
        assert forall|x: int| 0 <= x < by_base(items, hi).len() implies 0 <= key(#[trigger] by_base(items, hi)[x]) < hi by {
            if x < a.len() {
                assert(by_base(items, hi)[x] == a[x]);
            } else {
                assert(by_base(items, hi)[x] == b[x - a.len()]);
            }
        }
    }
}

/// The base of an element that stands at one.
fn base_of(e: Elem) -> (r: usize)
    requires
        key(e) >= 0,
    ensures
        r == key(e),
{
    match e {
        Elem::PairFirst(b, _, _) => b,
        Elem::PairLast(b, _, _) => b,
        Elem::Unpaired(b) => b,
        Elem::Nick => 0,
    }
}

fn stands_at(e: Elem, b: usize) -> (r: bool)
    ensures
        r == (key(e) == b),
{
    match e {
        Elem::PairFirst(x, _, _) => x == b,
        Elem::PairLast(x, _, _) => x == b,
        Elem::Unpaired(x) => x == b,
        Elem::Nick => false,
    }
}

/// The loop's elements in listing order.
fn items_of(info: &LoopInfo) -> (r: Vec<Elem>)
    ensures
        r@ == loop_items(*info),
{
    let mut items: Vec<Elem> = Vec::new();
    let ghost head = match info.parent_pair {
        Some((pi, pj)) => seq![Elem::PairFirst(pj, pi, true), Elem::PairLast(pi, pj, true)],
        None => Seq::<Elem>::empty(),
    };
    if let Some((pi, pj)) = info.parent_pair {
        items.push(Elem::PairFirst(pj, pi, true));
        items.push(Elem::PairLast(pi, pj, true));
    }
    proof {
        assert(items@ =~= head);
    }
    let ghost cs = info.child_pairs@;
    for t in 0..info.child_pairs.len()
        invariant
            cs == info.child_pairs@,
            items@ == head + child_elems(cs.take(t as int)),
    {
        let (ci, cj) = info.child_pairs[t];
        items.push(Elem::PairFirst(ci, cj, false));
        items.push(Elem::PairLast(cj, ci, false));
        proof {
            assert(cs.take(t + 1).drop_last() == cs.take(t as int));
            assert(cs.take(t + 1).last() == (ci, cj));
            assert(items@ =~= head + child_elems(cs.take(t + 1)));
        }
    }
    proof {
        assert(cs.take(cs.len() as int) == cs);
    }
    let ghost mid = items@;
    let ghost us = info.unpaired_bases@;
    for t in 0..info.unpaired_bases.len()
        invariant
            us == info.unpaired_bases@,
            items@ == mid + unpaired_elems(us.take(t as int)),
    {
        items.push(Elem::Unpaired(info.unpaired_bases[t]));
        proof {
            assert(items@ =~= mid + unpaired_elems(us.take(t + 1)));
        }
    }
    proof {
        assert(us.take(us.len() as int) == us);
    }
    items
}

/// The elements ordered by base, elements at one base in listing order.
fn sort_by_base(items: &Vec<Elem>, n_bases: usize) -> (r: Vec<Elem>)
    ensures
        r@ == by_base(items@, n_bases as int),
{
    let mut sorted: Vec<Elem> = Vec::new();
    for b in 0..n_bases
        invariant
            sorted@ == by_base(items@, b as int),
    {
        let ghost before = sorted@;
        for t in 0..items.len()
            invariant
                sorted@ == before + at_base(items@.take(t as int), b as int),
        {
            proof {
                assert(items@.take(t + 1).drop_last() == items@.take(t as int));
                assert(items@.take(t + 1).last() == items@[t as int]);
            }
            if stands_at(items[t], b) {
                sorted.push(items[t]);
                proof {
                    assert(sorted@ =~= before + at_base(items@.take(t + 1), b as int));
                }
            }
        }
        proof {
            assert(items@.take(items@.len() as int) == items@);
        }
    }
    sorted
}

/// The first position whose element stands at `b`.
fn position_of(s: &Vec<Elem>, b: usize) -> (r: Option<usize>)
    ensures
        match first_at(s@, b as int, s@.len() as int) {
            None => r is None,
            Some(x) => r == Some(x as usize) && 0 <= x < s@.len(),
        },
{
    let mut found: Option<usize> = None;
    for t in 0..s.len()
        invariant
            match first_at(s@, b as int, t as int) {
                None => found is None,
                Some(x) => found == Some(x as usize) && 0 <= x < t,
            },
    {
        if found.is_none() && stands_at(s[t], b) {
            found = Some(t);
        }
    }
    found
}

pub open spec fn opt_int(r: Option<usize>) -> Option<int> {
    match r {
        Some(x) => Some(x as int),
        None => None,
    }
}

/// The first break not yet used between bases `a` and `b`, either way round.
fn find_free_break(
    edges: &Vec<(usize, usize)>,
    used: &Vec<bool>,
    a: usize,
    b: usize,
    spec_edges: Ghost<Seq<(int, int)>>,
) -> (r: Option<usize>)
    requires
        edges@.len() == spec_edges@.len(),
        used@.len() == edges@.len(),
        forall|t: int|
            0 <= t < edges@.len() ==> (#[trigger] edges@[t]).0 as int == spec_edges@[t].0 && edges@[t].1 as int
                == spec_edges@[t].1,
    ensures
        opt_int(r) == free_break(spec_edges@, used@, a as int, b as int, edges@.len() as int),
        match r {
            Some(x) => x < edges@.len(),
            None => true,
        },
{
    let mut found: Option<usize> = None;
    for t in 0..edges.len()
        invariant
            edges@.len() == spec_edges@.len(),
            used@.len() == edges@.len(),
            forall|t2: int|
                0 <= t2 < edges@.len() ==> (#[trigger] edges@[t2]).0 as int == spec_edges@[t2].0
                    && edges@[t2].1 as int == spec_edges@[t2].1,
            opt_int(found) == free_break(spec_edges@, used@, a as int, b as int, t as int),
            match found {
                Some(x) => x < t,
                None => true,
            },
    {
        let (lo, hi) = edges[t];
        if found.is_none() && !used[t] && ((a == lo && b == hi) || (a == hi && b == lo)) {
            found = Some(t);
        }
    }
    found
}

/// Collect the elements on a loop's circle in walking order, inserting a
/// break marker between two elements wherever one of the loop's strand
/// breaks falls between their bases (each break used once, the gap from the
/// last element back to the first included).
pub fn collect_elements(info: &LoopInfo, pt: &PairTable) -> (r: Vec<Elem>)
    requires
        bases_below(*info, pt.n_bases),
    ensures
        r@ == walked_elements(*info, pt.n_bases),
{
    let n_bases = pt.n_bases;
    let items = items_of(info);
    let sorted = sort_by_base(&items, n_bases);
    let ghost ss = sorted@;
    proof {
        lemma_by_base_keys(items@, n_bases as int);
    }
    let n = sorted.len();
    let backward = info.parent_pair.is_some();
    let anchor: Option<usize> = match info.parent_pair {
        Some((_, pj)) => Some(pj),
        None => if info.child_pairs.len() > 0 {
            Some(info.child_pairs[0].1)
        } else {
            None
        },
    };
    let start: usize = match anchor {
        None => 0,
        Some(b) => match position_of(&sorted, b) {
            Some(x) => x,
            None => 0,
        },
    };
    assert(start == walk_start(*info, ss));
    assert(n == 0 || start < n);
    let ghost ord_spec = walk(ss, start as int, backward);
    let mut ord: Vec<Elem> = Vec::new();
    for i in 0..n
        invariant
            n == ss.len(),
            ss == sorted@,
            n == 0 || start < n,
            ord_spec == walk(ss, start as int, backward),
            ord@ == ord_spec.take(i as int),
    {
        let idx = if backward {
            if start >= i {
                start - i
            } else {
                n - (i - start)
            }
        } else {
            if i < n - start {
                start + i
            } else {
                i - (n - start)
            }
        };
        ord.push(sorted[idx]);
        proof {
            assert(ord@ =~= ord_spec.take(i + 1));
        }
    }
    proof {
        assert(ord@ =~= ord_spec);
        assert forall|x: int| 0 <= x < ord@.len() implies key(#[trigger] ord@[x]) >= 0 by {}
    }
    let ghost edges_spec = info.nicks_in_loop@.map_values(|nk: usize| nick_edge(nk, n_bases));
    let mut result: Vec<Elem> = Vec::new();
    if n == 0 {
        proof {
            assert(with_breaks(ord_spec, edges_spec, Seq::new(edges_spec.len(), |x: int| false), 0)
                =~= Seq::<Elem>::empty());
        }
        return result;
    }
    let mut edges: Vec<(usize, usize)> = Vec::new();
    let mut used: Vec<bool> = Vec::new();
    for t in 0..info.nicks_in_loop.len()
        invariant
            n_bases == pt.n_bases,
            n_bases > 0,
            bases_below(*info, n_bases),
            edges_spec == info.nicks_in_loop@.map_values(|nk: usize| nick_edge(nk, n_bases)),
            edges@.len() == t,
            used@ == Seq::new(t as nat, |x: int| false),
            forall|t2: int|
                0 <= t2 < t ==> (#[trigger] edges@[t2]).0 as int == edges_spec[t2].0 && edges@[t2].1 as int
                    == edges_spec[t2].1,
    {
        let nick = info.nicks_in_loop[t];
        if nick == 0 {
            edges.push((n_bases - 1, 0));
        } else {
            edges.push((nick - 1, nick));
        }
        used.push(false);
        proof {
            assert(used@ =~= Seq::new((t + 1) as nat, |x: int| false));
        }
    }
    let ghost all_free = used@;
    let ghost goal = with_breaks(ord_spec, edges_spec, all_free, 0);
    proof {
        assert(all_free =~= Seq::new(edges_spec.len(), |x: int| false));
        assert(result@ + with_breaks(ord_spec, edges_spec, used@, 0) =~= goal);
    }
    for i in 0..n
        invariant
            n == ord@.len(),
            ord@ == ord_spec,
            forall|x: int| 0 <= x < ord@.len() ==> key(#[trigger] ord@[x]) >= 0,
            edges@.len() == edges_spec.len(),
            used@.len() == edges@.len(),
            forall|t2: int|
                0 <= t2 < edges@.len() ==> (#[trigger] edges@[t2]).0 as int == edges_spec[t2].0 && edges@[t2].1 as int
                    == edges_spec[t2].1,
            result@ + with_breaks(ord_spec, edges_spec, used@, i as int) == goal,
    {
        let ghost rest = with_breaks(ord_spec, edges_spec, used@, i as int);
        result.push(ord[i]);
        if i + 1 < n {
            let a = base_of(ord[i]);
            let b = base_of(ord[i + 1]);
            match find_free_break(&edges, &used, a, b, Ghost(edges_spec)) {
                Some(x) => {
                    proof {
                        assert(a as int == key(ord_spec[i as int]));
                        assert(b as int == key(ord_spec[i + 1]));
                        assert(free_break(edges_spec, used@, key(ord_spec[i as int]), key(ord_spec[i + 1]), edges_spec.len() as int) == Some(x as int));
                        assert(rest == seq![ord_spec[i as int], Elem::Nick] + with_breaks(
                            ord_spec,
                            edges_spec,
                            used@.update(x as int, true),
                            i + 1,
                        ));
                    }
                    used.set(x, true);
                    result.push(Elem::Nick);
                    proof {
                        assert(result@ + with_breaks(ord_spec, edges_spec, used@, i + 1) =~= goal);
                    }
                },
                None => {
                    proof {
                        assert(result@ + with_breaks(ord_spec, edges_spec, used@, i + 1) =~= goal);
                    }
                },
            }
        } else {
            proof {
                assert(result@ + with_breaks(ord_spec, edges_spec, used@, i + 1) =~= goal);
            }
        }
    }
    if n >= 2 {
        let a = base_of(ord[n - 1]);
        let b = base_of(ord[0]);
        if find_free_break(&edges, &used, a, b, Ghost(edges_spec)).is_some() {
            result.push(Elem::Nick);
        }
    }
    proof {
        assert(result@ =~= goal);
    }
    result
}

/// `a` joins `x` and `y`, in either order.
pub open spec fn same_pair(a: (usize, usize), x: usize, y: usize) -> bool {
    (a.0 == x && a.1 == y) || (a.0 == y && a.1 == x)
}

pub open spec fn holds_pair(info: LoopInfo, x: usize, y: usize) -> bool {
    exists|t: int| 0 <= t < info.child_pairs@.len() && same_pair(#[trigger] info.child_pairs@[t], x, y)
}

pub open spec fn closed_by(info: LoopInfo, x: usize, y: usize) -> bool {
    match info.parent_pair {
        Some(pp) => same_pair(pp, x, y),
        None => false,
    }
}

/// The first loop below `hi`, other than `current`, holding `(x, y)` as a child pair.
pub open spec fn first_other_holding(infos: Seq<LoopInfo>, current: int, x: usize, y: usize, hi: int) -> Option<int>
    decreases hi,
{
    if hi <= 0 {
        None
    } else {
        match first_other_holding(infos, current, x, y, hi - 1) {
            Some(l) => Some(l),
            None => if hi - 1 != current && holds_pair(infos[hi - 1], x, y) {
                Some(hi - 1)
            } else {
                None
            },
        }
    }
}

/// The first loop below `hi` closed by `(x, y)`.
pub open spec fn first_closed(infos: Seq<LoopInfo>, x: usize, y: usize, hi: int) -> Option<int>
    decreases hi,
{
    if hi <= 0 {
        None
    } else {
        match first_closed(infos, x, y, hi - 1) {
            Some(l) => Some(l),
            None => if closed_by(infos[hi - 1], x, y) {
                Some(hi - 1)
            } else {
                None
            },
        }
    }
}

/// The loop on the other side of the bond `(first, last)` of loop `current`:
/// across the loop's own closing pair, the first other loop holding that pair
/// as a child; across a child pair, the first loop closed by it; 0 if none.
pub open spec fn neighbor_loop(infos: Seq<LoopInfo>, current: int, first: usize, last: usize) -> int {
    let here = infos[current];
    if closed_by(here, first, last) {
        let (pi, pj) = here.parent_pair->Some_0;
        match first_other_holding(infos, current, pi, pj, infos.len() as int) {
            Some(l) => l,
            None => 0,
        }
    } else {
        match first_closed(infos, first, last, infos.len() as int) {
            Some(l) => l,
            None => 0,
        }
    }
}

fn holds_pair_exec(info: &LoopInfo, x: usize, y: usize) -> (r: bool)
    ensures
        r == holds_pair(*info, x, y),
{
    let mut found = false;
    for t in 0..info.child_pairs.len()
        invariant
            found == exists|i: int| 0 <= i < t && same_pair(#[trigger] info.child_pairs@[i], x, y),
    {
        let (a, b) = info.child_pairs[t];
        if (a == x && b == y) || (a == y && b == x) {
            found = true;
        }
    }
    found
}

fn closed_by_exec(info: &LoopInfo, x: usize, y: usize) -> (r: bool)
    ensures
        r == closed_by(*info, x, y),
{
    match info.parent_pair {
        Some((a, b)) => (a == x && b == y) || (a == y && b == x),
        None => false,
    }
}

/// The loop on the other side of the pair bond `(first, last)` of loop `current`.
pub fn find_neighbor_loop(infos: &[LoopInfo], current: usize, first: usize, last: usize) -> (r: usize)
    requires
        current < infos@.len(),
    ensures
        r == neighbor_loop(infos@, current as int, first, last),
{
    let ghost s = infos@;
    if closed_by_exec(&infos[current], first, last) {
        let (pi, pj) = match infos[current].parent_pair {
            Some(pp) => pp,
            None => (0, 0),
        };
        let mut found: Option<usize> = None;
        for li in 0..infos.len()
            invariant
                s == infos@,
                opt_int(found) == first_other_holding(s, current as int, pi, pj, li as int),
        {
            if found.is_none() && li != current && holds_pair_exec(&infos[li], pi, pj) {
                found = Some(li);
            }
        }
        match found {
            Some(l) => l,
            None => 0,
        }
    } else {
        let mut found: Option<usize> = None;
        for li in 0..infos.len()
            invariant
                s == infos@,
                opt_int(found) == first_closed(s, first, last, li as int),
        {
            if found.is_none() && closed_by_exec(&infos[li], first, last) {
                found = Some(li);
            }
        }
        match found {
            Some(l) => l,
            None => 0,
        }
    }
}

/// Number of pair bonds on the loop's circle: its closing pair and its children.
pub open spec fn bond_count(info: LoopInfo) -> int {
    info.child_pairs@.len() + if info.parent_pair is Some {
        1int
    } else {
        0int
    }
}

/// The loop's backbone runs along its circle: it has unpaired bases or three
/// or more pair bonds (else its backbone is drawn as straight chords).
pub open spec fn uses_arcs(info: LoopInfo) -> bool {
    info.unpaired_bases@.len() > 0 || bond_count(info) >= 3
}

/// Check whether loop `li` draws its backbone as arcs on its circle.
pub fn loop_has_unpaired(infos: &[LoopInfo], li: usize) -> (r: bool)
    requires
        li < infos@.len(),
    ensures
        r == uses_arcs(infos@[li as int]),
{
    let info = &infos[li];
    if info.unpaired_bases.len() > 0 {
        return true;
    }
    let n_children = info.child_pairs.len();
    n_children >= 3 || (info.parent_pair.is_some() && n_children >= 2)
}

/// Which rule fixes a loop's radius.
#[derive(Clone, Copy, Debug, PartialEq, Eq)]
pub enum LoopKind {
    /// The external loop with no unpaired bases and at most one pair: fixed radius.
    FixedExternal,
    /// Exactly two pair bonds, no unpaired bases: the stem radius.
    Stem,
    /// A closing pair only, no unpaired bases: the fixed external radius.
    EmptyHairpin,
    /// Anything else: the radius solving the loop's angle equation.
    General,
}

/// The kind of a loop, by the first rule that applies, in the order of the variants.
pub open spec fn kind_of(info: LoopInfo) -> LoopKind {
    let n_unpaired = info.unpaired_bases@.len();
    if info.parent_pair is None && n_unpaired == 0 && bond_count(info) <= 1 {
        LoopKind::FixedExternal
    } else if n_unpaired == 0 && bond_count(info) == 2 && info.child_pairs@.len() > 0 {
        LoopKind::Stem
    } else if n_unpaired == 0 && info.child_pairs@.len() == 0 {
        LoopKind::EmptyHairpin
    } else {
        LoopKind::General
    }
}

/// Classify a loop by the rule that fixes its radius.
pub fn loop_kind(info: &LoopInfo) -> (r: LoopKind)
    ensures
        r == kind_of(*info),
{
    let n_unpaired = info.unpaired_bases.len();
    let n_children = info.child_pairs.len();
    let closed = info.parent_pair.is_some();
    if !closed && n_unpaired == 0 && n_children <= 1 {
        LoopKind::FixedExternal
    } else if n_unpaired == 0 && n_children > 0 && ((closed && n_children == 1) || (!closed
        && n_children == 2)) {
        LoopKind::Stem
    } else if n_unpaired == 0 && n_children == 0 {
        LoopKind::EmptyHairpin
    } else {
        LoopKind::General
    }
}

/// The angular step between two consecutive elements of a walk.
#[derive(Clone, Copy, Debug, PartialEq, Eq)]
pub enum Step {
    /// Onto a break marker: no advance.
    Stay,
    /// Off a break marker: the widened arc step.
    AfterBreak,
    /// Across a pair bond.
    Bond,
    /// An ordinary arc step.
    Arc,
}

/// The step from `prev` to `curr`. Within one child pair, first base to last
/// is a bond; last back to first is a bond only inside an internal loop (the
/// external loop goes the long way round).
pub open spec fn step_of(prev: Elem, curr: Elem, is_external: bool) -> Step {
    if curr is Nick {
        Step::Stay
    } else if prev is Nick {
        Step::AfterBreak
    } else {
        match (prev, curr) {
            (Elem::PairFirst(_, l1, false), Elem::PairLast(f2, _, false)) => if l1 == f2 {
                Step::Bond
            } else {
                Step::Arc
            },
            (Elem::PairLast(_, l1, false), Elem::PairFirst(f2, _, false)) => if l1 == f2 && !is_external {
                Step::Bond
            } else {
                Step::Arc
            },
            _ => Step::Arc,
        }
    }
}

/// Classify the angular step between consecutive elements of a walk.
pub fn step_between(prev: &Elem, curr: &Elem, is_external: bool) -> (r: Step)
    ensures
        r == step_of(*prev, *curr, is_external),
{
    if let Elem::Nick = curr {
        return Step::Stay;
    }
    if let Elem::Nick = prev {
        return Step::AfterBreak;
    }
    match (prev, curr) {
        (Elem::PairFirst(_, l1, false), Elem::PairLast(f2, _, false)) => {
            if *l1 == *f2 {
                Step::Bond
            } else {
                Step::Arc
            }
        },
        (Elem::PairLast(_, l1, false), Elem::PairFirst(f2, _, false)) => {
            if *l1 == *f2 && !is_external {
                Step::Bond
            } else {
                Step::Arc
            }
        },
        _ => Step::Arc,
    }
}

/// A pair bond on a loop's circle, as a layout reads it.
#[derive(Clone, Copy, Debug, PartialEq, Eq)]
pub struct Bond {
    /// The bond's first base in walking order.
    pub first: usize,
    /// Its partner.
    pub last: usize,
    /// Position in the walk of the element standing at `last`.
    pub last_idx: usize,
    /// The loop on the other side of the bond.
    pub neighbor: usize,
}

/// The first position of `elems` that is the last base `b` of a bond.
pub open spec fn bond_end_at(elems: Seq<Elem>, b: usize, hi: int) -> Option<int>
    decreases hi,
{
    if hi <= 0 {
        None
    } else {
        match bond_end_at(elems, b, hi - 1) {
            Some(x) => Some(x),
            None => match elems[hi - 1] {
                Elem::PairLast(x, _, _) => if x == b {
                    Some(hi - 1)
                } else {
                    None
                },
                _ => None,
            },
        }
    }
}

/// The bonds of loop `li` whose first base lies in the first `hi` elements of
/// its walk, in walking order.
pub open spec fn bonds_upto(elems: Seq<Elem>, infos: Seq<LoopInfo>, li: int, hi: int) -> Seq<Bond>
    decreases hi,
{
    if hi <= 0 {
        Seq::empty()
    } else {
        let prev = bonds_upto(elems, infos, li, hi - 1);
        match elems[hi - 1] {
            Elem::PairFirst(first, last, _) => prev.push(
                Bond {
                    first,
                    last,
                    last_idx: match bond_end_at(elems, last, elems.len() as int) {
                        Some(x) => x as usize,
                        None => (hi - 1) as usize,
                    },
                    neighbor: neighbor_loop(infos, li, first, last) as usize,
                },
            ),
            _ => prev,
        }
    }
}

fn bond_end_position(elems: &Vec<Elem>, b: usize) -> (r: Option<usize>)
    ensures
        opt_int(r) == bond_end_at(elems@, b, elems@.len() as int),
{
    let mut found: Option<usize> = None;
    for t in 0..elems.len()
        invariant
            opt_int(found) == bond_end_at(elems@, b, t as int),
    {
        if found.is_none() {
            if let Elem::PairLast(x, _, _) = elems[t] {
                if x == b {
                    found = Some(t);
                }
            }
        }
    }
    found
}

/// The pair bonds of loop `li`, in the order of its walk `elems`: each with the
/// position of its last base and the loop across it.
pub fn loop_bonds(infos: &[LoopInfo], li: usize, elems: &Vec<Elem>) -> (r: Vec<Bond>)
    requires
        li < infos@.len(),
    ensures
        r@ == bonds_upto(elems@, infos@, li as int, elems@.len() as int),
{
    let mut bonds: Vec<Bond> = Vec::new();
    for i in 0..elems.len()
        invariant
            li < infos@.len(),
            bonds@ == bonds_upto(elems@, infos@, li as int, i as int),
    {
        if let Elem::PairFirst(first, last, _) = elems[i] {
            let last_idx = match bond_end_position(elems, last) {
                Some(x) => x,
                None => i,
            };
            let neighbor = find_neighbor_loop(infos, li, first, last);
            bonds.push(Bond { first, last, last_idx, neighbor });
        }
    }
    bonds
}

/// Element `e` gives base `b` its angle on the incoming side (`first`: the
/// first base of a bond, or an unpaired base) or on the outgoing side (the
/// last base of a bond, or an unpaired base).
pub open spec fn gives_slot(e: Elem, b: int, first: bool) -> bool {
    match e {
        Elem::PairFirst(x, _, _) => first && x == b,
        Elem::PairLast(x, _, _) => !first && x == b,
        Elem::Unpaired(x) => x == b,
        Elem::Nick => false,
    }
}

/// The last (loop, position) before position `i` of loop `l`, walking the
/// loops in index order, whose element gives base `b` its slot on side `first`.
pub open spec fn last_slot(walks: Seq<Seq<Elem>>, b: int, first: bool, l: int, i: int) -> Option<(int, int)>
    decreases l, i,
{
    if l <= 0 && i <= 0 {
        None
    } else if i <= 0 {
        last_slot(walks, b, first, l - 1, walks[l - 1].len() as int)
    } else if gives_slot(walks[l][i - 1], b, first) {
        Some((l, i - 1))
    } else {
        last_slot(walks, b, first, l, i - 1)
    }
}

pub open spec fn opt_pair(r: Option<(usize, usize)>) -> Option<(int, int)> {
    match r {
        Some((a, b)) => Some((a as int, b as int)),
        None => None,
    }
}

/// For each base below `n_bases`, the (loop, position) in `walks` of the
/// element that gives it its angle on each side: the last such element over
/// the loops in index order, `None` if there is none.
pub fn base_slots(walks: &Vec<Vec<Elem>>, n_bases: usize) -> (r: Vec<(Option<(usize, usize)>, Option<(usize, usize)>)>)
    ensures
        r@.len() == n_bases,
        forall|b: int|
            0 <= b < n_bases ==> {
                &&& opt_pair((#[trigger] r@[b]).0) == last_slot(
                    walks@.map_values(|w: Vec<Elem>| w@),
                    b,
                    true,
                    walks@.len() as int,
                    0,
                )
                &&& opt_pair(r@[b].1) == last_slot(
                    walks@.map_values(|w: Vec<Elem>| w@),
                    b,
                    false,
                    walks@.len() as int,
                    0,
                )
            },
{
    let ghost ws = walks@.map_values(|w: Vec<Elem>| w@);
    let mut slots: Vec<(Option<(usize, usize)>, Option<(usize, usize)>)> = Vec::new();
    for b in 0..n_bases
        invariant
            slots@.len() == b,
            forall|x: int| 0 <= x < b ==> #[trigger] slots@[x] == (None::<(usize, usize)>, None::<(usize, usize)>),
    {
        slots.push((None, None));
    }
    for l in 0..walks.len()
        invariant
            ws == walks@.map_values(|w: Vec<Elem>| w@),
            slots@.len() == n_bases,
            forall|b: int|
                0 <= b < n_bases ==> opt_pair((#[trigger] slots@[b]).0) == last_slot(ws, b, true, l as int, 0)
                    && opt_pair(slots@[b].1) == last_slot(ws, b, false, l as int, 0),
    {
        let walk = &walks[l];
        assert(walk@ == ws[l as int]);
        for i in 0..walk.len()
            invariant
                ws == walks@.map_values(|w: Vec<Elem>| w@),
                l < walks@.len(),
                walk@ == ws[l as int],
                slots@.len() == n_bases,
                forall|b: int|
                    0 <= b < n_bases ==> opt_pair((#[trigger] slots@[b]).0) == last_slot(ws, b, true, l as int, i as int)
                        && opt_pair(slots@[b].1) == last_slot(ws, b, false, l as int, i as int),
        {
            let ghost before = slots@;
            let e = walk[i];
            match e {
                Elem::PairFirst(x, _, _) => {
                    if x < n_bases {
                        let s = slots[x];
                        slots.set(x, (Some((l, i)), s.1));
                    }
                },
                Elem::PairLast(x, _, _) => {
                    if x < n_bases {
                        let s = slots[x];
                        slots.set(x, (s.0, Some((l, i))));
                    }
                },
                Elem::Unpaired(x) => {
                    if x < n_bases {
                        slots.set(x, (Some((l, i)), Some((l, i))));
                    }
                },
                Elem::Nick => {},
            }
            proof {
                assert forall|b: int| 0 <= b < n_bases implies opt_pair((#[trigger] slots@[b]).0) == last_slot(
                    ws,
                    b,
                    true,
                    l as int,
                    i + 1,
                ) && opt_pair(slots@[b].1) == last_slot(ws, b, false, l as int, i + 1) by {
                    assert(ws[l as int][i as int] == e);
                    if key(e) != b {
                        assert(slots@[b] == before[b]);
                    }
                }
            }
        }
        proof {
            assert forall|b: int| 0 <= b < n_bases implies opt_pair((#[trigger] slots@[b]).0) == last_slot(
                ws,
                b,
                true,
                l + 1,
                0,
            ) && opt_pair(slots@[b].1) == last_slot(ws, b, false, l + 1, 0) by {
                assert(last_slot(ws, b, true, l + 1, 0) == last_slot(ws, b, true, l as int, ws[l as int].len() as int));
                assert(last_slot(ws, b, false, l + 1, 0) == last_slot(ws, b, false, l as int, ws[l as int].len() as int));
            }
        }
    }
    slots
}

} // verus!
