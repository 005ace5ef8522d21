//! The order in which loops are placed: breadth-first from the external loop,
//! each new loop hanging off the bond through which it was first reached.

use vstd::prelude::*;

verus! {

/// Loop `child` is placed from loop `parent`, across bond number `bond` of `parent`.
#[derive(Clone, Copy, Debug, PartialEq, Eq)]
pub struct Placement {
    pub child: usize,
    pub parent: usize,
    pub bond: usize,
}

/// Number of loops not yet placed.
pub open spec fn count_open(seen: Seq<bool>) -> nat
    decreases seen.len(),
{
    if seen.len() == 0 {
        0
    } else {
        count_open(seen.drop_last()) + if seen.last() {
            0nat
        } else {
            1nat
        }
    }
}

/// The bonds of loop `li` from number `k` on: each neighbour in range and not
/// yet placed is placed from `li`. Gives the placed set after, and the placements.
pub open spec fn scan_bonds(nb: Seq<Seq<usize>>, li: int, k: int, seen: Seq<bool>) -> (Seq<bool>, Seq<Placement>)
    decreases nb[li].len() - k,
{
    if k < 0 || k >= nb[li].len() {
        (seen, Seq::empty())
    } else {
        let ni = nb[li][k] as int;
        if ni < seen.len() && !seen[ni] {
            let rest = scan_bonds(nb, li, k + 1, seen.update(ni, true));
            (rest.0, seq![Placement { child: ni as usize, parent: li as usize, bond: k as usize }] + rest.1)
        } else {
            scan_bonds(nb, li, k + 1, seen)
        }
    }
}

pub open spec fn children_of(ps: Seq<Placement>) -> Seq<usize> {
    ps.map_values(|p: Placement| p.child)
}

/// Breadth-first placement: take the loop at the head of `queue`, place the
/// new neighbours across its bonds in bond order, queue them, and go on.
pub open spec fn bfs(nb: Seq<Seq<usize>>, queue: Seq<usize>, seen: Seq<bool>, fuel: nat) -> Seq<Placement>
    decreases fuel,
{
    if fuel == 0 || queue.len() == 0 || queue[0] >= nb.len() {
        Seq::empty()
    } else {
        let step = scan_bonds(nb, queue[0] as int, 0, seen);
        step.1 + bfs(nb, queue.drop_first() + children_of(step.1), step.0, (fuel - 1) as nat)
    }
}

/// The placements of all loops reachable from loop 0, where `nb[l][k]` is the
/// loop across bond `k` of loop `l`.
pub open spec fn placements(nb: Seq<Seq<usize>>) -> Seq<Placement> {
    bfs(nb, seq![0usize], Seq::new(nb.len(), |l: int| l == 0), nb.len())
}

proof fn lemma_count_open_update(seen: Seq<bool>, i: int)
    requires
        0 <= i < seen.len(),
        !seen[i],
    ensures
        count_open(seen.update(i, true)) + 1 == count_open(seen),
    decreases seen.len(),
{
    let s2 = seen.update(i, true);
    if i == seen.len() - 1 {
        assert(s2.drop_last() =~= seen.drop_last());
    } else {
        assert(s2.drop_last() =~= seen.drop_last().update(i, true));
        lemma_count_open_update(seen.drop_last(), i);
    }
}

proof fn lemma_scan_bonds(nb: Seq<Seq<usize>>, li: int, k: int, seen: Seq<bool>)
    requires
        0 <= li < nb.len(),
        0 <= k,
    ensures
        scan_bonds(nb, li, k, seen).0.len() == seen.len(),
        count_open(scan_bonds(nb, li, k, seen).0) + scan_bonds(nb, li, k, seen).1.len() == count_open(seen),
        forall|t: int|
            0 <= t < scan_bonds(nb, li, k, seen).1.len() ==> (#[trigger] scan_bonds(nb, li, k, seen).1[t]).child
                < seen.len(),
    decreases nb[li].len() - k,
{
    if k < nb[li].len() {
        let ni = nb[li][k] as int;
        if ni < seen.len() && !seen[ni] {
            lemma_count_open_update(seen, ni);
            lemma_scan_bonds(nb, li, k + 1, seen.update(ni, true));
            let rest = scan_bonds(nb, li, k + 1, seen.update(ni, true));
            let all = scan_bonds(nb, li, k, seen);
            assert forall|t: int| 0 <= t < all.1.len() implies (#[trigger] all.1[t]).child < seen.len() by {
                if t > 0 {
                    assert(all.1[t] == rest.1[t - 1]);
                }
            }
        } else {
            lemma_scan_bonds(nb, li, k + 1, seen);
        }
    }
}

/// The order in which loops are placed, breadth-first from loop 0, where
/// `neighbors[l][k]` is the loop across bond `k` of loop `l`. A neighbour out
/// of range, or already placed, is passed over.
pub fn placement_order(neighbors: &Vec<Vec<usize>>) -> (r: Vec<Placement>)
    requires
        neighbors@.len() > 0,
    ensures
        r@ == placements(neighbors@.map_values(|v: Vec<usize>| v@)),
{
    let ghost nb = neighbors@.map_values(|v: Vec<usize>| v@);
    let n = neighbors.len();
    let mut seen: Vec<bool> = Vec::new();
    for l in 0..n
        invariant
            seen@ == Seq::new(l as nat, |x: int| x == 0),
    {
        seen.push(l == 0);
        proof {
            assert(seen@ =~= Seq::new((l + 1) as nat, |x: int| x == 0));
        }
    }
    let mut queue: Vec<usize> = Vec::new();
    queue.push(0);
    let mut head: usize = 0;
    let mut out: Vec<Placement> = Vec::new();
    let ghost goal = placements(nb);
    let ghost mut fuel: nat = n as nat;
    proof {
        assert(count_open(seen@) + 1 <= n) by {
            lemma_count_open_update(Seq::new(n as nat, |x: int| false), 0);
            assert(Seq::new(n as nat, |x: int| false).update(0, true) =~= seen@);
            lemma_count_open_le(Seq::new(n as nat, |x: int| false));
        }
        assert(queue@.subrange(0, 1) =~= seq![0usize]);
        assert(out@ + bfs(nb, queue@.subrange(0, 1), seen@, fuel) =~= goal);
    }
    while head < queue.len()
        invariant
            n == neighbors@.len(),
            nb == neighbors@.map_values(|v: Vec<usize>| v@),
            seen@.len() == n,
            head <= queue@.len(),
            forall|t: int| 0 <= t < queue@.len() ==> #[trigger] queue@[t] < n,
            out@ + bfs(nb, queue@.subrange(head as int, queue@.len() as int), seen@, fuel) == goal,
            queue@.len() - head + count_open(seen@) <= fuel,
        decreases fuel,
    {
        let li = queue[head];
        let ghost rest0 = queue@.subrange(head as int, queue@.len() as int);
        let ghost seen0 = seen@;
        let ghost q0 = queue@;
        let ghost out0 = out@;
        let ghost step = scan_bonds(nb, li as int, 0, seen0);
        let ghost mut added: Seq<Placement> = Seq::empty();
        proof {
            lemma_scan_bonds(nb, li as int, 0, seen0);
            assert(nb[li as int] == neighbors@[li as int]@);
        }
        let bonds = &neighbors[li];
        for k in 0..bonds.len()
            invariant
                n == neighbors@.len(),
                nb == neighbors@.map_values(|v: Vec<usize>| v@),
                li < n,
                bonds@ == nb[li as int],
                seen@.len() == n,
                step == scan_bonds(nb, li as int, 0, seen0),
                scan_bonds(nb, li as int, k as int, seen@).0 == step.0,
                added + scan_bonds(nb, li as int, k as int, seen@).1 == step.1,
                out@ == out0 + added,
                queue@ == q0 + children_of(added),
                forall|t: int| 0 <= t < queue@.len() ==> #[trigger] queue@[t] < n,
        {
            let ni = bonds[k];
            if ni < n && !seen[ni] {
                proof {
                    let rest = scan_bonds(nb, li as int, k + 1, seen@.update(ni as int, true));
                    assert(scan_bonds(nb, li as int, k as int, seen@).1 == seq![
                        Placement { child: ni, parent: li, bond: k },
                    ] + rest.1);
                }
                seen.set(ni, true);
                out.push(Placement { child: ni, parent: li, bond: k });
                queue.push(ni);
                proof {
                    let p = Placement { child: ni, parent: li, bond: k };
                    assert(added.push(p) + scan_bonds(nb, li as int, k + 1, seen@).1 =~= added + (seq![p]
                        + scan_bonds(nb, li as int, k + 1, seen@).1));
                    assert(children_of(added.push(p)) =~= children_of(added).push(ni));
                    added = added.push(p);
                }
            }
        }
        proof {
            assert(scan_bonds(nb, li as int, bonds@.len() as int, seen@).1 =~= Seq::<Placement>::empty());
            assert(added =~= step.1);
            assert(rest0[0] == li);
            let next = queue@.subrange(head + 1, queue@.len() as int);
            assert(next =~= rest0.drop_first() + children_of(step.1));
            assert(out@ + bfs(nb, next, seen@, (fuel - 1) as nat) =~= goal);
            fuel = (fuel - 1) as nat;
        }
        head = head + 1;
    }
    proof {
        assert(queue@.subrange(head as int, queue@.len() as int) =~= Seq::<usize>::empty());
        assert(out@ =~= goal);
    }
    out
}

proof fn lemma_count_open_le(seen: Seq<bool>)
    ensures
        count_open(seen) <= seen.len(),
    decreases seen.len(),
{
    if seen.len() > 0 {
        lemma_count_open_le(seen.drop_last());
    }
}

} // verus!
