//! Strand boundaries and the anchor pair used to align a drawing.

use vstd::prelude::*;
use crate::types::PairTable;
use crate::elements::opt_int;

verus! {

/// Base `b` starts a strand: a break sits right before it.
pub open spec fn starts_strand(nicks: Seq<usize>, b: int) -> bool {
    exists|t: int| 0 <= t < nicks.len() && nicks[t] == b
}

/// Base `b` ends a strand: a break sits right after it (the break at 0 follows
/// the last base).
pub open spec fn ends_strand(nicks: Seq<usize>, n: int, b: int) -> bool {
    exists|t: int|
        0 <= t < nicks.len() && ((nicks[t] == 0 && b == n - 1) || (nicks[t] > 0 && #[trigger] nicks[t] - 1 == b))
}

/// For each base, whether it starts a strand and whether it ends one.
pub fn strand_boundaries(pt: &PairTable) -> (r: (Vec<bool>, Vec<bool>))
    requires
        pt.wf(),
    ensures
        r.0@.len() == pt.n_bases,
        r.1@.len() == pt.n_bases,
        forall|b: int| 0 <= b < pt.n_bases ==> #[trigger] r.0@[b] == starts_strand(pt.nicks@, b),
        forall|b: int| 0 <= b < pt.n_bases ==> #[trigger] r.1@[b] == ends_strand(pt.nicks@, pt.n_bases as int, b),
{
    let n = pt.n_bases;
    let mut starts: Vec<bool> = Vec::new();
    let mut ends: Vec<bool> = Vec::new();
    for b in 0..n
        invariant
            starts@.len() == b,
            ends@.len() == b,
            forall|x: int| 0 <= x < b ==> !(#[trigger] starts@[x]),
            forall|x: int| 0 <= x < b ==> !(#[trigger] ends@[x]),
    {
        starts.push(false);
        ends.push(false);
    }
    if n == 0 {
        return (starts, ends);
    }
    let ghost nk = pt.nicks@;
    for t in 0..pt.nicks.len()
        invariant
            pt.wf(),
            n == pt.n_bases,
            n > 0,
            nk == pt.nicks@,
            starts@.len() == n,
            ends@.len() == n,
            forall|b: int| 0 <= b < n ==> #[trigger] starts@[b] == starts_strand(nk.take(t as int), b),
            forall|b: int| 0 <= b < n ==> #[trigger] ends@[b] == ends_strand(nk.take(t as int), n as int, b),
    {
        let nick = pt.nicks[t];
        assert(nick <= n);
        let ghost s0 = starts@;
        let ghost e0 = ends@;
        if nick < n {
            starts.set(nick, true);
        }
        let prev = if nick == 0 {
            n - 1
        } else {
            nick - 1
        };
        ends.set(prev, true);
        proof {
            let nt = nk.take(t + 1);
            assert(nt[t as int] == nick);
            assert forall|b: int| 0 <= b < n implies #[trigger] starts@[b] == starts_strand(nt, b) by {
                if starts_strand(nk.take(t as int), b) {
                    let w = choose|w: int| 0 <= w < nk.take(t as int).len() && nk.take(t as int)[w] == b;
                    assert(nt[w] == nk.take(t as int)[w]);
                }
                if starts_strand(nt, b) {
                    let w = choose|w: int| 0 <= w < nt.len() && nt[w] == b;
                    if w < t {
                        assert(nt[w] == nk.take(t as int)[w]);
                    }
                }
            }
            assert forall|b: int| 0 <= b < n implies #[trigger] ends@[b] == ends_strand(nt, n as int, b) by {
                let old_t = nk.take(t as int);
                if ends_strand(old_t, n as int, b) {
                    let w = choose|w: int|
                        0 <= w < old_t.len() && ((old_t[w] == 0 && b == n - 1) || (old_t[w] > 0 && #[trigger] old_t[w] - 1 == b));
                    assert(nt[w] == old_t[w]);
                }
                if ends_strand(nt, n as int, b) {
                    let w = choose|w: int|
                        0 <= w < nt.len() && ((nt[w] == 0 && b == n - 1) || (nt[w] > 0 && #[trigger] nt[w] - 1 == b));
                    if w < t {
                        assert(nt[w] == old_t[w]);
                    }
                }
            }
        }
    }
    proof {
        assert(nk.take(nk.len() as int) == nk);
    }
    (starts, ends)
}

/// The first base that opens a pair.
pub open spec fn first_opening(p: Seq<usize>, hi: int) -> Option<int>
    decreases hi,
{
    if hi <= 0 {
        None
    } else {
        match first_opening(p, hi - 1) {
            Some(i) => Some(i),
            None => if hi - 1 < p[hi - 1] {
                Some(hi - 1)
            } else {
                None
            },
        }
    }
}

/// The pair opened at `i` directly encloses the pair `(i + 1, p[i] - 1)`.
pub open spec fn has_inner_pair(p: Seq<usize>, i: int) -> bool {
    let j = p[i] as int;
    j > 1 && i + 1 < j - 1 && p[i + 1] == j - 1
}

/// The first pair `(i, j)` of the structure, and whether `(i + 1, j - 1)` is
/// also a pair: the stem that an aligned drawing stands upright.
pub fn stem_anchor(pairs: &Vec<usize>) -> (r: Option<(usize, usize, bool)>)
    requires
        forall|i: int| 0 <= i < pairs@.len() ==> #[trigger] pairs@[i] < pairs@.len(),
    ensures
        r == match first_opening(pairs@, pairs@.len() as int) {
            None => None,
            Some(i) => Some((i as usize, pairs@[i], has_inner_pair(pairs@, i))),
        },
{
    let n = pairs.len();
    let mut first: Option<usize> = None;
    for k in 0..n
        invariant
            n == pairs@.len(),
            opt_int(first) == first_opening(pairs@, k as int),
            match first {
                Some(i) => i < k,
                None => true,
            },
    {
        if first.is_none() && k < pairs[k] {
            first = Some(k);
        }
    }
    match first {
        None => None,
        Some(i) => {
            let j = pairs[i];
            let nested = j > 1 && i + 1 < j - 1 && pairs[i + 1] == j - 1;
            Some((i, j, nested))
        },
    }
}

} // verus!
