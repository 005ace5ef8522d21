//! Data shared by the parser and the loop decomposer.

use vstd::prelude::*;

verus! {

/// Every index maps to an index in range, and mapping twice gives it back.
pub open spec fn is_involution(p: Seq<usize>) -> bool {
    forall|i: int| 0 <= i < p.len() ==> (#[trigger] p[i]) < p.len() && p[p[i] as int] == i
}

/// No two pairs `(i, p[i])` and `(k, p[k])` interleave as `i < k < p[i] < p[k]`.
pub open spec fn is_non_crossing(p: Seq<usize>) -> bool {
    forall|i: int, k: int|
        0 <= i < k < p.len() && i < #[trigger] p[i] && k < #[trigger] p[k] && k < p[i] ==> p[k] < p[i]
}

/// A valid pairing: symmetric, and free of crossing pairs.
pub open spec fn is_pairing(p: Seq<usize>) -> bool {
    is_involution(p) && is_non_crossing(p)
}

/// Pair table from parsing dot-bracket-plus notation.
pub struct PairTable {
    /// `pairs[i] = j` means base `i` is paired with base `j`; `pairs[i] = i` means unpaired.
    pub pairs: Vec<usize>,
    /// Strand break positions: the index of the first base after each break. Always starts with 0.
    pub nicks: Vec<usize>,
    pub n_bases: usize,
}

impl PairTable {
    /// The table's invariant: one entry per base, a valid pairing, and a list of
    /// strand breaks that starts at 0 and stays within `0..=n_bases`.
    pub open spec fn wf(&self) -> bool {
        &&& self.pairs@.len() == self.n_bases
        &&& is_pairing(self.pairs@)
        &&& self.nicks@.len() >= 1
        &&& self.nicks@[0] == 0
        &&& forall|k: int| 0 <= k < self.nicks@.len() ==> #[trigger] self.nicks@[k] <= self.n_bases
    }
}

/// One loop of the loop tree, as found by the decomposer.
#[derive(Debug, Clone)]
pub struct LoopInfo {
    /// The pair `(i, j)`, `i < j`, that closes this loop; `None` for the external loop.
    pub parent_pair: Option<(usize, usize)>,
    /// Pairs `(i, j)`, `i < j`, directly nested in this loop, by increasing `i`.
    pub child_pairs: Vec<(usize, usize)>,
    /// Unpaired bases directly in this loop, increasing.
    pub unpaired_bases: Vec<usize>,
    /// Strand breaks assigned to this loop (index of the base after the break).
    pub nicks_in_loop: Vec<usize>,
}

} // verus!
