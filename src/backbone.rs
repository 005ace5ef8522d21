//! Which kind of backbone segment joins a base to its neighbour.

use vstd::prelude::*;
use crate::elements::{loop_has_unpaired, uses_arcs};
use crate::strands::starts_strand;
use crate::types::LoopInfo;

verus! {

/// The shape of the half segment between a base and one of its neighbours.
#[derive(Clone, Copy, Debug, PartialEq, Eq)]
pub enum Backbone {
    /// Along the shared loop's circle, to the angular midpoint.
    Arc,
    /// A straight chord to the midpoint of the two bases.
    Chord,
    /// A strand break on a loop with unpaired bases: an arc of no sweep at
    /// the base's own angle.
    BreakArc,
    /// A strand break on a loop without unpaired bases: a chord of no length
    /// at the base's own position.
    BreakChord,
}

/// Away from a break the segment follows the loop's circle where the loop is
/// drawn with arcs; at a break it degenerates to an arc where the loop has
/// unpaired bases, else to a chord.
pub open spec fn backbone_of(at_break: bool, arcs: bool, has_unpaired: bool) -> Backbone {
    if at_break {
        if has_unpaired {
            Backbone::BreakArc
        } else {
            Backbone::BreakChord
        }
    } else if arcs {
        Backbone::Arc
    } else {
        Backbone::Chord
    }
}

/// Whether a strand break sits right before base `pos`.
pub fn has_break_at(nicks: &Vec<usize>, pos: usize) -> (r: bool)
    ensures
        r == starts_strand(nicks@, pos as int),
{
    let mut found = false;
    for t in 0..nicks.len()
        invariant
            found == exists|w: int| 0 <= w < t && nicks@[w] == pos,
    {
        if nicks[t] == pos {
            found = true;
        }
    }
    found
}

/// The segment on the side of base `i` that faces its neighbour across the
/// gap before base `gap` (for the incoming side `gap == i`, for the outgoing
/// side the base after `i`), drawn on loop `shared`.
pub fn backbone_kind(infos: &[LoopInfo], shared: usize, nicks: &Vec<usize>, gap: usize) -> (r: Backbone)
    requires
        shared < infos@.len(),
    ensures
        r == backbone_of(
            starts_strand(nicks@, gap as int),
            uses_arcs(infos@[shared as int]),
            infos@[shared as int].unpaired_bases@.len() > 0,
        ),
{
    let at_break = has_break_at(nicks, gap);
    let arcs = loop_has_unpaired(infos, shared);
    if at_break {
        if infos[shared].unpaired_bases.len() > 0 {
            Backbone::BreakArc
        } else {
            Backbone::BreakChord
        }
    } else if arcs {
        Backbone::Arc
    } else {
        Backbone::Chord
    }
}

} // verus!
