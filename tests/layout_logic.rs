use rnadraw_core::backbone::{backbone_kind, has_break_at, Backbone};
use rnadraw_core::placement::{placement_order, Placement};
use rnadraw_core::elements::{base_slots, loop_bonds, loop_kind, step_between, Bond, LoopKind, Step};
use rnadraw_core::strands::{stem_anchor, strand_boundaries};
use rnadraw_core::{collect_elements, decompose, find_neighbor_loop, loop_has_unpaired, parse, Elem};

#[test]
fn hairpin_walk_runs_backwards_from_closing_pair() {
    let pt = parse("(((...)))").unwrap();
    let loops = decompose(&pt);
    assert_eq!(
        collect_elements(&loops[3], &pt),
        vec![
            Elem::PairFirst(6, 2, true),
            Elem::Unpaired(5),
            Elem::Unpaired(4),
            Elem::Unpaired(3),
            Elem::PairLast(2, 6, true),
        ]
    );
    assert_eq!(
        collect_elements(&loops[1], &pt),
        vec![
            Elem::PairFirst(8, 0, true),
            Elem::PairLast(7, 1, false),
            Elem::PairFirst(1, 7, false),
            Elem::PairLast(0, 8, true),
        ]
    );
}

#[test]
fn external_walk_marks_the_break_at_zero_once() {
    let pt = parse("(((...)))").unwrap();
    let loops = decompose(&pt);
    assert_eq!(
        collect_elements(&loops[0], &pt),
        vec![Elem::PairLast(8, 0, false), Elem::Nick, Elem::PairFirst(0, 8, false)]
    );
}

#[test]
fn break_inside_empty_hairpin() {
    let pt = parse("(((+)))").unwrap();
    let loops = decompose(&pt);
    assert_eq!(
        collect_elements(&loops[3], &pt),
        vec![Elem::PairFirst(3, 2, true), Elem::Nick, Elem::PairLast(2, 3, true)]
    );
}

#[test]
fn steps_between_elements() {
    let a = Elem::PairLast(7, 1, false);
    let b = Elem::PairFirst(1, 7, false);
    assert_eq!(step_between(&a, &b, false), Step::Bond);
    assert_eq!(step_between(&a, &b, true), Step::Arc);
    assert_eq!(step_between(&b, &a, true), Step::Bond);
    assert_eq!(step_between(&a, &Elem::Nick, false), Step::Stay);
    assert_eq!(step_between(&Elem::Nick, &a, false), Step::AfterBreak);
    assert_eq!(step_between(&Elem::Unpaired(3), &Elem::Unpaired(4), false), Step::Arc);
}

#[test]
fn bonds_of_a_stem_loop() {
    let pt = parse("(((...)))").unwrap();
    let loops = decompose(&pt);
    let elems = collect_elements(&loops[1], &pt);
    assert_eq!(
        loop_bonds(&loops, 1, &elems),
        vec![
            Bond { first: 8, last: 0, last_idx: 3, neighbor: 0 },
            Bond { first: 1, last: 7, last_idx: 1, neighbor: 2 },
        ]
    );
}

#[test]
fn neighbours_across_bonds() {
    let pt = parse("((..((.....))..((..)).))").unwrap();
    let loops = decompose(&pt);
    // across its own closing pair, the multiloop meets the stem above it
    assert_eq!(find_neighbor_loop(&loops, 2, 22, 1), 1);
    // across a child pair, the loop that pair closes
    assert_eq!(find_neighbor_loop(&loops, 2, 15, 20), 4);
    assert_eq!(find_neighbor_loop(&loops, 2, 4, 12), 3);
    // a bond nobody owns
    assert_eq!(find_neighbor_loop(&loops, 2, 2, 3), 0);
}

#[test]
fn arcs_or_chords() {
    let pt = parse("((..((.....))..((..)).))").unwrap();
    let loops = decompose(&pt);
    assert!(!loop_has_unpaired(&loops, 1));
    assert!(loop_has_unpaired(&loops, 2));
    let pt = parse("((()()))").unwrap();
    let loops = decompose(&pt);
    // three bonds and no unpaired base still run along the circle
    assert!(loop_has_unpaired(&loops, 2));
    assert!(!loop_has_unpaired(&loops, 1));
}

#[test]
fn radius_rules() {
    let pt = parse("()").unwrap();
    let loops = decompose(&pt);
    assert_eq!(loop_kind(&loops[0]), LoopKind::FixedExternal);
    assert_eq!(loop_kind(&loops[1]), LoopKind::EmptyHairpin);
    let pt = parse("(((...)))").unwrap();
    let loops = decompose(&pt);
    assert_eq!(loop_kind(&loops[1]), LoopKind::Stem);
    assert_eq!(loop_kind(&loops[3]), LoopKind::General);
    let pt = parse("(())(())").unwrap();
    assert_eq!(loop_kind(&decompose(&pt)[0]), LoopKind::Stem);
    let pt = parse("(()).(())").unwrap();
    assert_eq!(loop_kind(&decompose(&pt)[0]), LoopKind::General);
}

#[test]
fn strand_starts_and_ends() {
    let pt = parse("(((.+.)))").unwrap();
    let (starts, ends) = strand_boundaries(&pt);
    assert_eq!(starts, vec![true, false, false, false, true, false, false, false]);
    assert_eq!(ends, vec![false, false, false, true, false, false, false, true]);
    let pt = parse("()+").unwrap();
    let (starts, ends) = strand_boundaries(&pt);
    assert_eq!(starts, vec![true, false]);
    assert_eq!(ends, vec![false, true]);
}

#[test]
fn stem_anchors() {
    assert_eq!(stem_anchor(&parse("(((...)))").unwrap().pairs), Some((0, 8, true)));
    assert_eq!(stem_anchor(&parse("(.)").unwrap().pairs), Some((0, 2, false)));
    assert_eq!(stem_anchor(&parse(".()..").unwrap().pairs), Some((1, 2, false)));
    assert_eq!(stem_anchor(&parse("...").unwrap().pairs), None);
}

#[test]
fn placement_is_breadth_first() {
    let pt = parse("((..((.....))..((..)).))").unwrap();
    let loops = decompose(&pt);
    let neighbors: Vec<Vec<usize>> = (0..loops.len())
        .map(|li| {
            let elems = collect_elements(&loops[li], &pt);
            loop_bonds(&loops, li, &elems).iter().map(|b| b.neighbor).collect()
        })
        .collect();
    assert_eq!(neighbors[2], vec![1, 4, 3]);
    let order: Vec<(usize, usize, usize)> = placement_order(&neighbors)
        .iter()
        .map(|p: &Placement| (p.child, p.parent, p.bond))
        .collect();
    assert_eq!(order, vec![(1, 0, 0), (2, 1, 1), (4, 2, 1), (3, 2, 2), (5, 4, 1), (6, 3, 1)]);
}

#[test]
fn placement_skips_placed_and_out_of_range() {
    let order = placement_order(&vec![vec![1, 2], vec![0, 2, 5], vec![1]]);
    assert_eq!(
        order,
        vec![
            Placement { child: 1, parent: 0, bond: 0 },
            Placement { child: 2, parent: 0, bond: 1 },
        ]
    );
}

#[test]
fn angle_slots_of_bases() {
    let pt = parse("(((...)))").unwrap();
    let loops = decompose(&pt);
    let walks: Vec<Vec<Elem>> = loops.iter().map(|l| collect_elements(l, &pt)).collect();
    let slots = base_slots(&walks, pt.n_bases);
    assert_eq!(slots.len(), 9);
    assert_eq!(slots[0], (Some((0, 2)), Some((1, 3))));
    assert_eq!(slots[8], (Some((1, 0)), Some((0, 0))));
    assert_eq!(slots[1], (Some((1, 2)), Some((2, 3))));
    assert_eq!(slots[4], (Some((3, 2)), Some((3, 2))));
}

#[test]
fn backbone_kinds() {
    let pt = parse("(((.+.)))").unwrap();
    let loops = decompose(&pt);
    // hairpin with unpaired bases: arcs; the break before base 4 degenerates
    assert_eq!(backbone_kind(&loops, 3, &pt.nicks, 4), Backbone::BreakArc);
    assert_eq!(backbone_kind(&loops, 3, &pt.nicks, 5), Backbone::Arc);
    // a stem: chords; the break at 0 on the external loop is a chord of no length
    assert_eq!(backbone_kind(&loops, 1, &pt.nicks, 2), Backbone::Chord);
    assert_eq!(backbone_kind(&loops, 0, &pt.nicks, 0), Backbone::BreakChord);
    // three bonds and no unpaired base: arcs away from a break, a chord at one
    let pt = parse("()()()").unwrap();
    let loops = decompose(&pt);
    assert_eq!(backbone_kind(&loops, 0, &pt.nicks, 0), Backbone::BreakChord);
    assert_eq!(backbone_kind(&loops, 0, &pt.nicks, 2), Backbone::Arc);
    let pt = parse("(((.+.)))").unwrap();
    assert!(has_break_at(&pt.nicks, 4));
    assert!(!has_break_at(&pt.nicks, 3));
}
