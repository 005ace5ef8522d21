use rnadraw_core::{decompose, parse, LoopInfo};

fn loops_of(s: &str) -> Vec<LoopInfo> {
    decompose(&parse(s).unwrap())
}

fn parents(loops: &[LoopInfo]) -> Vec<Option<(usize, usize)>> {
    loops.iter().map(|l| l.parent_pair).collect()
}

#[test]
fn test_nick_assignment() {
    // (((+))) → pairs: (0,5),(1,4),(2,3), nicks: [0, 3]
    let pt = parse("(((+)))").unwrap();
    let loops = decompose(&pt);
    for (i, l) in loops.iter().enumerate() {
        println!(
            "  loop {}: parent={:?}, children={:?}, unpaired={:?}, nicks={:?}",
            i, l.parent_pair, l.child_pairs, l.unpaired_bases, l.nicks_in_loop
        );
    }
    assert_eq!(loops[0].nicks_in_loop, vec![0], "loop 0 should have nick 0");
    assert!(loops[1].nicks_in_loop.is_empty(), "loop 1 (stem) should have no nicks");
    assert!(loops[2].nicks_in_loop.is_empty(), "loop 2 (stem) should have no nicks");
    assert_eq!(loops[3].nicks_in_loop, vec![3], "loop 3 should have nick 3");
}

#[test]
fn no_pairs_gives_no_loops() {
    assert!(loops_of(".").is_empty());
    assert!(loops_of("..").is_empty());
    assert!(loops_of("").is_empty());
}

#[test]
fn single_pair() {
    let loops = loops_of("()");
    assert_eq!(loops.len(), 2);
    assert_eq!(loops[0].parent_pair, None);
    assert_eq!(loops[0].child_pairs, vec![(0, 1)]);
    assert!(loops[0].unpaired_bases.is_empty());
    assert_eq!(loops[0].nicks_in_loop, vec![0]);
    assert_eq!(loops[1].parent_pair, Some((0, 1)));
    assert!(loops[1].child_pairs.is_empty());
}

#[test]
fn hairpin_stack() {
    let loops = loops_of("(((...)))");
    assert_eq!(parents(&loops), vec![None, Some((0, 8)), Some((1, 7)), Some((2, 6))]);
    assert_eq!(loops[1].child_pairs, vec![(1, 7)]);
    assert_eq!(loops[2].child_pairs, vec![(2, 6)]);
    assert_eq!(loops[3].unpaired_bases, vec![3, 4, 5]);
    assert!(loops[3].child_pairs.is_empty());
}

#[test]
fn multiloop_order() {
    // outer pair (0,23) closes a multiloop with children (4,12) and (15,20)
    let loops = loops_of("((..((.....))..((..)).))");
    assert_eq!(
        parents(&loops),
        vec![
            None,
            Some((0, 23)),
            Some((1, 22)),
            Some((4, 12)),
            Some((15, 20)),
            Some((16, 19)),
            Some((5, 11)),
        ]
    );
    assert_eq!(loops[2].child_pairs, vec![(4, 12), (15, 20)]);
    assert_eq!(loops[2].unpaired_bases, vec![2, 3, 13, 14, 21]);
}

#[test]
fn external_siblings_order() {
    // three outermost pairs: the first expands fully, the others are listed,
    // then their subtrees follow, last first
    let loops = loops_of("(()).(()).(())");
    assert_eq!(
        parents(&loops),
        vec![
            None,
            Some((0, 3)),
            Some((1, 2)),
            Some((5, 8)),
            Some((10, 13)),
            Some((11, 12)),
            Some((6, 7)),
        ]
    );
    assert_eq!(loops[0].child_pairs, vec![(0, 3), (5, 8), (10, 13)]);
    assert_eq!(loops[0].unpaired_bases, vec![4, 9]);
}

#[test]
fn break_between_unpaired_bases() {
    let loops = loops_of("(((.+.)))");
    // the break at 4 falls between 3 and 4, both unpaired in the hairpin
    assert_eq!(loops[3].nicks_in_loop, vec![4]);
    assert_eq!(loops[0].nicks_in_loop, vec![0]);
}

#[test]
fn break_after_last_base_has_no_loop() {
    let loops = loops_of("()+");
    let total: usize = loops.iter().map(|l| l.nicks_in_loop.len()).sum();
    assert_eq!(total, 1);
    assert_eq!(loops[0].nicks_in_loop, vec![0]);
}

#[test]
fn each_pair_closes_one_loop() {
    for s in ["((..((.....))..((..)).))", "(()).(()).(())", "((((+))))", "..((..))..", "((()()))"] {
        let pt = parse(s).unwrap();
        let loops = decompose(&pt);
        let mut closing: Vec<(usize, usize)> = loops[1..].iter().map(|l| l.parent_pair.unwrap()).collect();
        closing.sort();
        let pairs: Vec<(usize, usize)> =
            (0..pt.n_bases).filter(|&i| i < pt.pairs[i]).map(|i| (i, pt.pairs[i])).collect();
        assert_eq!(closing, pairs);
        assert_eq!(loops[0].parent_pair, None);
    }
}
