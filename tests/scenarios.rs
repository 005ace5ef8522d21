use rnadraw_core::elements::{loop_kind, LoopKind};
use rnadraw_core::{decompose, parse};

#[test]
fn single_pair_scenario() {
    let pt = parse("()").unwrap();
    assert_eq!(pt.n_bases, 2);
    let loops = decompose(&pt);
    assert_eq!(loops[0].child_pairs.len(), 1);
    assert_eq!(loop_kind(&loops[0]), LoopKind::FixedExternal);
}

#[test]
fn hairpin_scenario() {
    let pt = parse("(((...)))").unwrap();
    assert_eq!(pt.n_bases, 9);
    let loops = decompose(&pt);
    assert_eq!(loops.len(), 4);
    assert_eq!(loops[3].unpaired_bases.len(), 3);
    assert_eq!(loop_kind(&loops[3]), LoopKind::General);
}

#[test]
fn break_scenario() {
    let loops = decompose(&parse("(((+)))").unwrap());
    assert_eq!(loops[0].nicks_in_loop, vec![0]);
    assert_eq!(loops[3].nicks_in_loop, vec![3]);
}

#[test]
fn nothing_to_draw_and_rejections() {
    assert!(decompose(&parse(".").unwrap()).is_empty());
    assert!(decompose(&parse("..").unwrap()).is_empty());
    assert!(parse("(x)").is_err());
    assert!(parse("((").is_err());
}
