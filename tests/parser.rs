use rnadraw_core::parse;

#[test]
fn parser_test_simple_pair() {
    let pt = parse("()").unwrap();
    assert_eq!(pt.pairs, vec![1, 0]);
    assert_eq!(pt.nicks, vec![0]);
    assert_eq!(pt.n_bases, 2);
}

#[test]
fn test_nested() {
    let pt = parse("(((...)))").unwrap();
    assert_eq!(pt.pairs, vec![8, 7, 6, 3, 4, 5, 2, 1, 0]);
    assert_eq!(pt.n_bases, 9);
}

#[test]
fn test_nick() {
    let pt = parse("(((.+.)))").unwrap();
    assert_eq!(pt.pairs, vec![7, 6, 5, 3, 4, 2, 1, 0]);
    assert_eq!(pt.nicks, vec![0, 4]);
    assert_eq!(pt.n_bases, 8);
}

#[test]
fn test_unmatched_open() {
    assert!(parse("((..)").is_err());
}

#[test]
fn test_unmatched_close() {
    assert!(parse("())").is_err());
}

#[test]
fn test_bad_char() {
    assert!(parse("(x)").is_err());
}

#[test]
fn parse_error_messages() {
    assert_eq!(parse("((").err().unwrap(), "unmatched ( parenthesis");
    assert_eq!(parse("())").err().unwrap(), "unmatched ) parenthesis");
    assert_eq!(parse("(x)").err().unwrap(), "bad dot-parens character");
    // the first fault from the left decides
    assert_eq!(parse(")x").err().unwrap(), "unmatched ) parenthesis");
    assert_eq!(parse("x)").err().unwrap(), "bad dot-parens character");
    assert_eq!(parse("((x").err().unwrap(), "bad dot-parens character");
}

#[test]
fn parse_empty_and_unpaired() {
    let pt = parse("").unwrap();
    assert_eq!(pt.n_bases, 0);
    assert!(pt.pairs.is_empty());
    assert_eq!(pt.nicks, vec![0]);
    let pt = parse("..").unwrap();
    assert_eq!(pt.pairs, vec![0, 1]);
}

#[test]
fn parse_breaks_at_both_ends() {
    let pt = parse("+()+").unwrap();
    assert_eq!(pt.pairs, vec![1, 0]);
    assert_eq!(pt.nicks, vec![0, 0, 2]);
    let pt = parse("(((+)))").unwrap();
    assert_eq!(pt.pairs, vec![5, 4, 3, 2, 1, 0]);
    assert_eq!(pt.nicks, vec![0, 3]);
}

#[test]
fn parsed_pairing_is_symmetric_and_non_crossing() {
    for s in ["((..((.....))..((..)).))", "((((((.....))))..))", "..((..))..", "(+)", "((.+.+))"] {
        let pt = parse(s).unwrap();
        let p = &pt.pairs;
        for i in 0..p.len() {
            assert_eq!(p[p[i]], i);
            for k in i + 1..p.len() {
                if i < p[i] && k < p[k] && k < p[i] {
                    assert!(p[k] < p[i]);
                }
            }
        }
    }
}
