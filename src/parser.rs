//! Dot-bracket-plus notation: `(` and `)` open and close a nested pair, `.` is
//! an unpaired base, `+` is a strand break before the next base.

use vstd::prelude::*;
use crate::types::{PairTable, is_pairing, is_involution, is_non_crossing};

verus! {

broadcast use vstd::string::to_string_from_display_ensures_for_str;

/// Why a notation string is rejected.
pub enum ParseFault {
    InvalidCharacter,
    UnmatchedClose,
    UnmatchedOpen,
}

/// The state of a left-to-right scan: partner table so far (an open base holds
/// a placeholder), the stack of open bases, the strand breaks, and the first fault.
pub struct ScanState {
    pub pairs: Seq<usize>,
    pub stack: Seq<usize>,
    pub nicks: Seq<usize>,
    pub fault: Option<ParseFault>,
}

pub open spec fn scan_start() -> ScanState {
    ScanState { pairs: Seq::empty(), stack: Seq::empty(), nicks: seq![0usize], fault: None }
}

/// One character of the scan. Once a fault is recorded the state no longer changes.
pub open spec fn scan_step(st: ScanState, c: char) -> ScanState {
    let b = st.pairs.len() as usize;
    if st.fault is Some {
        st
    } else if c == '(' {
        ScanState { pairs: st.pairs.push(0), stack: st.stack.push(b), ..st }
    } else if c == ')' {
        if st.stack.len() == 0 {
            ScanState { fault: Some(ParseFault::UnmatchedClose), ..st }
        } else {
            let j = st.stack.last();
            ScanState {
                pairs: st.pairs.push(j).update(j as int, b),
                stack: st.stack.drop_last(),
                ..st
            }
        }
    } else if c == '.' {
        ScanState { pairs: st.pairs.push(b), ..st }
    } else if c == '+' {
        ScanState { nicks: st.nicks.push(b), ..st }
    } else {
        ScanState { fault: Some(ParseFault::InvalidCharacter), ..st }
    }
}

/// The scan of a whole string.
pub open spec fn scan(s: Seq<char>) -> ScanState
    decreases s.len(),
{
    if s.len() == 0 {
        scan_start()
    } else {
        scan_step(scan(s.drop_last()), s.last())
    }
}

/// The fault that rejects `s`, if any: the first bad character or unmatched
/// `)`, else an `(` left open at the end.
pub open spec fn parse_fault(s: Seq<char>) -> Option<ParseFault> {
    let st = scan(s);
    if st.fault is Some {
        st.fault
    } else if st.stack.len() > 0 {
        Some(ParseFault::UnmatchedOpen)
    } else {
        None
    }
}

/// Number of characters of `s` that stand for a base.
pub open spec fn base_count(s: Seq<char>) -> nat
    decreases s.len(),
{
    if s.len() == 0 {
        0
    } else {
        base_count(s.drop_last()) + if s.last() == '(' || s.last() == ')' || s.last() == '.' {
            1nat
        } else {
            0nat
        }
    }
}

/// The message that goes with each fault.
pub open spec fn fault_message(f: ParseFault) -> Seq<char> {
    match f {
        ParseFault::InvalidCharacter => "bad dot-parens character"@,
        ParseFault::UnmatchedClose => "unmatched ) parenthesis"@,
        ParseFault::UnmatchedOpen => "unmatched ( parenthesis"@,
    }
}

pub open spec fn on_stack(st: Seq<usize>, i: int) -> bool {
    exists|j: int| 0 <= j < st.len() && st[j] == i
}

/// What holds of every fault-free scan state.
pub open spec fn scan_inv(st: ScanState) -> bool {
    let p = st.pairs;
    let n = p.len();
    &&& forall|a: int, b: int| 0 <= a < b < st.stack.len() ==> st.stack[a] < st.stack[b]
    &&& forall|a: int| 0 <= a < st.stack.len() ==> #[trigger] st.stack[a] < n
    &&& forall|i: int|
        0 <= i < n && !on_stack(st.stack, i) ==> {
            &&& (#[trigger] p[i]) < n
            &&& p[p[i] as int] == i
            &&& !on_stack(st.stack, p[i] as int)
        }
    &&& forall|i: int, a: int|
        0 <= i < n && 0 <= a < st.stack.len() && !on_stack(st.stack, i) && i < #[trigger] p[i]
            ==> !(i < #[trigger] st.stack[a] < p[i])
    &&& forall|i: int, k: int|
        0 <= i < k < n && !on_stack(st.stack, i) && !on_stack(st.stack, k) && i < #[trigger] p[i]
            && k < #[trigger] p[k] && k < p[i] ==> p[k] < p[i]
    &&& forall|a: int| 0 <= a < st.nicks.len() ==> #[trigger] st.nicks[a] <= n
    &&& st.nicks.len() >= 1
    &&& st.nicks[0] == 0
}

proof fn lemma_scan_step_inv(st: ScanState, c: char)
    requires
        st.fault is None,
        scan_inv(st),
        scan_step(st, c).fault is None,
        scan_step(st, c).pairs.len() <= usize::MAX,
    ensures
        scan_inv(scan_step(st, c)),
{
    let p = st.pairs;
    let n = p.len();
    let nx = scan_step(st, c);
    if c == '(' {
        assert forall|i: int| 0 <= i < nx.pairs.len() && !on_stack(nx.stack, i) implies on_stack(
            st.stack,
            i,
        ) == false && i < n by {
            if i == n {
                assert(nx.stack[nx.stack.len() - 1] == n);
            }
            if on_stack(st.stack, i) {
                let j = choose|j: int| 0 <= j < st.stack.len() && st.stack[j] == i;
                assert(nx.stack[j] == i);
            }
        }
        assert forall|i: int| 0 <= i < n && on_stack(st.stack, i) implies on_stack(nx.stack, i) by {
            let j = choose|j: int| 0 <= j < st.stack.len() && st.stack[j] == i;
            assert(nx.stack[j] == i);
        }
        assert forall|i: int| 0 <= i < n && on_stack(nx.stack, i) implies on_stack(st.stack, i) by {
            let j = choose|j: int| 0 <= j < nx.stack.len() && nx.stack[j] == i;
            if j < st.stack.len() {
                assert(st.stack[j] == i);
            }
        }
    } else if c == ')' {
        let s = st.stack.last() as int;
        let top = st.stack.len() - 1;
        assert forall|i: int| 0 <= i < nx.pairs.len() && on_stack(nx.stack, i) implies on_stack(
            st.stack,
            i,
        ) && i < s by {
            let j = choose|j: int| 0 <= j < nx.stack.len() && nx.stack[j] == i;
            assert(st.stack[j] == i);
        }
        assert forall|i: int| 0 <= i < n && on_stack(st.stack, i) && i != s implies on_stack(
            nx.stack,
            i,
        ) by {
            let j = choose|j: int| 0 <= j < st.stack.len() && st.stack[j] == i;
            if j == top {
            } else {
                assert(nx.stack[j] == i);
            }
        }
        assert(on_stack(st.stack, s)) by {
            assert(st.stack[top] == s);
        }
        // entries above `s` do not exist: every base after `s` is closed
        assert forall|i: int| s < i < n implies !on_stack(st.stack, i) by {
            if on_stack(st.stack, i) {
                let j = choose|j: int| 0 <= j < st.stack.len() && st.stack[j] == i;
                if j < top {
                    assert(st.stack[j] < st.stack[top]);
                }
            }
        }
        assert forall|i: int|
            0 <= i < nx.pairs.len() && !on_stack(nx.stack, i) implies {
            &&& (#[trigger] nx.pairs[i]) < nx.pairs.len()
            &&& nx.pairs[nx.pairs[i] as int] == i
            &&& !on_stack(nx.stack, nx.pairs[i] as int)
        } by {
            if i == s || i == n {
                assert(!on_stack(nx.stack, s as int));
            } else {
                assert(!on_stack(st.stack, i));
                assert(p[i] != s);
            }
        }
        assert forall|i: int, a: int|
            0 <= i < nx.pairs.len() && 0 <= a < nx.stack.len() && !on_stack(nx.stack, i) && i
                < #[trigger] nx.pairs[i] implies !(i < #[trigger] nx.stack[a] < nx.pairs[i]) by {
            assert(nx.stack[a] == st.stack[a]);
            assert(st.stack[a] < st.stack[top]);
            if i != s {
                assert(!on_stack(st.stack, i));
                assert(p[i] == nx.pairs[i]);
            }
        }
        assert forall|i: int, k: int|
            0 <= i < k < nx.pairs.len() && !on_stack(nx.stack, i) && !on_stack(nx.stack, k) && i
                < #[trigger] nx.pairs[i] && k < #[trigger] nx.pairs[k] && k < nx.pairs[i] implies nx.pairs[k]
            < nx.pairs[i] by {
            if i == s {
                assert(!on_stack(st.stack, k));
            } else if k == s {
                assert(!on_stack(st.stack, i));
                assert(!(i < st.stack[top] < p[i]));
            } else {
                assert(!on_stack(st.stack, i));
                assert(!on_stack(st.stack, k));
            }
        }
    } else if c == '.' {
        assert forall|i: int| 0 <= i < nx.pairs.len() && on_stack(nx.stack, i) implies i < n by {
            let j = choose|j: int| 0 <= j < nx.stack.len() && nx.stack[j] == i;
        }
        assert(!on_stack(nx.stack, n as int));
    }
}

proof fn lemma_scan_inv(s: Seq<char>)
    requires
        scan(s).fault is None,
        base_count(s) <= usize::MAX,
    ensures
        scan_inv(scan(s)),
        scan(s).pairs.len() == base_count(s),
    decreases s.len(),
{
    if s.len() == 0 {
    } else {
        let prev = scan(s.drop_last());
        assert(scan(s) == scan_step(prev, s.last()));
        assert(prev.fault is None);
        lemma_scan_inv(s.drop_last());
        lemma_scan_step_inv(prev, s.last());
    }
}

/// A string that parses yields a valid pairing: `pairs[pairs[i]] == i` for
/// every base, and no two pairs cross.
pub proof fn lemma_parse_gives_pairing(s: Seq<char>)
    requires
        parse_fault(s) is None,
        base_count(s) <= usize::MAX,
    ensures
        is_pairing(scan(s).pairs),
        scan(s).pairs.len() == base_count(s),
{
    lemma_scan_inv(s);
    let st = scan(s);
    assert forall|i: int| 0 <= i < st.pairs.len() implies !on_stack(st.stack, i) by {}
    assert(is_involution(st.pairs));
    assert(is_non_crossing(st.pairs));
}

/// Parse dot-bracket-plus notation into a pair table.
///
/// Characters: `(` = open pair, `)` = close pair, `.` = unpaired, `+` = strand break.
/// Fails on the first character outside that alphabet or the first `)` with
/// nothing open, and on an `(` still open at the end.
pub fn parse(input: &str) -> (r: Result<PairTable, String>)
    ensures
        match parse_fault(input@) {
            None => r is Ok && {
                let pt = r->Ok_0;
                &&& pt.wf()
                &&& pt.pairs@ == scan(input@).pairs
                &&& pt.nicks@ == scan(input@).nicks
                &&& pt.n_bases == base_count(input@)
            },
            Some(f) => r is Err && r->Err_0@ == fault_message(f),
        },
{
    let mut pairs: Vec<usize> = Vec::new();
    let mut nicks: Vec<usize> = vec![0];
    let mut stack: Vec<usize> = Vec::new();
    let ghost s = input@;

    for ch in it: input.chars()
        invariant
            s == input@,
            it.seq() == s,
            scan(s.take(it.index() as int)).fault is None,
            scan(s.take(it.index() as int)).pairs == pairs@,
            scan(s.take(it.index() as int)).stack == stack@,
            scan(s.take(it.index() as int)).nicks == nicks@,
            scan_inv(scan(s.take(it.index() as int))),
            pairs@.len() == base_count(s.take(it.index() as int)),
    {
        let ghost k = it.index() as int;
        let ghost before = scan(s.take(k));
        proof {
            assert(s.take(k + 1).drop_last() == s.take(k));
            assert(s.take(k + 1).last() == ch);
            assert(scan(s.take(k + 1)) == scan_step(before, ch));
            assert(base_count(s.take(k + 1)) == base_count(s.take(k)) + if ch == '(' || ch == ')'
                || ch == '.' {
                1nat
            } else {
                0nat
            });
        }
        if ch == '(' {
            pairs.push(0);
            stack.push(pairs.len() - 1);
        } else if ch == ')' {
            let j = match stack.pop() {
                Some(j) => j,
                None => {
                    proof {
                        lemma_fault_sticks(s, k + 1);
                    }
                    return Err("unmatched ) parenthesis".to_string());
                },
            };
            let b = pairs.len();
            pairs.push(j);
            pairs.set(j, b);
        } else if ch == '.' {
            pairs.push(pairs.len());
        } else if ch == '+' {
            nicks.push(pairs.len());
        } else {
            proof {
                lemma_fault_sticks(s, k + 1);
            }
            return Err("bad dot-parens character".to_string());
        }
        proof {
            assert(scan_step(before, ch).pairs == pairs@);
            assert(pairs.len() <= usize::MAX);
            lemma_scan_step_inv(before, ch);
        }
    }
    proof {
        assert(s.take(s.len() as int) == s);
    }
    if stack.len() > 0 {
        return Err("unmatched ( parenthesis".to_string());
    }
    proof {
        assert forall|i: int| 0 <= i < pairs@.len() implies !on_stack(stack@, i) by {}
        assert(is_involution(pairs@));
        assert(is_non_crossing(pairs@));
    }
    let n_bases = pairs.len();
    Ok(PairTable { pairs, nicks, n_bases })
}

/// A fault, once recorded, is the fault of every longer string.
proof fn lemma_fault_sticks(s: Seq<char>, k: int)
    requires
        0 <= k <= s.len(),
        scan(s.take(k)).fault is Some,
    ensures
        scan(s).fault == scan(s.take(k)).fault,
    decreases s.len() - k,
{
    if k == s.len() {
        assert(s.take(k) == s);
    } else {
        assert(s.take(k + 1).drop_last() == s.take(k));
        lemma_fault_sticks(s, k + 1);
    }
}

} // verus!
