//! The matching framework: horizon, pattern text, and the search drivers.
use vstd::prelude::*;

use crate::automata::{
    leftmost, accepts, rep, is_match, lemma_counts_witness, lemma_local, lemma_rep_witness,
    lemma_split_witness,
};
use crate::ir::{Node, SpatialFormula};
use crate::ops::{Operator, RangeKind, RegexOperatorKind};
use crate::symbolizer::SymbolicAbstractSyntaxTree;

verus! {

/// A half-open interval `[start, end)` of frame indices.
pub struct Match {
    pub start: usize,
    pub end: usize,
}

impl Match {
    /// Create a new [`Match`] from its bounds.
    pub fn new(start: usize, end: usize) -> (r: Match)
        ensures
            r.start == start,
            r.end == end,
    {
        Match { start, end }
    }
}

/// The most characters a match of `re` can span, or `None` when a repetition
/// is unbounded.
pub open spec fn horizon_of(re: Node<char>) -> Option<nat>
    decreases re,
{
    match re {
        Node::Operand(_) => Some(1),
        Node::UnaryExpr { op, child } => match op {
            Operator::RegexOperator(RegexOperatorKind::Range(RangeKind::Exactly(n))) => match horizon_of(*child) {
                Some(h) => Some(h * n as nat),
                None => None,
            },
            Operator::RegexOperator(RegexOperatorKind::Range(RangeKind::Between(_, m))) => match horizon_of(*child) {
                Some(h) => Some(h * m as nat),
                None => None,
            },
            _ => None,
        },
        Node::BinaryExpr { op, lhs, rhs } => match (horizon_of(*lhs), horizon_of(*rhs)) {
            (Some(a), Some(b)) => match op {
                Operator::RegexOperator(RegexOperatorKind::Concatenation) => Some(a + b),
                Operator::RegexOperator(RegexOperatorKind::Alternation) => Some(
                    if a >= b { a } else { b },
                ),
                _ => None,
            },
            _ => None,
        },
    }
}

/// The horizon of `node`: whether it is finite, and its value when that fits
/// a `usize`. A zero count bounds its operand's horizon to zero, however large
/// that is.
fn horizonit(node: &Node<char>) -> (r: (bool, Option<usize>))
    ensures
        r.0 == horizon_of(*node) is Some,
        r.1 is Some ==> horizon_of(*node) == Some(r.1->0 as nat),
        horizon_of(*node) is Some && horizon_of(*node)->0 <= usize::MAX ==> r.1 == Some(
            horizon_of(*node)->0 as usize,
        ),
    decreases node,
{
    match node {
        Node::Operand(_) => (true, Some(1)),
        Node::UnaryExpr { op, child } => {
            let count = match op {
                Operator::RegexOperator(RegexOperatorKind::Range(RangeKind::Exactly(n))) => *n,
                Operator::RegexOperator(RegexOperatorKind::Range(RangeKind::Between(_, m))) => *m,
                _ => {
                    return (false, None);
                },
            };
            let (bounded, value) = horizonit(child);
            if !bounded {
                return (false, None);
            }
            if count == 0 {
                proof {
                    let hc = horizon_of(**child)->0;
                    assert(hc * count == 0) by (nonlinear_arith)
                        requires
                            count == 0,
                    ;
                }
                return (true, Some(0));
            }
            match value {
                Some(h) => {
                    proof {
                        let hc = horizon_of(**child)->0;
                        assert(hc <= hc * count) by (nonlinear_arith)
                            requires
                                count >= 1,
                        ;
                    }
                    (true, h.checked_mul(count))
                },
                None => {
                    proof {
                        let hc = horizon_of(**child)->0;
                        assert(hc <= hc * count) by (nonlinear_arith)
                            requires
                                count >= 1,
                        ;
                    }
                    (true, None)
                },
            }
        },
        Node::BinaryExpr { op, lhs, rhs } => {
            let (lb, lv) = horizonit(lhs);
            let (rb, rv) = horizonit(rhs);
            let concatenation = match op {
                Operator::RegexOperator(RegexOperatorKind::Concatenation) => true,
                Operator::RegexOperator(RegexOperatorKind::Alternation) => false,
                _ => {
                    return (false, None);
                },
            };
            if !(lb && rb) {
                return (false, None);
            }
            match (lv, rv) {
                (Some(a), Some(b)) => if concatenation {
                    (true, a.checked_add(b))
                } else {
                    (
                        true,
                        Some(
                            if a >= b {
                                a
                            } else {
                                b
                            },
                        ),
                    )
                },
                _ => (true, None),
            }
        },
    }
}

/// The horizon of a symbolic pattern: the most frames any match can span.
///
/// `None` when a repetition is unbounded (`*`, `{n,}`), when the pattern is
/// empty, or when the horizon does not fit a `usize`.
pub fn horizon(ast: &SymbolicAbstractSyntaxTree) -> (r: Option<usize>)
    ensures
        match ast.root {
            None => r is None,
            Some(root) => {
                &&& r is Some ==> horizon_of(root) == Some(r->0 as nat)
                &&& horizon_of(root) is None ==> r is None
                &&& horizon_of(root) is Some && horizon_of(root)->0 <= usize::MAX ==> r == Some(
                    horizon_of(root)->0 as usize,
                )
            },
        },
{
    match &ast.root {
        Some(root) => {
            let (bounded, value) = horizonit(root);
            if bounded {
                value
            } else {
                None
            }
        },
        None => None,
    }
}

/// No match of a pattern is longer than its horizon.
pub proof fn lemma_horizon_sound(re: Node<char>, s: Seq<char>, i: int, j: int, h: nat)
    requires
        horizon_of(re) == Some(h),
        accepts(re, s, i, j),
    ensures
        j - i <= h,
    decreases re, 0nat,
{
    match re {
        Node::Operand(_) => {
            assert(j == i + 1);
            assert(h == 1);
        },
        Node::UnaryExpr { op, child } => match op {
            Operator::RegexOperator(RegexOperatorKind::Range(RangeKind::Exactly(n))) => {
                let hc = horizon_of(*child)->0;
                lemma_rep_sound(*child, n as int, s, i, j, hc);
                assert(n * hc == hc * n) by (nonlinear_arith);
            },
            Operator::RegexOperator(RegexOperatorKind::Range(RangeKind::Between(lo, m))) => {
                let hc = horizon_of(*child)->0;
                let c = lemma_counts_witness(re, *child, m as int, s, i, j, lo as int);
                lemma_rep_sound(*child, c, s, i, j, hc);
                assert(c * hc <= hc * m) by (nonlinear_arith)
                    requires
                        c <= m,
                        hc >= 0,
                ;
            },
            _ => {},
        },
        Node::BinaryExpr { op, lhs, rhs } => match op {
            Operator::RegexOperator(RegexOperatorKind::Concatenation) => {
                let k = lemma_split_witness(re, s, i, j, i);
                lemma_horizon_sound(*lhs, s, i, k, horizon_of(*lhs)->0);
                lemma_horizon_sound(*rhs, s, k, j, horizon_of(*rhs)->0);
            },
            Operator::RegexOperator(RegexOperatorKind::Alternation) => {
                if accepts(*lhs, s, i, j) {
                    lemma_horizon_sound(*lhs, s, i, j, horizon_of(*lhs)->0);
                } else {
                    lemma_horizon_sound(*rhs, s, i, j, horizon_of(*rhs)->0);
                }
            },
            _ => {},
        },
    }
}

proof fn lemma_rep_sound(r: Node<char>, c: int, s: Seq<char>, i: int, j: int, h: nat)
    requires
        horizon_of(r) == Some(h),
        rep(r, c, s, i, j),
    ensures
        c >= 0,
        j - i <= c * h,
    decreases r, 1nat, c,
{
    if c > 0 {
        let q = lemma_rep_witness(r, c, s, i, j);
        lemma_horizon_sound(r, s, i, q, h);
        lemma_rep_sound(r, c - 1, s, q, j, h);
        assert(c * h == (c - 1) * h + h) by (nonlinear_arith);
    }
}

/// The characters one frame contributes to the symbol string, with its
/// external index.
pub struct FrameSymbols {
    pub index: usize,
    pub symbols: Vec<char>,
}

/// The characters of the table entries whose formula holds, in table order.
pub open spec fn selected(table: Seq<(char, SpatialFormula)>, sat: Seq<bool>) -> Seq<char>
    decreases sat.len(),
{
    if sat.len() == 0 || table.len() < sat.len() {
        Seq::empty()
    } else {
        let k = sat.len() - 1;
        selected(table, sat.drop_last()) + if sat[k] {
            seq![table[k].0]
        } else {
            Seq::empty()
        }
    }
}

impl FrameSymbols {
    /// The symbols of a frame, from which formulas of the table it satisfies.
    pub fn from_evaluation(table: &Vec<(char, SpatialFormula)>, index: usize, satisfied: &Vec<bool>) -> (r: FrameSymbols)
        requires
            satisfied@.len() == table@.len(),
        ensures
            r.index == index,
            r.symbols@ == selected(table@, satisfied@),
    {
        let mut symbols: Vec<char> = Vec::new();
        let mut k: usize = 0;
        while k < satisfied.len()
            invariant
                satisfied@.len() == table@.len(),
                k <= satisfied@.len(),
                symbols@ == selected(table@, satisfied@.subrange(0, k as int)),
            decreases satisfied@.len() - k,
        {
            let ghost before = symbols@;
            if satisfied[k] {
                symbols.push(table[k].0);
            }
            assert(satisfied@.subrange(0, k + 1).drop_last() =~= satisfied@.subrange(0, k as int));
            proof {
                let t = satisfied@.subrange(0, k + 1);
                assert(t[k as int] == satisfied@[k as int]);
                if satisfied@[k as int] {
                    assert(symbols@ =~= before + seq![table@[k as int].0]);
                } else {
                    assert(symbols@ =~= before + Seq::<char>::empty());
                }
            }
            k = k + 1;
        }
        assert(satisfied@.subrange(0, satisfied@.len() as int) =~= satisfied@);
        FrameSymbols { index, symbols }
    }
}

/// The symbol string of `frames`: their symbols one after the other.
pub open spec fn symbol_string(frames: Seq<FrameSymbols>) -> Seq<char>
    decreases frames.len(),
{
    if frames.len() == 0 {
        Seq::empty()
    } else {
        symbol_string(frames.drop_last()) + frames.last().symbols@
    }
}

/// For each position of the symbol string of `frames`, the position of the
/// frame it comes from.
pub open spec fn owners(frames: Seq<FrameSymbols>) -> Seq<int>
    decreases frames.len(),
{
    if frames.len() == 0 {
        Seq::empty()
    } else {
        owners(frames.drop_last()) + Seq::new(
            frames.last().symbols@.len(),
            |_p: int| frames.len() - 1,
        )
    }
}

proof fn lemma_owners(frames: Seq<FrameSymbols>)
    ensures
        owners(frames).len() == symbol_string(frames).len(),
        forall|p: int| 0 <= p < owners(frames).len() ==> 0 <= #[trigger] owners(frames)[p] < frames.len(),
        forall|p: int, q: int| 0 <= p <= q < owners(frames).len() ==> #[trigger] owners(frames)[p] <= #[trigger] owners(frames)[q],
    decreases frames.len(),
{
    if frames.len() > 0 {
        lemma_owners(frames.drop_last());
    }
}

proof fn lemma_symbol_string_split(frames: Seq<FrameSymbols>, from: int)
    requires
        0 <= from <= frames.len(),
    ensures
        symbol_string(frames) == symbol_string(frames.subrange(0, from)) + symbol_string(
            frames.subrange(from, frames.len() as int),
        ),
    decreases frames.len(),
{
    if from == frames.len() {
        assert(frames.subrange(0, from) =~= frames);
        assert(frames.subrange(from, frames.len() as int) =~= Seq::<FrameSymbols>::empty());
        assert(symbol_string(frames) =~= symbol_string(frames) + Seq::<char>::empty());
    } else {
        let d = frames.drop_last();
        lemma_symbol_string_split(d, from);
        assert(d.subrange(0, from) =~= frames.subrange(0, from));
        let tail = frames.subrange(from, frames.len() as int);
        assert(tail.drop_last() =~= d.subrange(from, d.len() as int));
        assert(tail.last() == frames.last());
        assert(symbol_string(frames) =~= symbol_string(frames.subrange(0, from)) + symbol_string(tail));
    }
}

/// The symbol string of `frames[from..]` and, for each of its positions, the
/// position in `frames` of the frame it comes from.
fn flatten(frames: &Vec<FrameSymbols>, from: usize) -> (r: (Vec<char>, Vec<usize>))
    requires
        from <= frames@.len(),
        symbol_string(frames@).len() < usize::MAX,
    ensures
        r.0@ == symbol_string(frames@.subrange(from as int, frames@.len() as int)),
        r.1@.len() == r.0@.len(),
        forall|p: int| 0 <= p < r.1@.len() ==> #[trigger] r.1@[p] == owners(frames@.subrange(from as int, frames@.len() as int))[p] + from,
        r.0@.len() < usize::MAX,
{
    let mut s: Vec<char> = Vec::new();
    let mut own: Vec<usize> = Vec::new();
    let mut f: usize = from;
    while f < frames.len()
        invariant
            from <= f <= frames@.len(),
            s@ == symbol_string(frames@.subrange(from as int, f as int)),
            own@.len() == s@.len(),
            forall|p: int| 0 <= p < own@.len() ==> #[trigger] own@[p] == owners(frames@.subrange(from as int, f as int))[p] + from,
        decreases frames@.len() - f,
    {
        let ghost sub = frames@.subrange(from as int, f + 1);
        assert(sub.drop_last() =~= frames@.subrange(from as int, f as int));
        proof {
            lemma_owners(frames@.subrange(from as int, f as int));
        }
        let ghost s0 = s@;
        let ghost o0 = own@;
        let syms = &frames[f].symbols;
        let mut k: usize = 0;
        while k < syms.len()
            invariant
                from <= f < frames@.len(),
                syms == &frames@[f as int].symbols,
                k <= syms@.len(),
                s@ == s0 + syms@.subrange(0, k as int),
                own@.len() == s@.len(),
                o0.len() == s0.len(),
                forall|p: int| 0 <= p < o0.len() ==> #[trigger] own@[p] == o0[p],
                forall|p: int| o0.len() <= p < own@.len() ==> #[trigger] own@[p] == f,
            decreases syms@.len() - k,
        {
            s.push(syms[k]);
            own.push(f);
            k = k + 1;
            assert(s@ =~= s0 + syms@.subrange(0, k as int));
        }
        assert(syms@.subrange(0, syms@.len() as int) =~= syms@);
        proof {
            assert(sub.last() == frames@[f as int]);
            assert(s@ =~= symbol_string(sub));
            assert forall|p: int| 0 <= p < own@.len() implies #[trigger] own@[p] == owners(sub)[p] + from by {
                if p < o0.len() {
                    assert(owners(sub)[p] == owners(sub.drop_last())[p]);
                } else {
                    assert(owners(sub)[p] == sub.len() - 1);
                }
            }
        }
        f = f + 1;
    }
    proof {
        lemma_symbol_string_split(frames@, from as int);
        assert(frames@.subrange(from as int, frames@.len() as int) =~= frames@.subrange(from as int, f as int));
    }
    (s, own)
}


/// `[a, b)` is the leftmost, longest non-empty match of `re` in `s`.
pub open spec fn leftmost_longest(re: Node<char>, s: Seq<char>, a: int, b: int) -> bool {
    &&& 0 <= a < b <= s.len()
    &&& accepts(re, s, a, b)
    &&& forall|a2: int, b2: int| 0 <= a2 < a ==> !#[trigger] is_match(re, s, a2, b2)
    &&& forall|b2: int| b < b2 ==> !#[trigger] accepts(re, s, a, b2)
}

/// The frames `[from + owners[a], from + owners[b - 1] + 1)` that the symbol
/// span `[a, b)` of `frames[from..]` covers.
pub open spec fn covers(frames: Seq<FrameSymbols>, from: int, a: int, b: int, m: Match) -> bool {
    let o = owners(frames.subrange(from, frames.len() as int));
    &&& m.start == from + o[a]
    &&& m.end == from + o[b - 1] + 1
}

/// The leftmost, longest match of a pattern is the only one.
pub proof fn lemma_leftmost_unique(re: Node<char>, s: Seq<char>, a: int, b: int, a2: int, b2: int)
    requires
        leftmost_longest(re, s, a, b),
        leftmost_longest(re, s, a2, b2),
    ensures
        a == a2 && b == b2,
{
    if a < a2 {
        assert(is_match(re, s, a, b));
    }
    if a2 < a {
        assert(is_match(re, s, a2, b2));
    }
    if b < b2 {
        assert(accepts(re, s, a, b2));
    }
    if b2 < b {
        assert(accepts(re, s, a2, b));
    }
}

/// The symbol string of `frames[from..]`, which the matcher searches.
pub open spec fn suffix_string(frames: Seq<FrameSymbols>, from: int) -> Seq<char> {
    symbol_string(frames.subrange(from, frames.len() as int))
}

/// The leftmost, longest match in `frames[from..]`, as the frames whose
/// symbols it spans; `None` when there is none.
pub open spec fn first_match(root: Option<Node<char>>, frames: Seq<FrameSymbols>, from: int) -> Option<Match> {
    match root {
        None => None,
        Some(re) => {
            let s = suffix_string(frames, from);
            if exists|a: int, b: int| #[trigger] leftmost_longest(re, s, a, b) {
                let (a, b) = choose|a: int, b: int| #[trigger] leftmost_longest(re, s, a, b);
                let o = owners(frames.subrange(from, frames.len() as int));
                Some(Match { start: (from + o[a]) as usize, end: (from + o[b - 1] + 1) as usize })
            } else {
                None
            }
        },
    }
}

/// The leftmost, longest match in `frames[from..]`, as the frames whose
/// symbols it spans.
pub fn leftmost_from(ast: &SymbolicAbstractSyntaxTree, frames: &Vec<FrameSymbols>, from: usize) -> (r: Option<Match>)
    requires
        from <= frames@.len(),
        symbol_string(frames@).len() < usize::MAX,
    ensures
        match ast.root {
            None => r is None,
            Some(re) => {
                let s = symbol_string(frames@.subrange(from as int, frames@.len() as int));
                &&& r is None <==> forall|a: int, b: int| !#[trigger] is_match(re, s, a, b)
                &&& r is Some ==> exists|a: int, b: int| #[trigger] leftmost_longest(re, s, a, b) && covers(frames@, from as int, a, b, r->0)
            },
        },
        r is Some ==> from <= r->0.start < r->0.end <= frames@.len(),
        r == first_match(ast.root, frames@, from as int),
{
    match &ast.root {
        None => None,
        Some(re) => {
            let n = frames.len();
            let (s, own) = flatten(frames, from);
            let ghost sub = frames@.subrange(from as int, frames@.len() as int);
            proof {
                lemma_owners(sub);
            }
            match leftmost(re, &s, 0) {
                None => {
                    assert forall|a: int, b: int| !#[trigger] is_match(*re, s@, a, b) by {
                        if a < 0 {
                            assert(!accepts(*re, s@, a, b));
                        }
                    }
                    assert forall|a: int, b: int| !#[trigger] leftmost_longest(*re, s@, a, b) by {
                        if leftmost_longest(*re, s@, a, b) {
                            assert(is_match(*re, s@, a, b));
                        }
                    }
                    None
                },
                Some((a, b)) => {
                    proof {
                        assert(own@[b - 1] == owners(sub)[b - 1] + from);
                        assert(owners(sub)[b - 1] < sub.len());
                        assert(own@[b - 1] < n);
                    }
                    let m = Match { start: own[a], end: own[b - 1] + 1 };
                    proof {
                        assert(leftmost_longest(*re, s@, a as int, b as int));
                        assert(is_match(*re, s@, a as int, b as int));
                        let (a2, b2) = choose|a2: int, b2: int| #[trigger] leftmost_longest(*re, s@, a2, b2);
                        lemma_leftmost_unique(*re, s@, a as int, b as int, a2, b2);
                        assert(covers(frames@, from as int, a as int, b as int, m));
                        assert(owners(sub)[a as int] <= owners(sub)[b - 1]);
                    }
                    Some(m)
                },
            }
        },
    }
}

/// What is left of a report budget after one more report.
pub open spec fn spend(budget: Option<nat>) -> Option<nat> {
    match budget {
        Some(k) => Some((k - 1) as nat),
        None => None,
    }
}

/// The reports of the offline search from frame `offset` on, with at most
/// `budget` of them (no bound for `None`).
pub open spec fn offline_from(
    root: Option<Node<char>>,
    frames: Seq<FrameSymbols>,
    offset: int,
    budget: Option<nat>,
) -> Seq<Match>
    decreases frames.len() - offset,
{
    if offset < 0 || offset >= frames.len() {
        Seq::empty()
    } else {
        match first_match(root, frames, offset) {
            None => offline_from(root, frames, offset + 1, budget),
            Some(m) => if budget == Some(0nat) || m.end <= offset || m.end > frames.len() {
                Seq::empty()
            } else {
                seq![m] + offline_from(root, frames, m.end as int, spend(budget))
            },
        }
    }
}

/// The budget a limit gives.
pub open spec fn budget_of(limit: Option<usize>) -> Option<nat> {
    match limit {
        Some(l) => Some(l as nat),
        None => None,
    }
}

/// The offline search: from the first frame, find the leftmost match, report
/// it, and go on after its end; with no match, go on one frame later. At most
/// `limit` matches are reported.
///
/// The reported matches, as frame positions, are non-empty, in order and do
/// not overlap.
pub fn offline(ast: &SymbolicAbstractSyntaxTree, frames: &Vec<FrameSymbols>, limit: Option<usize>) -> (r: Vec<Match>)
    requires
        symbol_string(frames@).len() < usize::MAX,
    ensures
        forall|k: int| 0 <= k < r@.len() ==> #[trigger] r@[k].start < r@[k].end <= frames@.len(),
        forall|k: int| 0 <= k < r@.len() - 1 ==> #[trigger] r@[k].end <= r@[k + 1].start,
        limit is Some ==> r@.len() <= limit->0,
        ast.root is None ==> r@.len() == 0,
        r@ == offline_from(ast.root, frames@, 0, budget_of(limit)),
{
    let mut out: Vec<Match> = Vec::new();
    let mut offset: usize = 0;
    let mut count: usize = 0;
    while offset < frames.len()
        invariant
            symbol_string(frames@).len() < usize::MAX,
            offset <= frames@.len(),
            count == out@.len(),
            out@.len() <= offset,
            forall|k: int| #![trigger out@[k]] 0 <= k < out@.len() ==> out@[k].start < out@[k].end <= offset,
            forall|k: int| #![trigger out@[k]] 0 <= k < out@.len() - 1 ==> out@[k].end <= out@[k + 1].start,
            limit is Some ==> out@.len() <= limit->0,
            ast.root is None ==> out@.len() == 0,
            offline_from(ast.root, frames@, 0, budget_of(limit)) == out@ + offline_from(
                ast.root,
                frames@,
                offset as int,
                match limit {
                    Some(l) => Some((l - count) as nat),
                    None => None,
                },
            ),
        ensures
            offline_from(ast.root, frames@, 0, budget_of(limit)) == out@,
        decreases frames@.len() - offset,
    {
        match leftmost_from(ast, frames, offset) {
            Some(m) => {
                if let Some(l) = limit {
                    if count >= l {
                        proof {
                            assert(offline_from(ast.root, frames@, offset as int, Some((l - count) as nat)) =~= Seq::<Match>::empty());
                            assert(out@ + Seq::<Match>::empty() =~= out@);
                        }
                        break;
                    }
                }
                let ghost rest = offline_from(ast.root, frames@, m.end as int, spend(match limit {
                    Some(l) => Some((l - count) as nat),
                    None => None,
                }));
                count = count + 1;
                let end = m.end;
                let ghost prev = out@;
                out.push(m);
                proof {
                    assert(prev + (seq![m] + rest) =~= out@ + rest);
                }
                proof {
                    assert forall|k: int| 0 <= k < out@.len() - 1 implies #[trigger] out@[k].end <= out@[k + 1].start by {
                        if k < prev.len() - 1 {
                            assert(out@[k] == prev[k] && out@[k + 1] == prev[k + 1]);
                        } else {
                            assert(out@[k] == prev[k]);
                            assert(out@[k + 1] == m);
                            assert(prev[k].end <= offset);
                        }
                    }
                }
                offset = end;
            },
            None => {
                offset = offset + 1;
            },
        }
    }
    out
}


/// `f` continues the frames `p`: it starts with them.
pub open spec fn extends(f: Seq<FrameSymbols>, p: Seq<FrameSymbols>) -> bool {
    p.len() <= f.len() && f.subrange(0, p.len() as int) == p
}

/// What is left of the report budget of `limit` after `count` reports.
pub open spec fn remaining(limit: Option<usize>, count: nat) -> Option<nat> {
    match limit {
        Some(l) => Some((l - count) as nat),
        None => None,
    }
}

proof fn lemma_zero_budget(root: Option<Node<char>>, frames: Seq<FrameSymbols>, offset: int)
    ensures
        offline_from(root, frames, offset, Some(0nat)) == Seq::<Match>::empty(),
    decreases frames.len() - offset,
{
    if 0 <= offset < frames.len() && first_match(root, frames, offset) is None {
        lemma_zero_budget(root, frames, offset + 1);
    }
}

/// A leftmost, longest match found among the frames `p[off..]` is the one
/// the offline search finds from `off` in every continuation `f` of `p`, when
/// `f` is `p` itself or the symbols of `p[off..]` reach `h`, a bound on the
/// pattern's horizon, past the match's start.
#[verifier::spinoff_prover]
proof fn lemma_final_match(
    re: Node<char>,
    p: Seq<FrameSymbols>,
    f: Seq<FrameSymbols>,
    off: int,
    a: int,
    b: int,
    h: int,
)
    requires
        extends(f, p),
        0 <= off <= p.len(),
        f.len() < usize::MAX,
        leftmost_longest(re, symbol_string(p.subrange(off, p.len() as int)), a, b),
        f.len() == p.len() || (horizon_of(re) is Some && horizon_of(re)->0 <= h && symbol_string(
            p.subrange(off, p.len() as int),
        ).len() >= a + h),
    ensures
        first_match(Some(re), f, off) == Some(
            Match {
                start: (off + owners(p.subrange(off, p.len() as int))[a]) as usize,
                end: (off + owners(p.subrange(off, p.len() as int))[b - 1] + 1) as usize,
            },
        ),
{
    let bw = p.subrange(off, p.len() as int);
    let fs = f.subrange(off, f.len() as int);
    let k = p.len() - off;
    assert(fs.subrange(0, k) =~= bw) by {
        assert forall|x: int| 0 <= x < k implies fs.subrange(0, k)[x] == bw[x] by {
            assert(f.subrange(0, p.len() as int)[off + x] == p[off + x]);
        }
    }
    lemma_symbol_string_split(fs, k);
    lemma_owners_prefix(fs, k);
    lemma_owners(bw);
    lemma_owners(fs);
    let sb = symbol_string(bw);
    let sf = symbol_string(fs);
    assert(sf == sb + symbol_string(fs.subrange(k, fs.len() as int)));
    assert forall|x: int| 0 <= x < sb.len() implies #[trigger] sb[x] == sf[x + 0] by {}
    lemma_local(re, sf, sb, a, b, 0);
    assert forall|a2: int, b2: int| 0 <= a2 < a implies !#[trigger] is_match(re, sf, a2, b2) by {
        if is_match(re, sf, a2, b2) {
            if f.len() == p.len() {
                assert(fs =~= bw);
            } else {
                lemma_horizon_sound(re, sf, a2, b2, horizon_of(re)->0);
            }
            lemma_local(re, sf, sb, a2, b2, 0);
            assert(is_match(re, sb, a2, b2));
        }
    }
    assert forall|b2: int| b < b2 implies !#[trigger] accepts(re, sf, a, b2) by {
        if accepts(re, sf, a, b2) {
            if f.len() == p.len() {
                assert(fs =~= bw);
            } else {
                lemma_horizon_sound(re, sf, a, b2, horizon_of(re)->0);
            }
            lemma_local(re, sf, sb, a, b2, 0);
        }
    }
    assert(leftmost_longest(re, sf, a, b));
    let (a3, b3) = choose|a3: int, b3: int| #[trigger] leftmost_longest(re, sf, a3, b3);
    lemma_leftmost_unique(re, sf, a, b, a3, b3);
    assert(owners(fs)[a] == owners(bw)[a]);
    assert(owners(fs)[b - 1] == owners(bw)[b - 1]);
    assert(suffix_string(f, off) == sf);
    let m = Match { start: (off + owners(fs)[a]) as usize, end: (off + owners(fs)[b - 1] + 1) as usize };
    assert(first_match(Some(re), f, off) == Some(m));
}

proof fn lemma_first_frame_string(fs: Seq<FrameSymbols>)
    requires
        fs.len() >= 1,
    ensures
        symbol_string(fs) == fs[0].symbols@ + symbol_string(fs.subrange(1, fs.len() as int)),
{
    lemma_symbol_string_split(fs, 1);
    let one = fs.subrange(0, 1);
    assert(one.drop_last() =~= Seq::<FrameSymbols>::empty());
    assert(one.last() == fs[0]);
    assert(symbol_string(one) == symbol_string(one.drop_last()) + one.last().symbols@);
    assert(symbol_string(Seq::<FrameSymbols>::empty()) == Seq::<char>::empty());
    assert(symbol_string(one) =~= fs[0].symbols@);
}

proof fn lemma_owners_shift(fs: Seq<FrameSymbols>)
    requires
        fs.len() >= 1,
    ensures
        forall|x: int|
            0 <= x < symbol_string(fs.subrange(1, fs.len() as int)).len() ==> #[trigger] owners(
                fs.subrange(1, fs.len() as int),
            )[x] + 1 == owners(fs)[fs[0].symbols@.len() + x],
    decreases fs.len(),
{
    let fs1 = fs.subrange(1, fs.len() as int);
    lemma_owners(fs);
    lemma_owners(fs1);
    lemma_first_frame_string(fs);
    if fs.len() > 1 {
        let d = fs.drop_last();
        let d1 = d.subrange(1, d.len() as int);
        lemma_owners_shift(d);
        lemma_owners(d);
        lemma_owners(d1);
        lemma_first_frame_string(d);
        assert(fs1.drop_last() =~= d1);
        assert(fs1.last() == fs.last());
        assert(d[0] == fs[0]);
        let l0 = fs[0].symbols@.len() as int;
        assert forall|x: int| 0 <= x < symbol_string(fs1).len() implies #[trigger] owners(fs1)[x] + 1 == owners(fs)[l0 + x] by {
            if x < symbol_string(d1).len() {
                assert(owners(fs1)[x] == owners(d1)[x]);
                assert(owners(fs)[l0 + x] == owners(d)[l0 + x]);
            } else {
                assert(owners(fs1)[x] == fs1.len() - 1);
                assert(owners(fs)[l0 + x] == fs.len() - 1);
            }
        }
    }
}

/// When no match among the symbols of `p[off..]` starts in its first frame,
/// and those symbols reach the horizon past that frame, the offline search
/// from `off` and from `off + 1` report the same in every continuation `f`.
#[verifier::spinoff_prover]
proof fn lemma_skip_frame(re: Node<char>, p: Seq<FrameSymbols>, f: Seq<FrameSymbols>, off: int, h: int, rem: Option<nat>)
    requires
        extends(f, p),
        0 <= off < p.len(),
        f.len() < usize::MAX,
        horizon_of(re) is Some,
        horizon_of(re)->0 <= h,
        p[off].symbols@.len() == 0 || p[off].symbols@.len() + h <= symbol_string(
            p.subrange(off, p.len() as int),
        ).len() + 1,
        forall|a2: int, b2: int|
            0 <= a2 < p[off].symbols@.len() ==> !#[trigger] is_match(
                re,
                symbol_string(p.subrange(off, p.len() as int)),
                a2,
                b2,
            ),
    ensures
        offline_from(Some(re), f, off, rem) == offline_from(Some(re), f, off + 1, rem),
{
    let bw = p.subrange(off, p.len() as int);
    let fs = f.subrange(off, f.len() as int);
    let fs1 = f.subrange(off + 1, f.len() as int);
    let k = p.len() - off;
    assert(fs.subrange(0, k) =~= bw) by {
        assert forall|x: int| 0 <= x < k implies fs.subrange(0, k)[x] == bw[x] by {
            assert(f.subrange(0, p.len() as int)[off + x] == p[off + x]);
        }
    }
    assert(fs[0] == p[off]) by {
        assert(f.subrange(0, p.len() as int)[off] == p[off]);
    }
    assert(fs.subrange(1, fs.len() as int) =~= fs1);
    lemma_symbol_string_split(fs, k);
    lemma_first_frame_string(fs);
    lemma_owners_shift(fs);
    lemma_owners(fs);
    lemma_owners(fs1);
    let sb = symbol_string(bw);
    let sf = symbol_string(fs);
    let sf1 = symbol_string(fs1);
    let l0 = p[off].symbols@.len() as int;
    let h0 = horizon_of(re)->0;
    assert(sf == sb + symbol_string(fs.subrange(k, fs.len() as int)));
    assert(sf == fs[0].symbols@ + sf1);
    // No match of the continuation starts in the first frame.
    assert forall|a2: int, b2: int| 0 <= a2 < l0 implies !#[trigger] is_match(re, sf, a2, b2) by {
        if is_match(re, sf, a2, b2) {
            lemma_horizon_sound(re, sf, a2, b2, h0);
            lemma_local(re, sf, sb, a2, b2, 0);
            assert(is_match(re, sb, a2, b2));
        }
    }
    // Matches after the first frame are the same in both strings, shifted.
    assert forall|a2: int, b2: int| 0 <= a2 <= b2 <= sf1.len() implies #[trigger] accepts(re, sf1, a2, b2) == accepts(re, sf, a2 + l0, b2 + l0) by {
        lemma_local(re, sf, sf1, a2, b2, l0);
    }
    let fm = first_match(Some(re), f, off);
    let fm1 = first_match(Some(re), f, off + 1);
    assert(suffix_string(f, off) == sf);
    assert(suffix_string(f, off + 1) == sf1);
    if exists|a: int, b: int| #[trigger] leftmost_longest(re, sf, a, b) {
        let (a, b) = choose|a: int, b: int| #[trigger] leftmost_longest(re, sf, a, b);
        assert(is_match(re, sf, a, b));
        assert(a >= l0);
        assert(accepts(re, sf1, a - l0, b - l0));
        assert forall|a2: int, b2: int| 0 <= a2 < a - l0 implies !#[trigger] is_match(re, sf1, a2, b2) by {
            if is_match(re, sf1, a2, b2) {
                assert(is_match(re, sf, a2 + l0, b2 + l0));
            }
        }
        assert forall|b2: int| b - l0 < b2 implies !#[trigger] accepts(re, sf1, a - l0, b2) by {
            if accepts(re, sf1, a - l0, b2) {
                assert(accepts(re, sf, a, b2 + l0));
            }
        }
        assert(leftmost_longest(re, sf1, a - l0, b - l0));
        let (a3, b3) = choose|a3: int, b3: int| #[trigger] leftmost_longest(re, sf1, a3, b3);
        lemma_leftmost_unique(re, sf1, a - l0, b - l0, a3, b3);
        assert(owners(fs1)[a - l0] + 1 == owners(fs)[a]);
        assert(owners(fs1)[b - 1 - l0] + 1 == owners(fs)[b - 1]);
        assert(fm == fm1);
        assert(fm is Some);
    } else {
        assert forall|a: int, b: int| !#[trigger] leftmost_longest(re, sf1, a, b) by {
            if leftmost_longest(re, sf1, a, b) {
                assert(accepts(re, sf, a + l0, b + l0));
                assert forall|a2: int, b2: int| 0 <= a2 < a + l0 implies !#[trigger] is_match(re, sf, a2, b2) by {
                    if is_match(re, sf, a2, b2) && a2 >= l0 {
                        assert(is_match(re, sf1, a2 - l0, b2 - l0));
                    }
                }
                assert forall|b2: int| b + l0 < b2 implies !#[trigger] accepts(re, sf, a + l0, b2) by {
                    if accepts(re, sf, a + l0, b2) {
                        assert(accepts(re, sf1, a, b2 - l0));
                    }
                }
                assert(leftmost_longest(re, sf, a + l0, b + l0));
            }
        }
        assert(fm is None && fm1 is None);
    }
}

/// Drop the first `k` frames.
fn drop_front(v: &mut Vec<FrameSymbols>, k: usize)
    requires
        k <= old(v)@.len(),
    ensures
        final(v)@ == old(v)@.subrange(k as int, old(v)@.len() as int),
{
    let ghost w = v@;
    let mut i: usize = 0;
    while i < k
        invariant
            i <= k,
            k <= w.len(),
            v@ == w.subrange(i as int, w.len() as int),
        decreases k - i,
    {
        v.remove(0);
        i = i + 1;
        assert(v@ =~= w.subrange(i as int, w.len() as int));
    }
}

/// The online search. Frames arrive one at a time; a match is reported as
/// soon as no later frame can change it: when the symbols received reach
/// the horizon past its start. [`OnlineMatcher::finish`] reports what is
/// left when the stream ends. Together the reports are exactly those of the
/// offline search over all the frames received, with the same limit, for any
/// horizon. With a finite horizon the window drops each front frame in which
/// no match can start any more: one without symbols, or one whose matches
/// would already lie in the window.
pub struct OnlineMatcher {
    /// A bound on the pattern's horizon, or `None` when it is unbounded.
    pub horizon: Option<usize>,
    pub limit: Option<usize>,
    /// The frames from `offset` on, where the offline search stands.
    pub window: Vec<FrameSymbols>,
    pub offset: usize,
    /// The number of frames received.
    pub seen: usize,
    /// The number of matches reported.
    pub count: usize,
    pub pushed: Ghost<Seq<FrameSymbols>>,
    pub reported: Ghost<Seq<Match>>,
    pub root: Ghost<Option<Node<char>>>,
}

impl OnlineMatcher {
    /// The matcher's state agrees with the offline search over every
    /// continuation of the frames received.
    pub open spec fn wf(&self) -> bool {
        &&& self.pushed@.len() == self.seen
        &&& self.offset <= self.seen
        &&& self.window@ == self.pushed@.subrange(self.offset as int, self.seen as int)
        &&& symbol_string(self.window@).len() < usize::MAX
        &&& self.reported@.len() == self.count
        &&& self.count <= self.offset
        &&& (self.limit is Some ==> self.count <= self.limit->0)
        &&& (self.horizon is Some ==> self.root@ is Some && horizon_of(self.root@->0) is Some
            && horizon_of(self.root@->0)->0 <= self.horizon->0)
        &&& forall|f: Seq<FrameSymbols>|
            #[trigger] extends(f, self.pushed@) && f.len() < usize::MAX ==> offline_from(
                self.root@,
                f,
                0,
                budget_of(self.limit),
            ) == self.reported@ + offline_from(
                self.root@,
                f,
                self.offset as int,
                remaining(self.limit, self.count as nat),
            )
    }

    /// A matcher that has received nothing. `horizon` must bound the
    /// pattern's horizon; [`horizon`] gives one.
    pub fn new(ast: &SymbolicAbstractSyntaxTree, horizon: Option<usize>, limit: Option<usize>) -> (r: OnlineMatcher)
        requires
            horizon is Some ==> ast.root is Some && horizon_of(ast.root->0) is Some && horizon_of(
                ast.root->0,
            )->0 <= horizon->0,
        ensures
            r.wf(),
            r.root@ == ast.root,
            r.horizon == horizon,
            r.limit == limit,
            r.seen == 0,
            r.count == 0,
            r.reported@.len() == 0,
    {
        let r = OnlineMatcher {
            horizon,
            limit,
            window: Vec::new(),
            offset: 0,
            seen: 0,
            count: 0,
            pushed: Ghost(Seq::empty()),
            reported: Ghost(Seq::empty()),
            root: Ghost(ast.root),
        };
        assert(r.window@ =~= r.pushed@.subrange(0, 0));
        assert forall|f: Seq<FrameSymbols>| #[trigger] extends(f, r.pushed@) && f.len() < usize::MAX implies offline_from(
            r.root@,
            f,
            0,
            budget_of(r.limit),
        ) == r.reported@ + offline_from(r.root@, f, 0, remaining(r.limit, 0)) by {
            assert(Seq::<Match>::empty() + offline_from(r.root@, f, 0, remaining(r.limit, 0)) =~= offline_from(
                r.root@,
                f,
                0,
                remaining(r.limit, 0),
            ));
        }
        r
    }

    /// Report the match at the front of the window, `(a, b)` in its symbols,
    /// and drop the frames before its end.
    fn take(&mut self, ast: &SymbolicAbstractSyntaxTree, own: &Vec<usize>, a: usize, b: usize) -> (m: Match)
        requires
            old(self).wf(),
            ast.root == old(self).root@,
            ast.root is Some,
            own@.len() == symbol_string(old(self).window@).len(),
            forall|x: int| 0 <= x < own@.len() ==> #[trigger] own@[x] == owners(old(self).window@)[x],
            leftmost_longest(ast.root->0, symbol_string(old(self).window@), a as int, b as int),
            old(self).horizon is Some,
            symbol_string(old(self).window@).len() >= a + old(self).horizon->0,
            old(self).limit is Some ==> old(self).count < old(self).limit->0,
            old(self).seen < usize::MAX,
        ensures
            final(self).reported@ == old(self).reported@.push(m),
            final(self).pushed == old(self).pushed,
            final(self).root == old(self).root,
            final(self).horizon == old(self).horizon,
            final(self).limit == old(self).limit,
            final(self).count == old(self).count + 1,
            final(self).seen == old(self).seen,
            old(self).offset < final(self).offset,
            final(self).wf(),
    {
        let ghost re = ast.root->0;
        let ghost p = self.pushed@;
        let ghost w = self.window@;
        let ghost off = self.offset as int;
        let ghost o = owners(w);
        proof {
            lemma_owners(w);
            assert(w =~= p.subrange(off, p.len() as int));
        }
        let start = self.offset + own[a];
        let end = self.offset + own[b - 1] + 1;
        let m = Match { start, end };
        proof {
            assert(o[a as int] <= o[b - 1]);
            assert forall|f: Seq<FrameSymbols>| #[trigger] extends(f, p) && f.len() < usize::MAX implies first_match(Some(re), f, off) == Some(m) by {
                lemma_final_match(re, p, f, off, a as int, b as int, self.horizon->0 as int);
            }
        }
        let k = end - self.offset;
        drop_front(&mut self.window, k);
        proof {
            lemma_symbol_string_split(w, k as int);
            assert(self.window@ =~= p.subrange(end as int, p.len() as int));
        }
        self.offset = end;
        self.count = self.count + 1;
        self.reported = Ghost(self.reported@.push(m));
        proof {
            let rem = remaining(self.limit, (self.count - 1) as nat);
            assert(spend(rem) == remaining(self.limit, self.count as nat));
            {
                assert forall|f: Seq<FrameSymbols>| #[trigger] extends(f, self.pushed@) && f.len() < usize::MAX implies offline_from(
                    self.root@,
                    f,
                    0,
                    budget_of(self.limit),
                ) == self.reported@ + offline_from(
                    self.root@,
                    f,
                    self.offset as int,
                    remaining(self.limit, self.count as nat),
                ) by {
                    assert(first_match(self.root@, f, off) == Some(m));
                    assert(offline_from(self.root@, f, off, rem) == seq![m] + offline_from(self.root@, f, end as int, spend(rem)));
                    assert(old(self).reported@ + (seq![m] + offline_from(self.root@, f, end as int, spend(rem))) =~= self.reported@ + offline_from(self.root@, f, end as int, spend(rem)));
                }
            }
        }
        m
    }

    /// Drop the first frame of the window, in which no match can start in
    /// any continuation of the frames received.
    fn skip_first(&mut self, ast: &SymbolicAbstractSyntaxTree, s: &Vec<char>, h: usize)
        requires
            old(self).wf(),
            ast.root == old(self).root@,
            ast.root is Some,
            old(self).horizon == Some(h),
            old(self).window@.len() > 0,
            s@ == symbol_string(old(self).window@),
            old(self).window@[0].symbols@.len() == 0 || old(self).window@[0].symbols@.len() + h
                <= s@.len() + 1,
            forall|a2: int, b2: int|
                0 <= a2 < old(self).window@[0].symbols@.len() ==> !#[trigger] is_match(ast.root->0, s@, a2, b2),
        ensures
            final(self).wf(),
            final(self).pushed == old(self).pushed,
            final(self).reported == old(self).reported,
            final(self).root == old(self).root,
            final(self).horizon == old(self).horizon,
            final(self).limit == old(self).limit,
            final(self).seen == old(self).seen,
            final(self).offset == old(self).offset + 1,
    {
        let ghost p = self.pushed@;
        let ghost off = self.offset as int;
        let ghost w = self.window@;
        proof {
            assert(w[0] == p[off]);
            assert(w =~= p.subrange(off, p.len() as int));
        }
        drop_front(&mut self.window, 1);
        self.offset = self.offset + 1;
        proof {
            lemma_symbol_string_split(w, 1);
            assert(self.window@ =~= p.subrange(self.offset as int, self.seen as int));
            let rem = remaining(self.limit, self.count as nat);
            assert forall|f: Seq<FrameSymbols>| #[trigger] extends(f, self.pushed@) && f.len() < usize::MAX implies offline_from(
                self.root@,
                f,
                0,
                budget_of(self.limit),
            ) == self.reported@ + offline_from(self.root@, f, self.offset as int, rem) by {
                lemma_skip_frame(ast.root->0, p, f, off, h as int, rem);
            }
        }
    }

    /// Take in the next frame and report every match it makes final.
    pub fn push(&mut self, ast: &SymbolicAbstractSyntaxTree, frame: FrameSymbols) -> (r: Vec<Match>)
        requires
            old(self).wf(),
            ast.root == old(self).root@,
            old(self).seen < usize::MAX - 1,
            symbol_string(old(self).window@.push(frame)).len() < usize::MAX,
        ensures
            final(self).wf(),
            final(self).pushed@ == old(self).pushed@.push(frame),
            final(self).reported@ == old(self).reported@ + r@,
            final(self).root == old(self).root,
            final(self).horizon == old(self).horizon,
            final(self).limit == old(self).limit,
            final(self).seen == old(self).seen + 1,
    {
        let ghost before = self.pushed@;
        self.window.push(frame);
        self.seen = self.seen + 1;
        self.pushed = Ghost(self.pushed@.push(frame));
        proof {
            assert(self.window@ =~= self.pushed@.subrange(self.offset as int, self.seen as int));
            assert forall|f: Seq<FrameSymbols>| #[trigger] extends(f, self.pushed@) && f.len() < usize::MAX implies offline_from(
                self.root@,
                f,
                0,
                budget_of(self.limit),
            ) == self.reported@ + offline_from(
                self.root@,
                f,
                self.offset as int,
                remaining(self.limit, self.count as nat),
            ) by {
                assert(f.subrange(0, before.len() as int) =~= f.subrange(0, self.pushed@.len() as int).subrange(0, before.len() as int));
                assert(self.pushed@.subrange(0, before.len() as int) =~= before);
                assert(extends(f, before));
            }
        }
        let mut out: Vec<Match> = Vec::new();
        let ghost start = self.reported@;
        loop
            invariant
                self.wf(),
                ast.root == self.root@,
                self.pushed@ == before.push(frame),
                before == old(self).pushed@,
                start == old(self).reported@,
                self.seen < usize::MAX,
                self.reported@ == start + out@,
                self.root == old(self).root,
                self.horizon == old(self).horizon,
                self.limit == old(self).limit,
                self.seen == old(self).seen + 1,
            decreases self.seen - self.offset,
        {
            if let Some(l) = self.limit {
                if self.count >= l {
                    return out;
                }
            }
            let h = match self.horizon {
                Some(h) => h,
                None => {
                    return out;
                },
            };
            if ast.root.is_none() {
                return out;
            }
            let (s, own) = flatten(&self.window, 0);
            proof {
                assert(self.window@.subrange(0, self.window@.len() as int) =~= self.window@);
            }
            let re = ast.root.as_ref().unwrap();
            let first = match leftmost(re, &s, 0) {
                Some((a, b)) => {
                    proof {
                        assert(leftmost_longest(*re, s@, a as int, b as int));
                    }
                    if s.len() - a >= h {
                        let m = self.take(ast, &own, a, b);
                        out.push(m);
                        assert(self.reported@ =~= start + out@);
                        continue;
                    }
                    a
                },
                None => s.len(),
            };
            // No match can start in the first frame any more (it has no
            // symbols, or any match starting there would already lie in the
            // window): it leaves the window.
            if self.window.len() == 0 {
                return out;
            }
            let l0 = self.window[0].symbols.len();
            if l0 > 0 && (first < l0 || l0 > s.len() || (h > 0 && h - 1 > s.len() - l0)) {
                return out;
            }
            self.skip_first(ast, &s, h);

        }
    }

    /// The stream has ended: report the matches still open. All the reports,
    /// of every push and of this call, are then the reports of the offline
    /// search over the frames received, with the same limit.
    pub fn finish(self, ast: &SymbolicAbstractSyntaxTree) -> (r: Vec<Match>)
        requires
            self.wf(),
            ast.root == self.root@,
            self.seen < usize::MAX,
        ensures
            self.reported@ + r@ == offline_from(self.root@, self.pushed@, 0, budget_of(self.limit)),
    {
        let mut me = self;
        let ghost p = me.pushed@;
        let ghost root = me.root@;
        let ghost start = me.reported@;
        let ghost budget = budget_of(me.limit);
        proof {
            assert(p.subrange(0, p.len() as int) =~= p);
            assert(extends(p, p));
        }
        let mut out: Vec<Match> = Vec::new();
        while me.offset < me.seen
            invariant
                p == self.pushed@,
                root == self.root@,
                start == self.reported@,
                budget == budget_of(self.limit),
                me.pushed@ == p,
                me.root@ == root,
                ast.root == root,
                me.seen == p.len(),
                me.seen < usize::MAX,
                me.offset <= me.seen,
                me.window@ == p.subrange(me.offset as int, me.seen as int),
                symbol_string(me.window@).len() < usize::MAX,
                me.reported@.len() == me.count,
                me.count <= me.offset,
                me.limit is Some ==> me.count <= me.limit->0,
                me.horizon == self.horizon,
                me.limit == self.limit,
                me.horizon is Some ==> root is Some && horizon_of(root->0) is Some && horizon_of(root->0)->0 <= me.horizon->0,
                me.reported@ == start + out@,
                offline_from(root, p, 0, budget) == me.reported@ + offline_from(root, p, me.offset as int, remaining(me.limit, me.count as nat)),
            decreases me.seen - me.offset,
        {
            if let Some(l) = me.limit {
                if me.count >= l {
                    proof {
                        assert(remaining(me.limit, me.count as nat) == Some(0nat));
                        lemma_zero_budget(root, p, me.offset as int);
                        assert(me.reported@ + Seq::<Match>::empty() =~= me.reported@);
                    }
                    return out;
                }
            }
            let mut found = false;
            if ast.root.is_some() {
                let (s, own) = flatten(&me.window, 0);
                proof {
                    assert(me.window@.subrange(0, me.window@.len() as int) =~= me.window@);
                }
                let re = ast.root.as_ref().unwrap();
                match leftmost(re, &s, 0) {
                    Some((a, b)) => {
                        proof {
                            assert(leftmost_longest(*re, s@, a as int, b as int));
                        }
                        let ghost before = me.reported@;
                        let m = me.take_last(ast, &own, a, b);
                        out.push(m);
                        assert(me.reported@ =~= start + out@);
                        proof {
                            assert(before + (seq![m] + offline_from(root, p, me.offset as int, remaining(me.limit, me.count as nat))) =~= me.reported@ + offline_from(root, p, me.offset as int, remaining(me.limit, me.count as nat)));
                        }
                        found = true;
                    },
                    None => {
                        proof {
                            let w = me.window@;
                            assert forall|a: int, b: int| !#[trigger] leftmost_longest(*re, s@, a, b) by {
                                if leftmost_longest(*re, s@, a, b) {
                                    assert(is_match(*re, s@, a, b));
                                }
                            }
                            assert(p.subrange(me.offset as int, p.len() as int) =~= w);
                        }
                    },
                }
            }
            if !found {
                proof {
                    assert(first_match(root, p, me.offset as int) is None);
                }
                me.window.remove(0);
                me.offset = me.offset + 1;
                proof {
                    let w0 = p.subrange(me.offset - 1, me.seen as int);
                    lemma_symbol_string_split(w0, 1);
                    assert(me.window@ =~= p.subrange(me.offset as int, me.seen as int));
                    assert(w0.subrange(1, w0.len() as int) =~= me.window@);
                }
            }
        }
        proof {
            assert(me.reported@ + Seq::<Match>::empty() =~= me.reported@);
        }
        out
    }

    /// [`OnlineMatcher::take`] at the end of the stream.
    fn take_last(&mut self, ast: &SymbolicAbstractSyntaxTree, own: &Vec<usize>, a: usize, b: usize) -> (m: Match)
        requires
            old(self).pushed@.len() == old(self).seen,
            old(self).offset <= old(self).seen,
            old(self).window@ == old(self).pushed@.subrange(old(self).offset as int, old(self).seen as int),
            symbol_string(old(self).window@).len() < usize::MAX,
            old(self).reported@.len() == old(self).count,
            old(self).count <= old(self).offset,
            ast.root == old(self).root@,
            ast.root is Some,
            own@.len() == symbol_string(old(self).window@).len(),
            forall|x: int| 0 <= x < own@.len() ==> #[trigger] own@[x] == owners(old(self).window@)[x],
            leftmost_longest(ast.root->0, symbol_string(old(self).window@), a as int, b as int),
            old(self).limit is Some ==> old(self).count < old(self).limit->0,
            old(self).seen < usize::MAX,
        ensures
            final(self).reported@ == old(self).reported@.push(m),
            final(self).pushed == old(self).pushed,
            final(self).root == old(self).root,
            final(self).horizon == old(self).horizon,
            final(self).limit == old(self).limit,
            final(self).count == old(self).count + 1,
            final(self).seen == old(self).seen,
            old(self).offset < final(self).offset <= final(self).seen,
            final(self).window@ == final(self).pushed@.subrange(final(self).offset as int, final(self).seen as int),
            symbol_string(final(self).window@).len() < usize::MAX,
            final(self).reported@.len() == final(self).count,
            final(self).count <= final(self).offset,
            final(self).limit is Some ==> final(self).count <= final(self).limit->0,
            offline_from(old(self).root@, old(self).pushed@, old(self).offset as int, remaining(old(self).limit, old(self).count as nat))
                == seq![m] + offline_from(old(self).root@, old(self).pushed@, final(self).offset as int, remaining(old(self).limit, final(self).count as nat)),
    {
        let ghost re = ast.root->0;
        let ghost p = self.pushed@;
        let ghost w = self.window@;
        let ghost off = self.offset as int;
        let ghost o = owners(w);
        proof {
            lemma_owners(w);
            assert(w =~= p.subrange(off, p.len() as int));
        }
        let start = self.offset + own[a];
        let end = self.offset + own[b - 1] + 1;
        let m = Match { start, end };
        proof {
            assert(o[a as int] <= o[b - 1]);
            assert(p.subrange(0, p.len() as int) =~= p);
            lemma_final_match(re, p, p, off, a as int, b as int, 0);
        }
        let k = end - self.offset;
        drop_front(&mut self.window, k);
        proof {
            lemma_symbol_string_split(w, k as int);
            assert(self.window@ =~= p.subrange(end as int, p.len() as int));
        }
        self.offset = end;
        self.count = self.count + 1;
        self.reported = Ghost(self.reported@.push(m));
        proof {
            let rem = remaining(self.limit, (self.count - 1) as nat);
            assert(spend(rem) == remaining(self.limit, self.count as nat));
            assert(offline_from(self.root@, p, off, rem) == seq![m] + offline_from(self.root@, p, end as int, spend(rem)));
        }
        m
    }
}

/// The character of a decimal digit.
pub open spec fn digit_char(d: nat) -> char {
    if d == 0 { '0' } else if d == 1 { '1' } else if d == 2 { '2' } else if d == 3 { '3' }
    else if d == 4 { '4' } else if d == 5 { '5' } else if d == 6 { '6' } else if d == 7 { '7' }
    else if d == 8 { '8' } else { '9' }
}

/// The decimal text of `n`.
pub open spec fn decimal(n: nat) -> Seq<char>
    decreases n,
{
    if n < 10 {
        seq![digit_char(n)]
    } else {
        decimal(n / 10).push(digit_char(n % 10))
    }
}

/// The text of a symbolic pattern as a conventional regular expression,
/// every operation in parentheses.
pub open spec fn regex_text(re: Node<char>) -> Seq<char>
    decreases re,
{
    match re {
        Node::Operand(c) => seq![c],
        Node::UnaryExpr { op, child } => match op {
            Operator::RegexOperator(RegexOperatorKind::KleeneStar) => seq!['('] + regex_text(*child) + seq!['*', ')'],
            Operator::RegexOperator(RegexOperatorKind::Range(RangeKind::Exactly(n))) => seq!['('] + regex_text(*child) + seq!['{'] + decimal(n as nat) + seq!['}', ')'],
            Operator::RegexOperator(RegexOperatorKind::Range(RangeKind::AtLeast(n))) => seq!['('] + regex_text(*child) + seq!['{'] + decimal(n as nat) + seq![',', '}', ')'],
            Operator::RegexOperator(RegexOperatorKind::Range(RangeKind::Between(n, m))) => seq!['('] + regex_text(*child) + seq!['{'] + decimal(n as nat) + seq![','] + decimal(m as nat) + seq!['}', ')'],
            _ => Seq::empty(),
        },
        Node::BinaryExpr { op, lhs, rhs } => match op {
            Operator::RegexOperator(RegexOperatorKind::Concatenation) => seq!['('] + regex_text(*lhs) + regex_text(*rhs) + seq![')'],
            Operator::RegexOperator(RegexOperatorKind::Alternation) => seq!['('] + regex_text(*lhs) + seq!['|'] + regex_text(*rhs) + seq![')'],
            _ => Seq::empty(),
        },
    }
}

/// Relies on `String::push`: it appends the character to the string.
#[verifier::external_body]
fn push_char(s: &mut String, c: char)
    ensures
        final(s)@ == old(s)@.push(c),
{
    s.push(c)
}

fn digit_of(d: usize) -> (r: char)
    requires
        d < 10,
    ensures
        r == digit_char(d as nat),
{
    match d {
        0 => '0',
        1 => '1',
        2 => '2',
        3 => '3',
        4 => '4',
        5 => '5',
        6 => '6',
        7 => '7',
        8 => '8',
        _ => '9',
    }
}

fn push_decimal(out: &mut String, n: usize)
    ensures
        final(out)@ == old(out)@ + decimal(n as nat),
    decreases n,
{
    if n < 10 {
        push_char(out, digit_of(n));
        assert(final(out)@ =~= old(out)@ + decimal(n as nat)) by {}
    } else {
        push_decimal(out, n / 10);
        push_char(out, digit_of(n % 10));
    }
}

fn regexit(node: &Node<char>, out: &mut String)
    ensures
        final(out)@ == old(out)@ + regex_text(*node),
    decreases node,
{
    match node {
        Node::Operand(c) => {
            push_char(out, *c);
        },
        Node::UnaryExpr { op, child } => match op {
            Operator::RegexOperator(RegexOperatorKind::KleeneStar) => {
                push_char(out, '(');
                regexit(child, out);
                push_char(out, '*');
                push_char(out, ')');
            },
            Operator::RegexOperator(RegexOperatorKind::Range(kind)) => {
                push_char(out, '(');
                regexit(child, out);
                push_char(out, '{');
                match kind {
                    RangeKind::Exactly(n) => {
                        push_decimal(out, *n);
                    },
                    RangeKind::AtLeast(n) => {
                        push_decimal(out, *n);
                        push_char(out, ',');
                    },
                    RangeKind::Between(n, m) => {
                        push_decimal(out, *n);
                        push_char(out, ',');
                        push_decimal(out, *m);
                    },
                }
                push_char(out, '}');
                push_char(out, ')');
            },
            _ => {},
        },
        Node::BinaryExpr { op, lhs, rhs } => match op {
            Operator::RegexOperator(RegexOperatorKind::Concatenation) => {
                push_char(out, '(');
                regexit(lhs, out);
                regexit(rhs, out);
                push_char(out, ')');
            },
            Operator::RegexOperator(RegexOperatorKind::Alternation) => {
                push_char(out, '(');
                regexit(lhs, out);
                push_char(out, '|');
                regexit(rhs, out);
                push_char(out, ')');
            },
            _ => {},
        },
    }
}

/// The text of the pattern as a conventional regular expression; empty for
/// an empty pattern.
pub fn regexify(ast: &SymbolicAbstractSyntaxTree) -> (r: String)
    ensures
        r@ == match ast.root {
            Some(root) => regex_text(root),
            None => Seq::<char>::empty(),
        },
{
    let mut out = String::new();
    if let Some(root) = &ast.root {
        regexit(root, &mut out);
    }
    out
}


/// Every frame contributes at least one symbol.
pub open spec fn all_emit(frames: Seq<FrameSymbols>) -> bool {
    forall|i: int| 0 <= i < frames.len() ==> (#[trigger] frames[i]).symbols@.len() >= 1
}

proof fn lemma_owners_gap(frames: Seq<FrameSymbols>)
    requires
        all_emit(frames),
    ensures
        owners(frames).len() > 0 ==> owners(frames).last() == frames.len() - 1,
        forall|p: int, q: int|
            0 <= p <= q < owners(frames).len() ==> #[trigger] owners(frames)[q] - #[trigger] owners(frames)[p] <= q - p,
    decreases frames.len(),
{
    lemma_owners(frames);
    if frames.len() > 0 {
        let d = frames.drop_last();
        assert(all_emit(d)) by {
            assert forall|i: int| 0 <= i < d.len() implies (#[trigger] d[i]).symbols@.len() >= 1 by {
                assert(d[i] == frames[i]);
            }
        }
        lemma_owners_gap(d);
        lemma_owners(d);
        let od = owners(d);
        let o = owners(frames);
        assert(frames[frames.len() - 1].symbols@.len() >= 1);
        assert forall|p: int, q: int| 0 <= p <= q < o.len() implies #[trigger] o[q] - #[trigger] o[p] <= q - p by {
            if q < od.len() {
                assert(o[q] == od[q] && o[p] == od[p]);
            } else if p < od.len() {
                assert(o[q] == frames.len() - 1);
                assert(o[p] == od[p]);
                assert(od.last() == d.len() - 1);
                assert(od[od.len() - 1] - od[p] <= od.len() - 1 - p);
            } else {
                assert(o[q] == frames.len() - 1 && o[p] == frames.len() - 1);
            }
        }
    }
}

/// When every frame contributes a symbol, a match spans no more frames than
/// the horizon of its pattern.
pub proof fn lemma_match_within_horizon(
    re: Node<char>,
    frames: Seq<FrameSymbols>,
    from: int,
    a: int,
    b: int,
    m: Match,
    h: nat,
)
    requires
        0 <= from <= frames.len(),
        all_emit(frames.subrange(from, frames.len() as int)),
        horizon_of(re) == Some(h),
        is_match(re, symbol_string(frames.subrange(from, frames.len() as int)), a, b),
        covers(frames, from, a, b, m),
    ensures
        m.end - m.start <= h,
{
    let sub = frames.subrange(from, frames.len() as int);
    lemma_horizon_sound(re, symbol_string(sub), a, b, h);
    lemma_owners(sub);
    lemma_owners_gap(sub);
    let o = owners(sub);
    assert(o[b - 1] - o[a] <= b - 1 - a);
}


/// Where the symbols of frame `g` begin in the symbol string of `frames`.
pub open spec fn start_of(frames: Seq<FrameSymbols>, g: int) -> int {
    symbol_string(frames.subrange(0, g)).len() as int
}

proof fn lemma_owners_prefix(frames: Seq<FrameSymbols>, k: int)
    requires
        0 <= k <= frames.len(),
    ensures
        owners(frames.subrange(0, k)).len() <= owners(frames).len(),
        forall|p: int| 0 <= p < owners(frames.subrange(0, k)).len() ==> #[trigger] owners(frames)[p] == owners(frames.subrange(0, k))[p],
    decreases frames.len(),
{
    lemma_owners(frames);
    lemma_owners(frames.subrange(0, k));
    if k < frames.len() {
        let d = frames.drop_last();
        assert(d.subrange(0, k) =~= frames.subrange(0, k));
        lemma_owners_prefix(d, k);
        lemma_owners(d);
    } else {
        assert(frames.subrange(0, k) =~= frames);
    }
}

/// The position `p` lies among the symbols of its owner.
proof fn lemma_owner_block(frames: Seq<FrameSymbols>, p: int)
    requires
        0 <= p < symbol_string(frames).len(),
    ensures
        0 <= owners(frames)[p] < frames.len(),
        start_of(frames, owners(frames)[p]) <= p < start_of(frames, owners(frames)[p]) + frames[owners(frames)[p]].symbols@.len(),
    decreases frames.len(),
{
    lemma_owners(frames);
    let d = frames.drop_last();
    lemma_owners(d);
    if p < symbol_string(d).len() {
        lemma_owner_block(d, p);
        let g = owners(d)[p];
        assert(owners(frames)[p] == g);
        assert(d.subrange(0, g) =~= frames.subrange(0, g));
        assert(d[g] == frames[g]);
    } else {
        assert(owners(frames)[p] == frames.len() - 1);
        assert(frames.subrange(0, frames.len() - 1) =~= d);
    }
}

proof fn lemma_start_step(x: Seq<FrameSymbols>, g: int)
    requires
        0 <= g < x.len(),
    ensures
        start_of(x, g + 1) == start_of(x, g) + x[g].symbols@.len(),
{
    let pre = x.subrange(0, g + 1);
    assert(pre.drop_last() =~= x.subrange(0, g));
    assert(pre.last() == x[g]);
}

proof fn lemma_start_mono(x: Seq<FrameSymbols>, g: int, g2: int)
    requires
        0 <= g <= g2 <= x.len(),
    ensures
        start_of(x, g) <= start_of(x, g2),
        all_emit(x) && g < g2 ==> start_of(x, g) + x[g].symbols@.len() <= start_of(x, g2),
        start_of(x, g2) <= symbol_string(x).len(),
    decreases g2 - g,
{
    if g < g2 {
        lemma_start_step(x, g);
        lemma_start_mono(x, g + 1, g2);
    } else {
        lemma_symbol_string_split(x, g2);
    }
}

proof fn lemma_string_of_span(x: Seq<FrameSymbols>, g: int, g2: int)
    requires
        0 <= g <= g2 <= x.len(),
    ensures
        symbol_string(x.subrange(g, g2)) == symbol_string(x).subrange(start_of(x, g), start_of(x, g2)),
{
    let y = x.subrange(0, g2);
    lemma_symbol_string_split(y, g);
    lemma_symbol_string_split(x, g2);
    assert(y.subrange(0, g) =~= x.subrange(0, g));
    assert(y.subrange(g, g2) =~= x.subrange(g, g2));
    lemma_start_mono(x, g, g2);
}

/// When every frame contributes a symbol, the leftmost match of the offline
/// search keeps no longer frame interval at its start: the symbols of
/// `frames[m.start..e2]` for any later end `e2` are not in the pattern's
/// language.
pub proof fn lemma_longest_in_frames(re: Node<char>, frames: Seq<FrameSymbols>, offset: int, m: Match, e2: int)
    requires
        0 <= offset <= frames.len(),
        all_emit(frames.subrange(offset, frames.len() as int)),
        first_match(Some(re), frames, offset) == Some(m),
        m.end < e2 <= frames.len(),
        frames.len() < usize::MAX,
    ensures
        !accepts(
            re,
            symbol_string(frames.subrange(m.start as int, e2)),
            0,
            symbol_string(frames.subrange(m.start as int, e2)).len() as int,
        ),
{
    let sub = frames.subrange(offset, frames.len() as int);
    let s = symbol_string(sub);
    let o = owners(sub);
    lemma_owners(sub);
    let (a, b) = choose|a: int, b: int| #[trigger] leftmost_longest(re, s, a, b);
    let g = o[a];
    let gl = o[b - 1];
    assert(0 <= g < sub.len() && 0 <= gl < sub.len());
    assert(m.start == offset + g && m.end == offset + gl + 1);
    let g2 = e2 - offset;
    lemma_owner_block(sub, a);
    lemma_owner_block(sub, b - 1);
    lemma_start_step(sub, gl);
    lemma_start_mono(sub, gl + 1, g2);
    lemma_start_mono(sub, g, g2);
    let lo = start_of(sub, g);
    let hi = start_of(sub, g2);
    assert(sub.subrange(g, g2) =~= frames.subrange(m.start as int, e2));
    lemma_string_of_span(sub, g, g2);
    let t = symbol_string(frames.subrange(m.start as int, e2));
    assert(t.len() == hi - lo);
    assert forall|x: int| 0 <= x < t.len() implies #[trigger] t[x] == s[x + lo] by {}
    lemma_local(re, s, t, 0, t.len() as int, lo);
    if accepts(re, s, lo, hi) {
        if lo < a {
            assert(is_match(re, s, lo, hi));
        } else {
            assert(accepts(re, s, a, hi));
        }
    }
}

} // verus!
