//! Symbolization: each distinct spatial formula of a pattern becomes one
//! character, so that the pattern becomes a regular expression over those
//! characters.
use vstd::prelude::*;

use crate::ir::{formula_equal, formula_model, AbstractSyntaxTree, FormulaModel, Node, SpatialFormula};

verus! {

/// The number of distinct formulas a pattern may hold.
pub const MAX_SYMBOLS: usize = 50000;

/// A pattern after symbolization: the regular expression over characters, and
/// the formula each character stands for, in order of first appearance.
pub struct SymbolicAbstractSyntaxTree {
    pub root: Option<Node<char>>,
    pub table: Vec<(char, SpatialFormula)>,
}

/// The code point of the character given to the `i`-th distinct formula:
/// `a` to `z`, then on from U+0100.
pub open spec fn symbol_code(i: int) -> int {
    if i < 26 {
        0x61 + i
    } else {
        0x100 + i
    }
}

/// Relies on `char::from_u32`: it gives the character with that code point for
/// every value below U+D800.
#[verifier::external_body]
fn char_of(code: u32) -> (r: char)
    requires
        code < 0xD800,
    ensures
        r as u32 == code,
{
    char::from_u32(code).unwrap()
}

/// The table gives the `i`-th formula the `i`-th character, and holds no
/// two structurally equal formulas.
pub open spec fn table_wf(table: Seq<(char, SpatialFormula)>) -> bool {
    &&& table.len() <= MAX_SYMBOLS
    &&& forall|i: int| 0 <= i < table.len() ==> #[trigger] table[i].0 as u32 == symbol_code(i)
    &&& forall|i: int, j: int|
        0 <= i < table.len() && 0 <= j < table.len() && i != j ==> formula_model(
            #[trigger] table[i].1,
        ) != formula_model(#[trigger] table[j].1)
}

/// The table gives the character `c` to a formula with model `m`.
pub open spec fn assigns(table: Seq<(char, SpatialFormula)>, m: FormulaModel, c: char) -> bool {
    exists|k: int| 0 <= k < table.len() && #[trigger] table[k].0 == c && formula_model(table[k].1) == m
}

/// `b` is `a` with each formula replaced by the character the table gives it,
/// and every operator kept.
pub open spec fn symbolized(
    a: Node<SpatialFormula>,
    b: Node<char>,
    table: Seq<(char, SpatialFormula)>,
) -> bool
    decreases a,
{
    match (a, b) {
        (Node::Operand(f), Node::Operand(c)) => assigns(table, formula_model(f), c),
        (Node::UnaryExpr { op: o1, child: c1 }, Node::UnaryExpr { op: o2, child: c2 }) => o1 == o2
            && symbolized(*c1, *c2, table),
        (
            Node::BinaryExpr { op: o1, lhs: l1, rhs: r1 },
            Node::BinaryExpr { op: o2, lhs: l2, rhs: r2 },
        ) => o1 == o2 && symbolized(*l1, *l2, table) && symbolized(*r1, *r2, table),
        _ => false,
    }
}

/// The models of the formulas of a pattern, left to right.
pub open spec fn leaves(a: Node<SpatialFormula>) -> Seq<FormulaModel>
    decreases a,
{
    match a {
        Node::Operand(f) => seq![formula_model(f)],
        Node::UnaryExpr { child, .. } => leaves(*child),
        Node::BinaryExpr { lhs, rhs, .. } => leaves(*lhs) + leaves(*rhs),
    }
}

/// `d` with `m` added at the end unless it is there already.
pub open spec fn note(d: Seq<FormulaModel>, m: FormulaModel) -> Seq<FormulaModel> {
    if d.contains(m) {
        d
    } else {
        d.push(m)
    }
}

/// `d` with each of `ms` noted in turn.
pub open spec fn note_all(d: Seq<FormulaModel>, ms: Seq<FormulaModel>) -> Seq<FormulaModel>
    decreases ms.len(),
{
    if ms.len() == 0 {
        d
    } else {
        note(note_all(d, ms.drop_last()), ms.last())
    }
}

/// The distinct formulas of a pattern, in order of first appearance.
pub open spec fn distinct_formulas(a: Node<SpatialFormula>) -> Seq<FormulaModel> {
    note_all(Seq::empty(), leaves(a))
}

/// The models of the formulas of a table, in table order.
pub open spec fn table_models(table: Seq<(char, SpatialFormula)>) -> Seq<FormulaModel> {
    table.map(|_i: int, e: (char, SpatialFormula)| formula_model(e.1))
}

proof fn lemma_note_all_concat(d: Seq<FormulaModel>, a: Seq<FormulaModel>, b: Seq<FormulaModel>)
    ensures
        note_all(d, a + b) == note_all(note_all(d, a), b),
    decreases b.len(),
{
    if b.len() == 0 {
        assert(a + b =~= a);
    } else {
        lemma_note_all_concat(d, a, b.drop_last());
        assert((a + b).drop_last() =~= a + b.drop_last());
        assert((a + b).last() == b.last());
    }
}

proof fn lemma_note_all_grows(d: Seq<FormulaModel>, ms: Seq<FormulaModel>)
    ensures
        note_all(d, ms).len() >= d.len(),
    decreases ms.len(),
{
    if ms.len() > 0 {
        lemma_note_all_grows(d, ms.drop_last());
    }
}

/// Two formulas get the same character exactly when they are structurally
/// equal.
pub proof fn lemma_symbol_uniqueness(
    table: Seq<(char, SpatialFormula)>,
    m1: FormulaModel,
    c1: char,
    m2: FormulaModel,
    c2: char,
)
    requires
        table_wf(table),
        assigns(table, m1, c1),
        assigns(table, m2, c2),
    ensures
        c1 == c2 <==> m1 == m2,
{
    let k1 = choose|k: int| 0 <= k < table.len() && #[trigger] table[k].0 == c1 && formula_model(table[k].1) == m1;
    let k2 = choose|k: int| 0 <= k < table.len() && #[trigger] table[k].0 == c2 && formula_model(table[k].1) == m2;
    assert(table[k1].0 as u32 == symbol_code(k1));
    assert(table[k2].0 as u32 == symbol_code(k2));
}

proof fn lemma_symbolized_grows(
    a: Node<SpatialFormula>,
    b: Node<char>,
    t1: Seq<(char, SpatialFormula)>,
    t2: Seq<(char, SpatialFormula)>,
)
    requires
        symbolized(a, b, t1),
        t1.len() <= t2.len(),
        forall|i: int| 0 <= i < t1.len() ==> t2[i] == t1[i],
    ensures
        symbolized(a, b, t2),
    decreases a,
{
    match (a, b) {
        (Node::Operand(f), Node::Operand(c)) => {
            let k = choose|k: int| 0 <= k < t1.len() && #[trigger] t1[k].0 == c && formula_model(t1[k].1) == formula_model(f);
            assert(t2[k] == t1[k]);
        },
        (Node::UnaryExpr { op: o1, child: c1 }, Node::UnaryExpr { op: o2, child: c2 }) => {
            lemma_symbolized_grows(*c1, *c2, t1, t2);
        },
        (
            Node::BinaryExpr { op: o1, lhs: l1, rhs: r1 },
            Node::BinaryExpr { op: o2, lhs: l2, rhs: r2 },
        ) => {
            lemma_symbolized_grows(*l1, *l2, t1, t2);
            lemma_symbolized_grows(*r1, *r2, t1, t2);
        },
        _ => {},
    }
}

/// The character of `formula`, adding it to the table when no structurally
/// equal formula is there yet; `None` when it would be a formula too many.
fn intern(formula: SpatialFormula, table: &mut Vec<(char, SpatialFormula)>) -> (r: Option<char>)
    requires
        table_wf(old(table)@),
    ensures
        match r {
            Some(c) => {
                &&& table_wf(final(table)@)
                &&& assigns(final(table)@, formula_model(formula), c)
                &&& table_models(final(table)@) == note(table_models(old(table)@), formula_model(formula))
                &&& old(table)@.len() <= final(table)@.len()
                &&& forall|i: int| 0 <= i < old(table)@.len() ==> final(table)@[i] == old(table)@[i]
            },
            None => note(table_models(old(table)@), formula_model(formula)).len() > MAX_SYMBOLS,
        },
{
    let ghost m = formula_model(formula);
    let mut i: usize = 0;
    while i < table.len()
        invariant
            i <= table@.len(),
            table@ == old(table)@,
            table_wf(table@),
            m == formula_model(formula),
            forall|k: int| 0 <= k < i ==> formula_model(#[trigger] table@[k].1) != m,
        decreases table@.len() - i,
    {
        if formula_equal(&table[i].1, &formula) {
            let c = table[i].0;
            assert(table@[i as int].0 == c);
            assert(table_models(table@)[i as int] == m);
            return Some(c);
        }
        i = i + 1;
    }
    assert forall|k: int| 0 <= k < table@.len() implies table_models(table@)[k] != m by {
        assert(formula_model(table@[k].1) != m);
    }
    let n = table.len();
    if n >= MAX_SYMBOLS {
        return None;
    }
    let code: u32 = if n < 26 {
        0x61 + n as u32
    } else {
        0x100 + n as u32
    };
    let c = char_of(code);
    let ghost before = table@;
    table.push((c, formula));
    assert(table@[n as int].0 == c);
    assert(table_models(table@) =~= table_models(before).push(m));
    Some(c)
}

fn symbolize_node(node: Node<SpatialFormula>, table: &mut Vec<(char, SpatialFormula)>) -> (r: Option<
    Node<char>,
>)
    requires
        table_wf(old(table)@),
    ensures
        match r {
            Some(b) => {
                &&& table_wf(final(table)@)
                &&& symbolized(node, b, final(table)@)
                &&& table_models(final(table)@) == note_all(table_models(old(table)@), leaves(node))
                &&& old(table)@.len() <= final(table)@.len()
                &&& forall|i: int| 0 <= i < old(table)@.len() ==> final(table)@[i] == old(table)@[i]
            },
            None => note_all(table_models(old(table)@), leaves(node)).len() > MAX_SYMBOLS,
        },
    decreases node,
{
    let ghost orig = node;
    let ghost t0 = table_models(table@);
    match node {
        Node::Operand(f) => {
            let ghost m = formula_model(f);
            proof {
                assert(seq![m].drop_last() =~= Seq::<FormulaModel>::empty());
                assert(leaves(orig) == seq![m]);
                assert(note_all(t0, Seq::<FormulaModel>::empty()) == t0);
                assert(note_all(t0, seq![m]) == note(t0, m));
            }
            let c = intern(f, table)?;
            Some(Node::Operand(c))
        },
        Node::UnaryExpr { op, child } => {
            assert(leaves(orig) == leaves(*child));
            let c = symbolize_node(*child, table)?;
            Some(Node::UnaryExpr { op, child: Box::new(c) })
        },
        Node::BinaryExpr { op, lhs, rhs } => {
            let ghost lhs_v = *lhs;
            let ghost rhs_v = *rhs;
            proof {
                lemma_note_all_concat(t0, leaves(lhs_v), leaves(rhs_v));
                assert(leaves(orig) == leaves(lhs_v) + leaves(rhs_v));
            }
            let l = match symbolize_node(*lhs, table) {
                Some(l) => l,
                None => {
                    proof {
                        lemma_note_all_grows(note_all(t0, leaves(lhs_v)), leaves(rhs_v));
                    }
                    return None;
                },
            };
            let ghost t1 = table@;
            let r = symbolize_node(*rhs, table)?;
            proof {
                lemma_symbolized_grows(lhs_v, l, t1, table@);
            }
            Some(Node::BinaryExpr { op, lhs: Box::new(l), rhs: Box::new(r) })
        },
    }
}

/// Replace each formula of the pattern by its character.
///
/// Structurally equal formulas share a character and distinct ones get
/// distinct characters, handed out in order of first appearance: the table
/// holds exactly the distinct formulas of the pattern, in that order. A
/// pattern with more than [`MAX_SYMBOLS`] distinct formulas is refused.
pub fn symbolize(ast: AbstractSyntaxTree) -> (r: Option<SymbolicAbstractSyntaxTree>)
    ensures
        match ast.root {
            None => r is Some && r->0.root is None && r->0.table@.len() == 0,
            Some(root) => (r is Some <==> distinct_formulas(root).len() <= MAX_SYMBOLS) && (r is Some
                ==> {
                let s = r->0;
                &&& table_wf(s.table@)
                &&& s.root is Some
                &&& symbolized(root, s.root->0, s.table@)
                &&& table_models(s.table@) == distinct_formulas(root)
            }),
        },
{
    let mut table: Vec<(char, SpatialFormula)> = Vec::new();
    match ast.root {
        None => Some(SymbolicAbstractSyntaxTree { root: None, table }),
        Some(root) => {
            proof {
                assert(table_models(table@) =~= Seq::<FormulaModel>::empty());
            }
            match symbolize_node(root, &mut table) {
                Some(s) => Some(SymbolicAbstractSyntaxTree { root: Some(s), table }),
                None => None,
            }
        },
    }
}

} // verus!
