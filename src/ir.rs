//! Expression trees: a generic node type and the spatial formulas.
use vstd::prelude::*;

use crate::ops::{
    FolOperatorKind, Operator, RegexOperatorKind, S4OperatorKind, S4mOperatorKind, S4uOperatorKind,
    SolOperatorKind, SpatialOperatorKind,
};

verus! {

/// An expression tree over operands of type `T`.
///
/// Every node owns its children.
pub enum Node<T> {
    Operand(T),
    UnaryExpr { op: Operator, child: Box<Node<T>> },
    BinaryExpr { op: Operator, lhs: Box<Node<T>>, rhs: Box<Node<T>> },
}

/// The leaves of a spatial formula.
///
/// A number keeps the decimal text it was written with.
pub enum OperandKind {
    Symbol(String),
    Number(String),
    Variable(String),
}

/// A formula evaluated against the annotations of one frame.
pub type SpatialFormula = Node<OperandKind>;

impl<T> Node<T> {
    /// Build a unary node.
    pub fn unary(op: Operator, child: Node<T>) -> (r: Node<T>)
        ensures
            r == (Node::UnaryExpr { op, child: Box::new(child) }),
    {
        Node::UnaryExpr { op, child: Box::new(child) }
    }

    /// Build a binary node.
    pub fn binary(op: Operator, lhs: Node<T>, rhs: Node<T>) -> (r: Node<T>)
        ensures
            r == (Node::BinaryExpr { op, lhs: Box::new(lhs), rhs: Box::new(rhs) }),
    {
        Node::BinaryExpr { op, lhs: Box::new(lhs), rhs: Box::new(rhs) }
    }
}

/// A parsed pattern: the outer regular expression over spatial formulas.
pub struct AbstractSyntaxTree {
    pub root: Option<Node<SpatialFormula>>,
}

impl AbstractSyntaxTree {
    /// Wrap a root node.
    pub fn new(root: Option<Node<SpatialFormula>>) -> (r: AbstractSyntaxTree)
        ensures
            r.root == root,
    {
        AbstractSyntaxTree { root }
    }
}

} // verus!

verus! {

/// The mathematical content of an operator: names as character sequences.
pub enum OperatorModel {
    Regex(RegexOperatorKind),
    Fol(FolOperatorKind),
    Sol(SolOperatorKind),
    NonEmpty,
    Exists(Seq<(Seq<char>, FormulaModel)>),
    Forall(Seq<(Seq<char>, FormulaModel)>),
    Function(Seq<char>),
    Inverse,
    Addition,
    Subtraction,
    Multiplication,
    Division,
    S4(S4OperatorKind),
}

/// The mathematical content of a leaf.
pub enum OperandModel {
    Symbol(Seq<char>),
    Number(Seq<char>),
    Variable(Seq<char>),
}

/// The mathematical content of a spatial formula. Two formulas are
/// structurally equal when their models are equal.
pub enum FormulaModel {
    Operand(OperandModel),
    Unary(OperatorModel, Box<FormulaModel>),
    Binary(OperatorModel, Box<FormulaModel>, Box<FormulaModel>),
}

pub open spec fn operand_model(o: OperandKind) -> OperandModel {
    match o {
        OperandKind::Symbol(s) => OperandModel::Symbol(s@),
        OperandKind::Number(s) => OperandModel::Number(s@),
        OperandKind::Variable(s) => OperandModel::Variable(s@),
    }
}

/// The model of a formula.
pub open spec fn formula_model(f: SpatialFormula) -> FormulaModel
    decreases f,
{
    match f {
        Node::Operand(o) => FormulaModel::Operand(operand_model(o)),
        Node::UnaryExpr { op, child } => FormulaModel::Unary(
            operator_model(op),
            Box::new(formula_model(*child)),
        ),
        Node::BinaryExpr { op, lhs, rhs } => FormulaModel::Binary(
            operator_model(op),
            Box::new(formula_model(*lhs)),
            Box::new(formula_model(*rhs)),
        ),
    }
}

/// The model of an operator.
pub open spec fn operator_model(op: Operator) -> OperatorModel
    decreases op,
{
    match op {
        Operator::RegexOperator(k) => OperatorModel::Regex(k),
        Operator::SpatialOperator(s) => match s {
            SpatialOperatorKind::FolOperator(k) => OperatorModel::Fol(k),
            SpatialOperatorKind::SolOperator(k) => OperatorModel::Sol(k),
            SpatialOperatorKind::S4uOperator(k) => match k {
                S4uOperatorKind::NonEmpty => OperatorModel::NonEmpty,
                S4uOperatorKind::Exists(b) => OperatorModel::Exists(bindings_model(b, b@.len() as int)),
                S4uOperatorKind::Forall(b) => OperatorModel::Forall(bindings_model(b, b@.len() as int)),
            },
            SpatialOperatorKind::S4mOperator(k) => match k {
                S4mOperatorKind::Function(name) => OperatorModel::Function(name@),
                S4mOperatorKind::Inverse => OperatorModel::Inverse,
                S4mOperatorKind::Addition => OperatorModel::Addition,
                S4mOperatorKind::Subtraction => OperatorModel::Subtraction,
                S4mOperatorKind::Multiplication => OperatorModel::Multiplication,
                S4mOperatorKind::Division => OperatorModel::Division,
            },
            SpatialOperatorKind::S4Operator(k) => OperatorModel::S4(k),
        },
    }
}

/// The models of the first `n` bindings of `b`.
pub open spec fn bindings_model(b: Vec<(String, SpatialFormula)>, n: int) -> Seq<
    (Seq<char>, FormulaModel),
>
    decreases b, n,
{
    if n <= 0 || n > b@.len() {
        Seq::empty()
    } else {
        bindings_model(b, n - 1).push((b[n - 1].0@, formula_model(b[n - 1].1)))
    }
}

} // verus!

verus! {

pub proof fn lemma_bindings_model(b: Vec<(String, SpatialFormula)>, n: int)
    requires
        0 <= n <= b@.len(),
    ensures
        bindings_model(b, n).len() == n,
        forall|i: int|
            0 <= i < n ==> #[trigger] bindings_model(b, n)[i] == (b@[i].0@, formula_model(b@[i].1)),
    decreases n,
{
    if n > 0 {
        lemma_bindings_model(b, n - 1);
    }
}

fn operand_equal(a: &OperandKind, b: &OperandKind) -> (r: bool)
    ensures
        r == (operand_model(*a) == operand_model(*b)),
{
    match (a, b) {
        (OperandKind::Symbol(x), OperandKind::Symbol(y)) => *x == *y,
        (OperandKind::Number(x), OperandKind::Number(y)) => *x == *y,
        (OperandKind::Variable(x), OperandKind::Variable(y)) => *x == *y,
        _ => false,
    }
}

/// Whether two formulas are structurally equal.
pub fn formula_equal(a: &SpatialFormula, b: &SpatialFormula) -> (r: bool)
    ensures
        r == (formula_model(*a) == formula_model(*b)),
    decreases a,
{
    match (a, b) {
        (Node::Operand(x), Node::Operand(y)) => operand_equal(x, y),
        (Node::UnaryExpr { op: o1, child: c1 }, Node::UnaryExpr { op: o2, child: c2 }) => {
            operator_equal(o1, o2) && formula_equal(c1, c2)
        },
        (
            Node::BinaryExpr { op: o1, lhs: l1, rhs: r1 },
            Node::BinaryExpr { op: o2, lhs: l2, rhs: r2 },
        ) => operator_equal(o1, o2) && formula_equal(l1, l2) && formula_equal(r1, r2),
        _ => false,
    }
}

fn bindings_equal(a: &Vec<(String, SpatialFormula)>, b: &Vec<(String, SpatialFormula)>) -> (r:
    bool)
    ensures
        r == (bindings_model(*a, a@.len() as int) == bindings_model(*b, b@.len() as int)),
    decreases a,
{
    proof {
        lemma_bindings_model(*a, a@.len() as int);
        lemma_bindings_model(*b, b@.len() as int);
    }
    if a.len() != b.len() {
        return false;
    }
    let mut i: usize = 0;
    while i < a.len()
        invariant
            a@.len() == b@.len(),
            i <= a@.len(),
            forall|k: int|
                0 <= k < i ==> bindings_model(*a, a@.len() as int)[k] == bindings_model(
                    *b,
                    b@.len() as int,
                )[k],
        decreases a@.len() - i,
    {
        proof {
            lemma_bindings_model(*a, a@.len() as int);
            lemma_bindings_model(*b, b@.len() as int);
        }
        let names = a[i].0 == b[i].0;
        if !names {
            assert(bindings_model(*a, a@.len() as int)[i as int] != bindings_model(*b, b@.len() as int)[i as int]);
            return false;
        }
        assert(decreases_to!(*a => a@[i as int]));
        let same = formula_equal(&a[i].1, &b[i].1);
        if !same {
            assert(bindings_model(*a, a@.len() as int)[i as int] != bindings_model(*b, b@.len() as int)[i as int]);
            return false;
        }
        i = i + 1;
    }
    assert(bindings_model(*a, a@.len() as int) =~= bindings_model(*b, b@.len() as int));
    true
}

fn operator_equal(a: &Operator, b: &Operator) -> (r: bool)
    ensures
        r == (operator_model(*a) == operator_model(*b)),
    decreases a,
{
    match (a, b) {
        (Operator::RegexOperator(x), Operator::RegexOperator(y)) => regex_kind_equal(x, y),
        (Operator::SpatialOperator(x), Operator::SpatialOperator(y)) => match (x, y) {
            (SpatialOperatorKind::FolOperator(p), SpatialOperatorKind::FolOperator(q)) => *p == *q,
            (SpatialOperatorKind::SolOperator(p), SpatialOperatorKind::SolOperator(q)) => *p == *q,
            (SpatialOperatorKind::S4Operator(p), SpatialOperatorKind::S4Operator(q)) => *p == *q,
            (SpatialOperatorKind::S4uOperator(p), SpatialOperatorKind::S4uOperator(q)) => match (
                p,
                q,
            ) {
                (S4uOperatorKind::NonEmpty, S4uOperatorKind::NonEmpty) => true,
                (S4uOperatorKind::Exists(u), S4uOperatorKind::Exists(v)) => bindings_equal(u, v),
                (S4uOperatorKind::Forall(u), S4uOperatorKind::Forall(v)) => bindings_equal(u, v),
                _ => false,
            },
            (SpatialOperatorKind::S4mOperator(p), SpatialOperatorKind::S4mOperator(q)) => match (
                p,
                q,
            ) {
                (S4mOperatorKind::Function(u), S4mOperatorKind::Function(v)) => *u == *v,
                (S4mOperatorKind::Inverse, S4mOperatorKind::Inverse) => true,
                (S4mOperatorKind::Addition, S4mOperatorKind::Addition) => true,
                (S4mOperatorKind::Subtraction, S4mOperatorKind::Subtraction) => true,
                (S4mOperatorKind::Multiplication, S4mOperatorKind::Multiplication) => true,
                (S4mOperatorKind::Division, S4mOperatorKind::Division) => true,
                _ => false,
            },
            _ => false,
        },
        _ => false,
    }
}

fn regex_kind_equal(a: &RegexOperatorKind, b: &RegexOperatorKind) -> (r: bool)
    ensures
        r == (*a == *b),
{
    match (a, b) {
        (RegexOperatorKind::KleeneStar, RegexOperatorKind::KleeneStar) => true,
        (RegexOperatorKind::Concatenation, RegexOperatorKind::Concatenation) => true,
        (RegexOperatorKind::Alternation, RegexOperatorKind::Alternation) => true,
        (RegexOperatorKind::Range(x), RegexOperatorKind::Range(y)) => *x == *y,
        _ => false,
    }
}

} // verus!

verus! {

/// The mathematical content of a pattern: the regular-expression structure
/// over the models of its formulas.
pub enum PatternModel {
    Formula(FormulaModel),
    Unary(OperatorModel, Box<PatternModel>),
    Binary(OperatorModel, Box<PatternModel>, Box<PatternModel>),
}

/// The model of a pattern.
pub open spec fn pattern_model(n: Node<SpatialFormula>) -> PatternModel
    decreases n,
{
    match n {
        Node::Operand(f) => PatternModel::Formula(formula_model(f)),
        Node::UnaryExpr { op, child } => PatternModel::Unary(
            operator_model(op),
            Box::new(pattern_model(*child)),
        ),
        Node::BinaryExpr { op, lhs, rhs } => PatternModel::Binary(
            operator_model(op),
            Box::new(pattern_model(*lhs)),
            Box::new(pattern_model(*rhs)),
        ),
    }
}

} // verus!

