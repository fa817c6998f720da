//! Operator kinds carried by the nodes of an expression tree.
use vstd::prelude::*;

use crate::ir::SpatialFormula;

verus! {

/// Operator kinds supported.
pub enum Operator {
    RegexOperator(RegexOperatorKind),
    SpatialOperator(SpatialOperatorKind),
}

/// The regular-expression operations allowed in a pattern.
pub enum RegexOperatorKind {
    KleeneStar,
    Concatenation,
    Alternation,
    Range(RangeKind),
}

/// Counted repetition kinds.
#[derive(Clone, Copy, PartialEq, Eq, Structural)]
pub enum RangeKind {
    Exactly(usize),
    AtLeast(usize),
    Between(usize, usize),
}

/// The operations allowed against a single frame, inside `[]`.
///
/// Some share their syntax with regular-expression operators (`|`, `&`); the
/// variant records the meaning fixed at parse time.
pub enum SpatialOperatorKind {
    FolOperator(FolOperatorKind),
    SolOperator(SolOperatorKind),
    S4uOperator(S4uOperatorKind),
    S4mOperator(S4mOperatorKind),
    S4Operator(S4OperatorKind),
}

/// First-order logic operators.
#[derive(Clone, Copy, PartialEq, Eq, Structural)]
pub enum FolOperatorKind {
    Negation,
    Conjunction,
    Disjunction,
    LessThan,
    GreaterThan,
    LessThanEqualTo,
    GreaterThanEqualTo,
}

/// Second-order logic operators.
#[derive(Clone, Copy, PartialEq, Eq, Structural)]
pub enum SolOperatorKind {
    Exists,
}

/// S4u operators: truth-valued formulas over the annotations of a frame.
///
/// The binders hold their variables in source order; a later binding of the
/// same name replaces an earlier one.
pub enum S4uOperatorKind {
    NonEmpty,
    Exists(Vec<(String, SpatialFormula)>),
    Forall(Vec<(String, SpatialFormula)>),
}

/// S4m operators: scalar expressions over annotations.
pub enum S4mOperatorKind {
    Function(String),
    Inverse,
    Addition,
    Subtraction,
    Multiplication,
    Division,
}

/// S4 operators: the region algebra.
#[derive(Clone, Copy, PartialEq, Eq, Structural)]
pub enum S4OperatorKind {
    Intersection,
    Union,
    Complement,
}

} // verus!
