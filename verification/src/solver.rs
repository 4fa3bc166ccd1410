//! Solver families and the expression variants each of them accepts.

use vstd::prelude::*;
use crate::expression::{Expression, Term};

verus! {

/// The back-end that will consume a rewritten model.
#[derive(Debug, Clone, Copy, PartialEq, Eq, Structural)]
pub enum SolverFamily {
    Minion,
    SAT,
}

/// The variant of an expression node, without its contents.
#[derive(Debug, Clone, Copy, PartialEq, Eq, Structural)]
pub enum Variant {
    ConstantInt,
    ConstantBool,
    Reference,
    Sum,
    Not,
    Or,
    And,
    Eq,
    Neq,
    Geq,
    Leq,
    Gt,
    Lt,
    SumGeq,
    SumLeq,
    Ineq,
}

impl Term {
    /// The variant of the root node.
    pub open spec fn variant(self) -> Variant {
        match self {
            Term::ConstantInt(_) => Variant::ConstantInt,
            Term::ConstantBool(_) => Variant::ConstantBool,
            Term::Reference(_) => Variant::Reference,
            Term::Sum(_) => Variant::Sum,
            Term::Not(_) => Variant::Not,
            Term::Or(_) => Variant::Or,
            Term::And(_) => Variant::And,
            Term::Eq(_, _) => Variant::Eq,
            Term::Neq(_, _) => Variant::Neq,
            Term::Geq(_, _) => Variant::Geq,
            Term::Leq(_, _) => Variant::Leq,
            Term::Gt(_, _) => Variant::Gt,
            Term::Lt(_, _) => Variant::Lt,
            Term::SumGeq(_, _) => Variant::SumGeq,
            Term::SumLeq(_, _) => Variant::SumLeq,
            Term::Ineq(_, _, _) => Variant::Ineq,
        }
    }
}

impl SolverFamily {
    /// Whether the family's encoder takes nodes of variant `v`. The Minion
    /// family takes `ConstantInt`, `Reference`, `SumGeq`, `SumLeq` and
    /// `Ineq`; the SAT family takes `ConstantInt`, `Not`, `And` and `Or`.
    pub open spec fn accepts(self, v: Variant) -> bool {
        match self {
            SolverFamily::Minion => {
                ||| v == Variant::ConstantInt
                ||| v == Variant::Reference
                ||| v == Variant::SumGeq
                ||| v == Variant::SumLeq
                ||| v == Variant::Ineq
            },
            SolverFamily::SAT => {
                ||| v == Variant::ConstantInt
                ||| v == Variant::Not
                ||| v == Variant::And
                ||| v == Variant::Or
            },
        }
    }

    /// The property of a node of not being taken by this family.
    pub open spec fn rejects(self) -> spec_fn(Term) -> bool {
        |t: Term| !self.accepts(t.variant())
    }

    /// Whether the family's encoder takes nodes of variant `v`.
    pub fn is_accepted(self, v: Variant) -> (r: bool)
        ensures
            r == self.accepts(v),
    {
        match self {
            SolverFamily::Minion => match v {
                Variant::ConstantInt
                | Variant::Reference
                | Variant::SumGeq
                | Variant::SumLeq
                | Variant::Ineq => true,
                _ => false,
            },
            SolverFamily::SAT => match v {
                Variant::ConstantInt | Variant::Not | Variant::And | Variant::Or => true,
                _ => false,
            },
        }
    }
}

impl Expression {
    /// The variant of the root node.
    pub fn variant(&self) -> (v: Variant)
        ensures
            v == self@.variant(),
    {
        match self {
            Expression::ConstantInt(_) => Variant::ConstantInt,
            Expression::ConstantBool(_) => Variant::ConstantBool,
            Expression::Reference(_) => Variant::Reference,
            Expression::Sum(_) => Variant::Sum,
            Expression::Not(_) => Variant::Not,
            Expression::Or(_) => Variant::Or,
            Expression::And(_) => Variant::And,
            Expression::Eq(_, _) => Variant::Eq,
            Expression::Neq(_, _) => Variant::Neq,
            Expression::Geq(_, _) => Variant::Geq,
            Expression::Leq(_, _) => Variant::Leq,
            Expression::Gt(_, _) => Variant::Gt,
            Expression::Lt(_, _) => Variant::Lt,
            Expression::SumGeq(_, _) => Variant::SumGeq,
            Expression::SumLeq(_, _) => Variant::SumLeq,
            Expression::Ineq(_, _, _) => Variant::Ineq,
        }
    }
}

} // verus!
