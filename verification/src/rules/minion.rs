//! Rules that bring comparisons into the flattened forms of the Minion
//! family.

use vstd::prelude::*;
use crate::error::RuleApplicationError;
use crate::expression::{clone_all, Expression, Term};
use crate::rules::base::agrees;

verus! {

impl Term {
    /// `Lt(a, b)` becomes `Ineq(a, b, -1)`: `a - b <= -1`.
    pub open spec fn lt_to_ineq(self) -> Option<Term> {
        match self {
            Term::Lt(a, b) => Some(Term::Ineq(a, b, Box::new(Term::ConstantInt(-1i32)))),
            _ => None,
        }
    }

    /// `Leq(Sum(xs), rhs)` becomes `SumLeq(xs, rhs)`.
    pub open spec fn sum_leq_to_sumleq(self) -> Option<Term> {
        match self {
            Term::Leq(a, b) => match *a {
                Term::Sum(xs) => Some(Term::SumLeq(xs, b)),
                _ => None,
            },
            _ => None,
        }
    }

    /// `Geq(Sum(xs), rhs)` becomes `SumGeq(xs, rhs)`.
    pub open spec fn flatten_sum_geq(self) -> Option<Term> {
        match self {
            Term::Geq(a, b) => match *a {
                Term::Sum(xs) => Some(Term::SumGeq(xs, b)),
                _ => None,
            },
            _ => None,
        }
    }
}

/// Turns a strict comparison into a difference bounded by `-1`.
pub fn lt_to_ineq(expr: &Expression) -> (r: Result<Expression, RuleApplicationError>)
    ensures
        agrees(r, expr@.lt_to_ineq()),
{
    match expr {
        Expression::Lt(a, b) => {
            let bound = Expression::ConstantInt(-1);
            assert(bound@ == Term::ConstantInt(-1i32));
            Ok(Expression::Ineq(Box::new((**a).clone()), Box::new((**b).clone()), Box::new(bound)))
        },
        _ => Err(RuleApplicationError::RuleNotApplicable),
    }
}

/// Flattens an upper bound on a sum.
pub fn sum_leq_to_sumleq(expr: &Expression) -> (r: Result<Expression, RuleApplicationError>)
    ensures
        agrees(r, expr@.sum_leq_to_sumleq()),
{
    match expr {
        Expression::Leq(a, b) => {
            let left: &Expression = &**a;
            assert(expr@ == Term::Leq(Box::new(left@), Box::new(b@)));
            match left {
                Expression::Sum(v) => Ok(Expression::SumLeq(clone_all(v), Box::new((**b).clone()))),
                _ => Err(RuleApplicationError::RuleNotApplicable),
            }
        },
        _ => Err(RuleApplicationError::RuleNotApplicable),
    }
}

/// Flattens a lower bound on a sum.
pub fn flatten_sum_geq(expr: &Expression) -> (r: Result<Expression, RuleApplicationError>)
    ensures
        agrees(r, expr@.flatten_sum_geq()),
{
    match expr {
        Expression::Geq(a, b) => {
            let left: &Expression = &**a;
            assert(expr@ == Term::Geq(Box::new(left@), Box::new(b@)));
            match left {
                Expression::Sum(v) => Ok(Expression::SumGeq(clone_all(v), Box::new((**b).clone()))),
                _ => Err(RuleApplicationError::RuleNotApplicable),
            }
        },
        _ => Err(RuleApplicationError::RuleNotApplicable),
    }
}

} // verus!
