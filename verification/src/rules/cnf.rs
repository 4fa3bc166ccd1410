//! Rules that push negation inwards and distribute `Or` over `And`, on the
//! way to conjunctive normal form.

use vstd::prelude::*;
use crate::error::RuleApplicationError;
use crate::expression::{lemma_terms_of, terms_of, Expression, Term};
use crate::rules::base::agrees;

verus! {

/// Each operand negated, in order.
pub open spec fn negate_all(xs: Seq<Term>) -> Seq<Term> {
    Seq::new(xs.len(), |i: int| Term::Not(Box::new(xs[i])))
}

/// `Or([other, x])` for each `x` of `xs`, in order.
pub open spec fn disjoin_each(other: Term, xs: Seq<Term>) -> Seq<Term> {
    Seq::new(xs.len(), |i: int| Term::Or(seq![other, xs[i]]))
}

impl Term {
    /// `Not(And(xs))` becomes the `Or` of the negated operands.
    pub open spec fn distribute_not_over_and(self) -> Option<Term> {
        match self {
            Term::Not(a) => match *a {
                Term::And(xs) => Some(Term::Or(negate_all(xs))),
                _ => None,
            },
            _ => None,
        }
    }

    /// `Not(Or(xs))` becomes the `And` of the negated operands.
    pub open spec fn distribute_not_over_or(self) -> Option<Term> {
        match self {
            Term::Not(a) => match *a {
                Term::Or(xs) => Some(Term::And(negate_all(xs))),
                _ => None,
            },
            _ => None,
        }
    }

    /// An `Or` of two operands of which one is an `And` (the left one where
    /// both are): the `And` of one `Or` for each of its operands, with the
    /// other operand of the `Or` placed first.
    pub open spec fn distribute_or_over_and(self) -> Option<Term> {
        match self {
            Term::Or(xs) => if xs.len() == 2 {
                match (xs[0], xs[1]) {
                    (Term::And(ys), other) => Some(Term::And(disjoin_each(other, ys))),
                    (other, Term::And(ys)) => Some(Term::And(disjoin_each(other, ys))),
                    _ => None,
                }
            } else {
                None
            },
            _ => None,
        }
    }
}

/// A negation of every element of `v`, in order.
fn negated(v: &Vec<Expression>) -> (out: Vec<Expression>)
    ensures
        terms_of(out@) == negate_all(terms_of(v@)),
{
    let mut out: Vec<Expression> = Vec::new();
    let mut k: usize = 0;
    while k < v.len()
        invariant
            k <= v.len(),
            out.len() == k,
            forall|j: int| 0 <= j < k ==> out[j]@ == Term::Not(Box::new(v[j]@)),
        decreases v.len() - k,
    {
        out.push(Expression::Not(Box::new(v[k].clone())));
        k += 1;
    }
    proof {
        lemma_terms_of(out@);
        lemma_terms_of(v@);
        assert(terms_of(out@) =~= negate_all(terms_of(v@)));
    }
    out
}

/// `Or([other, x])` for every element `x` of `v`, in order.
fn disjoined(other: &Expression, v: &Vec<Expression>) -> (out: Vec<Expression>)
    ensures
        terms_of(out@) == disjoin_each(other@, terms_of(v@)),
{
    let mut out: Vec<Expression> = Vec::new();
    let mut k: usize = 0;
    while k < v.len()
        invariant
            k <= v.len(),
            out.len() == k,
            forall|j: int| 0 <= j < k ==> out[j]@ == Term::Or(seq![other@, v[j]@]),
        decreases v.len() - k,
    {
        let mut pair: Vec<Expression> = Vec::new();
        pair.push(other.clone());
        pair.push(v[k].clone());
        proof {
            lemma_terms_of(pair@);
            assert(terms_of(pair@) =~= seq![other@, v[k as int]@]);
        }
        out.push(Expression::Or(pair));
        k += 1;
    }
    proof {
        lemma_terms_of(out@);
        lemma_terms_of(v@);
        assert(terms_of(out@) =~= disjoin_each(other@, terms_of(v@)));
    }
    out
}

/// De Morgan on a negated `And`.
pub fn distribute_not_over_and(expr: &Expression) -> (r: Result<Expression, RuleApplicationError>)
    ensures
        agrees(r, expr@.distribute_not_over_and()),
{
    match expr {
        Expression::Not(a) => {
            let inner: &Expression = &**a;
            assert(expr@ == Term::Not(Box::new(inner@)));
            match inner {
                Expression::And(v) => Ok(Expression::Or(negated(v))),
                _ => Err(RuleApplicationError::RuleNotApplicable),
            }
        },
        _ => Err(RuleApplicationError::RuleNotApplicable),
    }
}

/// De Morgan on a negated `Or`.
pub fn distribute_not_over_or(expr: &Expression) -> (r: Result<Expression, RuleApplicationError>)
    ensures
        agrees(r, expr@.distribute_not_over_or()),
{
    match expr {
        Expression::Not(a) => {
            let inner: &Expression = &**a;
            assert(expr@ == Term::Not(Box::new(inner@)));
            match inner {
                Expression::Or(v) => Ok(Expression::And(negated(v))),
                _ => Err(RuleApplicationError::RuleNotApplicable),
            }
        },
        _ => Err(RuleApplicationError::RuleNotApplicable),
    }
}

/// Distributes an `Or` of two operands over the `And` among them.
pub fn distribute_or_over_and(expr: &Expression) -> (r: Result<Expression, RuleApplicationError>)
    ensures
        agrees(r, expr@.distribute_or_over_and()),
{
    match expr {
        Expression::Or(v) => {
            proof {
                lemma_terms_of(v@);
            }
            if v.len() != 2 {
                return Err(RuleApplicationError::RuleNotApplicable);
            }
            match (&v[0], &v[1]) {
                (Expression::And(ys), other) => Ok(Expression::And(disjoined(other, ys))),
                (other, Expression::And(ys)) => Ok(Expression::And(disjoined(other, ys))),
                _ => Err(RuleApplicationError::RuleNotApplicable),
            }
        },
        _ => Err(RuleApplicationError::RuleNotApplicable),
    }
}

} // verus!
