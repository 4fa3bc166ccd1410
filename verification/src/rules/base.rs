//! Simplifications that hold for every solver: constant folding and the
//! removal of trivial or nested operand lists.

use vstd::prelude::*;
use crate::error::RuleApplicationError;
use crate::expression::{lemma_terms_of, lemma_terms_of_push, terms_of, Expression, Term};
use crate::rules::sequence::Expansion;

verus! {

/// Whether the outcome `r` of a rule is the one that `expected` prescribes:
/// the prescribed term, or no match where none is prescribed.
pub open spec fn agrees(r: Result<Expression, RuleApplicationError>, expected: Option<Term>) -> bool {
    match r {
        Ok(e) => expected == Some(e@),
        Err(_) => expected is None,
    }
}

/// The exact sum of the integer constants among `xs`.
pub open spec fn constant_total(xs: Seq<Term>) -> int
    decreases xs.len(),
{
    if xs.len() == 0 {
        0
    } else {
        constant_total(xs.drop_last()) + match xs.last() {
            Term::ConstantInt(i) => i as int,
            _ => 0,
        }
    }
}

impl Term {
    /// `Sum` with at least two integer constants whose exact sum is an
    /// `i32`: the other operands in their order, then the folded constant.
    pub open spec fn sum_constants(self) -> Option<Term> {
        match self {
            Term::Sum(xs) => {
                let total = constant_total(xs);
                if Expansion::DropConstantInts.touched(xs) >= 2 && i32::MIN <= total <= i32::MAX {
                    Some(
                        Term::Sum(
                            Expansion::DropConstantInts.expand(xs).push(
                                Term::ConstantInt(total as i32),
                            ),
                        ),
                    )
                } else {
                    None
                }
            },
            _ => None,
        }
    }

    /// `Sum([c])` becomes `c`.
    pub open spec fn unwrap_sum(self) -> Option<Term> {
        match self {
            Term::Sum(xs) => if xs.len() == 1 {
                Some(xs[0])
            } else {
                None
            },
            _ => None,
        }
    }

    /// `Not(Not(e))` becomes `e`.
    pub open spec fn remove_double_negation(self) -> Option<Term> {
        match self {
            Term::Not(a) => match *a {
                Term::Not(b) => Some(*b),
                _ => None,
            },
            _ => None,
        }
    }

    /// `Or` with an `Or` among its operands: each nested `Or` gives way to
    /// its own operands.
    pub open spec fn unwrap_nested_or(self) -> Option<Term> {
        match self {
            Term::Or(xs) => if Expansion::SpliceOr.touched(xs) >= 1 {
                Some(Term::Or(Expansion::SpliceOr.expand(xs)))
            } else {
                None
            },
            _ => None,
        }
    }

    /// `And` with an `And` among its operands: each nested `And` gives way
    /// to its own operands.
    pub open spec fn unwrap_nested_and(self) -> Option<Term> {
        match self {
            Term::And(xs) => if Expansion::SpliceAnd.touched(xs) >= 1 {
                Some(Term::And(Expansion::SpliceAnd.expand(xs)))
            } else {
                None
            },
            _ => None,
        }
    }

    /// `And([e])` becomes `e`.
    pub open spec fn remove_trivial_and(self) -> Option<Term> {
        match self {
            Term::And(xs) => if xs.len() == 1 {
                Some(xs[0])
            } else {
                None
            },
            _ => None,
        }
    }

    /// `Or([e])` becomes `e`.
    pub open spec fn remove_trivial_or(self) -> Option<Term> {
        match self {
            Term::Or(xs) => if xs.len() == 1 {
                Some(xs[0])
            } else {
                None
            },
            _ => None,
        }
    }

    /// `Or` with a boolean constant among its operands: `true` if one of
    /// them is `true`, else the `Or` without the constants.
    pub open spec fn remove_constants_from_or(self) -> Option<Term> {
        match self {
            Term::Or(xs) => if xs.contains(Term::ConstantBool(true)) {
                Some(Term::ConstantBool(true))
            } else if Expansion::DropConstantBools.touched(xs) >= 1 {
                Some(Term::Or(Expansion::DropConstantBools.expand(xs)))
            } else {
                None
            },
            _ => None,
        }
    }

    /// `And` with a boolean constant among its operands: `false` if one of
    /// them is `false`, else the `And` without the constants.
    pub open spec fn remove_constants_from_and(self) -> Option<Term> {
        match self {
            Term::And(xs) => if xs.contains(Term::ConstantBool(false)) {
                Some(Term::ConstantBool(false))
            } else if Expansion::DropConstantBools.touched(xs) >= 1 {
                Some(Term::And(Expansion::DropConstantBools.expand(xs)))
            } else {
                None
            },
            _ => None,
        }
    }
}

/// The exact sum of the integer constants among `v`.
fn total_of_constants(v: &Vec<Expression>) -> (total: i128)
    ensures
        total == constant_total(terms_of(v@)),
{
    let ghost xs = terms_of(v@);
    proof {
        lemma_terms_of(v@);
    }
    let mut total: i128 = 0;
    let mut k: usize = 0;
    while k < v.len()
        invariant
            k <= v.len(),
            xs == terms_of(v@),
            xs.len() == v.len(),
            forall|i: int| 0 <= i < v.len() ==> #[trigger] xs[i] == v[i]@,
            total == constant_total(xs.subrange(0, k as int)),
            -0x8000_0000 * k <= total <= 0x8000_0000 * k,
        decreases v.len() - k,
    {
        proof {
            assert(xs.subrange(0, k + 1).drop_last() =~= xs.subrange(0, k as int));
        }
        match &v[k] {
            Expression::ConstantInt(i) => {
                total = total + (*i as i128);
            },
            _ => {},
        }
        k += 1;
    }
    assert(xs.subrange(0, k as int) =~= xs);
    total
}

/// Whether the boolean constant `value` is among `v`.
fn has_constant_bool(v: &Vec<Expression>, value: bool) -> (r: bool)
    ensures
        r == terms_of(v@).contains(Term::ConstantBool(value)),
{
    let ghost xs = terms_of(v@);
    proof {
        lemma_terms_of(v@);
    }
    let mut k: usize = 0;
    while k < v.len()
        invariant
            k <= v.len(),
            xs == terms_of(v@),
            xs.len() == v.len(),
            forall|i: int| 0 <= i < v.len() ==> #[trigger] xs[i] == v[i]@,
            forall|i: int| 0 <= i < k ==> xs[i] != Term::ConstantBool(value),
        decreases v.len() - k,
    {
        match &v[k] {
            Expression::ConstantBool(b) => {
                if *b == value {
                    assert(xs[k as int] == Term::ConstantBool(value));
                    return true;
                }
            },
            _ => {},
        }
        k += 1;
    }
    false
}

/// Folds the integer constants of a `Sum` into one, placed last.
pub fn sum_constants(expr: &Expression) -> (r: Result<Expression, RuleApplicationError>)
    ensures
        agrees(r, expr@.sum_constants()),
{
    match expr {
        Expression::Sum(v) => {
            if Expansion::DropConstantInts.count_touched(v) < 2 {
                return Err(RuleApplicationError::RuleNotApplicable);
            }
            let total = total_of_constants(v);
            if total < -0x8000_0000 || total > 0x7fff_ffff {
                return Err(RuleApplicationError::RuleNotApplicable);
            }
            let mut operands = Expansion::DropConstantInts.expand_all(v);
            let folded = Expression::ConstantInt(total as i32);
            proof {
                lemma_terms_of_push(operands@, folded);
            }
            operands.push(folded);
            Ok(Expression::Sum(operands))
        },
        _ => Err(RuleApplicationError::RuleNotApplicable),
    }
}

/// The only operand of `v` when it has exactly one.
fn only_operand(v: &Vec<Expression>) -> (r: Result<Expression, RuleApplicationError>)
    ensures
        agrees(
            r,
            if terms_of(v@).len() == 1 {
                Some(terms_of(v@)[0])
            } else {
                None
            },
        ),
{
    proof {
        lemma_terms_of(v@);
    }
    if v.len() == 1 {
        Ok(v[0].clone())
    } else {
        Err(RuleApplicationError::RuleNotApplicable)
    }
}

/// Replaces a `Sum` of one operand by that operand.
pub fn unwrap_sum(expr: &Expression) -> (r: Result<Expression, RuleApplicationError>)
    ensures
        agrees(r, expr@.unwrap_sum()),
{
    match expr {
        Expression::Sum(v) => only_operand(v),
        _ => Err(RuleApplicationError::RuleNotApplicable),
    }
}

/// Replaces an `And` of one operand by that operand.
pub fn remove_trivial_and(expr: &Expression) -> (r: Result<Expression, RuleApplicationError>)
    ensures
        agrees(r, expr@.remove_trivial_and()),
{
    match expr {
        Expression::And(v) => only_operand(v),
        _ => Err(RuleApplicationError::RuleNotApplicable),
    }
}

/// Replaces an `Or` of one operand by that operand.
pub fn remove_trivial_or(expr: &Expression) -> (r: Result<Expression, RuleApplicationError>)
    ensures
        agrees(r, expr@.remove_trivial_or()),
{
    match expr {
        Expression::Or(v) => only_operand(v),
        _ => Err(RuleApplicationError::RuleNotApplicable),
    }
}

/// Removes two negations that stand directly on one another.
pub fn remove_double_negation(expr: &Expression) -> (r: Result<Expression, RuleApplicationError>)
    ensures
        agrees(r, expr@.remove_double_negation()),
{
    match expr {
        Expression::Not(a) => {
            let inner: &Expression = &**a;
            assert(expr@ == Term::Not(Box::new(inner@)));
            match inner {
                Expression::Not(b) => Ok((**b).clone()),
                _ => Err(RuleApplicationError::RuleNotApplicable),
            }
        },
        _ => Err(RuleApplicationError::RuleNotApplicable),
    }
}

/// Splices the operands of nested `Or`s into their parent `Or`.
pub fn unwrap_nested_or(expr: &Expression) -> (r: Result<Expression, RuleApplicationError>)
    ensures
        agrees(r, expr@.unwrap_nested_or()),
{
    match expr {
        Expression::Or(v) => {
            if Expansion::SpliceOr.count_touched(v) >= 1 {
                Ok(Expression::Or(Expansion::SpliceOr.expand_all(v)))
            } else {
                Err(RuleApplicationError::RuleNotApplicable)
            }
        },
        _ => Err(RuleApplicationError::RuleNotApplicable),
    }
}

/// Splices the operands of nested `And`s into their parent `And`.
pub fn unwrap_nested_and(expr: &Expression) -> (r: Result<Expression, RuleApplicationError>)
    ensures
        agrees(r, expr@.unwrap_nested_and()),
{
    match expr {
        Expression::And(v) => {
            if Expansion::SpliceAnd.count_touched(v) >= 1 {
                Ok(Expression::And(Expansion::SpliceAnd.expand_all(v)))
            } else {
                Err(RuleApplicationError::RuleNotApplicable)
            }
        },
        _ => Err(RuleApplicationError::RuleNotApplicable),
    }
}

/// Evaluates an `Or` that holds `true`, or drops the constants of one that
/// holds only `false` ones.
pub fn remove_constants_from_or(expr: &Expression) -> (r: Result<Expression, RuleApplicationError>)
    ensures
        agrees(r, expr@.remove_constants_from_or()),
{
    match expr {
        Expression::Or(v) => {
            if has_constant_bool(v, true) {
                Ok(Expression::ConstantBool(true))
            } else if Expansion::DropConstantBools.count_touched(v) >= 1 {
                Ok(Expression::Or(Expansion::DropConstantBools.expand_all(v)))
            } else {
                Err(RuleApplicationError::RuleNotApplicable)
            }
        },
        _ => Err(RuleApplicationError::RuleNotApplicable),
    }
}

/// Evaluates an `And` that holds `false`, or drops the constants of one
/// that holds only `true` ones.
pub fn remove_constants_from_and(expr: &Expression) -> (r: Result<Expression, RuleApplicationError>)
    ensures
        agrees(r, expr@.remove_constants_from_and()),
{
    match expr {
        Expression::And(v) => {
            if has_constant_bool(v, false) {
                Ok(Expression::ConstantBool(false))
            } else if Expansion::DropConstantBools.count_touched(v) >= 1 {
                Ok(Expression::And(Expansion::DropConstantBools.expand_all(v)))
            } else {
                Err(RuleApplicationError::RuleNotApplicable)
            }
        },
        _ => Err(RuleApplicationError::RuleNotApplicable),
    }
}

} // verus!
