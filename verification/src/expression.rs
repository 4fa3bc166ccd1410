//! The expression tree of a constraint model and its mathematical value.

use vstd::prelude::*;
use crate::name::{Name, NameView};

verus! {

/// A constraint expression over decision variables.
#[derive(Debug)]
#[non_exhaustive]
pub enum Expression {
    ConstantInt(i32),
    ConstantBool(bool),
    Reference(Name),
    Sum(Vec<Expression>),
    Not(Box<Expression>),
    Or(Vec<Expression>),
    And(Vec<Expression>),
    Eq(Box<Expression>, Box<Expression>),
    Neq(Box<Expression>, Box<Expression>),
    Geq(Box<Expression>, Box<Expression>),
    Leq(Box<Expression>, Box<Expression>),
    Gt(Box<Expression>, Box<Expression>),
    Lt(Box<Expression>, Box<Expression>),
    /// `SumGeq(xs, rhs)`: the sum of `xs` is at least `rhs`.
    SumGeq(Vec<Expression>, Box<Expression>),
    /// `SumLeq(xs, rhs)`: the sum of `xs` is at most `rhs`.
    SumLeq(Vec<Expression>, Box<Expression>),
    /// `Ineq(a, b, k)`: `a - b <= k`. The offset `k` is a field of the
    /// node and not one of its children.
    Ineq(Box<Expression>, Box<Expression>, Box<Expression>),
}

/// Mathematical value of an [`Expression`]: the same tree over sequences.
pub enum Term {
    ConstantInt(i32),
    ConstantBool(bool),
    Reference(NameView),
    Sum(Seq<Term>),
    Not(Box<Term>),
    Or(Seq<Term>),
    And(Seq<Term>),
    Eq(Box<Term>, Box<Term>),
    Neq(Box<Term>, Box<Term>),
    Geq(Box<Term>, Box<Term>),
    Leq(Box<Term>, Box<Term>),
    Gt(Box<Term>, Box<Term>),
    Lt(Box<Term>, Box<Term>),
    SumGeq(Seq<Term>, Box<Term>),
    SumLeq(Seq<Term>, Box<Term>),
    Ineq(Box<Term>, Box<Term>, Box<Term>),
}

/// The terms of a sequence of expressions, element by element.
pub open spec fn terms_of(v: Seq<Expression>) -> Seq<Term>
    decreases v,
{
    Seq::new(
        v.len(),
        |i: int|
            if 0 <= i < v.len() {
                v[i].term()
            } else {
                Term::ConstantBool(false)
            },
    )
}

impl Expression {
    /// The term this expression stands for.
    pub open spec fn term(&self) -> Term
        decreases self,
    {
        match self {
            Expression::ConstantInt(i) => Term::ConstantInt(*i),
            Expression::ConstantBool(b) => Term::ConstantBool(*b),
            Expression::Reference(n) => Term::Reference(n@),
            Expression::Sum(v) => Term::Sum(terms_of(v@)),
            Expression::Not(a) => Term::Not(Box::new(a.term())),
            Expression::Or(v) => Term::Or(terms_of(v@)),
            Expression::And(v) => Term::And(terms_of(v@)),
            Expression::Eq(a, b) => Term::Eq(Box::new(a.term()), Box::new(b.term())),
            Expression::Neq(a, b) => Term::Neq(Box::new(a.term()), Box::new(b.term())),
            Expression::Geq(a, b) => Term::Geq(Box::new(a.term()), Box::new(b.term())),
            Expression::Leq(a, b) => Term::Leq(Box::new(a.term()), Box::new(b.term())),
            Expression::Gt(a, b) => Term::Gt(Box::new(a.term()), Box::new(b.term())),
            Expression::Lt(a, b) => Term::Lt(Box::new(a.term()), Box::new(b.term())),
            Expression::SumGeq(v, b) => Term::SumGeq(terms_of(v@), Box::new(b.term())),
            Expression::SumLeq(v, b) => Term::SumLeq(terms_of(v@), Box::new(b.term())),
            Expression::Ineq(a, b, c) => Term::Ineq(
                Box::new(a.term()),
                Box::new(b.term()),
                Box::new(c.term()),
            ),
        }
    }
}

impl View for Expression {
    type V = Term;

    open spec fn view(&self) -> Term {
        self.term()
    }
}

/// `terms_of` has the length of its argument and holds each element's view.
pub proof fn lemma_terms_of(v: Seq<Expression>)
    ensures
        terms_of(v).len() == v.len(),
        forall|i: int| 0 <= i < v.len() ==> #[trigger] terms_of(v)[i] == v[i]@,
{
}

/// Pushing an expression pushes its term.
pub proof fn lemma_terms_of_push(v: Seq<Expression>, e: Expression)
    ensures
        terms_of(v.push(e)) == terms_of(v).push(e@),
{
    lemma_terms_of(v);
    lemma_terms_of(v.push(e));
    assert(terms_of(v.push(e)) =~= terms_of(v).push(e@));
}

/// A copy of every expression of `v`, in order.
pub fn clone_all(v: &Vec<Expression>) -> (out: Vec<Expression>)
    ensures
        terms_of(out@) == terms_of(v@),
    decreases v,
{
    let mut out: Vec<Expression> = Vec::new();
    let mut k: usize = 0;
    while k < v.len()
        invariant
            k <= v.len(),
            out.len() == k,
            forall|j: int| 0 <= j < k ==> out[j]@ == v[j]@,
        decreases v.len() - k,
    {
        let c = v[k].duplicate();
        out.push(c);
        k += 1;
    }
    proof {
        lemma_terms_of(out@);
        lemma_terms_of(v@);
        assert(terms_of(out@) =~= terms_of(v@));
    }
    out
}

/// Whether two vectors hold equal expressions at every index.
pub fn all_equal(a: &Vec<Expression>, b: &Vec<Expression>) -> (r: bool)
    ensures
        r == (terms_of(a@) == terms_of(b@)),
    decreases a,
{
    proof {
        lemma_terms_of(a@);
        lemma_terms_of(b@);
    }
    if a.len() != b.len() {
        return false;
    }
    let mut k: usize = 0;
    while k < a.len()
        invariant
            a.len() == b.len(),
            k <= a.len(),
            forall|j: int| 0 <= j < k ==> a[j]@ == b[j]@,
            terms_of(a@).len() == a.len(),
            terms_of(b@).len() == b.len(),
            forall|i: int| 0 <= i < a.len() ==> #[trigger] terms_of(a@)[i] == a[i]@,
            forall|i: int| 0 <= i < b.len() ==> #[trigger] terms_of(b@)[i] == b[i]@,
        decreases a.len() - k,
    {
        if !a[k].structurally_equal(&b[k]) {
            assert(terms_of(a@)[k as int] != terms_of(b@)[k as int]);
            return false;
        }
        k += 1;
    }
    assert(terms_of(a@) =~= terms_of(b@));
    true
}

impl Expression {
    fn duplicate(&self) -> (res: Self)
        ensures
            res@ == self@,
        decreases self,
    {
        match self {
            Expression::ConstantInt(i) => Expression::ConstantInt(*i),
            Expression::ConstantBool(b) => Expression::ConstantBool(*b),
            Expression::Reference(n) => Expression::Reference(n.clone()),
            Expression::Sum(v) => Expression::Sum(clone_all(v)),
            Expression::Not(a) => Expression::Not(Box::new(a.duplicate())),
            Expression::Or(v) => Expression::Or(clone_all(v)),
            Expression::And(v) => Expression::And(clone_all(v)),
            Expression::Eq(a, b) => Expression::Eq(Box::new(a.duplicate()), Box::new(b.duplicate())),
            Expression::Neq(a, b) => Expression::Neq(
                Box::new(a.duplicate()),
                Box::new(b.duplicate()),
            ),
            Expression::Geq(a, b) => Expression::Geq(
                Box::new(a.duplicate()),
                Box::new(b.duplicate()),
            ),
            Expression::Leq(a, b) => Expression::Leq(
                Box::new(a.duplicate()),
                Box::new(b.duplicate()),
            ),
            Expression::Gt(a, b) => Expression::Gt(Box::new(a.duplicate()), Box::new(b.duplicate())),
            Expression::Lt(a, b) => Expression::Lt(Box::new(a.duplicate()), Box::new(b.duplicate())),
            Expression::SumGeq(v, b) => Expression::SumGeq(clone_all(v), Box::new(b.duplicate())),
            Expression::SumLeq(v, b) => Expression::SumLeq(clone_all(v), Box::new(b.duplicate())),
            Expression::Ineq(a, b, c) => Expression::Ineq(
                Box::new(a.duplicate()),
                Box::new(b.duplicate()),
                Box::new(c.duplicate()),
            ),
        }
    }

    fn structurally_equal(&self, other: &Self) -> (r: bool)
        ensures
            r == (self@ == other@),
        decreases self,
    {
        match (self, other) {
            (Expression::ConstantInt(a), Expression::ConstantInt(b)) => *a == *b,
            (Expression::ConstantBool(a), Expression::ConstantBool(b)) => *a == *b,
            (Expression::Reference(a), Expression::Reference(b)) => *a == *b,
            (Expression::Sum(a), Expression::Sum(b)) => all_equal(a, b),
            (Expression::Not(a), Expression::Not(b)) => a.structurally_equal(b),
            (Expression::Or(a), Expression::Or(b)) => all_equal(a, b),
            (Expression::And(a), Expression::And(b)) => all_equal(a, b),
            (Expression::Eq(a, b), Expression::Eq(c, d)) => a.structurally_equal(c)
                && b.structurally_equal(d),
            (Expression::Neq(a, b), Expression::Neq(c, d)) => a.structurally_equal(c)
                && b.structurally_equal(d),
            (Expression::Geq(a, b), Expression::Geq(c, d)) => a.structurally_equal(c)
                && b.structurally_equal(d),
            (Expression::Leq(a, b), Expression::Leq(c, d)) => a.structurally_equal(c)
                && b.structurally_equal(d),
            (Expression::Gt(a, b), Expression::Gt(c, d)) => a.structurally_equal(c)
                && b.structurally_equal(d),
            (Expression::Lt(a, b), Expression::Lt(c, d)) => a.structurally_equal(c)
                && b.structurally_equal(d),
            (Expression::SumGeq(a, b), Expression::SumGeq(c, d)) => all_equal(a, c)
                && b.structurally_equal(d),
            (Expression::SumLeq(a, b), Expression::SumLeq(c, d)) => all_equal(a, c)
                && b.structurally_equal(d),
            (Expression::Ineq(a, b, c), Expression::Ineq(d, e, f)) => a.structurally_equal(d)
                && b.structurally_equal(e) && c.structurally_equal(f),
            _ => false,
        }
    }
}

impl Clone for Expression {
    fn clone(&self) -> (res: Self)
        ensures
            res@ == self@,
    {
        self.duplicate()
    }
}

impl PartialEq for Expression {
    fn eq(&self, other: &Self) -> (b: bool) {
        self.structurally_equal(other)
    }
}

impl vstd::std_specs::cmp::PartialEqSpecImpl for Expression {
    open spec fn obeys_eq_spec() -> bool {
        true
    }

    open spec fn eq_spec(&self, other: &Self) -> bool {
        self@ == other@
    }
}

} // verus!
