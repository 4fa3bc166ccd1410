//! One-layer traversal: the immediate sub-expressions of a node, and the
//! node rebuilt around other ones.

use vstd::prelude::*;
use crate::error::UniplateError;
use crate::expression::{lemma_terms_of, terms_of, Expression, Term};

verus! {

impl Term {
    /// The immediate sub-terms, left to right. Integers, booleans and names
    /// are not children, nor is the offset of an `Ineq`.
    pub open spec fn children(self) -> Seq<Term> {
        match self {
            Term::ConstantInt(_) => Seq::empty(),
            Term::ConstantBool(_) => Seq::empty(),
            Term::Reference(_) => Seq::empty(),
            Term::Sum(xs) => xs,
            Term::Not(a) => seq![*a],
            Term::Or(xs) => xs,
            Term::And(xs) => xs,
            Term::Eq(a, b) => seq![*a, *b],
            Term::Neq(a, b) => seq![*a, *b],
            Term::Geq(a, b) => seq![*a, *b],
            Term::Leq(a, b) => seq![*a, *b],
            Term::Gt(a, b) => seq![*a, *b],
            Term::Lt(a, b) => seq![*a, *b],
            Term::SumGeq(xs, b) => xs.push(*b),
            Term::SumLeq(xs, b) => xs.push(*b),
            Term::Ineq(a, b, _) => seq![*a, *b],
        }
    }

    /// The node of the same variant around the children `s`, taken in order,
    /// with the fields of `self` that are no children. Meaningful when `s`
    /// has as many elements as `self` has children.
    pub open spec fn rebuild(self, s: Seq<Term>) -> Term {
        match self {
            Term::ConstantInt(_) => self,
            Term::ConstantBool(_) => self,
            Term::Reference(_) => self,
            Term::Sum(_) => Term::Sum(s),
            Term::Not(_) => Term::Not(Box::new(s[0])),
            Term::Or(_) => Term::Or(s),
            Term::And(_) => Term::And(s),
            Term::Eq(_, _) => Term::Eq(Box::new(s[0]), Box::new(s[1])),
            Term::Neq(_, _) => Term::Neq(Box::new(s[0]), Box::new(s[1])),
            Term::Geq(_, _) => Term::Geq(Box::new(s[0]), Box::new(s[1])),
            Term::Leq(_, _) => Term::Leq(Box::new(s[0]), Box::new(s[1])),
            Term::Gt(_, _) => Term::Gt(Box::new(s[0]), Box::new(s[1])),
            Term::Lt(_, _) => Term::Lt(Box::new(s[0]), Box::new(s[1])),
            Term::SumGeq(_, _) => Term::SumGeq(s.drop_last(), Box::new(s.last())),
            Term::SumLeq(_, _) => Term::SumLeq(s.drop_last(), Box::new(s.last())),
            Term::Ineq(_, _, k) => Term::Ineq(Box::new(s[0]), Box::new(s[1]), k),
        }
    }

    /// Replaces the children by `s`: the rebuilt node when `s` has the
    /// length of `self.children()`, nothing otherwise.
    pub open spec fn with_children(self, s: Seq<Term>) -> Option<Term> {
        if s.len() == self.children().len() {
            Some(self.rebuild(s))
        } else {
            None
        }
    }

    /// Number of nodes of the term. The offset of an `Ineq` is a field of
    /// its node, and no node of its own.
    pub open spec fn size(self) -> nat
        decreases self,
    {
        match self {
            Term::ConstantInt(_) => 1,
            Term::ConstantBool(_) => 1,
            Term::Reference(_) => 1,
            Term::Sum(xs) => 1 + total_size(xs),
            Term::Not(a) => 1 + a.size(),
            Term::Or(xs) => 1 + total_size(xs),
            Term::And(xs) => 1 + total_size(xs),
            Term::Eq(a, b) => 1 + a.size() + b.size(),
            Term::Neq(a, b) => 1 + a.size() + b.size(),
            Term::Geq(a, b) => 1 + a.size() + b.size(),
            Term::Leq(a, b) => 1 + a.size() + b.size(),
            Term::Gt(a, b) => 1 + a.size() + b.size(),
            Term::Lt(a, b) => 1 + a.size() + b.size(),
            Term::SumGeq(xs, b) => 1 + total_size(xs) + b.size(),
            Term::SumLeq(xs, b) => 1 + total_size(xs) + b.size(),
            Term::Ineq(a, b, _) => 1 + a.size() + b.size(),
        }
    }
}

/// Number of nodes of all the terms of `s` together.
pub open spec fn total_size(s: Seq<Term>) -> nat
    decreases s,
{
    if s.len() == 0 {
        0
    } else {
        total_size(s.drop_last()) + s.last().size()
    }
}

/// Pushing a term adds its size.
pub proof fn lemma_total_size_push(s: Seq<Term>, t: Term)
    ensures
        total_size(s.push(t)) == total_size(s) + t.size(),
{
    assert(s.push(t).drop_last() =~= s);
}

/// The sizes of a concatenation add up.
pub proof fn lemma_total_size_concat(a: Seq<Term>, b: Seq<Term>)
    ensures
        total_size(a + b) == total_size(a) + total_size(b),
    decreases b.len(),
{
    if b.len() == 0 {
        assert(a + b =~= a);
    } else {
        lemma_total_size_concat(a, b.drop_last());
        assert((a + b).drop_last() =~= a + b.drop_last());
    }
}

/// Each element is no larger than the whole sequence.
pub proof fn lemma_total_size_index(s: Seq<Term>, i: int)
    requires
        0 <= i < s.len(),
    ensures
        s[i].size() <= total_size(s),
    decreases s.len(),
{
    if i < s.len() - 1 {
        lemma_total_size_index(s.drop_last(), i);
    }
}

/// A node has one node more than its children together.
pub proof fn lemma_size_children(t: Term)
    ensures
        t.size() == 1 + total_size(t.children()),
{
    match t {
        Term::Not(a) => {
            lemma_total_size_push(Seq::empty(), *a);
            assert(seq![*a] =~= Seq::<Term>::empty().push(*a));
        },
        Term::Eq(a, b) | Term::Neq(a, b) | Term::Geq(a, b) | Term::Leq(a, b) | Term::Gt(a, b)
        | Term::Lt(a, b) | Term::Ineq(a, b, _) => {
            lemma_total_size_push(Seq::empty(), *a);
            lemma_total_size_push(seq![*a], *b);
            assert(seq![*a] =~= Seq::<Term>::empty().push(*a));
            assert(seq![*a, *b] =~= seq![*a].push(*b));
        },
        Term::SumGeq(xs, b) | Term::SumLeq(xs, b) => {
            lemma_total_size_push(xs, *b);
        },
        _ => {},
    }
}

/// Every child is strictly smaller than its parent.
pub proof fn lemma_child_smaller(t: Term, i: int)
    requires
        0 <= i < t.children().len(),
    ensures
        t.children()[i].size() < t.size(),
{
    lemma_size_children(t);
    lemma_total_size_index(t.children(), i);
}

/// Rebuilding a node around its own children gives the node back.
pub proof fn lemma_with_own_children(t: Term)
    ensures
        t.with_children(t.children()) == Some(t),
{
    match t {
        Term::SumGeq(xs, b) | Term::SumLeq(xs, b) => {
            assert(xs.push(*b).drop_last() =~= xs);
        },
        _ => {},
    }
}

/// A sequence of another length than the node's children is refused.
pub proof fn lemma_wrong_number_of_children(t: Term, s: Seq<Term>)
    requires
        s.len() != t.children().len(),
    ensures
        t.with_children(s) is None,
{
}

/// What was put in by `with_children` comes out by `children`.
pub proof fn lemma_children_of_rebuilt(t: Term, s: Seq<Term>)
    requires
        s.len() == t.children().len(),
    ensures
        t.rebuild(s).children() == s,
        t.rebuild(s).rebuild(s) == t.rebuild(s),
{
    let r = t.rebuild(s);
    match t {
        Term::SumGeq(_, _) | Term::SumLeq(_, _) => {
            assert(s.drop_last().push(s.last()) =~= s);
        },
        _ => {},
    }
    assert(r.children() =~= s);
}

/// The views of a sequence of borrowed expressions.
pub open spec fn terms_of_refs(v: Seq<&Expression>) -> Seq<Term> {
    Seq::new(v.len(), |i: int| v[i]@)
}

impl Expression {
    /// Copies of the immediate sub-expressions, left to right.
    pub fn children(&self) -> (out: Vec<Expression>)
        ensures
            terms_of(out@) == self@.children(),
    {
        let subs = self.sub_expressions();
        let mut out: Vec<Expression> = Vec::new();
        let mut k: usize = 0;
        while k < subs.len()
            invariant
                k <= subs.len(),
                out.len() == k,
                forall|j: int| 0 <= j < k ==> out[j]@ == subs[j]@,
            decreases subs.len() - k,
        {
            out.push(subs[k].clone());
            k += 1;
        }
        proof {
            lemma_terms_of(out@);
            assert(terms_of(out@) =~= terms_of_refs(subs@));
        }
        out
    }

    /// The immediate sub-expressions, left to right, borrowed from `self`.
    pub fn sub_expressions(&self) -> (out: Vec<&Expression>)
        ensures
            terms_of_refs(out@) == self@.children(),
    {
        let mut out: Vec<&Expression> = Vec::new();
        match self {
            Expression::ConstantInt(_) | Expression::ConstantBool(_) | Expression::Reference(_) => {},
            Expression::Sum(v) | Expression::Or(v) | Expression::And(v) => {
                push_refs(&mut out, v);
            },
            Expression::Not(a) => {
                out.push(&**a);
            },
            Expression::Eq(a, b)
            | Expression::Neq(a, b)
            | Expression::Geq(a, b)
            | Expression::Leq(a, b)
            | Expression::Gt(a, b)
            | Expression::Lt(a, b) => {
                out.push(&**a);
                out.push(&**b);
            },
            Expression::SumGeq(v, b) | Expression::SumLeq(v, b) => {
                push_refs(&mut out, v);
                out.push(&**b);
            },
            Expression::Ineq(a, b, _) => {
                out.push(&**a);
                out.push(&**b);
            },
        }
        assert(terms_of_refs(out@) =~= self@.children());
        out
    }

    /// The node of the same variant with `children` in place of its
    /// sub-expressions, in order, and with its own constant, name or
    /// offset. Fails when `children` has another length than
    /// `self.children()`.
    pub fn with_children(&self, children: Vec<Expression>) -> (r: Result<Expression, UniplateError>)
        ensures
            match r {
                Ok(e) => self@.with_children(terms_of(children@)) == Some(e@),
                Err(UniplateError::WrongNumberOfChildren(expected, got)) => {
                    &&& self@.with_children(terms_of(children@)) is None
                    &&& expected == self@.children().len()
                    &&& got == children.len()
                },
            },
    {
        let mut children = children;
        let ghost given = terms_of(children@);
        proof {
            lemma_terms_of(children@);
        }
        let expected = self.arity();
        let got = children.len();
        if got != expected {
            return Err(UniplateError::WrongNumberOfChildren(expected, got));
        }
        let rebuilt = match self {
            Expression::ConstantInt(i) => Expression::ConstantInt(*i),
            Expression::ConstantBool(b) => Expression::ConstantBool(*b),
            Expression::Reference(name) => Expression::Reference(name.clone()),
            Expression::Sum(_) => Expression::Sum(children),
            Expression::Or(_) => Expression::Or(children),
            Expression::And(_) => Expression::And(children),
            Expression::Not(_) => {
                let a = take_last(&mut children);
                Expression::Not(Box::new(a))
            },
            Expression::Eq(_, _) => {
                let (a, b) = take_two(&mut children);
                Expression::Eq(Box::new(a), Box::new(b))
            },
            Expression::Neq(_, _) => {
                let (a, b) = take_two(&mut children);
                Expression::Neq(Box::new(a), Box::new(b))
            },
            Expression::Geq(_, _) => {
                let (a, b) = take_two(&mut children);
                Expression::Geq(Box::new(a), Box::new(b))
            },
            Expression::Leq(_, _) => {
                let (a, b) = take_two(&mut children);
                Expression::Leq(Box::new(a), Box::new(b))
            },
            Expression::Gt(_, _) => {
                let (a, b) = take_two(&mut children);
                Expression::Gt(Box::new(a), Box::new(b))
            },
            Expression::Lt(_, _) => {
                let (a, b) = take_two(&mut children);
                Expression::Lt(Box::new(a), Box::new(b))
            },
            Expression::SumGeq(_, _) => {
                let b = take_last(&mut children);
                Expression::SumGeq(children, Box::new(b))
            },
            Expression::SumLeq(_, _) => {
                let b = take_last(&mut children);
                Expression::SumLeq(children, Box::new(b))
            },
            Expression::Ineq(_, _, k) => {
                let (a, b) = take_two(&mut children);
                Expression::Ineq(Box::new(a), Box::new(b), Box::new((**k).clone()))
            },
        };
        assert(rebuilt@ == self@.rebuild(given));
        Ok(rebuilt)
    }

    /// As [`Expression::with_children`], from borrowed sub-expressions, which
    /// are copied.
    pub fn with_sub_expressions(&self, sub: Vec<&Expression>) -> (r: Result<
        Expression,
        UniplateError,
    >)
        ensures
            match r {
                Ok(e) => self@.with_children(terms_of_refs(sub@)) == Some(e@),
                Err(UniplateError::WrongNumberOfChildren(expected, got)) => {
                    &&& self@.with_children(terms_of_refs(sub@)) is None
                    &&& expected == self@.children().len()
                    &&& got == sub.len()
                },
            },
    {
        let mut owned: Vec<Expression> = Vec::new();
        let mut k: usize = 0;
        while k < sub.len()
            invariant
                k <= sub.len(),
                owned.len() == k,
                forall|j: int| 0 <= j < k ==> owned[j]@ == sub[j]@,
            decreases sub.len() - k,
        {
            owned.push(sub[k].clone());
            k += 1;
        }
        proof {
            lemma_terms_of(owned@);
            assert(terms_of(owned@) =~= terms_of_refs(sub@));
        }
        self.with_children(owned)
    }

    /// Number of immediate sub-expressions.
    pub fn arity(&self) -> (n: usize)
        ensures
            n == self@.children().len(),
    {
        match self {
            Expression::ConstantInt(_) | Expression::ConstantBool(_) | Expression::Reference(_) => 0,
            Expression::Sum(v) | Expression::Or(v) | Expression::And(v) => {
                proof {
                    lemma_terms_of(v@);
                }
                v.len()
            },
            Expression::Not(_) => 1,
            Expression::Eq(_, _)
            | Expression::Neq(_, _)
            | Expression::Geq(_, _)
            | Expression::Leq(_, _)
            | Expression::Gt(_, _)
            | Expression::Lt(_, _)
            | Expression::Ineq(_, _, _) => 2,
            Expression::SumGeq(_, _) | Expression::SumLeq(_, _) => self.sub_expressions().len(),
        }
    }
}

/// Appends a borrow of every element of `v` to `out`.
fn push_refs<'a>(out: &mut Vec<&'a Expression>, v: &'a Vec<Expression>)
    ensures
        terms_of_refs(final(out)@) == terms_of_refs(old(out)@) + terms_of(v@),
{
    let ghost before = out@;
    let mut k: usize = 0;
    while k < v.len()
        invariant
            k <= v.len(),
            out.len() == before.len() + k,
            forall|j: int| 0 <= j < before.len() ==> out[j] == before[j],
            forall|j: int| 0 <= j < k ==> out[before.len() + j]@ == v[j]@,
        decreases v.len() - k,
    {
        out.push(&v[k]);
        k += 1;
    }
    proof {
        lemma_terms_of(v@);
        assert(terms_of_refs(out@) =~= terms_of_refs(before) + terms_of(v@));
    }
}

/// Removes and returns the last element of a non-empty vector.
fn take_last(v: &mut Vec<Expression>) -> (e: Expression)
    requires
        old(v).len() > 0,
    ensures
        terms_of(final(v)@) == terms_of(old(v)@).drop_last(),
        e@ == terms_of(old(v)@).last(),
{
    proof {
        lemma_terms_of(v@);
        lemma_terms_of(v@.drop_last());
        assert(terms_of(v@.drop_last()) =~= terms_of(v@).drop_last());
    }
    match v.pop() {
        Some(e) => e,
        None => Expression::ConstantBool(false),
    }
}

/// Removes and returns both elements of a vector of two.
fn take_two(v: &mut Vec<Expression>) -> (r: (Expression, Expression))
    requires
        terms_of(old(v)@).len() == 2,
    ensures
        r.0@ == terms_of(old(v)@)[0],
        r.1@ == terms_of(old(v)@)[1],
{
    proof {
        lemma_terms_of(v@);
    }
    let b = take_last(v);
    proof {
        lemma_terms_of(v@);
    }
    let a = take_last(v);
    (a, b)
}

} // verus!
