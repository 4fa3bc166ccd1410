//! Traversals built on the one-layer primitives: a transformation applied
//! to the children of a node, or bottom-up to every node of a tree.

use vstd::prelude::*;
use crate::expression::{lemma_terms_of, terms_of, Expression, Term};
use crate::rewriter::{apply_first, first_applicable};
use crate::rule::{rules_of, Rule};
use crate::uniplate::{lemma_child_smaller, terms_of_refs};

verus! {

/// A function from expressions to expressions.
pub trait Transformation {
    /// What the transformation makes of the term `t`.
    spec fn image(&self, t: Term) -> Term;

    /// Transforms `e`.
    fn apply(&self, e: Expression) -> (r: Expression)
        ensures
            r@ == self.image(e@),
    ;
}

impl Term {
    /// The node with `f` applied to each of its children.
    pub open spec fn descend<F: Transformation>(self, f: &F) -> Term {
        self.rebuild(Seq::new(self.children().len(), |i: int| f.image(self.children()[i])))
    }

    /// The tree with `f` applied at every node, bottom-up: at each node
    /// after its children have been transformed.
    pub open spec fn transform<F: Transformation>(self, f: &F) -> Term
        decreases self.size(), 1nat,
    {
        f.image(self.rebuild(self.transformed_children(f)))
    }

    /// The children of the node, each transformed bottom-up by `f`.
    pub open spec fn transformed_children<F: Transformation>(self, f: &F) -> Seq<Term>
        decreases self.size(), 0nat,
    {
        Seq::new(
            self.children().len(),
            |i: int|
                if 0 <= i < self.children().len() {
                    proof {
                        lemma_child_smaller(self, i);
                    }
                    self.children()[i].transform(f)
                } else {
                    self
                },
        )
    }
}

impl Expression {
    /// The node with `f` applied to each of its children.
    pub fn descend<F: Transformation>(&self, f: &F) -> (r: Expression)
        ensures
            r@ == self@.descend(f),
    {
        let subs = self.sub_expressions();
        let ghost cs = self@.children();
        let mut children: Vec<Expression> = Vec::new();
        let mut k: usize = 0;
        while k < subs.len()
            invariant
                k <= subs.len(),
                cs == terms_of_refs(subs@),
                children.len() == k,
                forall|j: int| 0 <= j < k ==> (#[trigger] children[j])@ == f.image(cs[j]),
            decreases subs.len() - k,
        {
            children.push(f.apply(subs[k].clone()));
            k += 1;
        }
        proof {
            lemma_terms_of(children@);
            assert(terms_of(children@) =~= Seq::new(cs.len(), |i: int| f.image(cs[i])));
        }
        match self.with_children(children) {
            Ok(e) => e,
            Err(_) => self.clone(),
        }
    }

    /// The tree with `f` applied at every node, bottom-up.
    pub fn transform<F: Transformation>(&self, f: &F) -> (r: Expression)
        ensures
            r@ == self@.transform(f),
        decreases self@.size(),
    {
        let subs = self.sub_expressions();
        let ghost cs = self@.children();
        let mut children: Vec<Expression> = Vec::new();
        let mut k: usize = 0;
        while k < subs.len()
            invariant
                k <= subs.len(),
                cs == self@.children(),
                cs == terms_of_refs(subs@),
                children.len() == k,
                forall|j: int| 0 <= j < k ==> (#[trigger] children[j])@ == cs[j].transform(f),
            decreases subs.len() - k,
        {
            proof {
                lemma_child_smaller(self@, k as int);
            }
            children.push(subs[k].transform(f));
            k += 1;
        }
        proof {
            lemma_terms_of(children@);
            assert(terms_of(children@) =~= self@.transformed_children(f));
        }
        let rebuilt = match self.with_children(children) {
            Ok(e) => e,
            Err(_) => self.clone(),
        };
        f.apply(rebuilt)
    }
}

/// The transformation that rewrites a node by the first rule of a sequence
/// that matches there, and leaves other nodes as they are.
pub struct Attempt<'a> {
    pub rules: &'a Vec<Rule>,
}

impl<'a> Transformation for Attempt<'a> {
    open spec fn image(&self, t: Term) -> Term {
        match first_applicable(rules_of(self.rules@), t, 0) {
            Some(i) => rules_of(self.rules@)[i].kind.rewrite(t)->0,
            None => t,
        }
    }

    fn apply(&self, e: Expression) -> (r: Expression) {
        match apply_first(self.rules, &e) {
            Some((_, x)) => x,
            None => e,
        }
    }
}

} // verus!
