//! A bound on the number of rewrites: with rules that shrink the tree, the
//! rewriter is done after at most as many rewrites as the tree weighs.

use vstd::prelude::*;
use crate::expression::Term;
use crate::rewriter::{lemma_step_rule, rewrite_bounded, step};
use crate::rule::{RuleKind, RuleView};
use crate::rules::sequence::Expansion;
use crate::uniplate::lemma_children_of_rebuilt;

verus! {

impl Term {
    /// The weight of the root node alone: two for a strict comparison,
    /// which has a rewrite before it that removes no node; one for any
    /// other node.
    pub open spec fn own_weight(self) -> nat {
        if self is Lt {
            2
        } else {
            1
        }
    }

    /// The weight of the tree: the weights of all its nodes together.
    pub open spec fn weight(self) -> nat
        decreases self,
    {
        match self {
            Term::ConstantInt(_) => 1,
            Term::ConstantBool(_) => 1,
            Term::Reference(_) => 1,
            Term::Sum(xs) => 1 + total_weight(xs),
            Term::Not(a) => 1 + a.weight(),
            Term::Or(xs) => 1 + total_weight(xs),
            Term::And(xs) => 1 + total_weight(xs),
            Term::Eq(a, b) => 1 + a.weight() + b.weight(),
            Term::Neq(a, b) => 1 + a.weight() + b.weight(),
            Term::Geq(a, b) => 1 + a.weight() + b.weight(),
            Term::Leq(a, b) => 1 + a.weight() + b.weight(),
            Term::Gt(a, b) => 1 + a.weight() + b.weight(),
            Term::Lt(a, b) => 2 + a.weight() + b.weight(),
            Term::SumGeq(xs, b) => 1 + total_weight(xs) + b.weight(),
            Term::SumLeq(xs, b) => 1 + total_weight(xs) + b.weight(),
            Term::Ineq(a, b, _) => 1 + a.weight() + b.weight(),
        }
    }
}

/// The weights of all the trees of `s` together.
pub open spec fn total_weight(s: Seq<Term>) -> nat
    decreases s,
{
    if s.len() == 0 {
        0
    } else {
        total_weight(s.drop_last()) + s.last().weight()
    }
}

impl RuleKind {
    /// Whether every rewrite by the rule makes the tree lighter. The rules
    /// that distribute `Not` and `Or` do not: they copy operands.
    pub open spec fn shrinks(self) -> bool {
        self != RuleKind::DistributeNotOverAnd && self != RuleKind::DistributeNotOverOr && self
            != RuleKind::DistributeOrOverAnd
    }
}

/// One tree more adds its weight.
pub proof fn lemma_total_weight_push(s: Seq<Term>, t: Term)
    ensures
        total_weight(s.push(t)) == total_weight(s) + t.weight(),
        total_weight(Seq::empty()) == 0,
{
    assert(s.push(t).drop_last() =~= s);
}

/// The weights of a concatenation add up.
pub proof fn lemma_total_weight_concat(a: Seq<Term>, b: Seq<Term>)
    ensures
        total_weight(a + b) == total_weight(a) + total_weight(b),
    decreases b.len(),
{
    if b.len() == 0 {
        assert(a + b =~= a);
    } else {
        lemma_total_weight_concat(a, b.drop_last());
        assert((a + b).drop_last() =~= a + b.drop_last());
    }
}

/// Putting another tree in the place of one changes the weight by the
/// difference of the two.
pub proof fn lemma_total_weight_update(s: Seq<Term>, i: int, t: Term)
    requires
        0 <= i < s.len(),
    ensures
        total_weight(s.update(i, t)) + s[i].weight() == total_weight(s) + t.weight(),
        s[i].weight() <= total_weight(s),
    decreases s.len(),
{
    if i == s.len() - 1 {
        assert(s.update(i, t).drop_last() =~= s.drop_last());
    } else {
        lemma_total_weight_update(s.drop_last(), i, t);
        assert(s.update(i, t).drop_last() =~= s.drop_last().update(i, t));
    }
}

/// A node weighs what it weighs alone and what its children weigh.
pub proof fn lemma_weight_children(t: Term)
    ensures
        t.weight() == t.own_weight() + total_weight(t.children()),
{
    match t {
        Term::Not(a) => {
            lemma_total_weight_push(Seq::empty(), *a);
            assert(seq![*a] =~= Seq::<Term>::empty().push(*a));
        },
        Term::Eq(a, b) | Term::Neq(a, b) | Term::Geq(a, b) | Term::Leq(a, b) | Term::Gt(a, b)
        | Term::Lt(a, b) | Term::Ineq(a, b, _) => {
            lemma_total_weight_push(Seq::empty(), *a);
            lemma_total_weight_push(seq![*a], *b);
            assert(seq![*a] =~= Seq::<Term>::empty().push(*a));
            assert(seq![*a, *b] =~= seq![*a].push(*b));
        },
        Term::SumGeq(xs, b) | Term::SumLeq(xs, b) => {
            lemma_total_weight_push(xs, *b);
        },
        _ => {},
    }
}

/// Expanding a list takes away the weight of one node for each touched
/// operand.
pub proof fn lemma_expand_weight(how: Expansion, xs: Seq<Term>)
    ensures
        total_weight(how.expand(xs)) + how.touched(xs) == total_weight(xs),
    decreases xs.len(),
{
    if xs.len() > 0 {
        lemma_expand_weight(how, xs.drop_last());
        lemma_total_weight_concat(how.expand(xs.drop_last()), how.piece(xs.last()));
        lemma_total_weight_push(Seq::empty(), xs.last());
        assert(seq![xs.last()] =~= Seq::<Term>::empty().push(xs.last()));
    }
}

/// A rule that shrinks makes the node lighter.
pub proof fn lemma_rule_shrinks(kind: RuleKind, t: Term)
    requires
        kind.shrinks(),
        kind.rewrite(t) is Some,
    ensures
        kind.rewrite(t)->0.weight() < t.weight(),
{
    let r = kind.rewrite(t)->0;
    lemma_weight_children(t);
    lemma_weight_children(r);
    match kind {
        RuleKind::SumConstants => {
            let xs = t->Sum_0;
            lemma_expand_weight(Expansion::DropConstantInts, xs);
            lemma_total_weight_push(Expansion::DropConstantInts.expand(xs), r->Sum_0.last());
        },
        RuleKind::UnwrapSum | RuleKind::RemoveTrivialAnd | RuleKind::RemoveTrivialOr => {
            lemma_total_weight_update(t.children(), 0, t.children()[0]);
        },
        RuleKind::RemoveDoubleNegation => {
            assert(t->Not_0.weight() == 1 + r.weight());
        },
        RuleKind::UnwrapNestedOr => {
            lemma_expand_weight(Expansion::SpliceOr, t->Or_0);
        },
        RuleKind::UnwrapNestedAnd => {
            lemma_expand_weight(Expansion::SpliceAnd, t->And_0);
        },
        RuleKind::RemoveConstantsFromOr => {
            lemma_expand_weight(Expansion::DropConstantBools, t->Or_0);
            if !(r is Or) {
                let xs = t->Or_0;
                let i = choose|i: int| 0 <= i < xs.len() && xs[i] == Term::ConstantBool(true);
                lemma_total_weight_update(xs, i, xs[i]);
            }
        },
        RuleKind::RemoveConstantsFromAnd => {
            lemma_expand_weight(Expansion::DropConstantBools, t->And_0);
            if !(r is And) {
                let xs = t->And_0;
                let i = choose|i: int| 0 <= i < xs.len() && xs[i] == Term::ConstantBool(false);
                lemma_total_weight_update(xs, i, xs[i]);
            }
        },
        RuleKind::LtToIneq => {},
        RuleKind::SumLeqToSumleq => {
            assert(t->Leq_0.weight() == 1 + total_weight(r->SumLeq_0));
        },
        RuleKind::FlattenSumGeq => {
            assert(t->Geq_0.weight() == 1 + total_weight(r->SumGeq_0));
        },
        _ => {},
    }
}

/// A lighter tree in the place of a node makes the whole tree lighter.
pub proof fn lemma_replace_shrinks(t: Term, path: Seq<int>, new: Term)
    requires
        t.at(path) is Some,
        new.weight() < t.at(path)->0.weight(),
    ensures
        t.replace_at(path, new).weight() < t.weight(),
    decreases path.len(),
{
    if path.len() > 0 {
        let cs = t.children();
        let i = path[0];
        let child = cs[i].replace_at(path.drop_first(), new);
        lemma_replace_shrinks(cs[i], path.drop_first(), new);
        let after = t.rebuild(cs.update(i, child));
        lemma_children_of_rebuilt(t, cs.update(i, child));
        lemma_weight_children(t);
        lemma_weight_children(after);
        lemma_total_weight_update(cs, i, child);
    }
}

/// With rules that shrink, the rewriter is done after at most as many
/// rewrites as the tree weighs.
pub proof fn lemma_shrinking_rules_terminate(t: Term, rules: Seq<RuleView>, budget: nat)
    requires
        forall|i: int| 0 <= i < rules.len() ==> (#[trigger] rules[i]).kind.shrinks(),
        budget >= t.weight(),
    ensures
        rewrite_bounded(t, rules, budget) is Ok,
    decreases budget,
{
    match step(t, rules) {
        None => {},
        Some(s) => {
            lemma_step_rule(t, rules);
            let node = t.at(s.path)->0;
            assert(rules[s.rule].kind.shrinks());
            lemma_rule_shrinks(rules[s.rule].kind, node);
            lemma_replace_shrinks(t, s.path, rules[s.rule].kind.rewrite(node)->0);
            lemma_shrinking_rules_terminate(s.result, rules, (budget - 1) as nat);
        },
    }
}

} // verus!
