//! Rewrite rules: what each one does to a node, and the name, priority and
//! rule-set membership under which it is registered.

use vstd::prelude::*;
use crate::error::RuleApplicationError;
use crate::expression::{Expression, Term};
use crate::rules::base::agrees;
use crate::rules::sequence::Expansion;
use crate::solver::{SolverFamily, Variant};
use crate::text::text_lt;
use crate::uniplate::{lemma_child_smaller, lemma_size_children, lemma_total_size_push};

verus! {

/// The rewrites of the catalogue.
#[derive(Debug, Clone, Copy, PartialEq, Eq, Structural)]
pub enum RuleKind {
    SumConstants,
    UnwrapSum,
    LtToIneq,
    SumLeqToSumleq,
    FlattenSumGeq,
    RemoveDoubleNegation,
    UnwrapNestedOr,
    UnwrapNestedAnd,
    RemoveTrivialAnd,
    RemoveTrivialOr,
    RemoveConstantsFromOr,
    RemoveConstantsFromAnd,
    DistributeNotOverAnd,
    DistributeNotOverOr,
    DistributeOrOverAnd,
}

impl RuleKind {
    /// What the rule makes of the node `t`, if it matches there.
    pub open spec fn rewrite(self, t: Term) -> Option<Term> {
        match self {
            RuleKind::SumConstants => t.sum_constants(),
            RuleKind::UnwrapSum => t.unwrap_sum(),
            RuleKind::LtToIneq => t.lt_to_ineq(),
            RuleKind::SumLeqToSumleq => t.sum_leq_to_sumleq(),
            RuleKind::FlattenSumGeq => t.flatten_sum_geq(),
            RuleKind::RemoveDoubleNegation => t.remove_double_negation(),
            RuleKind::UnwrapNestedOr => t.unwrap_nested_or(),
            RuleKind::UnwrapNestedAnd => t.unwrap_nested_and(),
            RuleKind::RemoveTrivialAnd => t.remove_trivial_and(),
            RuleKind::RemoveTrivialOr => t.remove_trivial_or(),
            RuleKind::RemoveConstantsFromOr => t.remove_constants_from_or(),
            RuleKind::RemoveConstantsFromAnd => t.remove_constants_from_and(),
            RuleKind::DistributeNotOverAnd => t.distribute_not_over_and(),
            RuleKind::DistributeNotOverOr => t.distribute_not_over_or(),
            RuleKind::DistributeOrOverAnd => t.distribute_or_over_and(),
        }
    }

    /// The variants that a rewrite by the rule can bring into a tree that
    /// held none of them.
    pub open spec fn introduces(self, v: Variant) -> bool {
        match self {
            RuleKind::LtToIneq => v == Variant::Ineq,
            RuleKind::SumLeqToSumleq => v == Variant::SumLeq,
            RuleKind::FlattenSumGeq => v == Variant::SumGeq,
            RuleKind::DistributeNotOverAnd => v == Variant::Or,
            RuleKind::DistributeNotOverOr => v == Variant::And,
            _ => false,
        }
    }

    /// Whether `family` accepts every variant that the rule introduces.
    pub open spec fn fits(self, family: SolverFamily) -> bool {
        forall|v: Variant| self.introduces(v) ==> family.accepts(v)
    }

    /// Applies the rule to the root node of `expr`.
    pub fn apply(self, expr: &Expression) -> (r: Result<Expression, RuleApplicationError>)
        ensures
            agrees(r, self.rewrite(expr@)),
    {
        match self {
            RuleKind::SumConstants => crate::rules::base::sum_constants(expr),
            RuleKind::UnwrapSum => crate::rules::base::unwrap_sum(expr),
            RuleKind::LtToIneq => crate::rules::minion::lt_to_ineq(expr),
            RuleKind::SumLeqToSumleq => crate::rules::minion::sum_leq_to_sumleq(expr),
            RuleKind::FlattenSumGeq => crate::rules::minion::flatten_sum_geq(expr),
            RuleKind::RemoveDoubleNegation => crate::rules::base::remove_double_negation(expr),
            RuleKind::UnwrapNestedOr => crate::rules::base::unwrap_nested_or(expr),
            RuleKind::UnwrapNestedAnd => crate::rules::base::unwrap_nested_and(expr),
            RuleKind::RemoveTrivialAnd => crate::rules::base::remove_trivial_and(expr),
            RuleKind::RemoveTrivialOr => crate::rules::base::remove_trivial_or(expr),
            RuleKind::RemoveConstantsFromOr => crate::rules::base::remove_constants_from_or(expr),
            RuleKind::RemoveConstantsFromAnd => crate::rules::base::remove_constants_from_and(expr),
            RuleKind::DistributeNotOverAnd => crate::rules::cnf::distribute_not_over_and(expr),
            RuleKind::DistributeNotOverOr => crate::rules::cnf::distribute_not_over_or(expr),
            RuleKind::DistributeOrOverAnd => crate::rules::cnf::distribute_or_over_and(expr),
        }
    }

    /// Whether `family` accepts every variant that the rule introduces.
    pub fn is_fit_for(self, family: SolverFamily) -> (r: bool)
        ensures
            r == self.fits(family),
    {
        let r = match self {
            RuleKind::LtToIneq => family.is_accepted(Variant::Ineq),
            RuleKind::SumLeqToSumleq => family.is_accepted(Variant::SumLeq),
            RuleKind::FlattenSumGeq => family.is_accepted(Variant::SumGeq),
            RuleKind::DistributeNotOverAnd => family.is_accepted(Variant::Or),
            RuleKind::DistributeNotOverOr => family.is_accepted(Variant::And),
            _ => true,
        };
        proof {
            if !r {
                let v = match self {
                    RuleKind::LtToIneq => Variant::Ineq,
                    RuleKind::SumLeqToSumleq => Variant::SumLeq,
                    RuleKind::FlattenSumGeq => Variant::SumGeq,
                    RuleKind::DistributeNotOverAnd => Variant::Or,
                    _ => Variant::And,
                };
                assert(self.introduces(v) && !family.accepts(v));
            }
        }
        r
    }
}

/// A successful rewrite never gives the node back unchanged.
pub proof fn lemma_progress(kind: RuleKind, t: Term)
    requires
        kind.rewrite(t) is Some,
    ensures
        kind.rewrite(t) != Some(t),
{
    let r = kind.rewrite(t)->0;
    lemma_size_children(t);
    lemma_size_children(r);
    match kind {
        RuleKind::SumConstants => {
            let xs = t->Sum_0;
            let kept = Expansion::DropConstantInts.expand(xs);
            Expansion::DropConstantInts.lemma_expand_size(xs);
            lemma_total_size_push(kept, r->Sum_0.last());
            assert(r.size() < t.size());
        },
        RuleKind::UnwrapSum | RuleKind::RemoveTrivialAnd | RuleKind::RemoveTrivialOr => {
            lemma_child_smaller(t, 0);
            assert(r.size() < t.size());
        },
        RuleKind::RemoveDoubleNegation => {
            assert(t->Not_0.size() == 1 + r.size());
        },
        RuleKind::UnwrapNestedOr => {
            Expansion::SpliceOr.lemma_expand_size(t->Or_0);
            assert(r.size() < t.size());
        },
        RuleKind::UnwrapNestedAnd => {
            Expansion::SpliceAnd.lemma_expand_size(t->And_0);
            assert(r.size() < t.size());
        },
        RuleKind::RemoveConstantsFromOr => {
            Expansion::DropConstantBools.lemma_expand_size(t->Or_0);
            if r is Or {
                assert(r.size() < t.size());
            }
        },
        RuleKind::RemoveConstantsFromAnd => {
            Expansion::DropConstantBools.lemma_expand_size(t->And_0);
            if r is And {
                assert(r.size() < t.size());
            }
        },
        _ => {},
    }
}

/// A rule as it is registered.
#[derive(Debug)]
pub struct Rule {
    /// Unique name in the registry.
    pub name: String,
    /// What the rule does.
    pub kind: RuleKind,
    /// Higher priorities fire first.
    pub priority: i32,
    /// The rule sets it belongs to.
    pub rule_sets: Vec<String>,
}

/// Mathematical value of a [`Rule`].
pub struct RuleView {
    pub name: Seq<char>,
    pub kind: RuleKind,
    pub priority: int,
    pub rule_sets: Seq<Seq<char>>,
}

/// The views of a sequence of strings.
pub open spec fn texts_of(v: Seq<String>) -> Seq<Seq<char>> {
    Seq::new(v.len(), |i: int| v[i]@)
}

/// The views of a sequence of rules.
pub open spec fn rules_of(v: Seq<Rule>) -> Seq<RuleView> {
    Seq::new(v.len(), |i: int| v[i]@)
}

impl View for Rule {
    type V = RuleView;

    open spec fn view(&self) -> RuleView {
        RuleView {
            name: self.name@,
            kind: self.kind,
            priority: self.priority as int,
            rule_sets: texts_of(self.rule_sets@),
        }
    }
}

impl RuleView {
    /// The order in which rules are tried: by descending priority, and by
    /// name among rules of one priority.
    pub open spec fn fires_before(self, other: RuleView) -> bool {
        self.priority > other.priority || (self.priority == other.priority && text_lt(
            self.name,
            other.name,
        ))
    }

    /// Whether the rule belongs to the rule set `set`.
    pub open spec fn member_of(self, set: Seq<char>) -> bool {
        self.rule_sets.contains(set)
    }
}

impl Rule {
    /// A rule of kind `kind` under the name `name`, in no rule set.
    pub fn new(name: &str, kind: RuleKind, priority: i32) -> (r: Rule)
        ensures
            r@ == (RuleView { name: name@, kind, priority: priority as int, rule_sets: Seq::empty() }),
    {
        let r = Rule { name: name.to_owned(), kind, priority, rule_sets: Vec::new() };
        assert(r@.rule_sets =~= Seq::empty());
        r
    }

    /// The same rule as a member of `set` too.
    pub fn in_set(self, set: &str) -> (r: Rule)
        ensures
            r@ == (RuleView { rule_sets: self@.rule_sets.push(set@), ..self@ }),
    {
        let mut r = self;
        let ghost before = r.rule_sets@;
        r.rule_sets.push(set.to_owned());
        assert(texts_of(r.rule_sets@) =~= texts_of(before).push(set@));
        r
    }

    /// Applies the rule to the root node of `expr`.
    pub fn apply(&self, expr: &Expression) -> (r: Result<Expression, RuleApplicationError>)
        ensures
            agrees(r, self@.kind.rewrite(expr@)),
    {
        self.kind.apply(expr)
    }

    /// Whether the rule belongs to the rule set `set`.
    pub fn is_member_of(&self, set: &str) -> (r: bool)
        ensures
            r == self@.member_of(set@),
    {
        let wanted = set.to_owned();
        let mut k: usize = 0;
        while k < self.rule_sets.len()
            invariant
                k <= self.rule_sets.len(),
                wanted@ == set@,
                forall|j: int| 0 <= j < k ==> self.rule_sets[j]@ != set@,
            decreases self.rule_sets.len() - k,
        {
            if self.rule_sets[k] == wanted {
                assert(self@.rule_sets[k as int] == set@);
                return true;
            }
            k += 1;
        }
        false
    }

    /// Whether this rule is tried before `other`.
    pub fn goes_before(&self, other: &Rule) -> (r: bool)
        ensures
            r == self@.fires_before(other@),
    {
        self.priority > other.priority || (self.priority == other.priority && crate::text::str_lt(
            self.name.as_str(),
            other.name.as_str(),
        ))
    }
}

impl Clone for Rule {
    fn clone(&self) -> (r: Self)
        ensures
            r@ == self@,
    {
        let mut sets: Vec<String> = Vec::new();
        let mut k: usize = 0;
        while k < self.rule_sets.len()
            invariant
                k <= self.rule_sets.len(),
                sets.len() == k,
                forall|j: int| 0 <= j < k ==> sets[j]@ == self.rule_sets[j]@,
            decreases self.rule_sets.len() - k,
        {
            sets.push(self.rule_sets[k].clone());
            k += 1;
        }
        assert(texts_of(sets@) =~= texts_of(self.rule_sets@));
        Rule { name: self.name.clone(), kind: self.kind, priority: self.priority, rule_sets: sets }
    }
}

} // verus!
