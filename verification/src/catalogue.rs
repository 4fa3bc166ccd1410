//! The rules that every registry starts from: each rewrite of the
//! catalogue under its name, with its priority and its rule set.

use vstd::prelude::*;
use crate::rule::{Rule, RuleKind, RuleView};

verus! {

/// Priority of the simplifications of the rule set `Base`.
pub const BASE_PRIORITY: i32 = 100;

/// Priority of the rules of the solver-specific rule sets `CNF` and
/// `Minion`.
pub const SOLVER_PRIORITY: i32 = 50;

impl RuleKind {
    /// The name under which the rule is registered.
    pub open spec fn name(self) -> Seq<char> {
        match self {
            RuleKind::SumConstants => "sum_constants"@,
            RuleKind::UnwrapSum => "unwrap_sum"@,
            RuleKind::LtToIneq => "lt_to_ineq"@,
            RuleKind::SumLeqToSumleq => "sum_leq_to_sumleq"@,
            RuleKind::FlattenSumGeq => "flatten_sum_geq"@,
            RuleKind::RemoveDoubleNegation => "remove_double_negation"@,
            RuleKind::UnwrapNestedOr => "unwrap_nested_or"@,
            RuleKind::UnwrapNestedAnd => "unwrap_nested_and"@,
            RuleKind::RemoveTrivialAnd => "remove_trivial_and"@,
            RuleKind::RemoveTrivialOr => "remove_trivial_or"@,
            RuleKind::RemoveConstantsFromOr => "remove_constants_from_or"@,
            RuleKind::RemoveConstantsFromAnd => "remove_constants_from_and"@,
            RuleKind::DistributeNotOverAnd => "distribute_not_over_and"@,
            RuleKind::DistributeNotOverOr => "distribute_not_over_or"@,
            RuleKind::DistributeOrOverAnd => "distribute_or_over_and"@,
        }
    }

    /// The rule set the rule is registered in: `Minion` for the rules that
    /// flatten comparisons, `CNF` for those that distribute `Not` and `Or`,
    /// `Base` for the others.
    pub open spec fn rule_set(self) -> Seq<char> {
        match self {
            RuleKind::LtToIneq | RuleKind::SumLeqToSumleq | RuleKind::FlattenSumGeq => "Minion"@,
            RuleKind::DistributeNotOverAnd
            | RuleKind::DistributeNotOverOr
            | RuleKind::DistributeOrOverAnd => "CNF"@,
            _ => "Base"@,
        }
    }

    /// The priority the rule is registered with.
    pub open spec fn priority(self) -> int {
        match self {
            RuleKind::LtToIneq
            | RuleKind::SumLeqToSumleq
            | RuleKind::FlattenSumGeq
            | RuleKind::DistributeNotOverAnd
            | RuleKind::DistributeNotOverOr
            | RuleKind::DistributeOrOverAnd => SOLVER_PRIORITY as int,
            _ => BASE_PRIORITY as int,
        }
    }

    /// The rule as the catalogue registers it.
    pub open spec fn entry(self) -> RuleView {
        RuleView {
            name: self.name(),
            kind: self,
            priority: self.priority(),
            rule_sets: seq![self.rule_set()],
        }
    }

    /// The rule as the catalogue registers it.
    pub fn registered(self) -> (r: Rule)
        ensures
            r@ == self.entry(),
    {
        let (name, set, priority) = match self {
            RuleKind::SumConstants => ("sum_constants", "Base", BASE_PRIORITY),
            RuleKind::UnwrapSum => ("unwrap_sum", "Base", BASE_PRIORITY),
            RuleKind::LtToIneq => ("lt_to_ineq", "Minion", SOLVER_PRIORITY),
            RuleKind::SumLeqToSumleq => ("sum_leq_to_sumleq", "Minion", SOLVER_PRIORITY),
            RuleKind::FlattenSumGeq => ("flatten_sum_geq", "Minion", SOLVER_PRIORITY),
            RuleKind::RemoveDoubleNegation => ("remove_double_negation", "Base", BASE_PRIORITY),
            RuleKind::UnwrapNestedOr => ("unwrap_nested_or", "Base", BASE_PRIORITY),
            RuleKind::UnwrapNestedAnd => ("unwrap_nested_and", "Base", BASE_PRIORITY),
            RuleKind::RemoveTrivialAnd => ("remove_trivial_and", "Base", BASE_PRIORITY),
            RuleKind::RemoveTrivialOr => ("remove_trivial_or", "Base", BASE_PRIORITY),
            RuleKind::RemoveConstantsFromOr => ("remove_constants_from_or", "Base", BASE_PRIORITY),
            RuleKind::RemoveConstantsFromAnd => ("remove_constants_from_and", "Base", BASE_PRIORITY),
            RuleKind::DistributeNotOverAnd => ("distribute_not_over_and", "CNF", SOLVER_PRIORITY),
            RuleKind::DistributeNotOverOr => ("distribute_not_over_or", "CNF", SOLVER_PRIORITY),
            RuleKind::DistributeOrOverAnd => ("distribute_or_over_and", "CNF", SOLVER_PRIORITY),
        };
        let r = Rule::new(name, self, priority).in_set(set);
        assert(r@.rule_sets =~= seq![self.rule_set()]);
        r
    }
}

/// The kinds of the catalogue, in the order in which they are registered.
pub open spec fn kinds() -> Seq<RuleKind> {
    seq![
        RuleKind::SumConstants,
        RuleKind::UnwrapSum,
        RuleKind::LtToIneq,
        RuleKind::SumLeqToSumleq,
        RuleKind::FlattenSumGeq,
        RuleKind::RemoveDoubleNegation,
        RuleKind::UnwrapNestedOr,
        RuleKind::UnwrapNestedAnd,
        RuleKind::RemoveTrivialAnd,
        RuleKind::RemoveTrivialOr,
        RuleKind::RemoveConstantsFromOr,
        RuleKind::RemoveConstantsFromAnd,
        RuleKind::DistributeNotOverAnd,
        RuleKind::DistributeNotOverOr,
        RuleKind::DistributeOrOverAnd,
    ]
}

/// The rules of the catalogue, in the order in which they are registered.
pub open spec fn catalogue() -> Seq<RuleView> {
    Seq::new(kinds().len(), |i: int| kinds()[i].entry())
}

/// The kinds of the catalogue, in the order in which they are registered.
pub fn all_kinds() -> (v: Vec<RuleKind>)
    ensures
        v@ == kinds(),
{
    let mut v: Vec<RuleKind> = Vec::new();
    v.push(RuleKind::SumConstants);
    v.push(RuleKind::UnwrapSum);
    v.push(RuleKind::LtToIneq);
    v.push(RuleKind::SumLeqToSumleq);
    v.push(RuleKind::FlattenSumGeq);
    v.push(RuleKind::RemoveDoubleNegation);
    v.push(RuleKind::UnwrapNestedOr);
    v.push(RuleKind::UnwrapNestedAnd);
    v.push(RuleKind::RemoveTrivialAnd);
    v.push(RuleKind::RemoveTrivialOr);
    v.push(RuleKind::RemoveConstantsFromOr);
    v.push(RuleKind::RemoveConstantsFromAnd);
    v.push(RuleKind::DistributeNotOverAnd);
    v.push(RuleKind::DistributeNotOverOr);
    v.push(RuleKind::DistributeOrOverAnd);
    assert(v@ =~= kinds());
    v
}

/// Different kinds are registered under different names.
pub proof fn lemma_names_distinct(a: RuleKind, b: RuleKind)
    requires
        a != b,
    ensures
        a.name() != b.name(),
{
    reveal_strlit("sum_constants");
    reveal_strlit("unwrap_sum");
    reveal_strlit("lt_to_ineq");
    reveal_strlit("sum_leq_to_sumleq");
    reveal_strlit("flatten_sum_geq");
    reveal_strlit("remove_double_negation");
    reveal_strlit("unwrap_nested_or");
    reveal_strlit("unwrap_nested_and");
    reveal_strlit("remove_trivial_and");
    reveal_strlit("remove_trivial_or");
    reveal_strlit("remove_constants_from_or");
    reveal_strlit("remove_constants_from_and");
    reveal_strlit("distribute_not_over_and");
    reveal_strlit("distribute_not_over_or");
    reveal_strlit("distribute_or_over_and");
    let x = a.name();
    let y = b.name();
    assert(x.len() != y.len() || x[0] != y[0] || x[11] != y[11]);
}

} // verus!
