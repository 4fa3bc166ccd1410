//! The solver-family gate: after rewriting, every node that is left must be
//! of a variant that the target family accepts.

use vstd::prelude::*;
use crate::expression::{lemma_terms_of, Expression, Term};
use crate::model::{Model, ModelView};
use crate::position::{
    find_first_in,
    first_in,
    indices,
    lemma_first_in,
    lemma_first_match_none,
    lemma_first_match_some,
    lemma_indices_insert,
    none_satisfy,
    property,
    NodeTest,
};
use crate::rewriter::{
    applicable,
    fixed_point,
    lemma_rewrite_all_each,
    lemma_rewritten_is_fixed_point,
    reducible,
    rewrite_all,
    rewrite_bounded,
    Stuck,
};
use crate::rule::RuleView;
use crate::solver::{SolverFamily, Variant};

verus! {

/// A node that the target family does not accept.
#[derive(Debug, PartialEq, Eq)]
pub enum GateError {
    /// `UnsupportedExpression(variant, family, path)`: `family` does not
    /// accept nodes of variant `variant`, and one stands at `path`.
    UnsupportedExpression(Variant, SolverFamily, Vec<usize>),
}

/// The node test "the family does not accept this variant".
pub struct Rejected {
    pub family: SolverFamily,
}

impl NodeTest for Rejected {
    open spec fn holds(&self, t: Term) -> bool {
        !self.family.accepts(t.variant())
    }

    fn test(&self, e: &Expression) -> (r: bool) {
        !self.family.is_accepted(e.variant())
    }
}

/// Whether `family` accepts every node of `t`.
pub open spec fn supported(t: Term, family: SolverFamily) -> bool {
    t.first_match(family.rejects()) is None
}

/// Checks every node of `e` against `family`. The error holds the path to
/// the first node in pre-order that is not accepted, and its variant.
pub fn validate_expression(e: &Expression, family: SolverFamily) -> (r: Result<(), GateError>)
    ensures
        match r {
            Ok(_) => supported(e@, family),
            Err(GateError::UnsupportedExpression(v, f, path)) => {
                &&& e@.first_match(family.rejects()) == Some(indices(path@))
                &&& e@.at(indices(path@)) is Some
                &&& v == e@.at(indices(path@))->0.variant()
                &&& f == family
            },
        },
{
    let test = Rejected { family };
    assert(property(&test) =~= family.rejects());
    match e.find_first(&test) {
        None => Ok(()),
        Some(path) => {
            proof {
                lemma_first_match_some(e@, family.rejects());
            }
            match e.at(&path) {
                Some(node) => Err(GateError::UnsupportedExpression(node.variant(), family, path)),
                None => Ok(()),
            }
        },
    }
}

/// Whether `r` is the verdict of `family` on the constraints `cs`. They
/// pass when the family accepts every node of every one of them. The error
/// holds the index of the first constraint with a node that is not
/// accepted, followed by the path to the first such node in it, and the
/// variant of that node.
pub open spec fn verdict(cs: Seq<Term>, family: SolverFamily, r: Result<(), GateError>) -> bool {
    match r {
        Ok(_) => first_in(cs, family.rejects(), 0) is None,
        Err(GateError::UnsupportedExpression(v, f, path)) => {
            &&& path.len() > 0
            &&& first_in(cs, family.rejects(), 0) == Some(
                (path[0] as int, indices(path@).drop_first()),
            )
            &&& 0 <= path[0] < cs.len()
            &&& cs[path[0] as int].at(indices(path@).drop_first()) is Some
            &&& v == cs[path[0] as int].at(indices(path@).drop_first())->0.variant()
            &&& f == family
        },
    }
}

/// Checks every node of every constraint of `model` against `family`.
pub fn validate_model(model: &Model, family: SolverFamily) -> (r: Result<(), GateError>)
    ensures
        verdict(model@.constraints, family, r),
{
    let constraints = model.constraints();
    let test = Rejected { family };
    assert(property(&test) =~= family.rejects());
    match find_first_in(constraints, &test) {
        None => Ok(()),
        Some((k, inner)) => {
            let mut path = inner;
            let ghost within = indices(path@);
            proof {
                lemma_terms_of(constraints@);
                lemma_first_in(model@.constraints, family.rejects(), 0);
                lemma_first_match_some(model@.constraints[k as int], family.rejects());
                lemma_indices_insert(path@, k);
                assert((seq![k as int] + within).drop_first() =~= within);
            }
            let variant = match constraints[k].at(&path) {
                Some(node) => node.variant(),
                None => constraints[k].variant(),
            };
            path.insert(0, k);
            assert(indices(path@).drop_first() == within);
            Err(GateError::UnsupportedExpression(variant, family, path))
        },
    }
}

/// Whether `rules` leave no node of `t` behind that `family` does not
/// accept: at every node of `t` of a variant that `family` rejects, some
/// rule of `rules` matches.
pub open spec fn complete_on(rules: Seq<RuleView>, family: SolverFamily, t: Term) -> bool {
    forall|i: int|
        0 <= i < t.universe().len() ==> family.accepts((#[trigger] t.universe()[i]).variant())
            || applicable(rules, t.universe()[i])
}

/// A tree at its fixed point under rules that are complete on it for a
/// family holds only nodes that the family accepts.
pub proof fn lemma_fixed_point_supported(t: Term, rules: Seq<RuleView>, family: SolverFamily)
    requires
        fixed_point(t, rules),
        complete_on(rules, family, t),
    ensures
        supported(t, family),
{
    lemma_first_match_none(t, reducible(rules));
    lemma_first_match_none(t, family.rejects());
    assert(none_satisfy(t.universe(), family.rejects())) by {
        assert forall|i: int| 0 <= i < t.universe().len() implies !(family.rejects())(
            #[trigger] t.universe()[i],
        ) by {
            assert(!(reducible(rules))(t.universe()[i]));
        }
    }
}

/// A model that came out of the rewriter holds only nodes that a family
/// accepts if the rules are complete for that family on each of its
/// constraints.
pub proof fn lemma_rewritten_model_supported(
    m: ModelView,
    rules: Seq<RuleView>,
    budget: nat,
    family: SolverFamily,
)
    requires
        m.rewritten(rules, budget) is Ok,
        forall|i: int|
            0 <= i < m.rewritten(rules, budget)->Ok_0.constraints.len() ==> complete_on(
                rules,
                family,
                #[trigger] m.rewritten(rules, budget)->Ok_0.constraints[i],
            ),
    ensures
        first_in(m.rewritten(rules, budget)->Ok_0.constraints, family.rejects(), 0) is None,
{
    let cs = m.constraints;
    let out = m.rewritten(rules, budget)->Ok_0.constraints;
    assert(out == rewrite_all(cs, rules, budget)->Ok_0);
    lemma_rewrite_all_each(cs, rules, budget);
    assert forall|i: int| 0 <= i < out.len() implies supported(#[trigger] out[i], family) by {
        assert(rewrite_bounded(cs[i], rules, budget) == Ok::<Term, Stuck>(out[i]));
        lemma_rewritten_is_fixed_point(cs[i], rules, budget);
        lemma_fixed_point_supported(out[i], rules, family);
    }
    lemma_first_in(out, family.rejects(), 0);
}

} // verus!
