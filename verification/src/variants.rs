//! Which variants occur in a tree, and what rewriting does to them: a rule
//! brings in only the variants that it is declared to introduce.

use vstd::prelude::*;
use crate::expression::Term;
use crate::model::ModelView;
use crate::position::{lemma_first_match_from_none, lemma_first_match_none, none_satisfy};
use crate::rewriter::{
    lemma_rewrite_all_each,
    lemma_step_rule,
    rewrite_all,
    rewrite_bounded,
    step,
    Stuck,
};
use crate::rule::{RuleKind, RuleView};
use crate::rules::cnf::{disjoin_each, negate_all};
use crate::rules::sequence::Expansion;
use crate::solver::{SolverFamily, Variant};
use crate::uniplate::lemma_children_of_rebuilt;

verus! {

impl Variant {
    /// The property of a node of being of this variant.
    pub open spec fn marks(self) -> spec_fn(Term) -> bool {
        |t: Term| t.variant() == self
    }
}

impl Term {
    /// Whether a node of variant `v` occurs in the tree.
    pub open spec fn has(self, v: Variant) -> bool {
        !none_satisfy(self.universe(), v.marks())
    }
}

/// Whether a node of variant `v` occurs in one of the trees.
pub open spec fn some_has(ts: Seq<Term>, v: Variant) -> bool {
    exists|k: int| 0 <= k < ts.len() && (#[trigger] ts[k]).has(v)
}

/// A variant occurs in a tree when it is the variant of the root or occurs
/// in one of the children.
pub proof fn lemma_has(t: Term, v: Variant)
    ensures
        t.has(v) <==> (t.variant() == v || some_has(t.children(), v)),
{
    let cs = t.children();
    lemma_first_match_none(t, v.marks());
    lemma_first_match_from_none(cs, v.marks(), 0);
    if some_has(cs, v) {
        let k = choose|k: int| 0 <= k < cs.len() && (#[trigger] cs[k]).has(v);
        assert(!none_satisfy(cs[k].universe(), v.marks()));
    }
    if t.has(v) && t.variant() != v {
        assert(!(v.marks())(t));
        let k = choose|k: int|
            0 <= k < cs.len() && !none_satisfy(#[trigger] cs[k].universe(), v.marks());
        assert(cs[k].has(v));
    }
}

/// What occurs in a child occurs in the parent.
pub proof fn lemma_has_child(t: Term, k: int, v: Variant)
    requires
        0 <= k < t.children().len(),
        t.children()[k].has(v),
    ensures
        t.has(v),
{
    lemma_has(t, v);
}

/// What occurs in the node at a path occurs in the tree.
pub proof fn lemma_has_at(t: Term, path: Seq<int>, v: Variant)
    requires
        t.at(path) is Some,
        t.at(path)->0.has(v),
    ensures
        t.has(v),
    decreases path.len(),
{
    if path.len() > 0 {
        lemma_has_at(t.children()[path[0]], path.drop_first(), v);
        lemma_has_child(t, path[0], v);
    }
}

/// What occurs in a tree after a replacement occurred in the tree before
/// or occurs in what was put in.
pub proof fn lemma_has_replaced(t: Term, path: Seq<int>, new: Term, v: Variant)
    requires
        t.replace_at(path, new).has(v),
    ensures
        t.has(v) || new.has(v),
    decreases path.len(),
{
    if path.len() > 0 && 0 <= path[0] < t.children().len() {
        let cs = t.children();
        let i = path[0];
        let child = cs[i].replace_at(path.drop_first(), new);
        let after = t.rebuild(cs.update(i, child));
        lemma_children_of_rebuilt(t, cs.update(i, child));
        lemma_has(after, v);
        lemma_has(t, v);
        if after.variant() != v {
            let k = choose|k: int|
                0 <= k < after.children().len() && (#[trigger] after.children()[k]).has(v);
            if k == i {
                lemma_has_replaced(cs[i], path.drop_first(), new, v);
                if cs[i].has(v) {
                    assert(some_has(cs, v));
                }
            } else {
                assert(cs[k].has(v));
            }
        }
    }
}

/// What occurs in an operand after an expansion occurred in an operand
/// before it.
pub proof fn lemma_expand_has(how: Expansion, xs: Seq<Term>, v: Variant)
    requires
        some_has(how.expand(xs), v),
    ensures
        some_has(xs, v),
    decreases xs.len(),
{
    if xs.len() > 0 {
        let front = how.expand(xs.drop_last());
        let piece = how.piece(xs.last());
        let all = how.expand(xs);
        let j = choose|j: int| 0 <= j < all.len() && (#[trigger] all[j]).has(v);
        if j < front.len() {
            assert(front[j].has(v));
            lemma_expand_has(how, xs.drop_last(), v);
            let i = choose|i: int| 0 <= i < xs.drop_last().len() && (#[trigger] xs.drop_last()[i]).has(v);
            assert(xs[i].has(v));
        } else {
            let e = piece[j - front.len()];
            assert(e == all[j]);
            if how.touches(xs.last()) {
                assert(xs.last().children()[j - front.len()] == e);
                lemma_has_child(xs.last(), j - front.len(), v);
            }
            assert(xs[xs.len() - 1].has(v));
        }
    }
}

/// A rule brings in only what it introduces: a variant that occurs in the
/// result of a rewrite occurred in the node before, or is one of those
/// that the rule introduces.
pub proof fn lemma_rule_brings_in(kind: RuleKind, t: Term, v: Variant)
    requires
        kind.rewrite(t) is Some,
        kind.rewrite(t)->0.has(v),
    ensures
        t.has(v) || kind.introduces(v),
{
    let r = kind.rewrite(t)->0;
    lemma_has(r, v);
    lemma_has(t, v);
    let cs = t.children();
    match kind {
        RuleKind::SumConstants => {
            let xs = t->Sum_0;
            let kept = Expansion::DropConstantInts.expand(xs);
            if r.variant() != v {
                let k = choose|k: int| 0 <= k < r.children().len() && (#[trigger] r.children()[k]).has(v);
                if k < kept.len() {
                    assert(kept[k].has(v));
                    lemma_expand_has(Expansion::DropConstantInts, xs, v);
                } else {
                    lemma_has(r.children()[k], v);
                    Expansion::DropConstantInts.lemma_touched_positive(xs);
                    let i = choose|i: int|
                        0 <= i < xs.len() && Expansion::DropConstantInts.touches(#[trigger] xs[i]);
                    lemma_has(xs[i], v);
                    assert(xs[i].has(v));
                }
            }
        },
        RuleKind::UnwrapSum | RuleKind::RemoveTrivialAnd | RuleKind::RemoveTrivialOr => {
            assert(cs[0].has(v));
        },
        RuleKind::RemoveDoubleNegation => {
            let inner = cs[0];
            lemma_has(inner, v);
            assert(inner.children()[0].has(v));
            assert(some_has(inner.children(), v));
            assert(cs[0].has(v));
        },
        RuleKind::UnwrapNestedOr => {
            if r.variant() != v {
                lemma_expand_has(Expansion::SpliceOr, t->Or_0, v);
            }
        },
        RuleKind::UnwrapNestedAnd => {
            if r.variant() != v {
                lemma_expand_has(Expansion::SpliceAnd, t->And_0, v);
            }
        },
        RuleKind::RemoveConstantsFromOr => {
            let xs = t->Or_0;
            if r is Or {
                if r.variant() != v {
                    lemma_expand_has(Expansion::DropConstantBools, xs, v);
                }
            } else {
                let i = choose|i: int| 0 <= i < xs.len() && xs[i] == Term::ConstantBool(true);
                lemma_has(xs[i], v);
                assert(xs[i].has(v));
            }
        },
        RuleKind::RemoveConstantsFromAnd => {
            let xs = t->And_0;
            if r is And {
                if r.variant() != v {
                    lemma_expand_has(Expansion::DropConstantBools, xs, v);
                }
            } else {
                let i = choose|i: int| 0 <= i < xs.len() && xs[i] == Term::ConstantBool(false);
                lemma_has(xs[i], v);
                assert(xs[i].has(v));
            }
        },
        RuleKind::DistributeNotOverAnd | RuleKind::DistributeNotOverOr => {
            let inner = cs[0];
            let xs = inner.children();
            if r.variant() != v {
                let k = choose|k: int| 0 <= k < r.children().len() && (#[trigger] r.children()[k]).has(v);
                let negated = r.children()[k];
                assert(negated == negate_all(xs)[k]);
                lemma_has(negated, v);
                if negated.variant() != v {
                    assert(negated.children()[0] == xs[k]);
                    assert(xs[k].has(v));
                    lemma_has_child(inner, k, v);
                    assert(cs[0].has(v));
                }
            }
        },
        RuleKind::DistributeOrOverAnd => {
            let (and, other) = if cs[0] is And {
                (0int, 1int)
            } else {
                (1int, 0int)
            };
            let ys = cs[and].children();
            lemma_has(cs[and], v);
            assert(cs[and].has(Variant::And)) by {
                lemma_has(cs[and], Variant::And);
            }
            if r.variant() != v {
                let k = choose|k: int| 0 <= k < r.children().len() && (#[trigger] r.children()[k]).has(v);
                let or = r.children()[k];
                assert(or == disjoin_each(cs[other], ys)[k]);
                lemma_has(or, v);
                if or.variant() != v {
                    let j = choose|j: int| 0 <= j < or.children().len() && (#[trigger] or.children()[j]).has(v);
                    if j == 0 {
                        assert(cs[other].has(v));
                    } else {
                        assert(or.children()[j] == ys[k]);
                        lemma_has_child(cs[and], k, v);
                        assert(cs[and].has(v));
                    }
                }
            } else {
                assert(cs[and].has(v));
            }
        },
        RuleKind::LtToIneq => {
            if r.variant() != v {
                let k = choose|k: int| 0 <= k < r.children().len() && (#[trigger] r.children()[k]).has(v);
                assert(cs[k].has(v));
            }
        },
        RuleKind::SumLeqToSumleq | RuleKind::FlattenSumGeq => {
            let xs = cs[0].children();
            if r.variant() != v {
                let k = choose|k: int| 0 <= k < r.children().len() && (#[trigger] r.children()[k]).has(v);
                if k < xs.len() {
                    assert(xs[k].has(v));
                    lemma_has_child(cs[0], k, v);
                    assert(cs[0].has(v));
                } else {
                    assert(cs[1].has(v));
                }
            }
        },
    }
}

impl Variant {
    /// Whether the variant is one of the flattened forms of a solver.
    pub open spec fn flattened(self) -> bool {
        self == Variant::SumGeq || self == Variant::SumLeq || self == Variant::Ineq
    }
}

/// A rule puts a flattened form at the root of its result only: a
/// flattened variant that occurs below the root of the result occurred in
/// the node before.
pub proof fn lemma_flattened_at_root_only(kind: RuleKind, t: Term, v: Variant)
    requires
        kind.rewrite(t) is Some,
        v.flattened(),
        some_has(kind.rewrite(t)->0.children(), v),
    ensures
        t.has(v),
{
    let r = kind.rewrite(t)->0;
    let cs = t.children();
    lemma_has(r, v);
    lemma_has(t, v);
    let k = choose|k: int| 0 <= k < r.children().len() && (#[trigger] r.children()[k]).has(v);
    match kind {
        RuleKind::LtToIneq => {
            assert(cs[k].has(v));
        },
        RuleKind::SumLeqToSumleq | RuleKind::FlattenSumGeq => {
            let xs = cs[0].children();
            if k < xs.len() {
                assert(xs[k].has(v));
                lemma_has_child(cs[0], k, v);
                assert(cs[0].has(v));
            } else {
                assert(cs[1].has(v));
            }
        },
        _ => {
            lemma_rule_brings_in(kind, t, v);
        },
    }
}

/// A rewrite brings in only what its rule introduces.
pub proof fn lemma_step_brings_in(t: Term, rules: Seq<RuleView>, v: Variant)
    requires
        step(t, rules) is Some,
        step(t, rules)->0.result.has(v),
    ensures
        t.has(v) || rules[step(t, rules)->0.rule].kind.introduces(v),
{
    lemma_step_rule(t, rules);
    let s = step(t, rules)->0;
    let node = t.at(s.path)->0;
    let new = rules[s.rule].kind.rewrite(node)->0;
    lemma_has_replaced(t, s.path, new, v);
    if !t.has(v) {
        lemma_rule_brings_in(rules[s.rule].kind, node, v);
        if node.has(v) {
            lemma_has_at(t, s.path, v);
        }
    }
}

/// Rewriting with rules that fit a family brings in no variant that the
/// family rejects: what the family rejects in the result was there
/// before.
pub proof fn lemma_rewriting_brings_in_nothing_rejected(
    t: Term,
    rules: Seq<RuleView>,
    budget: nat,
    family: SolverFamily,
    v: Variant,
)
    requires
        forall|i: int| 0 <= i < rules.len() ==> (#[trigger] rules[i]).kind.fits(family),
        rewrite_bounded(t, rules, budget) is Ok,
        rewrite_bounded(t, rules, budget)->Ok_0.has(v),
        !family.accepts(v),
    ensures
        t.has(v),
    decreases budget,
{
    match step(t, rules) {
        None => {},
        Some(s) => {
            lemma_rewriting_brings_in_nothing_rejected(
                s.result,
                rules,
                (budget - 1) as nat,
                family,
                v,
            );
            lemma_step_rule(t, rules);
            lemma_step_brings_in(t, rules, v);
            assert(rules[s.rule].kind.fits(family));
        },
    }
}

/// The same for a model: a variant that the family rejects and that occurs
/// in a constraint of the rewritten model occurred in that constraint
/// before.
pub proof fn lemma_model_rewriting_brings_in_nothing_rejected(
    m: ModelView,
    rules: Seq<RuleView>,
    budget: nat,
    family: SolverFamily,
    i: int,
    v: Variant,
)
    requires
        forall|k: int| 0 <= k < rules.len() ==> (#[trigger] rules[k]).kind.fits(family),
        m.rewritten(rules, budget) is Ok,
        0 <= i < m.constraints.len(),
        m.rewritten(rules, budget)->Ok_0.constraints[i].has(v),
        !family.accepts(v),
    ensures
        m.constraints[i].has(v),
{
    lemma_rewrite_all_each(m.constraints, rules, budget);
    let out = rewrite_all(m.constraints, rules, budget)->Ok_0;
    assert(rewrite_bounded(m.constraints[i], rules, budget) == Ok::<Term, Stuck>(out[i]));
    lemma_rewriting_brings_in_nothing_rejected(m.constraints[i], rules, budget, family, v);
}

} // verus!
