//! The rules of the catalogue are sound: a rewrite keeps the value of every
//! expression that has one, and so does rewriting to the fixed point.

use vstd::prelude::*;
use crate::expression::Term;
use crate::model::ModelView;
use crate::name::NameView;
use crate::rewriter::{
    lemma_rewrite_all_each,
    lemma_step_rule,
    rewrite_all,
    rewrite_bounded,
    step,
    Stuck,
};
use crate::rule::{RuleKind, RuleView};
use crate::rules::base::constant_total;
use crate::rules::cnf::{disjoin_each, negate_all};
use crate::rules::sequence::Expansion;
use crate::semantics::{
    all_true,
    any_true,
    lemma_all_true,
    lemma_any_true,
    lemma_value_replaced,
    total,
    Value,
};

verus! {

/// The sum of one operand more.
pub proof fn lemma_total_push(xs: Seq<Term>, x: Term, env: Map<NameView, Value>)
    ensures
        total(xs.push(x), env) == match (total(xs, env), x.value(env)) {
            (Some(s), Some(Value::Int(v))) => Some(s + v),
            _ => None,
        },
        total(Seq::empty(), env) == Some(0int),
{
    assert(xs.push(x).drop_last() =~= xs);
    assert(xs.push(x).last() == x);
}

/// Whether one operand is true, with one operand more.
pub proof fn lemma_any_true_push(xs: Seq<Term>, x: Term, env: Map<NameView, Value>)
    ensures
        any_true(xs.push(x), env) == match (any_true(xs, env), x.value(env)) {
            (Some(a), Some(Value::Bool(b))) => Some(a || b),
            _ => None,
        },
        any_true(Seq::empty(), env) == Some(false),
{
    assert(xs.push(x).drop_last() =~= xs);
    assert(xs.push(x).last() == x);
}

/// Whether all operands are true, with one operand more.
pub proof fn lemma_all_true_push(xs: Seq<Term>, x: Term, env: Map<NameView, Value>)
    ensures
        all_true(xs.push(x), env) == match (all_true(xs, env), x.value(env)) {
            (Some(a), Some(Value::Bool(b))) => Some(a && b),
            _ => None,
        },
        all_true(Seq::empty(), env) == Some(true),
{
    assert(xs.push(x).drop_last() =~= xs);
    assert(xs.push(x).last() == x);
}

/// The sum of a concatenation is the sum of the sums.
pub proof fn lemma_total_concat(a: Seq<Term>, b: Seq<Term>, env: Map<NameView, Value>)
    ensures
        total(a + b, env) == match (total(a, env), total(b, env)) {
            (Some(x), Some(y)) => Some(x + y),
            _ => None,
        },
    decreases b.len(),
{
    if b.len() == 0 {
        assert(a + b =~= a);
    } else {
        lemma_total_concat(a, b.drop_last(), env);
        assert((a + b).drop_last() =~= a + b.drop_last());
        assert((a + b).last() == b.last());
    }
}

/// One operand of a concatenation is true when one of either part is.
pub proof fn lemma_any_true_concat(a: Seq<Term>, b: Seq<Term>, env: Map<NameView, Value>)
    ensures
        any_true(a + b, env) == match (any_true(a, env), any_true(b, env)) {
            (Some(x), Some(y)) => Some(x || y),
            _ => None,
        },
    decreases b.len(),
{
    if b.len() == 0 {
        assert(a + b =~= a);
    } else {
        lemma_any_true_concat(a, b.drop_last(), env);
        assert((a + b).drop_last() =~= a + b.drop_last());
        assert((a + b).last() == b.last());
    }
}

/// All operands of a concatenation are true when those of both parts are.
pub proof fn lemma_all_true_concat(a: Seq<Term>, b: Seq<Term>, env: Map<NameView, Value>)
    ensures
        all_true(a + b, env) == match (all_true(a, env), all_true(b, env)) {
            (Some(x), Some(y)) => Some(x && y),
            _ => None,
        },
    decreases b.len(),
{
    if b.len() == 0 {
        assert(a + b =~= a);
    } else {
        lemma_all_true_concat(a, b.drop_last(), env);
        assert((a + b).drop_last() =~= a + b.drop_last());
        assert((a + b).last() == b.last());
    }
}

/// The operands that are left when the integer constants are dropped sum
/// up to the sum of all operands less the sum of the constants.
pub proof fn lemma_total_without_constants(xs: Seq<Term>, env: Map<NameView, Value>)
    requires
        total(xs, env) is Some,
    ensures
        total(Expansion::DropConstantInts.expand(xs), env) == Some(
            total(xs, env)->0 - constant_total(xs),
        ),
    decreases xs.len(),
{
    if xs.len() > 0 {
        let how = Expansion::DropConstantInts;
        lemma_total_without_constants(xs.drop_last(), env);
        lemma_total_concat(how.expand(xs.drop_last()), how.piece(xs.last()), env);
        lemma_total_push(Seq::empty(), xs.last(), env);
        assert(seq![xs.last()] =~= Seq::<Term>::empty().push(xs.last()));
    }
}

/// Splicing nested `Or`s into the list does not change whether one
/// operand is true.
pub proof fn lemma_any_true_spliced(xs: Seq<Term>, env: Map<NameView, Value>)
    requires
        any_true(xs, env) is Some,
    ensures
        any_true(Expansion::SpliceOr.expand(xs), env) == any_true(xs, env),
    decreases xs.len(),
{
    if xs.len() > 0 {
        let how = Expansion::SpliceOr;
        lemma_any_true_spliced(xs.drop_last(), env);
        lemma_any_true_concat(how.expand(xs.drop_last()), how.piece(xs.last()), env);
        lemma_any_true_push(Seq::empty(), xs.last(), env);
        assert(seq![xs.last()] =~= Seq::<Term>::empty().push(xs.last()));
    }
}

/// Splicing nested `And`s into the list does not change whether all
/// operands are true.
pub proof fn lemma_all_true_spliced(xs: Seq<Term>, env: Map<NameView, Value>)
    requires
        all_true(xs, env) is Some,
    ensures
        all_true(Expansion::SpliceAnd.expand(xs), env) == all_true(xs, env),
    decreases xs.len(),
{
    if xs.len() > 0 {
        let how = Expansion::SpliceAnd;
        lemma_all_true_spliced(xs.drop_last(), env);
        lemma_all_true_concat(how.expand(xs.drop_last()), how.piece(xs.last()), env);
        lemma_all_true_push(Seq::empty(), xs.last(), env);
        assert(seq![xs.last()] =~= Seq::<Term>::empty().push(xs.last()));
    }
}

/// Dropping constants of which none is `keep` does not change the outcome
/// of a list whose outcome only an operand of value `keep` decides: with
/// `keep` true, whether one operand is true; with `keep` false, whether
/// all are.
pub proof fn lemma_without_constant_bools(xs: Seq<Term>, env: Map<NameView, Value>, keep: bool)
    requires
        !xs.contains(Term::ConstantBool(keep)),
        keep ==> any_true(xs, env) is Some,
        !keep ==> all_true(xs, env) is Some,
    ensures
        keep ==> any_true(Expansion::DropConstantBools.expand(xs), env) == any_true(xs, env),
        !keep ==> all_true(Expansion::DropConstantBools.expand(xs), env) == all_true(xs, env),
    decreases xs.len(),
{
    if xs.len() > 0 {
        let how = Expansion::DropConstantBools;
        let front = xs.drop_last();
        assert(!front.contains(Term::ConstantBool(keep))) by {
            if front.contains(Term::ConstantBool(keep)) {
                let i = choose|i: int| 0 <= i < front.len() && front[i] == Term::ConstantBool(keep);
                assert(xs[i] == Term::ConstantBool(keep));
            }
        }
        assert(xs[xs.len() - 1] != Term::ConstantBool(keep));
        lemma_without_constant_bools(front, env, keep);
        lemma_any_true_concat(how.expand(front), how.piece(xs.last()), env);
        lemma_all_true_concat(how.expand(front), how.piece(xs.last()), env);
        lemma_any_true_push(Seq::empty(), xs.last(), env);
        lemma_all_true_push(Seq::empty(), xs.last(), env);
        assert(seq![xs.last()] =~= Seq::<Term>::empty().push(xs.last()));
    }
}

/// De Morgan: the negations of operands hold one that is true exactly
/// when not all operands are true, and are all true exactly when no
/// operand is.
pub proof fn lemma_negate_all(xs: Seq<Term>, env: Map<NameView, Value>)
    ensures
        all_true(xs, env) matches Some(b) ==> any_true(negate_all(xs), env) == Some(!b),
        any_true(xs, env) matches Some(b) ==> all_true(negate_all(xs), env) == Some(!b),
    decreases xs.len(),
{
    if xs.len() > 0 {
        let front = xs.drop_last();
        let negated = Term::Not(Box::new(xs.last()));
        lemma_negate_all(front, env);
        assert(negate_all(xs) =~= negate_all(front).push(negated));
        assert(xs =~= front.push(xs.last()));
        lemma_any_true_push(negate_all(front), negated, env);
        lemma_all_true_push(negate_all(front), negated, env);
        lemma_any_true_push(front, xs.last(), env);
        lemma_all_true_push(front, xs.last(), env);
    } else {
        assert(negate_all(xs) =~= Seq::<Term>::empty());
    }
}

/// Distribution: the disjunctions of `other` with each operand are all
/// true exactly when `other` is true or all operands are.
pub proof fn lemma_disjoin_each(other: Term, ys: Seq<Term>, env: Map<NameView, Value>)
    requires
        other.value(env) matches Some(Value::Bool(_)),
    ensures
        all_true(ys, env) matches Some(a) ==> all_true(disjoin_each(other, ys), env) == Some(
            a || other.value(env)->0->Bool_0,
        ),
    decreases ys.len(),
{
    if ys.len() > 0 {
        let front = ys.drop_last();
        let either = Term::Or(seq![other, ys.last()]);
        lemma_disjoin_each(other, front, env);
        assert(disjoin_each(other, ys) =~= disjoin_each(other, front).push(either));
        assert(ys =~= front.push(ys.last()));
        lemma_pair(other, ys.last(), env);
        lemma_all_true_push(disjoin_each(other, front), either, env);
        lemma_all_true_push(front, ys.last(), env);
    } else {
        assert(disjoin_each(other, ys) =~= Seq::<Term>::empty());
    }
}

/// Whether one of two operands is true.
proof fn lemma_pair(a: Term, b: Term, env: Map<NameView, Value>)
    ensures
        any_true(seq![a, b], env) == match (a.value(env), b.value(env)) {
            (Some(Value::Bool(x)), Some(Value::Bool(y))) => Some(x || y),
            _ => None,
        },
{
    lemma_any_true_push(Seq::empty(), a, env);
    lemma_any_true_push(seq![a], b, env);
    assert(seq![a] =~= Seq::<Term>::empty().push(a));
    assert(seq![a, b] =~= seq![a].push(b));
}

/// Every rule of the catalogue is sound: where the node has a value, the
/// result of the rewrite has the same value.
pub proof fn lemma_rule_sound(kind: RuleKind, t: Term, env: Map<NameView, Value>)
    requires
        kind.rewrite(t) is Some,
        t.value(env) is Some,
    ensures
        kind.rewrite(t)->0.value(env) == t.value(env),
{
    let r = kind.rewrite(t)->0;
    match kind {
        RuleKind::SumConstants => {
            let xs = t->Sum_0;
            let kept = Expansion::DropConstantInts.expand(xs);
            let folded = Term::ConstantInt(constant_total(xs) as i32);
            lemma_total_without_constants(xs, env);
            lemma_total_push(kept, folded, env);
        },
        RuleKind::UnwrapSum => {
            let xs = t->Sum_0;
            lemma_total_push(Seq::empty(), xs[0], env);
            assert(xs =~= Seq::<Term>::empty().push(xs[0]));
        },
        RuleKind::RemoveTrivialAnd => {
            let xs = t->And_0;
            lemma_all_true_push(Seq::empty(), xs[0], env);
            assert(xs =~= Seq::<Term>::empty().push(xs[0]));
        },
        RuleKind::RemoveTrivialOr => {
            let xs = t->Or_0;
            lemma_any_true_push(Seq::empty(), xs[0], env);
            assert(xs =~= Seq::<Term>::empty().push(xs[0]));
        },
        RuleKind::RemoveDoubleNegation => {
            reveal_with_fuel(Term::value, 2);
        },
        RuleKind::UnwrapNestedOr => {
            lemma_any_true_spliced(t->Or_0, env);
        },
        RuleKind::UnwrapNestedAnd => {
            lemma_all_true_spliced(t->And_0, env);
        },
        RuleKind::RemoveConstantsFromOr => {
            let xs = t->Or_0;
            lemma_any_true(xs, env);
            if xs.contains(Term::ConstantBool(true)) {
                let i = choose|i: int| 0 <= i < xs.len() && xs[i] == Term::ConstantBool(true);
                assert(xs[i].value(env) == Some(Value::Bool(true)));
            } else {
                lemma_without_constant_bools(xs, env, true);
            }
        },
        RuleKind::RemoveConstantsFromAnd => {
            let xs = t->And_0;
            lemma_all_true(xs, env);
            if xs.contains(Term::ConstantBool(false)) {
                let i = choose|i: int| 0 <= i < xs.len() && xs[i] == Term::ConstantBool(false);
                assert(xs[i].value(env) == Some(Value::Bool(false)));
            } else {
                lemma_without_constant_bools(xs, env, false);
            }
        },
        RuleKind::DistributeNotOverAnd => {
            reveal_with_fuel(Term::value, 2);
            lemma_negate_all(t->Not_0->And_0, env);
        },
        RuleKind::DistributeNotOverOr => {
            reveal_with_fuel(Term::value, 2);
            lemma_negate_all(t->Not_0->Or_0, env);
        },
        RuleKind::DistributeOrOverAnd => {
            let xs = t->Or_0;
            assert(xs =~= seq![xs[0], xs[1]]);
            lemma_pair(xs[0], xs[1], env);
            if xs[0] is And {
                lemma_disjoin_each(xs[1], xs[0]->And_0, env);
            } else {
                lemma_disjoin_each(xs[0], xs[1]->And_0, env);
            }
        },
        RuleKind::LtToIneq | RuleKind::SumLeqToSumleq | RuleKind::FlattenSumGeq => {
            reveal_with_fuel(Term::value, 2);
        },
    }
}

/// A rewrite keeps the value of a tree that has one.
pub proof fn lemma_step_sound(t: Term, rules: Seq<RuleView>, env: Map<NameView, Value>)
    requires
        step(t, rules) is Some,
        t.value(env) is Some,
    ensures
        step(t, rules)->0.result.value(env) == t.value(env),
{
    lemma_step_rule(t, rules);
    let s = step(t, rules)->0;
    let node = t.at(s.path)->0;
    let kind = rules[s.rule].kind;
    if node.value(env) is Some {
        lemma_rule_sound(kind, node, env);
    }
    lemma_value_replaced(t, s.path, kind.rewrite(node)->0, env);
}

/// Rewriting is sound: a tree that has a value has the same value at its
/// fixed point.
pub proof fn lemma_rewriting_sound(
    t: Term,
    rules: Seq<RuleView>,
    budget: nat,
    env: Map<NameView, Value>,
)
    requires
        rewrite_bounded(t, rules, budget) is Ok,
        t.value(env) is Some,
    ensures
        rewrite_bounded(t, rules, budget)->Ok_0.value(env) == t.value(env),
    decreases budget,
{
    match step(t, rules) {
        None => {},
        Some(s) => {
            lemma_step_sound(t, rules, env);
            lemma_rewriting_sound(s.result, rules, (budget - 1) as nat, env);
        },
    }
}

/// Whether every constraint has a value under `env`.
pub open spec fn meaningful(cs: Seq<Term>, env: Map<NameView, Value>) -> bool {
    forall|i: int| 0 <= i < cs.len() ==> (#[trigger] cs[i]).value(env) is Some
}

/// Whether every constraint is true under `env`.
pub open spec fn satisfied(cs: Seq<Term>, env: Map<NameView, Value>) -> bool {
    forall|i: int| 0 <= i < cs.len() ==> (#[trigger] cs[i]).value(env) == Some(Value::Bool(true))
}

/// Rewriting a model keeps its solutions: under a valuation that gives
/// every constraint a value, the rewritten model is satisfied exactly when
/// the model is.
pub proof fn lemma_model_rewriting_sound(
    m: ModelView,
    rules: Seq<RuleView>,
    budget: nat,
    env: Map<NameView, Value>,
)
    requires
        m.rewritten(rules, budget) is Ok,
        meaningful(m.constraints, env),
    ensures
        satisfied(m.rewritten(rules, budget)->Ok_0.constraints, env) <==> satisfied(
            m.constraints,
            env,
        ),
{
    let cs = m.constraints;
    let out = rewrite_all(cs, rules, budget)->Ok_0;
    lemma_rewrite_all_each(cs, rules, budget);
    assert forall|i: int| 0 <= i < cs.len() implies out[i].value(env) == (#[trigger] cs[i]).value(
        env,
    ) by {
        assert(rewrite_bounded(cs[i], rules, budget) == Ok::<Term, Stuck>(out[i]));
        lemma_rewriting_sound(cs[i], rules, budget, env);
    }
    if satisfied(cs, env) {
        assert forall|i: int| 0 <= i < out.len() implies (#[trigger] out[i]).value(env) == Some(
            Value::Bool(true),
        ) by {
            assert(out[i].value(env) == cs[i].value(env));
        }
    }
    if satisfied(out, env) {
        assert forall|i: int| 0 <= i < cs.len() implies (#[trigger] cs[i]).value(env) == Some(
            Value::Bool(true),
        ) by {
            assert(out[i].value(env) == cs[i].value(env));
        }
    }
}

} // verus!
