//! Every rule of the catalogue lowers the rank of a tree, a number that is
//! large where negations and disjunctions stand above much: so rewriting
//! comes to an end under any selection of these rules.

use vstd::prelude::*;
use vstd::arithmetic::power2::{
    lemma_pow2_adds,
    lemma_pow2_pos,
    lemma_pow2_strictly_increases,
    pow2,
};
use crate::expression::Term;
use crate::model::ModelView;
use crate::rewriter::{lemma_step_rule, rewrite_all, rewrite_bounded, step};
use crate::rule::{RuleKind, RuleView};
use crate::rules::cnf::{disjoin_each, negate_all};
use crate::rules::sequence::Expansion;
use crate::uniplate::lemma_children_of_rebuilt;

verus! {

/// The ranks of the trees of `xs` added up.
pub open spec fn rank_sum(xs: Seq<Term>) -> nat
    decreases xs,
{
    if xs.len() == 0 {
        0
    } else {
        rank_sum(xs.drop_last()) + xs.last().rank()
    }
}

/// The ranks of the trees of `xs` multiplied.
pub open spec fn rank_product(xs: Seq<Term>) -> nat
    decreases xs,
{
    if xs.len() == 0 {
        1
    } else {
        rank_product(xs.drop_last()) * xs.last().rank()
    }
}

impl Term {
    /// What the root adds to the ranks of its children, where the rank is
    /// a sum.
    pub open spec fn own_rank(self) -> nat {
        match self {
            Term::ConstantInt(_) | Term::ConstantBool(_) | Term::Reference(_) => 2,
            Term::Sum(_) | Term::And(_) => 2,
            Term::Lt(_, _) => 4,
            _ => 1,
        }
    }

    /// The rank of the tree: two for a leaf; for `Or`, twice the product
    /// of the ranks of the operands; for `Not`, two to the power of the
    /// rank of the operand; for every other node, the sum of the ranks of
    /// the children and what the node adds of its own.
    pub open spec fn rank(self) -> nat
        decreases self,
    {
        match self {
            Term::ConstantInt(_) => 2,
            Term::ConstantBool(_) => 2,
            Term::Reference(_) => 2,
            Term::Sum(xs) => 2 + rank_sum(xs),
            Term::Not(a) => pow2(a.rank()),
            Term::Or(xs) => 2 * rank_product(xs),
            Term::And(xs) => 2 + rank_sum(xs),
            Term::Eq(a, b) => 1 + a.rank() + b.rank(),
            Term::Neq(a, b) => 1 + a.rank() + b.rank(),
            Term::Geq(a, b) => 1 + a.rank() + b.rank(),
            Term::Leq(a, b) => 1 + a.rank() + b.rank(),
            Term::Gt(a, b) => 1 + a.rank() + b.rank(),
            Term::Lt(a, b) => 4 + a.rank() + b.rank(),
            Term::SumGeq(xs, b) => 1 + rank_sum(xs) + b.rank(),
            Term::SumLeq(xs, b) => 1 + rank_sum(xs) + b.rank(),
            Term::Ineq(a, b, _) => 1 + a.rank() + b.rank(),
        }
    }
}

/// Two to a power is greater than the exponent.
pub proof fn lemma_pow2_above(e: nat)
    ensures
        pow2(e) > e,
    decreases e,
{
    lemma_pow2_pos(e);
    if e > 0 {
        lemma_pow2_above((e - 1) as nat);
        lemma_pow2_adds((e - 1) as nat, 1);
        assert(pow2(1) == 2) by {
            lemma_pow2_adds(0, 1);
            vstd::arithmetic::power2::lemma2_to64();
        }
        assert(pow2(e) == pow2((e - 1) as nat) * 2);
    }
}

/// No rank is below two, and no product of ranks below one.
pub proof fn lemma_rank_positive(t: Term)
    ensures
        t.rank() >= 2,
    decreases t,
{
    match t {
        Term::Not(a) => {
            lemma_rank_positive(*a);
            lemma_pow2_above(a.rank());
        },
        Term::Or(xs) => {
            lemma_rank_product_positive(xs);
        },
        Term::Eq(a, b) | Term::Neq(a, b) | Term::Geq(a, b) | Term::Leq(a, b) | Term::Gt(a, b) => {
            lemma_rank_positive(*a);
        },
        Term::SumGeq(_, b) | Term::SumLeq(_, b) => {
            lemma_rank_positive(*b);
        },
        Term::Ineq(a, _, _) => {
            lemma_rank_positive(*a);
        },
        _ => {},
    }
}

/// No product of ranks is below one, nor below any of its factors.
pub proof fn lemma_rank_product_positive(xs: Seq<Term>)
    ensures
        rank_product(xs) >= 1,
        forall|i: int| 0 <= i < xs.len() ==> rank_product(xs) >= (#[trigger] xs[i]).rank(),
    decreases xs,
{
    if xs.len() > 0 {
        let front = xs.drop_last();
        let last = xs.last();
        lemma_rank_product_positive(front);
        lemma_rank_positive(last);
        let p = rank_product(front);
        let r = last.rank();
        assert(p * r >= r && p * r >= p) by (nonlinear_arith)
            requires
                p >= 1,
                r >= 1,
        ;
        assert forall|i: int| 0 <= i < xs.len() implies rank_product(xs) >= (#[trigger] xs[i]).rank() by {
            if i < xs.len() - 1 {
                assert(front[i] == xs[i]);
            }
        }
    }
}

/// No rank sum is below any of its terms.
pub proof fn lemma_rank_sum_index(xs: Seq<Term>, i: int)
    requires
        0 <= i < xs.len(),
    ensures
        rank_sum(xs) >= xs[i].rank(),
    decreases xs.len(),
{
    if i < xs.len() - 1 {
        lemma_rank_sum_index(xs.drop_last(), i);
    }
}

/// One tree more adds its rank to the sum, and multiplies the product by
/// it.
pub proof fn lemma_rank_push(xs: Seq<Term>, t: Term)
    ensures
        rank_sum(xs.push(t)) == rank_sum(xs) + t.rank(),
        rank_product(xs.push(t)) == rank_product(xs) * t.rank(),
        rank_sum(Seq::empty()) == 0,
        rank_product(Seq::empty()) == 1,
{
    assert(xs.push(t).drop_last() =~= xs);
}

/// The rank sums of a concatenation add up, and its rank products
/// multiply.
pub proof fn lemma_rank_concat(a: Seq<Term>, b: Seq<Term>)
    ensures
        rank_sum(a + b) == rank_sum(a) + rank_sum(b),
        rank_product(a + b) == rank_product(a) * rank_product(b),
    decreases b.len(),
{
    if b.len() == 0 {
        assert(a + b =~= a);
        assert(rank_product(a) * 1 == rank_product(a)) by (nonlinear_arith);
    } else {
        lemma_rank_concat(a, b.drop_last());
        assert((a + b).drop_last() =~= a + b.drop_last());
        let x = rank_product(a);
        let y = rank_product(b.drop_last());
        let z = b.last().rank();
        assert((x * y) * z == x * (y * z)) by (nonlinear_arith);
    }
}

/// A tree of lower rank in the place of one lowers the sum and the
/// product.
pub proof fn lemma_rank_update(xs: Seq<Term>, i: int, t: Term)
    requires
        0 <= i < xs.len(),
        t.rank() < xs[i].rank(),
    ensures
        rank_sum(xs.update(i, t)) < rank_sum(xs),
        rank_product(xs.update(i, t)) < rank_product(xs),
    decreases xs.len(),
{
    let front = xs.drop_last();
    lemma_rank_product_positive(front);
    lemma_rank_positive(t);
    if i == xs.len() - 1 {
        assert(xs.update(i, t).drop_last() =~= front);
        let p = rank_product(front);
        let a = t.rank();
        let b = xs[i].rank();
        assert(p * a < p * b) by (nonlinear_arith)
            requires
                p >= 1,
                a < b,
        ;
    } else {
        lemma_rank_update(front, i, t);
        assert(xs.update(i, t).drop_last() =~= front.update(i, t));
        lemma_rank_positive(xs.last());
        let p = rank_product(front.update(i, t));
        let q = rank_product(front);
        let r = xs.last().rank();
        assert(p * r < q * r) by (nonlinear_arith)
            requires
                p < q,
                r >= 1,
        ;
    }
}

/// The rank of a node from the ranks of its children.
pub proof fn lemma_rank_children(t: Term)
    ensures
        t.rank() == match t {
            Term::Or(_) => 2 * rank_product(t.children()),
            Term::Not(_) => pow2(t.children()[0].rank()),
            _ => t.own_rank() + rank_sum(t.children()),
        },
{
    match t {
        Term::Eq(a, b) | Term::Neq(a, b) | Term::Geq(a, b) | Term::Leq(a, b) | Term::Gt(a, b)
        | Term::Lt(a, b) | Term::Ineq(a, b, _) => {
            lemma_rank_push(Seq::empty(), *a);
            lemma_rank_push(seq![*a], *b);
            assert(seq![*a] =~= Seq::<Term>::empty().push(*a));
            assert(seq![*a, *b] =~= seq![*a].push(*b));
        },
        Term::SumGeq(xs, b) | Term::SumLeq(xs, b) => {
            lemma_rank_push(xs, *b);
        },
        _ => {},
    }
}

/// Where constants are dropped or nested `And`s are spliced in, the rank
/// sum falls by two for each touched operand.
pub proof fn lemma_expand_rank_sum(how: Expansion, xs: Seq<Term>)
    requires
        how != Expansion::SpliceOr,
    ensures
        rank_sum(how.expand(xs)) + 2 * how.touched(xs) == rank_sum(xs),
    decreases xs.len(),
{
    if xs.len() > 0 {
        lemma_expand_rank_sum(how, xs.drop_last());
        lemma_rank_concat(how.expand(xs.drop_last()), how.piece(xs.last()));
        lemma_rank_push(Seq::empty(), xs.last());
        assert(seq![xs.last()] =~= Seq::<Term>::empty().push(xs.last()));
    }
}

/// Where boolean constants are dropped or nested `Or`s are spliced in,
/// the rank product is halved for each touched operand.
pub proof fn lemma_expand_rank_product(how: Expansion, xs: Seq<Term>)
    requires
        how == Expansion::SpliceOr || how == Expansion::DropConstantBools,
    ensures
        rank_product(how.expand(xs)) * pow2(how.touched(xs)) == rank_product(xs),
    decreases xs.len(),
{
    vstd::arithmetic::power2::lemma2_to64();
    if xs.len() == 0 {
        assert(1 * 1 == 1) by (nonlinear_arith);
    } else {
        let front = xs.drop_last();
        let last = xs.last();
        lemma_expand_rank_product(how, front);
        lemma_rank_concat(how.expand(front), how.piece(last));
        lemma_rank_push(Seq::empty(), last);
        assert(seq![last] =~= Seq::<Term>::empty().push(last));
        let e = rank_product(how.expand(front));
        let k = how.touched(front);
        let p = rank_product(how.piece(last));
        let q = pow2(k);
        assert(rank_product(how.expand(xs)) == e * p);
        assert(rank_product(front) == e * q);
        assert(rank_product(xs) == (e * q) * last.rank());
        if how.touches(last) {
            lemma_pow2_adds(k, 1);
            assert(pow2(how.touched(xs)) == q * 2);
            assert(last.rank() == 2 * p);
            assert((e * p) * (q * 2) == (e * q) * (2 * p)) by (nonlinear_arith);
        } else {
            assert(pow2(how.touched(xs)) == q);
            assert(p == last.rank()) by {
                assert(1 * last.rank() == last.rank()) by (nonlinear_arith);
            }
            assert((e * p) * q == (e * q) * p) by (nonlinear_arith);
        }
    }
}

/// The negations of operands have the rank product two to the power of
/// the rank sum of the operands, and a rank sum that is less by more than
/// two than two to the power of twice their rank product.
pub proof fn lemma_negate_all_rank(xs: Seq<Term>)
    ensures
        rank_product(negate_all(xs)) == pow2(rank_sum(xs)),
        rank_sum(negate_all(xs)) + 2 < pow2(2 * rank_product(xs)),
    decreases xs.len(),
{
    vstd::arithmetic::power2::lemma2_to64();
    if xs.len() == 0 {
        assert(negate_all(xs) =~= Seq::<Term>::empty());
        assert(2 * rank_product(xs) == 2);
    } else {
        let front = xs.drop_last();
        let last = xs.last();
        let negated = Term::Not(Box::new(last));
        lemma_negate_all_rank(front);
        assert(negate_all(xs) =~= negate_all(front).push(negated));
        lemma_rank_push(negate_all(front), negated);
        lemma_pow2_adds(rank_sum(front), last.rank());
        // The sum.
        let p = rank_product(front);
        let x = last.rank();
        lemma_rank_product_positive(front);
        lemma_rank_positive(last);
        assert(2 * p + x <= 2 * (p * x)) by (nonlinear_arith)
            requires
                p >= 1,
                x >= 2,
        ;
        lemma_pow2_adds(2 * p, x);
        if 2 * p + x < 2 * (p * x) {
            lemma_pow2_strictly_increases(2 * p + x, 2 * (p * x));
        }
        let a = pow2(2 * p);
        let b = pow2(x);
        lemma_pow2_above(2 * p);
        lemma_pow2_above(x);
        assert(a + b <= a * b) by (nonlinear_arith)
            requires
                a >= 2,
                b >= 2,
        ;
    }
}

/// The disjunctions of `other` with each operand have, as their rank sum,
/// twice the rank of `other` times the rank sum of the operands.
pub proof fn lemma_disjoin_each_rank(other: Term, ys: Seq<Term>)
    ensures
        rank_sum(disjoin_each(other, ys)) == 2 * (other.rank() * rank_sum(ys)),
    decreases ys.len(),
{
    if ys.len() == 0 {
        assert(disjoin_each(other, ys) =~= Seq::<Term>::empty());
        assert(2 * (other.rank() * 0) == 0) by (nonlinear_arith);
    } else {
        let front = ys.drop_last();
        let last = ys.last();
        let either = Term::Or(seq![other, last]);
        lemma_disjoin_each_rank(other, front);
        assert(disjoin_each(other, ys) =~= disjoin_each(other, front).push(either));
        lemma_rank_push(disjoin_each(other, front), either);
        lemma_rank_push(Seq::empty(), other);
        lemma_rank_push(seq![other], last);
        assert(seq![other] =~= Seq::<Term>::empty().push(other));
        assert(seq![other, last] =~= seq![other].push(last));
        let o = other.rank();
        let s = rank_sum(front);
        let y = last.rank();
        assert(either.rank() == 2 * ((1 * o) * y));
        assert(2 * (o * s) + 2 * ((1 * o) * y) == 2 * (o * (s + y))) by (nonlinear_arith);
    }
}

/// Every rule of the catalogue lowers the rank of the node that it
/// rewrites.
pub proof fn lemma_rule_lowers_rank(kind: RuleKind, t: Term)
    requires
        kind.rewrite(t) is Some,
    ensures
        kind.rewrite(t)->0.rank() < t.rank(),
{
    let r = kind.rewrite(t)->0;
    vstd::arithmetic::power2::lemma2_to64();
    match kind {
        RuleKind::SumConstants => {
            let xs = t->Sum_0;
            lemma_expand_rank_sum(Expansion::DropConstantInts, xs);
            lemma_rank_push(Expansion::DropConstantInts.expand(xs), r->Sum_0.last());
        },
        RuleKind::UnwrapSum => {
            let xs = t->Sum_0;
            lemma_rank_push(Seq::empty(), xs[0]);
            assert(xs =~= Seq::<Term>::empty().push(xs[0]));
        },
        RuleKind::RemoveTrivialAnd => {
            let xs = t->And_0;
            lemma_rank_push(Seq::empty(), xs[0]);
            assert(xs =~= Seq::<Term>::empty().push(xs[0]));
        },
        RuleKind::RemoveTrivialOr => {
            let xs = t->Or_0;
            lemma_rank_push(Seq::empty(), xs[0]);
            assert(xs =~= Seq::<Term>::empty().push(xs[0]));
            lemma_rank_positive(xs[0]);
            assert(2 * (1 * xs[0].rank()) > xs[0].rank()) by (nonlinear_arith)
                requires
                    xs[0].rank() >= 2,
            ;
        },
        RuleKind::RemoveDoubleNegation => {
            let inner = t->Not_0;
            assert(inner.rank() == pow2(r.rank()));
            lemma_pow2_above(r.rank());
            lemma_pow2_above(inner.rank());
        },
        RuleKind::UnwrapNestedOr => {
            let xs = t->Or_0;
            lemma_expand_rank_product(Expansion::SpliceOr, xs);
            lemma_rank_product_positive(Expansion::SpliceOr.expand(xs));
            lemma_halved(rank_product(Expansion::SpliceOr.expand(xs)), Expansion::SpliceOr.touched(xs));
        },
        RuleKind::UnwrapNestedAnd => {
            lemma_expand_rank_sum(Expansion::SpliceAnd, t->And_0);
        },
        RuleKind::RemoveConstantsFromOr => {
            let xs = t->Or_0;
            let how = Expansion::DropConstantBools;
            lemma_rank_product_positive(xs);
            if r is Or {
                lemma_expand_rank_product(how, xs);
                lemma_rank_product_positive(how.expand(xs));
                lemma_halved(rank_product(how.expand(xs)), how.touched(xs));
            } else {
                let i = choose|i: int| 0 <= i < xs.len() && xs[i] == Term::ConstantBool(true);
                assert(rank_product(xs) >= xs[i].rank());
            }
        },
        RuleKind::RemoveConstantsFromAnd => {
            let xs = t->And_0;
            lemma_expand_rank_sum(Expansion::DropConstantBools, xs);
            if !(r is And) {
                let i = choose|i: int| 0 <= i < xs.len() && xs[i] == Term::ConstantBool(false);
                lemma_rank_sum_index(xs, i);
            }
        },
        RuleKind::DistributeNotOverAnd => {
            let xs = t->Not_0->And_0;
            reveal_with_fuel(Term::rank, 2);
            lemma_negate_all_rank(xs);
            assert(t.rank() == pow2(2 + rank_sum(xs)));
            lemma_pow2_adds(1, rank_sum(xs));
            lemma_pow2_strictly_increases(1 + rank_sum(xs), 2 + rank_sum(xs));
        },
        RuleKind::DistributeNotOverOr => {
            let xs = t->Not_0->Or_0;
            reveal_with_fuel(Term::rank, 2);
            lemma_negate_all_rank(xs);
            assert(t.rank() == pow2(2 * rank_product(xs)));
        },
        RuleKind::DistributeOrOverAnd => {
            let xs = t->Or_0;
            assert(xs =~= seq![xs[0], xs[1]]);
            lemma_rank_push(Seq::empty(), xs[0]);
            lemma_rank_push(seq![xs[0]], xs[1]);
            assert(seq![xs[0]] =~= Seq::<Term>::empty().push(xs[0]));
            assert(seq![xs[0], xs[1]] =~= seq![xs[0]].push(xs[1]));
            let (ys, other) = if xs[0] is And {
                (xs[0]->And_0, xs[1])
            } else {
                (xs[1]->And_0, xs[0])
            };
            lemma_disjoin_each_rank(other, ys);
            lemma_rank_positive(other);
            let o = other.rank();
            let s = rank_sum(ys);
            assert(2 + 2 * (o * s) < 2 * ((1 * (2 + s)) * o) && 2 + 2 * (o * s) < 2 * ((1 * o) * (2
                + s))) by (nonlinear_arith)
                requires
                    o >= 2,
            ;
        },
        RuleKind::LtToIneq => {},
        RuleKind::SumLeqToSumleq => {
            assert(t->Leq_0.rank() == 2 + rank_sum(r->SumLeq_0));
        },
        RuleKind::FlattenSumGeq => {
            assert(t->Geq_0.rank() == 2 + rank_sum(r->SumGeq_0));
        },
    }
}

/// A number at least one, times two to a power at least one, is more than
/// the number.
proof fn lemma_halved(e: nat, k: nat)
    requires
        e >= 1,
        k >= 1,
    ensures
        e < e * pow2(k),
{
    vstd::arithmetic::power2::lemma2_to64();
    lemma_pow2_above(k);
    let p = pow2(k);
    assert(e < e * p) by (nonlinear_arith)
        requires
            e >= 1,
            p >= 2,
    ;
}

/// A tree of lower rank in the place of a node lowers the rank of the
/// whole tree.
pub proof fn lemma_replace_lowers_rank(t: Term, path: Seq<int>, new: Term)
    requires
        t.at(path) is Some,
        new.rank() < t.at(path)->0.rank(),
    ensures
        t.replace_at(path, new).rank() < t.rank(),
    decreases path.len(),
{
    if path.len() > 0 {
        let cs = t.children();
        let i = path[0];
        let child = cs[i].replace_at(path.drop_first(), new);
        lemma_replace_lowers_rank(cs[i], path.drop_first(), new);
        let after = t.rebuild(cs.update(i, child));
        lemma_children_of_rebuilt(t, cs.update(i, child));
        lemma_rank_children(t);
        lemma_rank_children(after);
        lemma_rank_update(cs, i, child);
        if t is Not {
            lemma_pow2_strictly_increases(child.rank(), cs[0].rank());
        }
    }
}

/// Rewriting with rules of the catalogue comes to an end: as many
/// rewrites as the rank of the tree are enough, whatever the rules.
pub proof fn lemma_rewriting_terminates(t: Term, rules: Seq<RuleView>, budget: nat)
    requires
        budget >= t.rank(),
    ensures
        rewrite_bounded(t, rules, budget) is Ok,
    decreases budget,
{
    match step(t, rules) {
        None => {},
        Some(s) => {
            lemma_step_rule(t, rules);
            let node = t.at(s.path)->0;
            lemma_rule_lowers_rank(rules[s.rule].kind, node);
            lemma_replace_lowers_rank(t, s.path, rules[s.rule].kind.rewrite(node)->0);
            lemma_rewriting_terminates(s.result, rules, (budget - 1) as nat);
        },
    }
}

/// Rewriting a model comes to an end where as many rewrites are allowed
/// for each constraint as its rank.
pub proof fn lemma_model_rewriting_terminates(m: ModelView, rules: Seq<RuleView>, budget: nat)
    requires
        forall|i: int| 0 <= i < m.constraints.len() ==> budget >= (#[trigger] m.constraints[i]).rank(),
    ensures
        m.rewritten(rules, budget) is Ok,
{
    lemma_all_terminate(m.constraints, rules, budget);
}

/// Rewriting constraints one after the other comes to an end where as
/// many rewrites are allowed for each as its rank.
pub proof fn lemma_all_terminate(cs: Seq<Term>, rules: Seq<RuleView>, budget: nat)
    requires
        forall|i: int| 0 <= i < cs.len() ==> budget >= (#[trigger] cs[i]).rank(),
    ensures
        rewrite_all(cs, rules, budget) is Ok,
    decreases cs.len(),
{
    if cs.len() > 0 {
        assert forall|i: int| 0 <= i < cs.drop_last().len() implies budget >= (
        #[trigger] cs.drop_last()[i]).rank() by {
            assert(cs.drop_last()[i] == cs[i]);
        }
        lemma_all_terminate(cs.drop_last(), rules, budget);
        assert(budget >= cs[cs.len() - 1].rank());
        lemma_rewriting_terminates(cs.last(), rules, budget);
    }
}

} // verus!
