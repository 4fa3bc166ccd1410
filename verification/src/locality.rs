//! The rules of the catalogue are local: whether a rule matches at a node
//! depends on the node and on its children, and on nothing below them.

use vstd::prelude::*;
use crate::expression::Term;
use crate::rule::RuleKind;
use crate::rules::base::constant_total;
use crate::rules::sequence::Expansion;

verus! {

impl Term {
    /// Whether `other` is this node around other children: the same
    /// variant with the same constant or name, and as many children.
    pub open spec fn alike(self, other: Term) -> bool {
        &&& other.children().len() == self.children().len()
        &&& self.rebuild(other.children()) == other
    }

    /// Whether `other` agrees with this tree in the root and in the
    /// children, whatever stands below them.
    pub open spec fn alike_on_top(self, other: Term) -> bool {
        &&& self.alike(other)
        &&& forall|i: int|
            0 <= i < self.children().len() ==> (#[trigger] self.children()[i]).alike(
                other.children()[i],
            )
    }
}

/// Operand lists that are alike one by one.
pub open spec fn alike_each(xs: Seq<Term>, ys: Seq<Term>) -> bool {
    &&& xs.len() == ys.len()
    &&& forall|i: int| 0 <= i < xs.len() ==> (#[trigger] xs[i]).alike(ys[i])
}

/// Lists that are alike one by one have the same touched operands, the
/// same constants, and the same sum of constants.
pub proof fn lemma_alike_lists(xs: Seq<Term>, ys: Seq<Term>, how: Expansion, b: bool)
    requires
        alike_each(xs, ys),
    ensures
        how.touched(xs) == how.touched(ys),
        constant_total(xs) == constant_total(ys),
        xs.contains(Term::ConstantBool(b)) == ys.contains(Term::ConstantBool(b)),
    decreases xs.len(),
{
    if xs.len() > 0 {
        assert(alike_each(xs.drop_last(), ys.drop_last())) by {
            assert forall|i: int| 0 <= i < xs.len() - 1 implies (
            #[trigger] xs.drop_last()[i]).alike(ys.drop_last()[i]) by {
                assert(xs[i].alike(ys[i]));
            }
        }
        lemma_alike_lists(xs.drop_last(), ys.drop_last(), how, b);
        assert(xs[xs.len() - 1].alike(ys[xs.len() - 1]));
    }
    if xs.contains(Term::ConstantBool(b)) {
        let i = choose|i: int| 0 <= i < xs.len() && xs[i] == Term::ConstantBool(b);
        assert(xs[i].alike(ys[i]));
        assert(ys[i] == Term::ConstantBool(b));
    }
    if ys.contains(Term::ConstantBool(b)) {
        let i = choose|i: int| 0 <= i < ys.len() && ys[i] == Term::ConstantBool(b);
        assert(xs[i].alike(ys[i]));
        assert(xs[i] == Term::ConstantBool(b));
    }
}

/// Every rule of the catalogue is local: it matches at a node exactly when
/// it matches at any node that agrees with it in the root and in the
/// children.
pub proof fn lemma_rule_local(kind: RuleKind, t: Term, other: Term)
    requires
        t.alike_on_top(other),
    ensures
        kind.rewrite(t) is Some <==> kind.rewrite(other) is Some,
{
    let xs = t.children();
    let ys = other.children();
    match t {
        Term::Sum(_) | Term::Or(_) | Term::And(_) => {
            lemma_alike_lists(xs, ys, Expansion::DropConstantInts, true);
            lemma_alike_lists(xs, ys, Expansion::DropConstantBools, true);
            lemma_alike_lists(xs, ys, Expansion::DropConstantBools, false);
            lemma_alike_lists(xs, ys, Expansion::SpliceOr, true);
            lemma_alike_lists(xs, ys, Expansion::SpliceAnd, true);
            if xs.len() == 2 {
                assert(xs[0].alike(ys[0]));
                assert(xs[1].alike(ys[1]));
            }
        },
        Term::Not(_) | Term::Leq(_, _) | Term::Geq(_, _) => {
            assert(xs[0].alike(ys[0]));
        },
        _ => {},
    }
}

} // verus!
