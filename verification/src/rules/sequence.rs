//! Operand lists rewritten element by element: dropping constants and
//! splicing nested lists into their parent.

use vstd::prelude::*;
use crate::expression::{clone_all, lemma_terms_of, terms_of, Expression, Term};
use crate::uniplate::{lemma_total_size_concat, lemma_total_size_push, total_size};

verus! {

/// What happens to each operand of a list.
#[derive(Debug, Clone, Copy, PartialEq, Eq, Structural)]
pub enum Expansion {
    /// Integer constants are dropped.
    DropConstantInts,
    /// Boolean constants are dropped.
    DropConstantBools,
    /// The operands of a nested `Or` take its place.
    SpliceOr,
    /// The operands of a nested `And` take its place.
    SpliceAnd,
}

impl Expansion {
    /// Whether the operand `x` is replaced by something else.
    pub open spec fn touches(self, x: Term) -> bool {
        match self {
            Expansion::DropConstantInts => x is ConstantInt,
            Expansion::DropConstantBools => x is ConstantBool,
            Expansion::SpliceOr => x is Or,
            Expansion::SpliceAnd => x is And,
        }
    }

    /// What takes the place of the operand `x`.
    pub open spec fn piece(self, x: Term) -> Seq<Term> {
        match (self, x) {
            (Expansion::DropConstantInts, Term::ConstantInt(_)) => Seq::empty(),
            (Expansion::DropConstantBools, Term::ConstantBool(_)) => Seq::empty(),
            (Expansion::SpliceOr, Term::Or(ys)) => ys,
            (Expansion::SpliceAnd, Term::And(ys)) => ys,
            _ => seq![x],
        }
    }

    /// The pieces of all operands, concatenated in order.
    pub open spec fn expand(self, xs: Seq<Term>) -> Seq<Term>
        decreases xs.len(),
    {
        if xs.len() == 0 {
            Seq::empty()
        } else {
            self.expand(xs.drop_last()) + self.piece(xs.last())
        }
    }

    /// Number of operands that are replaced.
    pub open spec fn touched(self, xs: Seq<Term>) -> nat
        decreases xs.len(),
    {
        if xs.len() == 0 {
            0
        } else {
            self.touched(xs.drop_last()) + if self.touches(xs.last()) {
                1nat
            } else {
                0nat
            }
        }
    }

    /// An untouched operand stays as it is; a touched one loses one node.
    pub proof fn lemma_piece_size(self, x: Term)
        ensures
            total_size(self.piece(x)) + (if self.touches(x) {
                1nat
            } else {
                0nat
            }) == x.size(),
            !self.touches(x) ==> self.piece(x) == seq![x],
    {
        if !self.touches(x) {
            assert(self.piece(x) == seq![x]);
            assert(seq![x] =~= Seq::<Term>::empty().push(x));
            lemma_total_size_push(Seq::empty(), x);
        } else {
            assert(total_size(Seq::<Term>::empty()) == 0);
        }
    }

    /// Expanding removes exactly one node for each touched operand.
    pub proof fn lemma_expand_size(self, xs: Seq<Term>)
        ensures
            total_size(self.expand(xs)) + self.touched(xs) == total_size(xs),
            self.touched(xs) <= xs.len(),
        decreases xs.len(),
    {
        if xs.len() > 0 {
            self.lemma_expand_size(xs.drop_last());
            self.lemma_piece_size(xs.last());
            lemma_total_size_concat(self.expand(xs.drop_last()), self.piece(xs.last()));
        }
    }

    /// Some operand is touched exactly when the count is positive.
    pub proof fn lemma_touched_positive(self, xs: Seq<Term>)
        ensures
            self.touched(xs) > 0 <==> exists|i: int| 0 <= i < xs.len() && self.touches(xs[i]),
        decreases xs.len(),
    {
        if xs.len() > 0 {
            self.lemma_touched_positive(xs.drop_last());
            if self.touches(xs.last()) {
                assert(self.touches(xs[xs.len() - 1]));
            } else if self.touched(xs.drop_last()) > 0 {
                let i = choose|i: int| 0 <= i < xs.drop_last().len() && self.touches(xs.drop_last()[i]);
                assert(self.touches(xs[i]));
            } else {
                assert forall|i: int| 0 <= i < xs.len() implies !self.touches(xs[i]) by {
                    if i < xs.len() - 1 {
                        assert(xs.drop_last()[i] == xs[i]);
                    }
                }
            }
        }
    }

    /// Whether the operand `x` is replaced.
    pub fn is_touched(self, x: &Expression) -> (r: bool)
        ensures
            r == self.touches(x@),
    {
        match (self, x) {
            (Expansion::DropConstantInts, Expression::ConstantInt(_)) => true,
            (Expansion::DropConstantBools, Expression::ConstantBool(_)) => true,
            (Expansion::SpliceOr, Expression::Or(_)) => true,
            (Expansion::SpliceAnd, Expression::And(_)) => true,
            _ => false,
        }
    }

    /// Number of operands of `v` that are replaced.
    pub fn count_touched(self, v: &Vec<Expression>) -> (n: usize)
        ensures
            n == self.touched(terms_of(v@)),
    {
        let ghost xs = terms_of(v@);
        proof {
            lemma_terms_of(v@);
        }
        let mut n: usize = 0;
        let mut k: usize = 0;
        while k < v.len()
            invariant
                k <= v.len(),
                xs == terms_of(v@),
                xs.len() == v.len(),
                forall|i: int| 0 <= i < v.len() ==> #[trigger] xs[i] == v[i]@,
                n == self.touched(xs.subrange(0, k as int)),
                n <= k,
            decreases v.len() - k,
        {
            proof {
                assert(xs.subrange(0, k + 1).drop_last() =~= xs.subrange(0, k as int));
            }
            if self.is_touched(&v[k]) {
                n += 1;
            }
            k += 1;
        }
        assert(xs.subrange(0, k as int) =~= xs);
        n
    }

    /// The operands of `v` with each one replaced by its piece.
    pub fn expand_all(self, v: &Vec<Expression>) -> (out: Vec<Expression>)
        ensures
            terms_of(out@) == self.expand(terms_of(v@)),
    {
        let ghost xs = terms_of(v@);
        proof {
            lemma_terms_of(v@);
        }
        let mut out: Vec<Expression> = Vec::new();
        let mut k: usize = 0;
        assert(terms_of(out@) =~= Seq::empty());
        while k < v.len()
            invariant
                k <= v.len(),
                xs == terms_of(v@),
                xs.len() == v.len(),
                forall|i: int| 0 <= i < v.len() ==> #[trigger] xs[i] == v[i]@,
                terms_of(out@) == self.expand(xs.subrange(0, k as int)),
            decreases v.len() - k,
        {
            let ghost before = out@;
            proof {
                assert(xs.subrange(0, k + 1).drop_last() =~= xs.subrange(0, k as int));
                assert(xs.subrange(0, k + 1).last() == v[k as int]@);
            }
            match (self, &v[k]) {
                (Expansion::DropConstantInts, Expression::ConstantInt(_)) => {
                    assert(terms_of(out@) =~= terms_of(before) + self.piece(v[k as int]@));
                },
                (Expansion::DropConstantBools, Expression::ConstantBool(_)) => {
                    assert(terms_of(out@) =~= terms_of(before) + self.piece(v[k as int]@));
                },
                (Expansion::SpliceOr, Expression::Or(ys)) => {
                    let mut copies = clone_all(ys);
                    let ghost added = copies@;
                    out.append(&mut copies);
                    proof {
                        lemma_terms_of_concat(before, added);
                    }
                },
                (Expansion::SpliceAnd, Expression::And(ys)) => {
                    let mut copies = clone_all(ys);
                    let ghost added = copies@;
                    out.append(&mut copies);
                    proof {
                        lemma_terms_of_concat(before, added);
                    }
                },
                (_, x) => {
                    let c = x.clone();
                    out.push(c);
                    proof {
                        lemma_terms_of_concat(before, seq![c]);
                        assert(before.push(c) =~= before + seq![c]);
                        assert(terms_of(seq![c]) =~= seq![c@]);
                    }
                },
            }
            k += 1;
        }
        assert(xs.subrange(0, k as int) =~= xs);
        out
    }
}

/// The terms of a concatenation are the concatenated terms.
pub proof fn lemma_terms_of_concat(a: Seq<Expression>, b: Seq<Expression>)
    ensures
        terms_of(a + b) == terms_of(a) + terms_of(b),
{
    lemma_terms_of(a);
    lemma_terms_of(b);
    lemma_terms_of(a + b);
    assert(terms_of(a + b) =~= terms_of(a) + terms_of(b));
}

} // verus!
