//! Nodes of a tree in pre-order: addressing a node by the path of child
//! indices that leads to it, finding the first node with a property, and
//! replacing a node in place.

use vstd::prelude::*;
use crate::expression::{lemma_terms_of, terms_of, Expression, Term};
use crate::uniplate::{
    lemma_child_smaller,
    lemma_size_children,
    lemma_total_size_index,
    terms_of_refs,
    total_size,
};

verus! {

impl Term {
    /// The node that the path of child indices `path` leads to, if any.
    pub open spec fn at(self, path: Seq<int>) -> Option<Term>
        decreases path.len(),
    {
        if path.len() == 0 {
            Some(self)
        } else if 0 <= path[0] < self.children().len() {
            self.children()[path[0]].at(path.drop_first())
        } else {
            None
        }
    }

    /// The tree with the node at `path` replaced by `new`; the tree itself
    /// where `path` leads nowhere.
    pub open spec fn replace_at(self, path: Seq<int>, new: Term) -> Term
        decreases path.len(),
    {
        if path.len() == 0 {
            new
        } else if 0 <= path[0] < self.children().len() {
            let child = self.children()[path[0]].replace_at(path.drop_first(), new);
            self.rebuild(self.children().update(path[0], child))
        } else {
            self
        }
    }

    /// All nodes of the tree in pre-order: the node, then the nodes of each
    /// child from left to right.
    pub open spec fn universe(self) -> Seq<Term>
        decreases self.size(), 0nat,
    {
        proof {
            lemma_size_children(self);
        }
        seq![self] + universe_of_all(self.children(), self.children().len() as int)
    }

    /// The path to the first node in pre-order that satisfies `pred`.
    pub open spec fn first_match(self, pred: spec_fn(Term) -> bool) -> Option<Seq<int>>
        decreases self.size(), 0nat,
    {
        if pred(self) {
            Some(Seq::empty())
        } else {
            proof {
                lemma_size_children(self);
            }
            first_match_from(self.children(), pred, 0)
        }
    }
}

/// The nodes of the first `n` trees of `ts`, tree after tree, each in
/// pre-order.
pub open spec fn universe_of_all(ts: Seq<Term>, n: int) -> Seq<Term>
    decreases total_size(ts), n + 1,
{
    if 0 < n <= ts.len() {
        proof {
            lemma_total_size_index(ts, n - 1);
        }
        universe_of_all(ts, n - 1) + ts[n - 1].universe()
    } else {
        Seq::empty()
    }
}

/// The path, starting with the index of the tree, to the first node that
/// satisfies `pred` in the trees of `ts` from index `from` on.
pub open spec fn first_match_from(ts: Seq<Term>, pred: spec_fn(Term) -> bool, from: int) -> Option<
    Seq<int>,
>
    decreases total_size(ts), ts.len() - from + 1,
{
    if 0 <= from < ts.len() {
        proof {
            lemma_total_size_index(ts, from);
        }
        match ts[from].first_match(pred) {
            Some(p) => Some(seq![from] + p),
            None => first_match_from(ts, pred, from + 1),
        }
    } else {
        None
    }
}

/// The first tree of `ts` from index `from` on that holds a node which
/// satisfies `pred`: its index, and the path to the first such node in it.
pub open spec fn first_in(ts: Seq<Term>, pred: spec_fn(Term) -> bool, from: int) -> Option<
    (int, Seq<int>),
>
    decreases ts.len() - from,
{
    if 0 <= from < ts.len() {
        match ts[from].first_match(pred) {
            Some(p) => Some((from, p)),
            None => first_in(ts, pred, from + 1),
        }
    } else {
        None
    }
}

/// Nothing is found from `from` on exactly when no tree from there on
/// holds a node that satisfies `pred`; what is found is the first tree
/// with such a node.
pub proof fn lemma_first_in(ts: Seq<Term>, pred: spec_fn(Term) -> bool, from: int)
    requires
        0 <= from,
    ensures
        match first_in(ts, pred, from) {
            None => forall|i: int|
                from <= i < ts.len() ==> (#[trigger] ts[i]).first_match(pred) is None,
            Some((k, p)) => {
                &&& from <= k < ts.len()
                &&& ts[k].first_match(pred) == Some(p)
                &&& forall|i: int| from <= i < k ==> (#[trigger] ts[i]).first_match(pred) is None
            },
        },
    decreases ts.len() - from,
{
    if from < ts.len() {
        lemma_first_in(ts, pred, from + 1);
    }
}

/// A property of nodes that can be decided on an expression.
pub trait NodeTest {
    /// Whether the node `t` has the property.
    spec fn holds(&self, t: Term) -> bool;

    /// Decides the property for the root node of `e`.
    fn test(&self, e: &Expression) -> (r: bool)
        ensures
            r == self.holds(e@),
    ;
}

/// The property that `test` decides.
pub open spec fn property<T: NodeTest>(test: &T) -> spec_fn(Term) -> bool {
    |t: Term| test.holds(t)
}

/// A sequence of indices, such as a path of child indices, as
/// mathematical integers.
pub open spec fn indices(p: Seq<usize>) -> Seq<int> {
    Seq::new(p.len(), |i: int| p[i] as int)
}

/// No element of `s` satisfies `pred`.
pub open spec fn none_satisfy(s: Seq<Term>, pred: spec_fn(Term) -> bool) -> bool {
    forall|i: int| 0 <= i < s.len() ==> !pred(#[trigger] s[i])
}

/// The nodes of the first `n` trees hold nothing that satisfies `pred`
/// exactly when none of these trees does.
pub proof fn lemma_universe_of_all_none(ts: Seq<Term>, n: int, pred: spec_fn(Term) -> bool)
    requires
        0 <= n <= ts.len(),
    ensures
        none_satisfy(universe_of_all(ts, n), pred) <==> forall|k: int|
            0 <= k < n ==> none_satisfy(#[trigger] ts[k].universe(), pred),
    decreases n,
{
    if n > 0 {
        lemma_universe_of_all_none(ts, n - 1, pred);
        let front = universe_of_all(ts, n - 1);
        let back = ts[n - 1].universe();
        let all = universe_of_all(ts, n);
        assert(all == front + back);
        if none_satisfy(all, pred) {
            assert forall|i: int| 0 <= i < front.len() implies !pred(#[trigger] front[i]) by {
                assert(front[i] == all[i]);
            }
            assert forall|i: int| 0 <= i < back.len() implies !pred(#[trigger] back[i]) by {
                assert(back[i] == all[front.len() + i]);
            }
        }
        if forall|k: int| 0 <= k < n ==> none_satisfy(#[trigger] ts[k].universe(), pred) {
            assert(none_satisfy(ts[n - 1].universe(), pred));
            assert forall|i: int| 0 <= i < all.len() implies !pred(#[trigger] all[i]) by {
                if i < front.len() {
                    assert(all[i] == front[i]);
                } else {
                    assert(all[i] == back[i - front.len()]);
                }
            }
        }
    }
}

/// The search finds nothing exactly when no node of the tree satisfies
/// `pred`.
pub proof fn lemma_first_match_none(t: Term, pred: spec_fn(Term) -> bool)
    ensures
        t.first_match(pred) is None <==> none_satisfy(t.universe(), pred),
    decreases t.size(), 0nat,
{
    lemma_size_children(t);
    let cs = t.children();
    let below = universe_of_all(cs, cs.len() as int);
    let all = t.universe();
    assert(all == seq![t] + below);
    assert(all[0] == t);
    lemma_first_match_from_none(cs, pred, 0);
    lemma_universe_of_all_none(cs, cs.len() as int, pred);
    if none_satisfy(all, pred) {
        assert(!pred(all[0]));
        assert forall|i: int| 0 <= i < below.len() implies !pred(#[trigger] below[i]) by {
            assert(below[i] == all[i + 1]);
        }
    }
    if t.first_match(pred) is None {
        assert forall|i: int| 0 <= i < all.len() implies !pred(#[trigger] all[i]) by {
            if i > 0 {
                assert(all[i] == below[i - 1]);
            }
        }
    }
}

/// The search from index `from` on finds nothing exactly when none of the
/// trees from there on holds a node that satisfies `pred`.
pub proof fn lemma_first_match_from_none(ts: Seq<Term>, pred: spec_fn(Term) -> bool, from: int)
    requires
        0 <= from <= ts.len(),
    ensures
        first_match_from(ts, pred, from) is None <==> forall|k: int|
            from <= k < ts.len() ==> none_satisfy(#[trigger] ts[k].universe(), pred),
    decreases total_size(ts), ts.len() - from + 1,
{
    if from < ts.len() {
        lemma_total_size_index(ts, from);
        lemma_first_match_none(ts[from], pred);
        lemma_first_match_from_none(ts, pred, from + 1);
        if first_match_from(ts, pred, from) is None {
            assert forall|k: int| from <= k < ts.len() implies none_satisfy(
                #[trigger] ts[k].universe(),
                pred,
            ) by {
                if k > from {
                }
            }
        }
    }
}

/// What the search finds is a node of the tree that satisfies `pred`.
pub proof fn lemma_first_match_some(t: Term, pred: spec_fn(Term) -> bool)
    requires
        t.first_match(pred) is Some,
    ensures
        t.at(t.first_match(pred)->0) is Some,
        pred(t.at(t.first_match(pred)->0)->0),
    decreases t.size(), 0nat,
{
    if !pred(t) {
        lemma_size_children(t);
        lemma_first_match_from_some(t.children(), pred, 0);
        let p = t.first_match(pred)->0;
        assert(p.drop_first() =~= t.children()[p[0]].first_match(pred)->0);
    }
}

/// What the search from index `from` on finds starts with the index of a
/// tree and goes on with what the search finds in that tree.
pub proof fn lemma_first_match_from_some(ts: Seq<Term>, pred: spec_fn(Term) -> bool, from: int)
    requires
        0 <= from <= ts.len(),
        first_match_from(ts, pred, from) is Some,
    ensures
        ({
            let p = first_match_from(ts, pred, from)->0;
            &&& p.len() > 0
            &&& from <= p[0] < ts.len()
            &&& ts[p[0]].first_match(pred) == Some(p.drop_first())
            &&& ts[p[0]].at(p.drop_first()) is Some
            &&& pred(ts[p[0]].at(p.drop_first())->0)
        }),
    decreases total_size(ts), ts.len() - from + 1,
{
    lemma_total_size_index(ts, from);
    match ts[from].first_match(pred) {
        Some(q) => {
            lemma_first_match_some(ts[from], pred);
            assert((seq![from] + q).drop_first() =~= q);
        },
        None => {
            lemma_first_match_from_some(ts, pred, from + 1);
        },
    }
}

impl Term {
    /// The place in pre-order of the node that `path` leads to.
    pub open spec fn preorder_index(self, path: Seq<int>) -> int
        decreases path.len(),
    {
        if path.len() == 0 {
            0
        } else {
            1 + universe_of_all(self.children(), path[0]).len() + self.children()[path[0]].preorder_index(
                path.drop_first(),
            )
        }
    }
}

/// The nodes of the first `n` trees come first among the nodes of the
/// first `m`, and the nodes of the tree at index `n` follow them.
pub proof fn lemma_universe_of_all_prefix(ts: Seq<Term>, n: int, m: int)
    requires
        0 <= n < m <= ts.len(),
    ensures
        universe_of_all(ts, n).len() + ts[n].universe().len() <= universe_of_all(ts, m).len(),
        forall|i: int|
            0 <= i < universe_of_all(ts, n).len() ==> universe_of_all(ts, m)[i] == universe_of_all(
                ts,
                n,
            )[i],
        forall|i: int|
            0 <= i < ts[n].universe().len() ==> universe_of_all(ts, m)[universe_of_all(ts, n).len()
                + i] == ts[n].universe()[i],
    decreases m - n,
{
    if n + 1 < m {
        lemma_universe_of_all_prefix(ts, n, m - 1);
    }
}

/// What the search finds is the first node in pre-order that satisfies
/// `pred`: the node at the path stands at `preorder_index` among all nodes
/// of the tree, and no node before it satisfies `pred`.
pub proof fn lemma_first_match_is_first(t: Term, pred: spec_fn(Term) -> bool)
    requires
        t.first_match(pred) is Some,
    ensures
        ({
            let path = t.first_match(pred)->0;
            let k = t.preorder_index(path);
            &&& 0 <= k < t.universe().len()
            &&& t.at(path) == Some(t.universe()[k])
            &&& pred(t.universe()[k])
            &&& forall|j: int| 0 <= j < k ==> !pred(#[trigger] t.universe()[j])
        }),
    decreases t.size(),
{
    let path = t.first_match(pred)->0;
    let all = t.universe();
    assert(all[0] == t);
    if !pred(t) {
        let cs = t.children();
        let below = universe_of_all(cs, cs.len() as int);
        assert(all == seq![t] + below);
        lemma_first_match_from_some(cs, pred, 0);
        lemma_first_match_from_none(cs, pred, 0);
        let n = path[0];
        let rest = path.drop_first();
        lemma_child_smaller(t, n);
        lemma_first_match_is_first(cs[n], pred);
        lemma_universe_of_all_prefix(cs, n, cs.len() as int);
        let before = universe_of_all(cs, n);
        let inner = cs[n].preorder_index(rest);
        let k = t.preorder_index(path);
        assert(k == 1 + before.len() + inner);
        assert(all[k] == below[before.len() + inner]);
        // No tree before the one that holds the node holds a match.
        assert forall|i: int| 0 <= i < n implies none_satisfy(#[trigger] cs[i].universe(), pred) by {
            lemma_first_match_from_skips(cs, pred, 0, n, i);
            lemma_first_match_none(cs[i], pred);
        }
        lemma_universe_of_all_none(cs, n, pred);
        assert forall|j: int| 0 <= j < k implies !pred(#[trigger] all[j]) by {
            if j == 0 {
            } else if j - 1 < before.len() {
                assert(all[j] == below[j - 1]);
                assert(below[j - 1] == before[j - 1]);
            } else {
                let i = j - 1 - before.len();
                assert(all[j] == below[before.len() + i]);
                assert(below[before.len() + i] == cs[n].universe()[i]);
            }
        }
    }
}

/// Where the search from index `from` on finds a node in the tree at
/// index `n`, the trees between hold no match.
pub proof fn lemma_first_match_from_skips(
    ts: Seq<Term>,
    pred: spec_fn(Term) -> bool,
    from: int,
    n: int,
    i: int,
)
    requires
        0 <= from <= i < n,
        first_match_from(ts, pred, from) is Some,
        first_match_from(ts, pred, from)->0[0] == n,
        first_match_from(ts, pred, from)->0.len() > 0,
    ensures
        ts[i].first_match(pred) is None,
    decreases ts.len() - from,
{
    if 0 <= from < ts.len() {
        match ts[from].first_match(pred) {
            Some(q) => {
                assert((seq![from] + q)[0] == from);
            },
            None => {
                if from < i {
                    lemma_first_match_from_skips(ts, pred, from + 1, n, i);
                }
            },
        }
    }
}

/// An index put in front of a sequence of indices.
pub proof fn lemma_indices_insert(p: Seq<usize>, k: usize)
    ensures
        indices(p.insert(0, k)) == seq![k as int] + indices(p),
{
    assert(indices(p.insert(0, k)) =~= seq![k as int] + indices(p));
}

/// The first expression of `v` that holds a node for which `test` holds:
/// its index, and the path to the first such node in it.
pub fn find_first_in<T: NodeTest>(v: &Vec<Expression>, test: &T) -> (r: Option<(usize, Vec<usize>)>)
    ensures
        match r {
            Some((k, p)) => first_in(terms_of(v@), property(test), 0) == Some((k as int, indices(p@))),
            None => first_in(terms_of(v@), property(test), 0) is None,
        },
{
    let ghost ts = terms_of(v@);
    let ghost pred = property(test);
    proof {
        lemma_terms_of(v@);
    }
    let mut k: usize = 0;
    while k < v.len()
        invariant
            k <= v.len(),
            ts == terms_of(v@),
            ts.len() == v.len(),
            forall|i: int| 0 <= i < v.len() ==> #[trigger] ts[i] == v[i]@,
            pred == property(test),
            first_in(ts, pred, 0) == first_in(ts, pred, k as int),
        decreases v.len() - k,
    {
        match v[k].find_first(test) {
            Some(p) => {
                return Some((k, p));
            },
            None => {},
        }
        k += 1;
    }
    None
}

impl Expression {
    /// The path of child indices to the first node in pre-order for which
    /// `test` holds, if there is one.
    pub fn find_first<T: NodeTest>(&self, test: &T) -> (r: Option<Vec<usize>>)
        ensures
            match r {
                Some(p) => self@.first_match(property(test)) == Some(indices(p@)),
                None => self@.first_match(property(test)) is None,
            },
        decreases self@.size(),
    {
        if test.test(self) {
            let p: Vec<usize> = Vec::new();
            assert(indices(p@) =~= Seq::<int>::empty());
            return Some(p);
        }
        let subs = self.sub_expressions();
        let ghost cs = self@.children();
        let ghost pred = property(test);
        let mut k: usize = 0;
        while k < subs.len()
            invariant
                k <= subs.len(),
                cs == self@.children(),
                cs == terms_of_refs(subs@),
                pred == property(test),
                !pred(self@),
                first_match_from(cs, pred, 0) == first_match_from(cs, pred, k as int),
            decreases subs.len() - k,
        {
            proof {
                lemma_child_smaller(self@, k as int);
                lemma_total_size_index(cs, k as int);
            }
            match subs[k].find_first(test) {
                Some(p) => {
                    let mut path = p;
                    proof {
                        lemma_indices_insert(path@, k);
                        assert(subs[k as int]@ == cs[k as int]);
                    }
                    path.insert(0, k);
                    return Some(path);
                },
                None => {},
            }
            k += 1;
        }
        None
    }

    /// The node that `path` leads to, if there is one.
    pub fn at(&self, path: &Vec<usize>) -> (r: Option<&Expression>)
        ensures
            match r {
                Some(n) => self@.at(indices(path@)) == Some(n@),
                None => self@.at(indices(path@)) is None,
            },
    {
        let ghost whole = indices(path@);
        let mut node: &Expression = self;
        let mut k: usize = 0;
        assert(whole.subrange(0, whole.len() as int) =~= whole);
        while k < path.len()
            invariant
                k <= path.len(),
                whole == indices(path@),
                self@.at(whole) == node@.at(whole.subrange(k as int, whole.len() as int)),
            decreases path.len() - k,
        {
            let subs = node.sub_expressions();
            let i = path[k];
            let ghost rest = whole.subrange(k as int, whole.len() as int);
            proof {
                assert(rest[0] == i as int);
                assert(rest.drop_first() =~= whole.subrange(k + 1, whole.len() as int));
            }
            if i >= subs.len() {
                return None;
            }
            node = subs[i];
            k += 1;
        }
        Some(node)
    }

    /// The tree with the node at `path` replaced by `new`; a copy of the
    /// tree where `path` leads nowhere.
    pub fn replace_at(&self, path: &Vec<usize>, new: Expression) -> (r: Expression)
        ensures
            r@ == self@.replace_at(indices(path@), new@),
    {
        assert(indices(path@).subrange(0, path.len() as int) =~= indices(path@));
        self.replace_from(path, 0, new)
    }

    fn replace_from(&self, path: &Vec<usize>, start: usize, new: Expression) -> (r: Expression)
        requires
            start <= path.len(),
        ensures
            r@ == self@.replace_at(indices(path@).subrange(start as int, path.len() as int), new@),
        decreases path.len() - start,
    {
        let ghost rest = indices(path@).subrange(start as int, path.len() as int);
        if start == path.len() {
            return new;
        }
        let i = path[start];
        let subs = self.sub_expressions();
        proof {
            assert(rest[0] == i as int);
            assert(rest.drop_first() =~= indices(path@).subrange(start + 1, path.len() as int));
        }
        if i >= subs.len() {
            return self.clone();
        }
        let replaced = subs[i].replace_from(path, start + 1, new);
        let ghost cs = self@.children();
        let mut children: Vec<Expression> = Vec::new();
        let mut k: usize = 0;
        while k < i
            invariant
                k <= i < subs.len(),
                cs == terms_of_refs(subs@),
                children.len() == k,
                forall|j: int| 0 <= j < k ==> children[j]@ == cs[j],
            decreases i - k,
        {
            children.push(subs[k].clone());
            k += 1;
        }
        children.push(replaced);
        k += 1;
        while k < subs.len()
            invariant
                i < k <= subs.len(),
                cs == terms_of_refs(subs@),
                children.len() == k,
                forall|j: int| 0 <= j < k && j != i ==> children[j]@ == cs[j],
                children[i as int]@ == replaced@,
            decreases subs.len() - k,
        {
            children.push(subs[k].clone());
            k += 1;
        }
        proof {
            lemma_terms_of(children@);
            assert(terms_of(children@) =~= cs.update(i as int, replaced@));
        }
        match self.with_children(children) {
            Ok(e) => e,
            Err(_) => self.clone(),
        }
    }

    /// All nodes of the tree in pre-order, borrowed from it.
    pub fn universe(&self) -> (out: Vec<&Expression>)
        ensures
            terms_of_refs(out@) == self@.universe(),
        decreases self@.size(),
    {
        let mut out: Vec<&Expression> = Vec::new();
        out.push(self);
        let subs = self.sub_expressions();
        let ghost cs = self@.children();
        let mut k: usize = 0;
        assert(terms_of_refs(out@) =~= seq![self@] + universe_of_all(cs, 0));
        while k < subs.len()
            invariant
                k <= subs.len(),
                cs == self@.children(),
                cs == terms_of_refs(subs@),
                terms_of_refs(out@) == seq![self@] + universe_of_all(cs, k as int),
            decreases subs.len() - k,
        {
            proof {
                lemma_child_smaller(self@, k as int);
            }
            let mut below = subs[k].universe();
            let ghost before = out@;
            let ghost added = below@;
            out.append(&mut below);
            proof {
                assert(terms_of_refs(before + added) =~= terms_of_refs(before) + terms_of_refs(
                    added,
                ));
                assert(seq![self@] + universe_of_all(cs, k + 1) =~= (seq![self@] + universe_of_all(
                    cs,
                    k as int,
                )) + cs[k as int].universe());
            }
            k += 1;
        }
        out
    }
}

} // verus!
