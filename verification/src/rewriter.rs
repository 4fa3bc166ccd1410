//! The fixed-point rewriter: as long as a rule matches somewhere, the first
//! matching rule is applied at the first node in pre-order where any rule
//! matches.

use vstd::prelude::*;
use crate::error::RewriteError;
use crate::expression::{lemma_terms_of, lemma_terms_of_push, terms_of, Expression, Term};
use crate::model::{Model, ModelView};
use crate::position::{
    indices,
    lemma_first_match_is_first,
    lemma_first_match_none,
    lemma_first_match_some,
    property,
    NodeTest,
};
use crate::rule::{rules_of, Rule, RuleView};

verus! {

/// Index of the first rule from index `from` on that matches at the node
/// `t`.
pub open spec fn first_applicable(rules: Seq<RuleView>, t: Term, from: int) -> Option<int>
    decreases rules.len() - from,
{
    if 0 <= from < rules.len() {
        if rules[from].kind.rewrite(t) is Some {
            Some(from)
        } else {
            first_applicable(rules, t, from + 1)
        }
    } else {
        None
    }
}

/// Whether some rule of `rules` matches at the node `t`.
pub open spec fn applicable(rules: Seq<RuleView>, t: Term) -> bool {
    exists|i: int| 0 <= i < rules.len() && (#[trigger] rules[i]).kind.rewrite(t) is Some
}

/// The property of a node that some rule of `rules` matches there.
pub open spec fn reducible(rules: Seq<RuleView>) -> spec_fn(Term) -> bool {
    |t: Term| applicable(rules, t)
}

/// A rule matches from `from` on exactly when one is found, and the one
/// found is the first.
pub proof fn lemma_first_applicable(rules: Seq<RuleView>, t: Term, from: int)
    requires
        0 <= from,
    ensures
        match first_applicable(rules, t, from) {
            Some(i) => {
                &&& from <= i < rules.len()
                &&& rules[i].kind.rewrite(t) is Some
                &&& forall|j: int| from <= j < i ==> (#[trigger] rules[j]).kind.rewrite(t) is None
            },
            None => forall|j: int|
                from <= j < rules.len() ==> (#[trigger] rules[j]).kind.rewrite(t) is None,
        },
    decreases rules.len() - from,
{
    if from < rules.len() {
        lemma_first_applicable(rules, t, from + 1);
    }
}

/// One rewrite: where it happened, by which rule, and the tree after it.
pub struct Step {
    /// The path to the rewritten node.
    pub path: Seq<int>,
    /// The index of the rule in the rule sequence.
    pub rule: int,
    /// The whole tree after the rewrite.
    pub result: Term,
}

/// The next rewrite of `t` under `rules`: at the first node in pre-order
/// where any rule matches, by the first rule that matches there. None when
/// no rule matches anywhere.
pub open spec fn step(t: Term, rules: Seq<RuleView>) -> Option<Step> {
    match t.first_match(reducible(rules)) {
        None => None,
        Some(path) => {
            let node = t.at(path)->0;
            let rule = first_applicable(rules, node, 0)->0;
            Some(Step { path, rule, result: t.replace_at(path, rules[rule].kind.rewrite(node)->0) })
        },
    }
}

/// Whether no rule of `rules` matches at any node of `t`.
pub open spec fn fixed_point(t: Term, rules: Seq<RuleView>) -> bool {
    step(t, rules) is None
}

/// A rewrite happens at the first node in pre-order at which any rule
/// matches: no rule matches at a node before it.
pub proof fn lemma_step_is_first(t: Term, rules: Seq<RuleView>)
    requires
        step(t, rules) is Some,
    ensures
        ({
            let k = t.preorder_index(step(t, rules)->0.path);
            &&& 0 <= k < t.universe().len()
            &&& t.at(step(t, rules)->0.path) == Some(t.universe()[k])
            &&& forall|j: int| 0 <= j < k ==> !applicable(rules, #[trigger] t.universe()[j])
        }),
{
    lemma_first_match_is_first(t, reducible(rules));
    let k = t.preorder_index(step(t, rules)->0.path);
    assert forall|j: int| 0 <= j < k implies !applicable(rules, #[trigger] t.universe()[j]) by {
        assert(!(reducible(rules))(t.universe()[j]));
    }
}

/// A tree is at its fixed point exactly when no rule matches at any of its
/// nodes.
pub proof fn lemma_fixed_point(t: Term, rules: Seq<RuleView>)
    ensures
        fixed_point(t, rules) <==> forall|i: int|
            0 <= i < t.universe().len() ==> !applicable(rules, #[trigger] t.universe()[i]),
{
    lemma_first_match_none(t, reducible(rules));
    if fixed_point(t, rules) {
        assert forall|i: int| 0 <= i < t.universe().len() implies !applicable(
            rules,
            #[trigger] t.universe()[i],
        ) by {
            assert(!(reducible(rules))(t.universe()[i]));
        }
    }
}

/// Why rewriting one constraint gave up.
pub struct Stuck {
    /// Name of the rule that matched when the rewrites were used up.
    pub rule: Seq<char>,
    /// Depth of the node at which it matched.
    pub depth: nat,
}

/// Rewrites `t` until no rule matches, with at most `budget` rewrites. If
/// a rewrite is due when none is left, the result says which one.
pub open spec fn rewrite_bounded(t: Term, rules: Seq<RuleView>, budget: nat) -> Result<Term, Stuck>
    decreases budget,
{
    match step(t, rules) {
        None => Ok(t),
        Some(s) => if budget == 0 {
            Err(Stuck { rule: rules[s.rule].name, depth: s.path.len() })
        } else {
            rewrite_bounded(s.result, rules, (budget - 1) as nat)
        },
    }
}

/// The indices of the rules that fire, in order, while `t` is rewritten
/// with at most `budget` rewrites.
pub open spec fn fired(t: Term, rules: Seq<RuleView>, budget: nat) -> Seq<int>
    decreases budget,
{
    match step(t, rules) {
        None => Seq::empty(),
        Some(s) => if budget == 0 {
            Seq::empty()
        } else {
            seq![s.rule] + fired(s.result, rules, (budget - 1) as nat)
        },
    }
}

/// The node test "some rule of the sequence matches here".
pub struct Reducible<'a> {
    pub rules: &'a Vec<Rule>,
}

impl<'a> NodeTest for Reducible<'a> {
    open spec fn holds(&self, t: Term) -> bool {
        applicable(rules_of(self.rules@), t)
    }

    fn test(&self, e: &Expression) -> (r: bool) {
        match apply_first(self.rules, e) {
            Some(_) => true,
            None => false,
        }
    }
}

/// Applies the first rule of `rules` that matches at the root of `e`:
/// its index and its result.
pub fn apply_first(rules: &Vec<Rule>, e: &Expression) -> (r: Option<(usize, Expression)>)
    ensures
        match r {
            Some((i, x)) => {
                &&& first_applicable(rules_of(rules@), e@, 0) == Some(i as int)
                &&& rules_of(rules@)[i as int].kind.rewrite(e@) == Some(x@)
            },
            None => first_applicable(rules_of(rules@), e@, 0) is None,
        },
        r is Some <==> applicable(rules_of(rules@), e@),
{
    let ghost rs = rules_of(rules@);
    proof {
        lemma_first_applicable(rs, e@, 0);
    }
    let mut k: usize = 0;
    while k < rules.len()
        invariant
            k <= rules.len(),
            rs == rules_of(rules@),
            first_applicable(rs, e@, 0) == first_applicable(rs, e@, k as int),
        decreases rules.len() - k,
    {
        match rules[k].apply(e) {
            Ok(x) => {
                assert(rs[k as int] == rules[k as int]@);
                return Some((k, x));
            },
            Err(_) => {
                assert(rs[k as int] == rules[k as int]@);
            },
        }
        k += 1;
    }
    None
}

/// One rewrite, as the rewriter performed it.
#[derive(Debug)]
pub struct Rewrite {
    /// The path of child indices to the rewritten node.
    pub path: Vec<usize>,
    /// The index of the rule in the rule sequence.
    pub rule: usize,
    /// The whole tree after the rewrite.
    pub result: Expression,
}

impl View for Rewrite {
    type V = Step;

    open spec fn view(&self) -> Step {
        Step { path: indices(self.path@), rule: self.rule as int, result: self.result@ }
    }
}

/// Performs the next rewrite of `e` under `rules`, if any rule matches
/// anywhere.
pub fn rewrite_once(e: &Expression, rules: &Vec<Rule>) -> (r: Option<Rewrite>)
    ensures
        match r {
            Some(rw) => step(e@, rules_of(rules@)) == Some(rw@),
            None => step(e@, rules_of(rules@)) is None,
        },
{
    let ghost rs = rules_of(rules@);
    let test = Reducible { rules };
    assert(property(&test) =~= reducible(rs));
    let path = match e.find_first(&test) {
        Some(p) => p,
        None => {
            return None;
        },
    };
    proof {
        lemma_first_match_some(e@, reducible(rs));
    }
    let node = match e.at(&path) {
        Some(n) => n,
        None => {
            return None;
        },
    };
    match apply_first(rules, node) {
        Some((rule, replacement)) => {
            let result = e.replace_at(&path, replacement);
            Some(Rewrite { path, rule, result })
        },
        None => None,
    }
}

/// The outcome of rewriting one constraint to its fixed point.
#[derive(Debug)]
pub struct Rewritten {
    /// The constraint at its fixed point.
    pub expression: Expression,
    /// The indices of the rules that fired, in order.
    pub fired: Vec<usize>,
}

/// Rewrites `e` under `rules` until no rule matches anywhere. Fails when a
/// rewrite is due after `max_rewrites` of them.
pub fn rewrite_expression(e: &Expression, rules: &Vec<Rule>, max_rewrites: usize) -> (r: Result<
    Rewritten,
    RewriteError,
>)
    ensures
        match r {
            Ok(done) => {
                &&& rewrite_bounded(e@, rules_of(rules@), max_rewrites as nat) == Ok::<Term, Stuck>(
                    done.expression@,
                )
                &&& indices(done.fired@) == fired(e@, rules_of(rules@), max_rewrites as nat)
            },
            Err(RewriteError::RewriterDidNotConverge(rule, depth)) => rewrite_bounded(
                e@,
                rules_of(rules@),
                max_rewrites as nat,
            ) == Err::<Term, Stuck>(Stuck { rule: rule@, depth: depth as nat }),
        },
{
    let ghost rs = rules_of(rules@);
    let mut current = e.clone();
    let mut trace: Vec<usize> = Vec::new();
    let mut left = max_rewrites;
    assert(indices(trace@) + fired(current@, rs, left as nat) =~= fired(e@, rs, max_rewrites as nat));
    loop
        invariant
            rs == rules_of(rules@),
            rewrite_bounded(e@, rs, max_rewrites as nat) == rewrite_bounded(current@, rs, left as nat),
            indices(trace@) + fired(current@, rs, left as nat) == fired(e@, rs, max_rewrites as nat),
        decreases left,
    {
        match rewrite_once(&current, rules) {
            None => {
                assert(indices(trace@) + Seq::<int>::empty() =~= indices(trace@));
                return Ok(Rewritten { expression: current, fired: trace });
            },
            Some(rw) => {
                proof {
                    lemma_step_rule(current@, rs);
                }
                if left == 0 {
                    return Err(
                        RewriteError::RewriterDidNotConverge(
                            rules[rw.rule].name.clone(),
                            rw.path.len(),
                        ),
                    );
                }
                let ghost before = trace@;
                let ghost rest = fired(rw.result@, rs, (left - 1) as nat);
                trace.push(rw.rule);
                proof {
                    assert(indices(trace@) =~= indices(before) + seq![rw.rule as int]);
                    assert(indices(trace@) + rest =~= indices(before) + (seq![rw.rule as int]
                        + rest));
                }
                current = rw.result;
                left = left - 1;
            },
        }
    }
}

/// The rule of a rewrite is one of the sequence, it matches at the node of
/// the rewrite, and no earlier rule does.
pub proof fn lemma_step_rule(t: Term, rules: Seq<RuleView>)
    requires
        step(t, rules) is Some,
    ensures
        ({
            let s = step(t, rules)->0;
            &&& 0 <= s.rule < rules.len()
            &&& t.at(s.path) is Some
            &&& rules[s.rule].kind.rewrite(t.at(s.path)->0) is Some
            &&& forall|j: int|
                0 <= j < s.rule ==> (#[trigger] rules[j]).kind.rewrite(t.at(s.path)->0) is None
            &&& s.result == t.replace_at(s.path, rules[s.rule].kind.rewrite(t.at(s.path)->0)->0)
        }),
{
    lemma_first_match_some(t, reducible(rules));
    let path = t.first_match(reducible(rules))->0;
    lemma_first_applicable(rules, t.at(path)->0, 0);
}

/// Rewrites each constraint of `cs` in turn. The first constraint whose
/// rewriting gives up decides the error.
pub open spec fn rewrite_all(cs: Seq<Term>, rules: Seq<RuleView>, budget: nat) -> Result<
    Seq<Term>,
    Stuck,
>
    decreases cs.len(),
{
    if cs.len() == 0 {
        Ok(Seq::empty())
    } else {
        match rewrite_all(cs.drop_last(), rules, budget) {
            Err(stuck) => Err(stuck),
            Ok(front) => match rewrite_bounded(cs.last(), rules, budget) {
                Err(stuck) => Err(stuck),
                Ok(t) => Ok(front.push(t)),
            },
        }
    }
}

impl ModelView {
    /// The model with every constraint rewritten to its fixed point under
    /// `rules`, with at most `budget` rewrites for each constraint.
    pub open spec fn rewritten(self, rules: Seq<RuleView>, budget: nat) -> Result<ModelView, Stuck> {
        match rewrite_all(self.constraints, rules, budget) {
            Err(stuck) => Err(stuck),
            Ok(cs) => Ok(ModelView { constraints: cs, ..self }),
        }
    }
}

/// The number of rewrites allowed for one constraint where the caller
/// sets no other limit.
pub const DEFAULT_MAX_REWRITES: usize = 10000;

/// The indices of the rules that fire, in order, while the constraints of
/// `cs` are rewritten one after the other.
pub open spec fn fired_in_all(cs: Seq<Term>, rules: Seq<RuleView>, budget: nat) -> Seq<int>
    decreases cs.len(),
{
    if cs.len() == 0 {
        Seq::empty()
    } else {
        fired_in_all(cs.drop_last(), rules, budget) + fired(cs.last(), rules, budget)
    }
}

/// A rewritten model, with the rules that fired on the way.
#[derive(Debug)]
pub struct RewrittenModel {
    /// The model with every constraint at its fixed point.
    pub model: Model,
    /// The indices of the rules that fired, in order, constraint after
    /// constraint.
    pub fired: Vec<usize>,
}

/// Rewrites the constraints of `model` to their fixed points under `rules`,
/// in their order, with at most `max_rewrites` rewrites for each, and
/// tells which rules fired. The variables are left as they are. Fails as
/// the first constraint does that needs more rewrites.
pub fn rewrite_model_traced(model: &Model, rules: &Vec<Rule>, max_rewrites: usize) -> (r: Result<
    RewrittenModel,
    RewriteError,
>)
    ensures
        match r {
            Ok(done) => {
                &&& model@.rewritten(rules_of(rules@), max_rewrites as nat) == Ok::<ModelView, Stuck>(
                    done.model@,
                )
                &&& indices(done.fired@) == fired_in_all(
                    model@.constraints,
                    rules_of(rules@),
                    max_rewrites as nat,
                )
                &&& forall|i: int| 0 <= i < done.fired.len() ==> #[trigger] done.fired[i] < rules.len()
            },
            Err(RewriteError::RewriterDidNotConverge(rule, depth)) => model@.rewritten(
                rules_of(rules@),
                max_rewrites as nat,
            ) == Err::<ModelView, Stuck>(Stuck { rule: rule@, depth: depth as nat }),
        },
{
    let constraints = model.constraints();
    let ghost cs = model@.constraints;
    let ghost rs = rules_of(rules@);
    let ghost budget = max_rewrites as nat;
    proof {
        lemma_terms_of(constraints@);
    }
    let mut out: Vec<Expression> = Vec::new();
    let mut trace: Vec<usize> = Vec::new();
    let mut k: usize = 0;
    assert(cs.subrange(0, 0) =~= Seq::empty());
    assert(terms_of(out@) =~= Seq::empty());
    assert(indices(trace@) =~= Seq::empty());
    while k < constraints.len()
        invariant
            k <= constraints.len(),
            cs == model@.constraints,
            cs == terms_of(constraints@),
            cs.len() == constraints.len(),
            forall|i: int| 0 <= i < cs.len() ==> #[trigger] cs[i] == constraints[i]@,
            rs == rules_of(rules@),
            budget == max_rewrites as nat,
            rewrite_all(cs.subrange(0, k as int), rs, budget) == Ok::<Seq<Term>, Stuck>(
                terms_of(out@),
            ),
            indices(trace@) == fired_in_all(cs.subrange(0, k as int), rs, budget),
            forall|i: int| 0 <= i < trace.len() ==> #[trigger] trace[i] < rules.len(),
        decreases constraints.len() - k,
    {
        proof {
            assert(cs.subrange(0, k + 1).drop_last() =~= cs.subrange(0, k as int));
            assert(cs.subrange(0, k + 1).last() == constraints[k as int]@);
        }
        match rewrite_expression(&constraints[k], rules, max_rewrites) {
            Ok(done) => {
                let ghost before = trace@;
                let ghost added = done.fired@;
                proof {
                    lemma_terms_of_push(out@, done.expression);
                    lemma_fired_in_range(constraints[k as int]@, rs, budget);
                }
                out.push(done.expression);
                let mut fired = done.fired;
                trace.append(&mut fired);
                proof {
                    assert(indices(trace@) =~= indices(before) + indices(added));
                    assert forall|i: int| 0 <= i < trace.len() implies #[trigger] trace[i]
                        < rules.len() by {
                        if i >= before.len() {
                            assert(trace[i] == added[i - before.len()]);
                            assert(indices(added)[i - before.len()] == added[i - before.len()]);
                        } else {
                            assert(trace[i] == before[i]);
                        }
                    }
                }
            },
            Err(e) => {
                proof {
                    lemma_rewrite_all_fails(cs, rs, budget, k as int);
                }
                return Err(e);
            },
        }
        k += 1;
    }
    assert(cs.subrange(0, k as int) =~= cs);
    Ok(RewrittenModel { model: model.with_constraints(out), fired: trace })
}

/// Every rule that fires is a rule of the sequence.
pub proof fn lemma_fired_in_range(t: Term, rules: Seq<RuleView>, budget: nat)
    ensures
        forall|i: int|
            0 <= i < fired(t, rules, budget).len() ==> 0 <= #[trigger] fired(t, rules, budget)[i]
                < rules.len(),
    decreases budget,
{
    match step(t, rules) {
        None => {},
        Some(s) => {
            if budget > 0 {
                lemma_step_rule(t, rules);
                lemma_fired_in_range(s.result, rules, (budget - 1) as nat);
                let rest = fired(s.result, rules, (budget - 1) as nat);
                let all = fired(t, rules, budget);
                assert(all == seq![s.rule] + rest);
                assert forall|i: int| 0 <= i < all.len() implies 0 <= #[trigger] all[i]
                    < rules.len() by {
                    if i > 0 {
                        assert(all[i] == rest[i - 1]);
                    }
                }
            }
        },
    }
}

/// Rewrites the constraints of `model` to their fixed points under `rules`,
/// in their order, with at most `max_rewrites` rewrites for each. The
/// variables are left as they are. Fails as the first constraint does that
/// needs more rewrites.
pub fn rewrite_model_within(model: &Model, rules: &Vec<Rule>, max_rewrites: usize) -> (r: Result<
    Model,
    RewriteError,
>)
    ensures
        match r {
            Ok(m) => model@.rewritten(rules_of(rules@), max_rewrites as nat) == Ok::<ModelView, Stuck>(
                m@,
            ),
            Err(RewriteError::RewriterDidNotConverge(rule, depth)) => model@.rewritten(
                rules_of(rules@),
                max_rewrites as nat,
            ) == Err::<ModelView, Stuck>(Stuck { rule: rule@, depth: depth as nat }),
        },
{
    match rewrite_model_traced(model, rules, max_rewrites) {
        Ok(done) => Ok(done.model),
        Err(e) => Err(e),
    }
}

/// Rewrites the constraints of `model` to their fixed points under `rules`,
/// with at most [`DEFAULT_MAX_REWRITES`] rewrites for each.
pub fn rewrite_model(model: &Model, rules: &Vec<Rule>) -> (r: Result<Model, RewriteError>)
    ensures
        match r {
            Ok(m) => model@.rewritten(
                rules_of(rules@),
                DEFAULT_MAX_REWRITES as nat,
            ) == Ok::<ModelView, Stuck>(m@),
            Err(RewriteError::RewriterDidNotConverge(rule, depth)) => model@.rewritten(
                rules_of(rules@),
                DEFAULT_MAX_REWRITES as nat,
            ) == Err::<ModelView, Stuck>(Stuck { rule: rule@, depth: depth as nat }),
        },
{
    rewrite_model_within(model, rules, DEFAULT_MAX_REWRITES)
}

/// If the constraints before index `k` can be rewritten and the one at `k`
/// cannot, rewriting all of them fails as that one does.
pub proof fn lemma_rewrite_all_fails(cs: Seq<Term>, rules: Seq<RuleView>, budget: nat, k: int)
    requires
        0 <= k < cs.len(),
        rewrite_all(cs.subrange(0, k), rules, budget) is Ok,
        rewrite_bounded(cs[k], rules, budget) is Err,
    ensures
        rewrite_all(cs, rules, budget) == Err::<Seq<Term>, Stuck>(
            rewrite_bounded(cs[k], rules, budget)->Err_0,
        ),
    decreases cs.len(),
{
    if k == cs.len() - 1 {
        assert(cs.subrange(0, k) =~= cs.drop_last());
    } else {
        assert(cs.drop_last().subrange(0, k) =~= cs.subrange(0, k));
        lemma_rewrite_all_fails(cs.drop_last(), rules, budget, k);
    }
}

/// Where rewriting succeeds, the result has as many constraints as the
/// input, and each one is the rewritten constraint at that index.
pub proof fn lemma_rewrite_all_each(cs: Seq<Term>, rules: Seq<RuleView>, budget: nat)
    requires
        rewrite_all(cs, rules, budget) is Ok,
    ensures
        rewrite_all(cs, rules, budget)->Ok_0.len() == cs.len(),
        forall|i: int|
            0 <= i < cs.len() ==> rewrite_bounded(#[trigger] cs[i], rules, budget) == Ok::<
                Term,
                Stuck,
            >(rewrite_all(cs, rules, budget)->Ok_0[i]),
    decreases cs.len(),
{
    if cs.len() > 0 {
        lemma_rewrite_all_each(cs.drop_last(), rules, budget);
        assert forall|i: int| 0 <= i < cs.len() implies rewrite_bounded(
            #[trigger] cs[i],
            rules,
            budget,
        ) == Ok::<Term, Stuck>(rewrite_all(cs, rules, budget)->Ok_0[i]) by {
            if i < cs.len() - 1 {
                assert(cs.drop_last()[i] == cs[i]);
            }
        }
    }
}

/// Constraints that are each at their fixed point are left as they are.
pub proof fn lemma_rewrite_all_fixed(cs: Seq<Term>, rules: Seq<RuleView>, budget: nat)
    requires
        forall|i: int| 0 <= i < cs.len() ==> fixed_point(#[trigger] cs[i], rules),
    ensures
        rewrite_all(cs, rules, budget) == Ok::<Seq<Term>, Stuck>(cs),
    decreases cs.len(),
{
    if cs.len() > 0 {
        assert forall|i: int| 0 <= i < cs.drop_last().len() implies fixed_point(
            #[trigger] cs.drop_last()[i],
            rules,
        ) by {
            assert(cs.drop_last()[i] == cs[i]);
        }
        lemma_rewrite_all_fixed(cs.drop_last(), rules, budget);
        assert(fixed_point(cs[cs.len() - 1], rules));
        assert(cs.drop_last().push(cs.last()) =~= cs);
    } else {
        assert(cs =~= Seq::empty());
    }
}

/// What rewriting returns is at its fixed point: no rule matches at any of
/// its nodes.
pub proof fn lemma_rewritten_is_fixed_point(t: Term, rules: Seq<RuleView>, budget: nat)
    requires
        rewrite_bounded(t, rules, budget) is Ok,
    ensures
        fixed_point(rewrite_bounded(t, rules, budget)->Ok_0, rules),
    decreases budget,
{
    match step(t, rules) {
        None => {},
        Some(s) => {
            lemma_rewritten_is_fixed_point(s.result, rules, (budget - 1) as nat);
        },
    }
}

/// Rewriting is idempotent: rewriting the result once more, with whatever
/// number of rewrites allowed, changes nothing.
pub proof fn lemma_rewrite_idempotent(t: Term, rules: Seq<RuleView>, budget: nat, again: nat)
    requires
        rewrite_bounded(t, rules, budget) is Ok,
    ensures
        rewrite_bounded(rewrite_bounded(t, rules, budget)->Ok_0, rules, again) == rewrite_bounded(
            t,
            rules,
            budget,
        ),
{
    lemma_rewritten_is_fixed_point(t, rules, budget);
}

/// Rewriting a model is idempotent: a model that came out of the rewriter
/// comes out of it unchanged.
pub proof fn lemma_rewrite_model_idempotent(
    m: ModelView,
    rules: Seq<RuleView>,
    budget: nat,
    again: nat,
)
    requires
        m.rewritten(rules, budget) is Ok,
    ensures
        m.rewritten(rules, budget)->Ok_0.rewritten(rules, again) == m.rewritten(rules, budget),
{
    let cs = m.constraints;
    let out = rewrite_all(cs, rules, budget)->Ok_0;
    lemma_rewrite_all_each(cs, rules, budget);
    assert forall|i: int| 0 <= i < out.len() implies fixed_point(#[trigger] out[i], rules) by {
        assert(rewrite_bounded(cs[i], rules, budget) == Ok::<Term, Stuck>(out[i]));
        lemma_rewritten_is_fixed_point(cs[i], rules, budget);
    }
    lemma_rewrite_all_fixed(out, rules, again);
}

} // verus!
