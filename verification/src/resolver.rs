//! The rule-set resolver: from a solver family and the names of rule sets
//! to the sequence of rules that the rewriter tries, in firing order.

use vstd::prelude::*;
use crate::error::ResolveError;
use crate::registry::{has_rule_set, Registry};
use crate::rule::{rules_of, texts_of, Rule, RuleView};
use crate::solver::SolverFamily;
use crate::text::lemma_text_lt_order;

verus! {

/// Whether the rule belongs to one of the rule sets named in `names`.
pub open spec fn requested(rule: RuleView, names: Seq<Seq<char>>) -> bool {
    exists|i: int| 0 <= i < names.len() && rule.member_of(#[trigger] names[i])
}

/// Whether the resolver selects the rule: it belongs to a requested rule
/// set, and `family` accepts every variant that it introduces.
pub open spec fn selected(rule: RuleView, family: SolverFamily, names: Seq<Seq<char>>) -> bool {
    requested(rule, names) && rule.kind.fits(family)
}

/// Each rule of the sequence fires before those after it: priorities
/// descend, and names ascend among rules of one priority.
pub open spec fn in_firing_order(rules: Seq<RuleView>) -> bool {
    forall|i: int, j: int|
        0 <= i < j < rules.len() ==> (#[trigger] rules[i]).fires_before(#[trigger] rules[j])
}

/// Index of the first name from index `from` on that is the name of no
/// rule set of `registered`.
pub open spec fn first_unknown(registered: Seq<RuleView>, names: Seq<Seq<char>>, from: int) -> Option<
    int,
>
    decreases names.len() - from,
{
    if 0 <= from < names.len() {
        if has_rule_set(registered, names[from]) {
            first_unknown(registered, names, from + 1)
        } else {
            Some(from)
        }
    } else {
        None
    }
}

/// Whether `out` is the resolution of `names` for `family` over the rules
/// `registered`: the selected rules, each once, in firing order.
pub open spec fn resolves_to(
    registered: Seq<RuleView>,
    family: SolverFamily,
    names: Seq<Seq<char>>,
    out: Seq<RuleView>,
) -> bool {
    &&& in_firing_order(out)
    &&& forall|i: int|
        0 <= i < out.len() ==> registered.contains(#[trigger] out[i]) && selected(
            out[i],
            family,
            names,
        )
    &&& forall|i: int|
        0 <= i < registered.len() && selected(#[trigger] registered[i], family, names)
            ==> out.contains(registered[i])
}

/// The resolution of `names` for `family` over the rules `registered`.
pub open spec fn resolution(
    registered: Seq<RuleView>,
    family: SolverFamily,
    names: Seq<Seq<char>>,
) -> Seq<RuleView> {
    choose|out: Seq<RuleView>| resolves_to(registered, family, names, out)
}

/// Whether `r` is what resolving `names` for `family` over the rules
/// `registered` gives: the resolution where every name is the name of a
/// rule set, and else the first name that is not.
pub open spec fn resolved(
    registered: Seq<RuleView>,
    family: SolverFamily,
    names: Seq<Seq<char>>,
    r: Result<Vec<Rule>, ResolveError>,
) -> bool {
    match r {
        Ok(rules) => {
            &&& first_unknown(registered, names, 0) is None
            &&& resolves_to(registered, family, names, rules_of(rules@))
            &&& rules_of(rules@) == resolution(registered, family, names)
        },
        Err(ResolveError::UnknownRuleSet(name)) => {
            &&& first_unknown(registered, names, 0) is Some
            &&& name@ == names[first_unknown(registered, names, 0)->0]
        },
    }
}

/// The firing order is a strict order, and it is total on rules of
/// different names.
pub proof fn lemma_firing_order(a: RuleView, b: RuleView, c: RuleView)
    ensures
        !a.fires_before(a),
        a.fires_before(b) && b.fires_before(c) ==> a.fires_before(c),
        a.name != b.name ==> a.fires_before(b) || b.fires_before(a),
        a.fires_before(b) ==> !b.fires_before(a),
{
    lemma_text_lt_order(a.name, b.name, c.name);
    lemma_text_lt_order(a.name, a.name, a.name);
    lemma_text_lt_order(b.name, a.name, a.name);
}

/// A sequence in firing order holds no rule twice.
pub proof fn lemma_firing_order_distinct(rules: Seq<RuleView>, i: int, j: int)
    requires
        in_firing_order(rules),
        0 <= i < rules.len(),
        0 <= j < rules.len(),
        rules[i] == rules[j],
    ensures
        i == j,
{
    lemma_firing_order(rules[i], rules[i], rules[i]);
    if i < j {
        assert(rules[i].fires_before(rules[j]));
    } else if j < i {
        assert(rules[j].fires_before(rules[i]));
    }
}

/// Two sequences in firing order that hold the same rules are equal.
pub proof fn lemma_firing_order_unique(a: Seq<RuleView>, b: Seq<RuleView>)
    requires
        in_firing_order(a),
        in_firing_order(b),
        forall|i: int| 0 <= i < a.len() ==> b.contains(#[trigger] a[i]),
        forall|i: int| 0 <= i < b.len() ==> a.contains(#[trigger] b[i]),
    ensures
        a == b,
    decreases a.len(),
{
    if a.len() == 0 {
        if b.len() > 0 {
            assert(a.contains(b[0]));
        }
        assert(a =~= b);
    } else {
        assert(b.contains(a[0]));
        let jb = choose|j: int| 0 <= j < b.len() && b[j] == a[0];
        assert(a.contains(b[0]));
        let ja = choose|j: int| 0 <= j < a.len() && a[j] == b[0];
        // The first elements agree: otherwise each fires before the other.
        if ja > 0 && jb > 0 {
            assert(a[0].fires_before(a[ja]));
            assert(b[0].fires_before(b[jb]));
            lemma_firing_order(a[0], b[0], a[0]);
        }
        assert(a[0] == b[0]);
        let ra = a.drop_first();
        let rb = b.drop_first();
        assert(in_firing_order(ra)) by {
            assert forall|i: int, j: int| 0 <= i < j < ra.len() implies (
            #[trigger] ra[i]).fires_before(#[trigger] ra[j]) by {
                assert(ra[i] == a[i + 1] && ra[j] == a[j + 1]);
            }
        }
        assert(in_firing_order(rb)) by {
            assert forall|i: int, j: int| 0 <= i < j < rb.len() implies (
            #[trigger] rb[i]).fires_before(#[trigger] rb[j]) by {
                assert(rb[i] == b[i + 1] && rb[j] == b[j + 1]);
            }
        }
        assert forall|i: int| 0 <= i < ra.len() implies rb.contains(#[trigger] ra[i]) by {
            assert(ra[i] == a[i + 1]);
            assert(b.contains(a[i + 1]));
            let j = choose|j: int| 0 <= j < b.len() && b[j] == a[i + 1];
            if j == 0 {
                lemma_firing_order_distinct(a, 0, i + 1);
            }
            assert(rb[j - 1] == b[j]);
        }
        assert forall|i: int| 0 <= i < rb.len() implies ra.contains(#[trigger] rb[i]) by {
            assert(rb[i] == b[i + 1]);
            assert(a.contains(b[i + 1]));
            let j = choose|j: int| 0 <= j < a.len() && a[j] == b[i + 1];
            if j == 0 {
                lemma_firing_order_distinct(b, 0, i + 1);
            }
            assert(ra[j - 1] == a[j]);
        }
        lemma_firing_order_unique(ra, rb);
        assert(a =~= seq![a[0]] + ra);
        assert(b =~= seq![b[0]] + rb);
    }
}

/// The resolution is unique: the contract of the resolver leaves no choice.
pub proof fn lemma_resolution_unique(
    registered: Seq<RuleView>,
    family: SolverFamily,
    names: Seq<Seq<char>>,
    a: Seq<RuleView>,
    b: Seq<RuleView>,
)
    requires
        resolves_to(registered, family, names, a),
        resolves_to(registered, family, names, b),
    ensures
        a == b,
{
    assert forall|i: int| 0 <= i < a.len() implies b.contains(#[trigger] a[i]) by {
        assert(registered.contains(a[i]));
        let k = choose|k: int| 0 <= k < registered.len() && registered[k] == a[i];
        assert(selected(registered[k], family, names));
    }
    assert forall|i: int| 0 <= i < b.len() implies a.contains(#[trigger] b[i]) by {
        assert(registered.contains(b[i]));
        let k = choose|k: int| 0 <= k < registered.len() && registered[k] == b[i];
        assert(selected(registered[k], family, names));
    }
    lemma_firing_order_unique(a, b);
}

/// Whether `rule` belongs to one of the rule sets named in `names`.
fn is_requested(rule: &Rule, names: &Vec<String>) -> (r: bool)
    ensures
        r == requested(rule@, texts_of(names@)),
{
    let ghost ns = texts_of(names@);
    let mut k: usize = 0;
    while k < names.len()
        invariant
            k <= names.len(),
            ns == texts_of(names@),
            forall|i: int| 0 <= i < k ==> !rule@.member_of(#[trigger] ns[i]),
        decreases names.len() - k,
    {
        if rule.is_member_of(names[k].as_str()) {
            assert(rule@.member_of(ns[k as int]));
            return true;
        }
        k += 1;
    }
    false
}

/// Puts `rule` into `out` at its place in the firing order, and returns
/// that place.
fn insert_in_order(out: &mut Vec<Rule>, rule: Rule) -> (at: usize)
    requires
        in_firing_order(rules_of(old(out)@)),
        forall|i: int| 0 <= i < old(out).len() ==> (#[trigger] old(out)[i])@.name != rule@.name,
    ensures
        at <= old(out).len(),
        rules_of(final(out)@) == rules_of(old(out)@).insert(at as int, rule@),
        in_firing_order(rules_of(final(out)@)),
{
    let ghost before = rules_of(out@);
    let mut at: usize = 0;
    while at < out.len() && !rule.goes_before(&out[at])
        invariant
            at <= out.len(),
            before == rules_of(out@),
            forall|i: int| 0 <= i < at ==> !rule@.fires_before(#[trigger] before[i]),
        decreases out.len() - at,
    {
        at += 1;
    }
    out.insert(at, rule);
    proof {
        let after = rules_of(out@);
        assert(after =~= before.insert(at as int, rule@));
        assert forall|i: int, j: int| 0 <= i < j < after.len() implies (
        #[trigger] after[i]).fires_before(#[trigger] after[j]) by {
            if j < at {
                assert(after[i] == before[i] && after[j] == before[j]);
            } else if j == at {
                assert(after[i] == before[i]);
                lemma_firing_order(before[i], rule@, rule@);
            } else if i < at {
                assert(after[i] == before[i] && after[j] == before[j - 1]);
            } else if i == at {
                assert(after[j] == before[j - 1]);
                if j - 1 > at {
                    assert(before[at as int].fires_before(before[j - 1]));
                    lemma_firing_order(rule@, before[at as int], before[j - 1]);
                }
            } else {
                assert(after[i] == before[i - 1] && after[j] == before[j - 1]);
            }
        }
    }
    at
}

impl Registry {
    /// The rules to rewrite with for `family` under the rule sets named in
    /// `rule_sets`: every registered rule that belongs to one of these rule
    /// sets and introduces only variants that `family` accepts, once, by
    /// descending priority and by name among rules of one priority. Fails
    /// with the first name in `rule_sets` that is the name of no rule set.
    pub fn resolve(&self, family: SolverFamily, rule_sets: &Vec<String>) -> (r: Result<
        Vec<Rule>,
        ResolveError,
    >)
        requires
            self.well_formed(),
        ensures
            resolved(self@, family, texts_of(rule_sets@), r),
    {
        let ghost names = texts_of(rule_sets@);
        let ghost registered = self@;
        let mut k: usize = 0;
        while k < rule_sets.len()
            invariant
                k <= rule_sets.len(),
                names == texts_of(rule_sets@),
                registered == self@,
                first_unknown(registered, names, 0) == first_unknown(registered, names, k as int),
            decreases rule_sets.len() - k,
        {
            if !self.knows_rule_set(rule_sets[k].as_str()) {
                return Err(ResolveError::UnknownRuleSet(rule_sets[k].clone()));
            }
            k += 1;
        }
        let mut out: Vec<Rule> = Vec::new();
        let count = self.len();
        let mut i: usize = 0;
        while i < count
            invariant
                i <= count,
                count == self@.len(),
                self.well_formed(),
                names == texts_of(rule_sets@),
                registered == self@,
                in_firing_order(rules_of(out@)),
                forall|a: int|
                    0 <= a < out.len() ==> selected((#[trigger] rules_of(out@)[a]), family, names)
                        && exists|b: int| 0 <= b < i && registered[b] == rules_of(out@)[a],
                forall|b: int|
                    0 <= b < i && selected(#[trigger] registered[b], family, names) ==> rules_of(
                        out@,
                    ).contains(registered[b]),
            decreases count - i,
        {
            let rule = self.rule(i);
            if is_requested(rule, rule_sets) && rule.kind.is_fit_for(family) {
                let ghost before = rules_of(out@);
                proof {
                    assert forall|a: int| 0 <= a < out.len() implies (#[trigger] out[a])@.name
                        != rule@.name by {
                        assert(before[a] == out[a]@);
                        let b = choose|b: int| 0 <= b < i && registered[b] == before[a];
                        assert(registered[b].name != registered[i as int].name);
                    }
                }
                let at = insert_in_order(&mut out, rule.clone());
                proof {
                    let after = rules_of(out@);
                    assert forall|a: int| 0 <= a < after.len() implies selected(
                        (#[trigger] after[a]),
                        family,
                        names,
                    ) && exists|b: int| 0 <= b < i + 1 && registered[b] == after[a] by {
                        if a < at {
                            assert(after[a] == before[a]);
                            let b = choose|b: int| 0 <= b < i && registered[b] == before[a];
                            assert(registered[b] == after[a]);
                        } else if a == at {
                            assert(registered[i as int] == after[a]);
                        } else {
                            assert(after[a] == before[a - 1]);
                            let b = choose|b: int| 0 <= b < i && registered[b] == before[a - 1];
                            assert(registered[b] == after[a]);
                        }
                    }
                    assert forall|b: int|
                        0 <= b < i + 1 && selected(
                            #[trigger] registered[b],
                            family,
                            names,
                        ) implies after.contains(registered[b]) by {
                        if b < i {
                            assert(before.contains(registered[b]));
                            let a = choose|a: int| 0 <= a < before.len() && before[a] == registered[b];
                            if a < at {
                                assert(after[a] == registered[b]);
                            } else {
                                assert(after[a + 1] == registered[b]);
                            }
                        } else {
                            assert(after[at as int] == registered[b]);
                        }
                    }
                }
            }
            i += 1;
        }
        proof {
            let found = rules_of(out@);
            assert forall|a: int| 0 <= a < found.len() implies registered.contains(
                #[trigger] found[a],
            ) && selected(found[a], family, names) by {
                let b = choose|b: int| 0 <= b < i && registered[b] == found[a];
                assert(registered[b] == found[a]);
            }
            assert(resolves_to(registered, family, names, found));
            lemma_resolution_unique(
                registered,
                family,
                names,
                found,
                resolution(registered, family, names),
            );
        }
        Ok(out)
    }
}

/// As [`Registry::resolve`], over the registry of the catalogue.
pub fn resolve_rule_sets(family: SolverFamily, rule_sets: &Vec<String>) -> (r: Result<
    Vec<Rule>,
    ResolveError,
>)
    ensures
        resolved(crate::catalogue::catalogue(), family, texts_of(rule_sets@), r),
{
    Registry::standard().resolve(family, rule_sets)
}

} // verus!
