//! The rule registry: rules under unique names, looked up by name and by
//! rule set.

use vstd::prelude::*;
use crate::catalogue::{all_kinds, catalogue, kinds, lemma_names_distinct};
use crate::error::RegistryError;
use crate::rule::{rules_of, Rule, RuleView};

verus! {

/// No two rules of the sequence have the same name.
pub open spec fn distinct_rule_names(rules: Seq<RuleView>) -> bool {
    forall|i: int, j: int|
        0 <= i < j < rules.len() ==> (#[trigger] rules[i]).name != (#[trigger] rules[j]).name
}

/// Whether a rule of the sequence has the name `name`.
pub open spec fn has_rule(rules: Seq<RuleView>, name: Seq<char>) -> bool {
    exists|i: int| 0 <= i < rules.len() && (#[trigger] rules[i]).name == name
}

/// Whether a rule of the sequence belongs to the rule set `set`.
pub open spec fn has_rule_set(rules: Seq<RuleView>, set: Seq<char>) -> bool {
    exists|i: int| 0 <= i < rules.len() && (#[trigger] rules[i]).member_of(set)
}

/// The rules of the sequence that belong to the rule set `set`, in their
/// order.
pub open spec fn members(rules: Seq<RuleView>, set: Seq<char>) -> Seq<RuleView>
    decreases rules.len(),
{
    if rules.len() == 0 {
        Seq::empty()
    } else if rules.last().member_of(set) {
        members(rules.drop_last(), set).push(rules.last())
    } else {
        members(rules.drop_last(), set)
    }
}

/// The catalogue registers no name twice.
pub proof fn lemma_catalogue_distinct()
    ensures
        distinct_rule_names(catalogue()),
{
    assert forall|i: int, j: int| 0 <= i < j < catalogue().len() implies (
    #[trigger] catalogue()[i]).name != (#[trigger] catalogue()[j]).name by {
        lemma_names_distinct(kinds()[i], kinds()[j]);
    }
}

/// A table of rewrite rules. Its view is the sequence of the rules in the
/// order in which they were registered.
#[derive(Debug)]
pub struct Registry {
    rules: Vec<Rule>,
}

impl View for Registry {
    type V = Seq<RuleView>;

    closed spec fn view(&self) -> Seq<RuleView> {
        rules_of(self.rules@)
    }
}

impl Registry {
    /// The invariant of the type: rule names are unique. Every registry
    /// that this module hands out has it.
    pub open spec fn well_formed(&self) -> bool {
        distinct_rule_names(self@)
    }

    /// The registry without rules.
    pub fn new() -> (r: Registry)
        ensures
            r.well_formed(),
            r@ == Seq::<RuleView>::empty(),
    {
        let r = Registry { rules: Vec::new() };
        assert(r@ =~= Seq::<RuleView>::empty());
        r
    }

    /// The registry of the catalogue.
    pub fn standard() -> (r: Registry)
        ensures
            r.well_formed(),
            r@ == catalogue(),
    {
        let all = all_kinds();
        let mut rules: Vec<Rule> = Vec::new();
        let mut k: usize = 0;
        while k < all.len()
            invariant
                k <= all.len(),
                all@ == kinds(),
                rules.len() == k,
                forall|i: int| 0 <= i < k ==> (#[trigger] rules[i])@ == kinds()[i].entry(),
            decreases all.len() - k,
        {
            rules.push(all[k].registered());
            k += 1;
        }
        let r = Registry { rules };
        proof {
            assert(r@ =~= catalogue());
            lemma_catalogue_distinct();
        }
        r
    }

    /// Index of the rule named `name`, if there is one.
    fn position_of(&self, name: &String) -> (r: Option<usize>)
        ensures
            match r {
                Some(i) => i < self@.len() && self@[i as int].name == name@,
                None => !has_rule(self@, name@),
            },
    {
        let mut k: usize = 0;
        while k < self.rules.len()
            invariant
                k <= self.rules.len(),
                self@ == rules_of(self.rules@),
                forall|i: int| 0 <= i < k ==> (#[trigger] self@[i]).name != name@,
            decreases self.rules.len() - k,
        {
            if self.rules[k].name == *name {
                return Some(k);
            }
            k += 1;
        }
        None
    }

    /// Adds `rule` to the registry. A rule whose name is taken is refused,
    /// and the registry stays as it is.
    pub fn register(&mut self, rule: Rule) -> (r: Result<(), RegistryError>)
        requires
            old(self).well_formed(),
        ensures
            final(self).well_formed(),
            match r {
                Ok(_) => !has_rule(old(self)@, rule@.name) && final(self)@ == old(self)@.push(rule@),
                Err(RegistryError::DuplicateRule(name)) => {
                    &&& has_rule(old(self)@, rule@.name)
                    &&& final(self)@ == old(self)@
                    &&& name@ == rule@.name
                },
                Err(_) => false,
            },
    {
        match self.position_of(&rule.name) {
            Some(_) => Err(RegistryError::DuplicateRule(rule.name)),
            None => {
                let ghost before = self@;
                self.rules.push(rule);
                proof {
                    assert(self@ =~= before.push(rule@));
                    assert forall|i: int, j: int| 0 <= i < j < self@.len() implies (
                    #[trigger] self@[i]).name != (#[trigger] self@[j]).name by {
                        assert(self@[i] == before[i]);
                        if j < before.len() {
                            assert(self@[j] == before[j]);
                        }
                    }
                }
                Ok(())
            },
        }
    }

    /// All registered rules, in the order in which they were registered.
    pub fn get_rules(&self) -> (out: Vec<Rule>)
        ensures
            rules_of(out@) == self@,
    {
        let mut out: Vec<Rule> = Vec::new();
        let mut k: usize = 0;
        while k < self.rules.len()
            invariant
                k <= self.rules.len(),
                out.len() == k,
                forall|i: int| 0 <= i < k ==> (#[trigger] out[i])@ == self.rules[i]@,
            decreases self.rules.len() - k,
        {
            out.push(self.rules[k].clone());
            k += 1;
        }
        assert(rules_of(out@) =~= self@);
        out
    }

    /// The rule registered under `name`.
    pub fn get_rule_by_name(&self, name: &str) -> (r: Result<Rule, RegistryError>)
        ensures
            match r {
                Ok(rule) => self@.contains(rule@) && rule@.name == name@,
                Err(RegistryError::UnknownRule(n)) => !has_rule(self@, name@) && n@ == name@,
                Err(_) => false,
            },
    {
        let wanted = name.to_owned();
        match self.position_of(&wanted) {
            Some(i) => {
                let rule = self.rules[i].clone();
                assert(self@[i as int] == rule@);
                Ok(rule)
            },
            None => Err(RegistryError::UnknownRule(wanted)),
        }
    }

    /// The rules that belong to the rule set `set`, in the order in which
    /// they were registered.
    pub fn get_rules_in_set(&self, set: &str) -> (out: Vec<Rule>)
        ensures
            rules_of(out@) == members(self@, set@),
    {
        let ghost all = self@;
        let mut out: Vec<Rule> = Vec::new();
        let mut k: usize = 0;
        assert(rules_of(out@) =~= members(all.subrange(0, 0), set@));
        while k < self.rules.len()
            invariant
                k <= self.rules.len(),
                all == self@,
                all == rules_of(self.rules@),
                rules_of(out@) == members(all.subrange(0, k as int), set@),
            decreases self.rules.len() - k,
        {
            proof {
                assert(all.subrange(0, k + 1).drop_last() =~= all.subrange(0, k as int));
                assert(all.subrange(0, k + 1).last() == self.rules[k as int]@);
            }
            if self.rules[k].is_member_of(set) {
                let ghost before = out@;
                let rule = self.rules[k].clone();
                out.push(rule);
                assert(rules_of(out@) =~= rules_of(before).push(rule@));
            }
            k += 1;
        }
        assert(all.subrange(0, k as int) =~= all);
        out
    }

    /// Whether some registered rule belongs to the rule set `set`.
    pub fn knows_rule_set(&self, set: &str) -> (r: bool)
        ensures
            r == has_rule_set(self@, set@),
    {
        let mut k: usize = 0;
        while k < self.rules.len()
            invariant
                k <= self.rules.len(),
                self@ == rules_of(self.rules@),
                forall|i: int| 0 <= i < k ==> !(#[trigger] self@[i]).member_of(set@),
            decreases self.rules.len() - k,
        {
            if self.rules[k].is_member_of(set) {
                assert(self@[k as int].member_of(set@));
                return true;
            }
            k += 1;
        }
        false
    }

    /// Number of registered rules.
    pub fn len(&self) -> (n: usize)
        ensures
            n == self@.len(),
    {
        self.rules.len()
    }

    /// The rule at index `i` in the order of registration.
    pub fn rule(&self, i: usize) -> (r: &Rule)
        requires
            i < self@.len(),
        ensures
            r@ == self@[i as int],
    {
        &self.rules[i]
    }
}

/// All rules of the catalogue.
pub fn get_rules() -> (out: Vec<Rule>)
    ensures
        rules_of(out@) == catalogue(),
{
    Registry::standard().get_rules()
}

/// The rule of the catalogue with the name `name`.
pub fn get_rule_by_name(name: &str) -> (r: Result<Rule, RegistryError>)
    ensures
        match r {
            Ok(rule) => catalogue().contains(rule@) && rule@.name == name@,
            Err(RegistryError::UnknownRule(n)) => !has_rule(catalogue(), name@) && n@ == name@,
            Err(_) => false,
        },
{
    Registry::standard().get_rule_by_name(name)
}

/// The rules of the catalogue that belong to the rule set `set`.
pub fn get_rules_in_set(set: &str) -> (out: Vec<Rule>)
    ensures
        rules_of(out@) == members(catalogue(), set@),
{
    Registry::standard().get_rules_in_set(set)
}

} // verus!
