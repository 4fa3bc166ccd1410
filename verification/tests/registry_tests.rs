// The rule registry and the rule-set resolver.

use conjure_core::error::{RegistryError, ResolveError};
use conjure_core::registry::{get_rule_by_name, get_rules, get_rules_in_set, Registry};
use conjure_core::resolver::resolve_rule_sets;
use conjure_core::rule::{Rule, RuleKind};
use conjure_core::solver::SolverFamily;

fn names(rules: &[Rule]) -> Vec<&str> {
    rules.iter().map(|r| r.name.as_str()).collect()
}

fn sets(names: &[&str]) -> Vec<String> {
    names.iter().map(|n| String::from(*n)).collect()
}

#[test]
fn catalogue_holds_the_fifteen_rules() {
    assert_eq!(
        names(&get_rules()),
        vec![
            "sum_constants",
            "unwrap_sum",
            "lt_to_ineq",
            "sum_leq_to_sumleq",
            "flatten_sum_geq",
            "remove_double_negation",
            "unwrap_nested_or",
            "unwrap_nested_and",
            "remove_trivial_and",
            "remove_trivial_or",
            "remove_constants_from_or",
            "remove_constants_from_and",
            "distribute_not_over_and",
            "distribute_not_over_or",
            "distribute_or_over_and",
        ]
    );
}

#[test]
fn rule_names_are_unique() {
    let rules = get_rules();
    for (i, a) in rules.iter().enumerate() {
        for b in &rules[i + 1..] {
            assert_ne!(a.name, b.name);
        }
    }
}

#[test]
fn lookup_by_name_finds_the_rule() {
    let rule = get_rule_by_name("lt_to_ineq").unwrap();
    assert_eq!(rule.name, "lt_to_ineq");
    assert_eq!(rule.kind, RuleKind::LtToIneq);
    assert_eq!(rule.priority, 50);
    assert_eq!(rule.rule_sets, vec![String::from("Minion")]);
    let rule = get_rule_by_name("sum_constants").unwrap();
    assert_eq!(rule.kind, RuleKind::SumConstants);
    assert_eq!(rule.priority, 100);
    assert_eq!(rule.rule_sets, vec![String::from("Base")]);
}

#[test]
fn lookup_of_an_unknown_name_fails() {
    assert_eq!(
        get_rule_by_name("no_such_rule").unwrap_err(),
        RegistryError::UnknownRule(String::from("no_such_rule"))
    );
    assert_eq!(
        get_rule_by_name("").unwrap_err(),
        RegistryError::UnknownRule(String::new())
    );
    assert_eq!(
        get_rule_by_name("Sum_constants").unwrap_err(),
        RegistryError::UnknownRule(String::from("Sum_constants"))
    );
}

#[test]
fn lookup_by_rule_set_keeps_the_order_of_registration() {
    assert_eq!(
        names(&get_rules_in_set("Minion")),
        vec!["lt_to_ineq", "sum_leq_to_sumleq", "flatten_sum_geq"]
    );
    assert_eq!(
        names(&get_rules_in_set("CNF")),
        vec![
            "distribute_not_over_and",
            "distribute_not_over_or",
            "distribute_or_over_and"
        ]
    );
    assert_eq!(get_rules_in_set("Base").len(), 9);
    assert!(get_rules_in_set("Nothing").is_empty());
}

#[test]
fn a_new_registry_is_empty() {
    let registry = Registry::new();
    assert_eq!(registry.len(), 0);
    assert!(registry.get_rules().is_empty());
    assert!(!registry.knows_rule_set("Base"));
}

#[test]
fn registering_a_name_twice_is_refused() {
    let mut registry = Registry::new();
    assert_eq!(
        registry.register(Rule::new("fold", RuleKind::SumConstants, 1).in_set("A")),
        Ok(())
    );
    assert_eq!(
        registry.register(Rule::new("fold", RuleKind::UnwrapSum, 2).in_set("B")),
        Err(RegistryError::DuplicateRule(String::from("fold")))
    );
    assert_eq!(registry.len(), 1);
    assert_eq!(registry.rule(0).kind, RuleKind::SumConstants);
    assert!(registry.knows_rule_set("A"));
    assert!(!registry.knows_rule_set("B"));
    // The same rewrite under another name is welcome.
    assert_eq!(
        registry.register(Rule::new("fold_again", RuleKind::SumConstants, 1)),
        Ok(())
    );
    assert_eq!(names(&registry.get_rules()), vec!["fold", "fold_again"]);
}

#[test]
fn the_standard_registry_refuses_the_names_of_the_catalogue() {
    let mut registry = Registry::standard();
    assert_eq!(registry.len(), 15);
    assert_eq!(
        registry.register(Rule::new("unwrap_sum", RuleKind::UnwrapSum, 1)),
        Err(RegistryError::DuplicateRule(String::from("unwrap_sum")))
    );
    assert_eq!(registry.len(), 15);
}

#[test]
fn resolution_for_minion_sorts_by_priority_then_name() {
    let rules = resolve_rule_sets(SolverFamily::Minion, &sets(&["Minion", "Base"])).unwrap();
    assert_eq!(
        names(&rules),
        vec![
            "remove_constants_from_and",
            "remove_constants_from_or",
            "remove_double_negation",
            "remove_trivial_and",
            "remove_trivial_or",
            "sum_constants",
            "unwrap_nested_and",
            "unwrap_nested_or",
            "unwrap_sum",
            "flatten_sum_geq",
            "lt_to_ineq",
            "sum_leq_to_sumleq",
        ]
    );
}

#[test]
fn resolution_does_not_depend_on_the_order_of_the_request() {
    let a = resolve_rule_sets(SolverFamily::Minion, &sets(&["Minion", "Base"])).unwrap();
    let b = resolve_rule_sets(SolverFamily::Minion, &sets(&["Base", "Minion", "Base"])).unwrap();
    assert_eq!(names(&a), names(&b));
}

#[test]
fn resolution_leaves_out_what_the_family_does_not_accept() {
    // The rules of the rule set Minion introduce SumGeq, SumLeq and Ineq.
    let rules = resolve_rule_sets(SolverFamily::SAT, &sets(&["Minion"])).unwrap();
    assert!(rules.is_empty());
    // Of the rule set CNF, Minion takes the one rule that introduces nothing.
    let rules = resolve_rule_sets(SolverFamily::Minion, &sets(&["CNF"])).unwrap();
    assert_eq!(names(&rules), vec!["distribute_or_over_and"]);
    let rules = resolve_rule_sets(SolverFamily::SAT, &sets(&["CNF"])).unwrap();
    assert_eq!(
        names(&rules),
        vec![
            "distribute_not_over_and",
            "distribute_not_over_or",
            "distribute_or_over_and"
        ]
    );
}

#[test]
fn resolution_of_no_rule_set_is_empty() {
    assert_eq!(
        resolve_rule_sets(SolverFamily::Minion, &vec![]).map(|r| r.len()),
        Ok(0)
    );
}

#[test]
fn resolution_fails_with_the_first_unknown_rule_set() {
    assert_eq!(
        resolve_rule_sets(SolverFamily::Minion, &sets(&["Base", "Bubble", "Constant"]))
            .unwrap_err(),
        ResolveError::UnknownRuleSet(String::from("Bubble"))
    );
    assert_eq!(
        resolve_rule_sets(SolverFamily::SAT, &sets(&["base"])).unwrap_err(),
        ResolveError::UnknownRuleSet(String::from("base"))
    );
}

#[test]
fn resolution_removes_duplicates_and_honours_priorities() {
    let mut registry = Registry::new();
    let both = Rule::new("m", RuleKind::UnwrapSum, 5).in_set("X").in_set("Y");
    registry.register(both).unwrap();
    registry
        .register(Rule::new("a", RuleKind::SumConstants, 1).in_set("X"))
        .unwrap();
    registry
        .register(Rule::new("z", RuleKind::RemoveTrivialOr, 9).in_set("Y"))
        .unwrap();
    registry
        .register(Rule::new("b", RuleKind::RemoveTrivialAnd, 5).in_set("Y"))
        .unwrap();
    registry
        .register(Rule::new("unused", RuleKind::LtToIneq, 99).in_set("Z"))
        .unwrap();
    let rules = registry
        .resolve(SolverFamily::SAT, &sets(&["X", "Y"]))
        .unwrap();
    assert_eq!(names(&rules), vec!["z", "b", "m", "a"]);
    let rules = registry.resolve(SolverFamily::SAT, &sets(&["Z"])).unwrap();
    assert!(rules.is_empty());
    let rules = registry.resolve(SolverFamily::Minion, &sets(&["Z"])).unwrap();
    assert_eq!(names(&rules), vec!["unused"]);
}
