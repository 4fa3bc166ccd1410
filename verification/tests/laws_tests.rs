// What holds of every rule and of every rewriting, tried on samples.

use std::collections::HashMap;

use conjure_core::ast::{Expression, Name};
use conjure_core::registry::get_rules;
use conjure_core::resolver::resolve_rule_sets;
use conjure_core::rewriter::{rewrite_expression, rewrite_once};
use conjure_core::solver::{SolverFamily, Variant};

#[derive(Clone, Copy, Debug, PartialEq)]
enum Value {
    Int(i64),
    Bool(bool),
}

type Valuation = HashMap<Name, Value>;

fn ints(xs: &[Expression], env: &Valuation) -> Option<Vec<i64>> {
    xs.iter()
        .map(|x| match value(x, env) {
            Some(Value::Int(i)) => Some(i),
            _ => None,
        })
        .collect()
}

fn bools(xs: &[Expression], env: &Valuation) -> Option<Vec<bool>> {
    xs.iter()
        .map(|x| match value(x, env) {
            Some(Value::Bool(b)) => Some(b),
            _ => None,
        })
        .collect()
}

fn two_ints(a: &Expression, b: &Expression, env: &Valuation) -> Option<(i64, i64)> {
    match (value(a, env), value(b, env)) {
        (Some(Value::Int(x)), Some(Value::Int(y))) => Some((x, y)),
        _ => None,
    }
}

fn value(e: &Expression, env: &Valuation) -> Option<Value> {
    Some(match e {
        Expression::ConstantInt(i) => Value::Int(i64::from(*i)),
        Expression::ConstantBool(b) => Value::Bool(*b),
        Expression::Reference(n) => *env.get(n)?,
        Expression::Sum(xs) => Value::Int(ints(xs, env)?.iter().sum()),
        Expression::Not(a) => match value(a, env)? {
            Value::Bool(b) => Value::Bool(!b),
            Value::Int(_) => return None,
        },
        Expression::Or(xs) => Value::Bool(bools(xs, env)?.iter().any(|b| *b)),
        Expression::And(xs) => Value::Bool(bools(xs, env)?.iter().all(|b| *b)),
        Expression::Eq(a, b) => match (value(a, env)?, value(b, env)?) {
            (Value::Int(x), Value::Int(y)) => Value::Bool(x == y),
            (Value::Bool(x), Value::Bool(y)) => Value::Bool(x == y),
            _ => return None,
        },
        Expression::Neq(a, b) => match (value(a, env)?, value(b, env)?) {
            (Value::Int(x), Value::Int(y)) => Value::Bool(x != y),
            (Value::Bool(x), Value::Bool(y)) => Value::Bool(x != y),
            _ => return None,
        },
        Expression::Geq(a, b) => two_ints(a, b, env).map(|(x, y)| Value::Bool(x >= y))?,
        Expression::Leq(a, b) => two_ints(a, b, env).map(|(x, y)| Value::Bool(x <= y))?,
        Expression::Gt(a, b) => two_ints(a, b, env).map(|(x, y)| Value::Bool(x > y))?,
        Expression::Lt(a, b) => two_ints(a, b, env).map(|(x, y)| Value::Bool(x < y))?,
        Expression::SumGeq(xs, b) => match value(b, env)? {
            Value::Int(y) => Value::Bool(ints(xs, env)?.iter().sum::<i64>() >= y),
            Value::Bool(_) => return None,
        },
        Expression::SumLeq(xs, b) => match value(b, env)? {
            Value::Int(y) => Value::Bool(ints(xs, env)?.iter().sum::<i64>() <= y),
            Value::Bool(_) => return None,
        },
        Expression::Ineq(a, b, c) => match (value(a, env)?, value(b, env)?, value(c, env)?) {
            (Value::Int(x), Value::Int(y), Value::Int(k)) => Value::Bool(x - y <= k),
            _ => return None,
        },
        _ => return None,
    })
}

fn i(name: &str) -> Expression {
    Expression::Reference(Name::UserName(String::from(name)))
}

fn b(n: i32) -> Expression {
    Expression::Reference(Name::MachineName(n))
}

fn k(v: i32) -> Expression {
    Expression::ConstantInt(v)
}

fn samples() -> Vec<Expression> {
    let t = || Expression::ConstantBool(true);
    let f = || Expression::ConstantBool(false);
    vec![
        Expression::Sum(vec![k(1), i("x"), k(-4), i("y"), k(9)]),
        Expression::Sum(vec![i("x")]),
        Expression::Sum(vec![Expression::Sum(vec![k(2), k(3)]), i("y")]),
        Expression::Lt(Box::new(i("x")), Box::new(i("y"))),
        Expression::Lt(Box::new(i("y")), Box::new(i("x"))),
        Expression::Lt(Box::new(i("x")), Box::new(i("x"))),
        Expression::Leq(
            Box::new(Expression::Sum(vec![i("x"), i("y"), k(1)])),
            Box::new(Expression::Sum(vec![k(2), k(3), k(-1)])),
        ),
        Expression::Geq(Box::new(Expression::Sum(vec![i("x"), k(3)])), Box::new(i("y"))),
        Expression::Geq(Box::new(Expression::Sum(vec![])), Box::new(i("y"))),
        Expression::Not(Box::new(Expression::Not(Box::new(b(1))))),
        Expression::Not(Box::new(Expression::And(vec![b(1), b(2), b(3)]))),
        Expression::Not(Box::new(Expression::Or(vec![b(1), b(2)]))),
        Expression::Not(Box::new(Expression::And(vec![]))),
        Expression::Or(vec![b(1), Expression::Or(vec![b(2), b(3)]), Expression::Or(vec![])]),
        Expression::And(vec![Expression::And(vec![b(1)]), b(2), Expression::And(vec![b(3), b(1)])]),
        Expression::Or(vec![b(1)]),
        Expression::And(vec![b(2)]),
        Expression::Or(vec![f(), b(1), f(), b(2)]),
        Expression::Or(vec![b(1), t(), b(2)]),
        Expression::Or(vec![f()]),
        Expression::And(vec![t(), b(1), b(2), t()]),
        Expression::And(vec![b(1), f()]),
        Expression::Or(vec![Expression::And(vec![b(1), b(2)]), b(3)]),
        Expression::Or(vec![b(3), Expression::And(vec![b(1), b(2)])]),
        Expression::Or(vec![Expression::And(vec![]), b(3)]),
        Expression::Or(vec![
            Expression::And(vec![b(1)]),
            Expression::And(vec![b(2), b(3)]),
        ]),
        Expression::And(vec![
            Expression::Not(Box::new(Expression::Or(vec![
                b(1),
                Expression::Lt(Box::new(i("x")), Box::new(k(2))),
            ]))),
            Expression::Or(vec![
                Expression::And(vec![b(2), b(3)]),
                Expression::Geq(Box::new(Expression::Sum(vec![i("x"), i("y")])), Box::new(k(0))),
            ]),
        ]),
    ]
}

fn valuations() -> Vec<Valuation> {
    let mut all = Vec::new();
    for x in [-3_i64, 0, 2] {
        for y in [-1_i64, 2, 7] {
            for bits in 0..8 {
                let mut env = Valuation::new();
                env.insert(Name::UserName(String::from("x")), Value::Int(x));
                env.insert(Name::UserName(String::from("y")), Value::Int(y));
                for n in 0..3 {
                    env.insert(Name::MachineName(n + 1), Value::Bool(bits & (1 << n) != 0));
                }
                all.push(env);
            }
        }
    }
    all
}

fn variants(e: &Expression) -> Vec<Variant> {
    let mut seen = Vec::new();
    for node in e.universe() {
        if !seen.contains(&node.variant()) {
            seen.push(node.variant());
        }
    }
    seen
}

#[test]
fn the_samples_have_values() {
    for env in valuations() {
        for e in samples() {
            assert!(value(&e, &env).is_some(), "{:?}", e);
        }
    }
}

#[test]
fn every_rule_keeps_the_value() {
    let mut applications = 0;
    for rule in get_rules() {
        for e in samples() {
            for node in e.universe() {
                if let Ok(out) = rule.apply(node) {
                    applications += 1;
                    for env in valuations() {
                        assert_eq!(
                            value(&out, &env),
                            value(node, &env),
                            "{} on {:?}",
                            rule.name,
                            node
                        );
                    }
                }
            }
        }
    }
    assert!(applications >= 30);
}

#[test]
fn rewriting_keeps_the_value() {
    let all = get_rules();
    for e in samples() {
        let done = rewrite_expression(&e, &all, 1000).unwrap();
        for env in valuations() {
            assert_eq!(value(&done.expression, &env), value(&e, &env), "{:?}", e);
        }
    }
}

#[test]
fn a_rule_brings_in_only_what_it_introduces() {
    for rule in get_rules() {
        for e in samples() {
            for node in e.universe() {
                if let Ok(out) = rule.apply(node) {
                    let before = variants(node);
                    for v in variants(&out) {
                        let rejected_somewhere = !SolverFamily::Minion.is_accepted(v)
                            || !SolverFamily::SAT.is_accepted(v);
                        let fits_everywhere = rule.kind.is_fit_for(SolverFamily::Minion)
                            && rule.kind.is_fit_for(SolverFamily::SAT);
                        if rejected_somewhere && fits_everywhere {
                            assert!(before.contains(&v), "{} brings in {:?}", rule.name, v);
                        }
                    }
                }
            }
        }
    }
}

#[test]
fn rewriting_for_a_family_brings_in_nothing_that_it_rejects() {
    let sets = vec![
        String::from("Base"),
        String::from("CNF"),
        String::from("Minion"),
    ];
    for family in [SolverFamily::Minion, SolverFamily::SAT] {
        let rules = resolve_rule_sets(family, &sets).unwrap();
        for e in samples() {
            let before = variants(&e);
            let done = rewrite_expression(&e, &rules, 1000).unwrap();
            for v in variants(&done.expression) {
                assert!(family.is_accepted(v) || before.contains(&v));
            }
        }
    }
}

#[test]
fn the_result_of_rewriting_is_a_fixed_point() {
    let all = get_rules();
    for e in samples() {
        let done = rewrite_expression(&e, &all, 1000).unwrap();
        assert!(rewrite_once(&done.expression, &all).is_none());
        for node in done.expression.universe() {
            for rule in &all {
                assert!(rule.apply(node).is_err());
            }
        }
        let again = rewrite_expression(&done.expression, &all, 0).unwrap();
        assert_eq!(again.expression, done.expression);
        assert!(again.fired.is_empty());
    }
}

#[test]
fn every_rewrite_changes_the_tree() {
    let all = get_rules();
    for e in samples() {
        let mut current = e;
        let mut steps = 0;
        while let Some(rw) = rewrite_once(&current, &all) {
            assert_ne!(rw.result, current);
            // The rewritten node is where the path says, and the rule
            // matches there.
            let node = current.at(&rw.path).unwrap();
            let replacement = all[rw.rule].apply(node).unwrap();
            assert_eq!(current.replace_at(&rw.path, replacement), rw.result);
            current = rw.result;
            steps += 1;
            assert!(steps < 1000);
        }
    }
}

fn weight(e: &Expression) -> usize {
    let own = if e.variant() == Variant::Lt { 2 } else { 1 };
    own + e.sub_expressions().into_iter().map(weight).sum::<usize>()
}

#[test]
fn shrinking_rules_need_no_more_rewrites_than_the_tree_weighs() {
    let sets = vec![String::from("Base"), String::from("Minion")];
    let rules = resolve_rule_sets(SolverFamily::Minion, &sets).unwrap();
    for e in samples() {
        let bound = weight(&e);
        let done = rewrite_expression(&e, &rules, bound).unwrap();
        assert!(done.fired.len() <= bound);
        assert!(weight(&done.expression) + done.fired.len() <= bound);
    }
    // A strict comparison weighs two: its rewrite removes no node.
    let lt = Expression::Lt(Box::new(k(1)), Box::new(k(2)));
    assert_eq!(weight(&lt), 4);
    let done = rewrite_expression(&lt, &rules, 1).unwrap();
    assert_eq!(weight(&done.expression), 3);
}

#[test]
fn rewriting_with_all_rules_comes_to_an_end() {
    let all = get_rules();
    for e in samples() {
        // Far fewer rewrites than the rank allows are needed.
        let done = rewrite_expression(&e, &all, 200).unwrap();
        assert!(done.fired.len() < 200);
    }
    // Distribution copies operands, yet comes to an end.
    let b = |n: i32| Expression::Reference(Name::MachineName(n));
    let and = |xs: Vec<Expression>| Expression::And(xs);
    let mut e = and(vec![b(1), b(2)]);
    for n in 0..6 {
        e = Expression::Or(vec![and(vec![b(10 + n), e]), b(20 + n)]);
    }
    let cnf = resolve_rule_sets(
        SolverFamily::SAT,
        &vec![String::from("Base"), String::from("CNF")],
    )
    .unwrap();
    let done = rewrite_expression(&Expression::Not(Box::new(e)), &cnf, 10000).unwrap();
    assert!(!done.fired.is_empty());
    assert!(rewrite_once(&done.expression, &cnf).is_none());
}

#[test]
fn whether_a_rule_matches_depends_on_the_node_and_its_children_only() {
    let all = get_rules();
    let mut matches = 0;
    for e in samples() {
        for node in e.universe() {
            // The same root and children, above other grandchildren.
            let children: Vec<Expression> = node
                .children()
                .into_iter()
                .map(|c| {
                    let blanks = vec![Expression::ConstantBool(false); c.arity()];
                    c.with_children(blanks).unwrap()
                })
                .collect();
            let other = node.with_children(children).unwrap();
            for rule in &all {
                assert_eq!(rule.apply(node).is_ok(), rule.apply(&other).is_ok());
                if rule.apply(node).is_ok() {
                    matches += 1;
                }
            }
        }
    }
    assert!(matches >= 30);
}
