// The fixed-point rewriter on single constraints and on models.

use conjure_core::ast::{DecisionVariable, Domain, Expression, Model, Name, Range};
use conjure_core::error::RewriteError;
use conjure_core::gate::validate_model;
use conjure_core::registry::get_rule_by_name;
use conjure_core::rewriter::{
    apply_first, rewrite_expression, rewrite_model, rewrite_model_traced, rewrite_model_within,
    rewrite_once, DEFAULT_MAX_REWRITES,
};
use conjure_core::rule::Rule;
use conjure_core::solver::SolverFamily;

fn rules(names: &[&str]) -> Vec<Rule> {
    names.iter().map(|n| get_rule_by_name(n).unwrap()).collect()
}

fn user(name: &str) -> Expression {
    Expression::Reference(Name::UserName(String::from(name)))
}

fn machine(i: i32) -> Expression {
    Expression::Reference(Name::MachineName(i))
}

fn ints(values: &[i32]) -> Vec<Expression> {
    values.iter().map(|i| Expression::ConstantInt(*i)).collect()
}

fn rewritten(e: &Expression, names: &[&str]) -> Expression {
    rewrite_expression(e, &rules(names), DEFAULT_MAX_REWRITES)
        .unwrap()
        .expression
}

#[test]
fn default_limit_is_ten_thousand() {
    assert_eq!(DEFAULT_MAX_REWRITES, 10000);
}

#[test]
fn sum_of_constants_collapses_to_a_constant() {
    let e = Expression::Sum(ints(&[1, 2, 3]));
    assert_eq!(
        rewritten(&e, &["sum_constants", "unwrap_sum"]),
        Expression::ConstantInt(6)
    );
}

#[test]
fn mixed_sum_keeps_other_operands_first() {
    let e = Expression::Sum(vec![
        Expression::ConstantInt(1),
        Expression::ConstantInt(2),
        user("a"),
    ]);
    assert_eq!(
        rewritten(&e, &["sum_constants"]),
        Expression::Sum(vec![user("a"), Expression::ConstantInt(3)])
    );
}

#[test]
fn geq_over_sum_is_flattened() {
    let e = Expression::Geq(
        Box::new(Expression::Sum(ints(&[1, 2]))),
        Box::new(Expression::ConstantInt(3)),
    );
    assert_eq!(
        rewritten(&e, &["flatten_sum_geq"]),
        Expression::SumGeq(ints(&[1, 2]), Box::new(Expression::ConstantInt(3)))
    );
}

#[test]
fn double_negation_is_removed() {
    let e = Expression::Not(Box::new(Expression::Not(Box::new(
        Expression::ConstantBool(true),
    ))));
    assert_eq!(
        rewritten(&e, &["remove_double_negation"]),
        Expression::ConstantBool(true)
    );
}

#[test]
fn or_is_distributed_over_and() {
    let e = Expression::Or(vec![
        Expression::And(vec![machine(1), machine(2)]),
        machine(3),
    ]);
    assert_eq!(
        rewritten(&e, &["distribute_or_over_and"]),
        Expression::And(vec![
            Expression::Or(vec![machine(3), machine(1)]),
            Expression::Or(vec![machine(3), machine(2)]),
        ])
    );
}

fn xyz_model() -> Model {
    let mut model = Model::new();
    for name in ["a", "b", "c"] {
        model.add_variable(
            Name::UserName(String::from(name)),
            DecisionVariable {
                domain: Domain::IntDomain(vec![Range::Bounded(1, 3)]),
            },
        );
    }
    model.add_constraint(Expression::Leq(
        Box::new(Expression::Sum(vec![user("a"), user("b"), user("c")])),
        Box::new(Expression::Sum(ints(&[2, 3, -1]))),
    ));
    model.add_constraint(Expression::Lt(Box::new(user("a")), Box::new(user("b"))));
    model
}

const XYZ_RULES: [&str; 4] = [
    "sum_constants",
    "unwrap_sum",
    "sum_leq_to_sumleq",
    "lt_to_ineq",
];

#[test]
fn full_model_is_rewritten_for_minion() {
    let model = xyz_model();
    let out = rewrite_model(&model, &rules(&XYZ_RULES)).unwrap();
    assert_eq!(
        *out.constraints(),
        vec![
            Expression::SumLeq(
                vec![user("a"), user("b"), user("c")],
                Box::new(Expression::ConstantInt(4))
            ),
            Expression::Ineq(
                Box::new(user("a")),
                Box::new(user("b")),
                Box::new(Expression::ConstantInt(-1))
            ),
        ]
    );
    assert_eq!(validate_model(&out, SolverFamily::Minion), Ok(()));
    // The variables are untouched.
    assert_eq!(
        out.get_variable(&Name::UserName(String::from("b"))),
        model.get_variable(&Name::UserName(String::from("b")))
    );
    assert_eq!(out.variable_names().len(), 3);
}

#[test]
fn rewriting_is_idempotent() {
    let model = xyz_model();
    let rs = rules(&XYZ_RULES);
    let once = rewrite_model(&model, &rs).unwrap();
    let twice = rewrite_model(&once, &rs).unwrap();
    assert_eq!(once, twice);
    // Not a single rewrite is left, so even a limit of none is enough.
    assert_eq!(rewrite_model_within(&once, &rs, 0), Ok(once.clone()));
}

#[test]
fn rewriting_is_deterministic() {
    let model = xyz_model();
    let rs = rules(&XYZ_RULES);
    assert_eq!(rewrite_model(&model, &rs), rewrite_model(&model, &rs));
}

#[test]
fn trace_lists_the_rules_in_firing_order() {
    let model = xyz_model();
    let rs = rules(&XYZ_RULES);
    let done = rewrite_model_traced(&model, &rs, 100).unwrap();
    // First constraint: the root is flattened, then the right-hand side is
    // folded and unwrapped. Second constraint: the strict comparison.
    assert_eq!(done.fired, vec![2, 0, 1, 3]);
}

#[test]
fn no_rules_make_the_rewriter_a_no_op() {
    let model = xyz_model();
    assert_eq!(rewrite_model(&model, &vec![]), Ok(model.clone()));
}

#[test]
fn empty_model_is_left_empty() {
    let model = Model::new();
    assert_eq!(rewrite_model(&model, &rules(&XYZ_RULES)), Ok(Model::new()));
}

#[test]
fn the_first_node_in_pre_order_is_rewritten_first() {
    // Both sums could be folded; the left one comes first in pre-order.
    let e = Expression::Eq(
        Box::new(Expression::Sum(ints(&[1, 2]))),
        Box::new(Expression::Sum(ints(&[3, 4]))),
    );
    let rw = rewrite_once(&e, &rules(&["sum_constants"])).unwrap();
    assert_eq!(rw.path, vec![0]);
    assert_eq!(rw.rule, 0);
    assert_eq!(
        rw.result,
        Expression::Eq(
            Box::new(Expression::Sum(ints(&[3]))),
            Box::new(Expression::Sum(ints(&[3, 4]))),
        )
    );
}

#[test]
fn a_parent_is_rewritten_before_its_children() {
    // unwrap_sum matches at the root, sum_constants only below it.
    let e = Expression::Sum(vec![Expression::Sum(ints(&[1, 2]))]);
    let rw = rewrite_once(&e, &rules(&["sum_constants", "unwrap_sum"])).unwrap();
    assert_eq!(rw.path, Vec::<usize>::new());
    assert_eq!(rw.rule, 1);
    assert_eq!(rw.result, Expression::Sum(ints(&[1, 2])));
}

#[test]
fn at_one_node_the_first_rule_of_the_sequence_wins() {
    let e = Expression::Or(vec![
        Expression::Or(vec![user("a")]),
        Expression::ConstantBool(false),
    ]);
    let first = rules(&["unwrap_nested_or", "remove_constants_from_or"]);
    let (i, x) = apply_first(&first, &e).unwrap();
    assert_eq!(i, 0);
    assert_eq!(
        x,
        Expression::Or(vec![user("a"), Expression::ConstantBool(false)])
    );
    let second = rules(&["remove_constants_from_or", "unwrap_nested_or"]);
    let (i, x) = apply_first(&second, &e).unwrap();
    assert_eq!(i, 0);
    assert_eq!(x, Expression::Or(vec![Expression::Or(vec![user("a")])]));
    assert_eq!(apply_first(&second, &user("a")), None);
}

#[test]
fn rewrite_once_at_a_fixed_point_does_nothing() {
    let e = Expression::Sum(vec![user("a"), Expression::ConstantInt(1)]);
    assert!(rewrite_once(&e, &rules(&["sum_constants", "unwrap_sum"])).is_none());
}

#[test]
fn running_out_of_rewrites_names_the_rule_that_is_due() {
    let e = Expression::Sum(ints(&[1, 2, 3]));
    let rs = rules(&["sum_constants", "unwrap_sum"]);
    // Two rewrites are needed.
    assert_eq!(
        rewrite_expression(&e, &rs, 2).unwrap().expression,
        Expression::ConstantInt(6)
    );
    assert_eq!(
        rewrite_expression(&e, &rs, 1).unwrap_err(),
        RewriteError::RewriterDidNotConverge(String::from("unwrap_sum"), 0)
    );
    assert_eq!(
        rewrite_expression(&e, &rs, 0).unwrap_err(),
        RewriteError::RewriterDidNotConverge(String::from("sum_constants"), 0)
    );
}

#[test]
fn the_error_holds_the_depth_of_the_node() {
    let e = Expression::Not(Box::new(Expression::Eq(
        Box::new(user("a")),
        Box::new(Expression::Sum(ints(&[1, 2]))),
    )));
    assert_eq!(
        rewrite_expression(&e, &rules(&["sum_constants"]), 0).unwrap_err(),
        RewriteError::RewriterDidNotConverge(String::from("sum_constants"), 2)
    );
}

#[test]
fn the_first_constraint_that_fails_decides_the_error() {
    let mut model = Model::new();
    model.add_constraint(user("a"));
    model.add_constraint(Expression::Lt(Box::new(user("a")), Box::new(user("b"))));
    model.add_constraint(Expression::Sum(ints(&[1, 2])));
    let rs = rules(&["sum_constants", "lt_to_ineq"]);
    assert_eq!(
        rewrite_model_within(&model, &rs, 0),
        Err(RewriteError::RewriterDidNotConverge(
            String::from("lt_to_ineq"),
            0
        ))
    );
    assert!(rewrite_model_within(&model, &rs, 1).is_ok());
}

#[test]
fn constraints_keep_their_order() {
    let mut model = Model::new();
    model.add_constraint(Expression::Sum(ints(&[1, 2])));
    model.add_constraint(user("x"));
    model.add_constraint(Expression::Sum(ints(&[5, 5])));
    let out = rewrite_model(&model, &rules(&["sum_constants", "unwrap_sum"])).unwrap();
    assert_eq!(
        *out.constraints(),
        vec![
            Expression::ConstantInt(3),
            user("x"),
            Expression::ConstantInt(10)
        ]
    );
}
