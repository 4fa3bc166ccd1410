// The solver-family gate.

use conjure_core::ast::{Expression, Model, Name};
use conjure_core::gate::{validate_expression, validate_model, GateError};
use conjure_core::solver::{SolverFamily, Variant};

fn reference(i: i32) -> Expression {
    Expression::Reference(Name::MachineName(i))
}

fn one_of_each() -> Vec<(Expression, Variant)> {
    let x = || Box::new(Expression::ConstantInt(0));
    vec![
        (Expression::ConstantInt(0), Variant::ConstantInt),
        (Expression::ConstantBool(true), Variant::ConstantBool),
        (reference(1), Variant::Reference),
        (Expression::Sum(vec![]), Variant::Sum),
        (Expression::Not(x()), Variant::Not),
        (Expression::Or(vec![]), Variant::Or),
        (Expression::And(vec![]), Variant::And),
        (Expression::Eq(x(), x()), Variant::Eq),
        (Expression::Neq(x(), x()), Variant::Neq),
        (Expression::Geq(x(), x()), Variant::Geq),
        (Expression::Leq(x(), x()), Variant::Leq),
        (Expression::Gt(x(), x()), Variant::Gt),
        (Expression::Lt(x(), x()), Variant::Lt),
        (Expression::SumGeq(vec![], x()), Variant::SumGeq),
        (Expression::SumLeq(vec![], x()), Variant::SumLeq),
        (Expression::Ineq(x(), x(), x()), Variant::Ineq),
    ]
}

#[test]
fn every_expression_knows_its_variant() {
    for (e, v) in one_of_each() {
        assert_eq!(e.variant(), v);
    }
}

#[test]
fn minion_accepts_its_five_variants() {
    let accepted: Vec<Variant> = one_of_each()
        .into_iter()
        .map(|(_, v)| v)
        .filter(|v| SolverFamily::Minion.is_accepted(*v))
        .collect();
    assert_eq!(
        accepted,
        vec![
            Variant::ConstantInt,
            Variant::Reference,
            Variant::SumGeq,
            Variant::SumLeq,
            Variant::Ineq
        ]
    );
}

#[test]
fn sat_accepts_its_four_variants() {
    let accepted: Vec<Variant> = one_of_each()
        .into_iter()
        .map(|(_, v)| v)
        .filter(|v| SolverFamily::SAT.is_accepted(*v))
        .collect();
    assert_eq!(
        accepted,
        vec![
            Variant::ConstantInt,
            Variant::Not,
            Variant::Or,
            Variant::And
        ]
    );
}

#[test]
fn an_accepted_tree_passes() {
    let e = Expression::SumLeq(
        vec![reference(1), Expression::ConstantInt(2)],
        Box::new(reference(3)),
    );
    assert_eq!(validate_expression(&e, SolverFamily::Minion), Ok(()));
    let e = Expression::And(vec![
        Expression::Not(Box::new(Expression::ConstantInt(1))),
        Expression::Or(vec![]),
    ]);
    assert_eq!(validate_expression(&e, SolverFamily::SAT), Ok(()));
}

#[test]
fn the_first_rejected_node_is_reported_with_its_path() {
    let e = Expression::SumLeq(
        vec![
            reference(1),
            Expression::Ineq(
                Box::new(reference(2)),
                Box::new(Expression::Sum(vec![Expression::ConstantBool(true)])),
                Box::new(Expression::ConstantInt(0)),
            ),
        ],
        Box::new(Expression::Not(Box::new(reference(3)))),
    );
    assert_eq!(
        validate_expression(&e, SolverFamily::Minion),
        Err(GateError::UnsupportedExpression(
            Variant::Sum,
            SolverFamily::Minion,
            vec![1, 1]
        ))
    );
    assert_eq!(
        validate_expression(&e, SolverFamily::SAT),
        Err(GateError::UnsupportedExpression(
            Variant::SumLeq,
            SolverFamily::SAT,
            vec![]
        ))
    );
}

#[test]
fn a_model_is_checked_constraint_by_constraint() {
    let mut model = Model::new();
    assert_eq!(validate_model(&model, SolverFamily::SAT), Ok(()));
    model.add_constraint(Expression::ConstantInt(1));
    model.add_constraint(Expression::Or(vec![
        Expression::ConstantInt(1),
        Expression::ConstantBool(false),
    ]));
    model.add_constraint(reference(1));
    assert_eq!(
        validate_model(&model, SolverFamily::SAT),
        Err(GateError::UnsupportedExpression(
            Variant::ConstantBool,
            SolverFamily::SAT,
            vec![1, 1]
        ))
    );
    assert_eq!(
        validate_model(&model, SolverFamily::Minion),
        Err(GateError::UnsupportedExpression(
            Variant::Or,
            SolverFamily::Minion,
            vec![1]
        ))
    );
}
