// Nodes in pre-order, paths, and replacement in place.

use conjure_core::ast::{Expression, Name};
use conjure_core::gate::Rejected;
use conjure_core::solver::SolverFamily;

fn m(i: i32) -> Expression {
    Expression::Reference(Name::MachineName(i))
}

fn sample() -> Expression {
    // Eq(Sum([m1, Not(m2)]), SumGeq([m3], m4))
    Expression::Eq(
        Box::new(Expression::Sum(vec![m(1), Expression::Not(Box::new(m(2)))])),
        Box::new(Expression::SumGeq(vec![m(3)], Box::new(m(4)))),
    )
}

#[test]
fn universe_is_pre_order() {
    let e = sample();
    let nodes: Vec<Expression> = e.universe().into_iter().cloned().collect();
    assert_eq!(
        nodes,
        vec![
            e.clone(),
            Expression::Sum(vec![m(1), Expression::Not(Box::new(m(2)))]),
            m(1),
            Expression::Not(Box::new(m(2))),
            m(2),
            Expression::SumGeq(vec![m(3)], Box::new(m(4))),
            m(3),
            m(4),
        ]
    );
}

#[test]
fn universe_of_a_leaf_is_the_leaf() {
    let e = Expression::ConstantInt(7);
    assert_eq!(e.universe(), vec![&e]);
}

#[test]
fn at_follows_child_indices() {
    let e = sample();
    assert_eq!(e.at(&vec![]), Some(&e));
    assert_eq!(e.at(&vec![0, 1, 0]), Some(&m(2)));
    assert_eq!(e.at(&vec![1, 1]), Some(&m(4)));
    assert_eq!(e.at(&vec![1, 2]), None);
    assert_eq!(e.at(&vec![0, 0, 0]), None);
}

#[test]
fn replace_at_rebuilds_up_to_the_root() {
    let e = sample();
    assert_eq!(
        e.replace_at(&vec![0, 1], Expression::ConstantBool(true)),
        Expression::Eq(
            Box::new(Expression::Sum(vec![m(1), Expression::ConstantBool(true)])),
            Box::new(Expression::SumGeq(vec![m(3)], Box::new(m(4)))),
        )
    );
    assert_eq!(e.replace_at(&vec![], m(9)), m(9));
}

#[test]
fn replace_at_a_path_that_leads_nowhere_changes_nothing() {
    let e = sample();
    assert_eq!(e.replace_at(&vec![2], m(9)), e);
    assert_eq!(e.replace_at(&vec![0, 0, 0], m(9)), e);
}

#[test]
fn find_first_returns_the_first_node_in_pre_order() {
    let e = sample();
    // Minion rejects Eq, the root.
    assert_eq!(
        e.find_first(&Rejected { family: SolverFamily::Minion }),
        Some(vec![])
    );
    // Below the root, the first node that the SAT family rejects is m1.
    let sum = Expression::And(vec![
        Expression::Not(Box::new(Expression::ConstantInt(1))),
        Expression::Or(vec![Expression::ConstantInt(2), m(1)]),
        m(2),
    ]);
    assert_eq!(
        sum.find_first(&Rejected { family: SolverFamily::SAT }),
        Some(vec![1, 1])
    );
    let fine = Expression::And(vec![Expression::ConstantInt(1)]);
    assert_eq!(fine.find_first(&Rejected { family: SolverFamily::SAT }), None);
}
