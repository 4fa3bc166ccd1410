// Text forms.

use conjure_core::ast::{DecisionVariable, Domain, Expression, Name, Range};
use conjure_core::display::{decimal_string, display_expressions, range_string};

fn user(name: &str) -> Expression {
    Expression::Reference(Name::UserName(String::from(name)))
}

#[test]
fn decimal_agrees_with_the_standard_library() {
    for i in [
        0,
        1,
        -1,
        9,
        10,
        11,
        99,
        100,
        101,
        -10,
        12345,
        -9876,
        1000000,
        i32::MAX,
        i32::MIN,
        i32::MIN + 1,
    ] {
        assert_eq!(decimal_string(i), format!("{}", i));
    }
    assert_eq!(decimal_string(-2147483648), "-2147483648");
    assert_eq!(decimal_string(2147483647), "2147483647");
    assert_eq!(decimal_string(7), "7");
}

#[test]
fn names() {
    assert_eq!(Name::UserName(String::from("a")).display(), "UserName(a)");
    assert_eq!(Name::UserName(String::new()).display(), "UserName()");
    assert_eq!(Name::MachineName(17).display(), "MachineName(17)");
    assert_eq!(Name::MachineName(-3).display(), "MachineName(-3)");
}

#[test]
fn ranges_and_decision_variables() {
    assert_eq!(range_string(&Range::Single(5)), "5");
    assert_eq!(range_string(&Range::Bounded(-1, 3)), "-1..3");
    assert_eq!(DecisionVariable::new(Domain::BoolDomain).display(), "bool");
    assert_eq!(DecisionVariable::new(Domain::IntDomain(vec![])).display(), "");
    assert_eq!(
        DecisionVariable::new(Domain::IntDomain(vec![Range::Bounded(1, 3)])).display(),
        "1..3"
    );
    assert_eq!(
        DecisionVariable::new(Domain::IntDomain(vec![
            Range::Bounded(1, 3),
            Range::Single(5),
            Range::Bounded(7, 10)
        ]))
        .display(),
        "1..3 or 5 or 7..10"
    );
}

#[test]
fn lists_of_up_to_three_operands_are_written_out() {
    assert_eq!(display_expressions(&vec![]), "Sum()");
    assert_eq!(
        display_expressions(&vec![Expression::ConstantInt(1)]),
        "Sum(ConstantInt(1))"
    );
    assert_eq!(
        display_expressions(&vec![
            Expression::ConstantInt(1),
            Expression::ConstantBool(false),
            Expression::ConstantInt(3)
        ]),
        "Sum(ConstantInt(1), ConstantBool(false), ConstantInt(3))"
    );
}

#[test]
fn longer_lists_are_abridged() {
    assert_eq!(
        display_expressions(&vec![
            Expression::ConstantInt(1),
            Expression::ConstantInt(2),
            Expression::ConstantInt(3),
            Expression::ConstantInt(4)
        ]),
        "Sum(ConstantInt(1)..ConstantInt(4))"
    );
}

#[test]
fn expressions() {
    assert_eq!(Expression::ConstantInt(-5).display(), "ConstantInt(-5)");
    assert_eq!(Expression::ConstantBool(true).display(), "ConstantBool(true)");
    assert_eq!(user("x").display(), "Reference(UserName(x))");
    assert_eq!(
        Expression::Not(Box::new(user("x"))).display(),
        "Not(Reference(UserName(x)))"
    );
    assert_eq!(
        Expression::Sum(vec![Expression::ConstantInt(1), Expression::ConstantInt(2)]).display(),
        "Sum(Sum(ConstantInt(1), ConstantInt(2)))"
    );
    assert_eq!(
        Expression::Or(vec![Expression::ConstantBool(true)]).display(),
        "Or(Sum(ConstantBool(true)))"
    );
    assert_eq!(Expression::And(vec![]).display(), "And(Sum())");
    let one = || Box::new(Expression::ConstantInt(1));
    let two = || Box::new(Expression::ConstantInt(2));
    assert_eq!(
        Expression::Eq(one(), two()).display(),
        "Eq(ConstantInt(1), ConstantInt(2))"
    );
    assert_eq!(
        Expression::Neq(one(), two()).display(),
        "Neq(ConstantInt(1), ConstantInt(2))"
    );
    assert_eq!(
        Expression::Geq(one(), two()).display(),
        "Geq(ConstantInt(1), ConstantInt(2))"
    );
    assert_eq!(
        Expression::Leq(one(), two()).display(),
        "Leq(ConstantInt(1), ConstantInt(2))"
    );
    assert_eq!(
        Expression::Gt(one(), two()).display(),
        "Gt(ConstantInt(1), ConstantInt(2))"
    );
    assert_eq!(
        Expression::Lt(one(), two()).display(),
        "Lt(ConstantInt(1), ConstantInt(2))"
    );
    assert_eq!(
        Expression::SumGeq(vec![user("a")], two()).display(),
        "SumGeq(Sum(Reference(UserName(a))), ConstantInt(2))"
    );
    assert_eq!(
        Expression::SumLeq(vec![], two()).display(),
        "SumLeq(Sum(), ConstantInt(2))"
    );
    assert_eq!(
        Expression::Ineq(one(), two(), Box::new(Expression::ConstantInt(-1))).display(),
        "Ineq(ConstantInt(1), ConstantInt(2), ConstantInt(-1))"
    );
}
