// Models: variables, constraints, equality and the check on entry.

use conjure_core::ast::{DecisionVariable, Domain, Expression, Model, Name, Range};
use conjure_core::error::ModelError;

fn user(name: &str) -> Name {
    Name::UserName(String::from(name))
}

fn int_var(lo: i32, hi: i32) -> DecisionVariable {
    DecisionVariable {
        domain: Domain::IntDomain(vec![Range::Bounded(lo, hi)]),
    }
}

fn bool_var() -> DecisionVariable {
    DecisionVariable::new(Domain::BoolDomain)
}

#[test]
fn new_model_is_empty() {
    let model = Model::new();
    assert!(model.constraints().is_empty());
    assert!(model.variable_names().is_empty());
    assert_eq!(model.get_variable(&user("a")), None);
    assert_eq!(model, Model::default());
}

#[test]
fn add_variable_inserts_or_overwrites() {
    let mut model = Model::new();
    model.add_variable(user("a"), int_var(1, 3));
    model.add_variable(Name::MachineName(1), bool_var());
    assert_eq!(model.get_variable(&user("a")), Some(&int_var(1, 3)));
    assert_eq!(model.get_variable(&Name::MachineName(1)), Some(&bool_var()));
    assert_eq!(model.get_variable(&Name::MachineName(2)), None);
    model.add_variable(user("a"), bool_var());
    assert_eq!(model.get_variable(&user("a")), Some(&bool_var()));
    assert_eq!(model.variable_names().len(), 2);
}

#[test]
fn user_and_machine_names_are_different_keys() {
    let mut model = Model::new();
    model.add_variable(user("1"), int_var(1, 1 + 1));
    assert_eq!(model.get_variable(&Name::MachineName(1)), None);
    assert_ne!(user("1"), Name::MachineName(1));
    assert_eq!(user("1"), user("1"));
    assert_ne!(user("a"), user("A"));
    assert_ne!(Name::MachineName(1), Name::MachineName(-1));
}

#[test]
fn update_domain_changes_a_declared_variable_only() {
    let mut model = Model::new();
    model.add_variable(user("a"), int_var(1, 3));
    model.update_domain(&user("a"), Domain::BoolDomain);
    assert_eq!(model.get_variable(&user("a")), Some(&bool_var()));
    let before = model.clone();
    model.update_domain(&user("b"), Domain::BoolDomain);
    assert_eq!(model, before);
    assert_eq!(model.get_variable(&user("b")), None);
}

#[test]
fn add_constraint_appends() {
    let mut model = Model::new();
    model.add_constraint(Expression::ConstantBool(true));
    model.add_constraint(Expression::ConstantInt(1));
    model.add_constraint(Expression::ConstantBool(true));
    assert_eq!(
        *model.constraints(),
        vec![
            Expression::ConstantBool(true),
            Expression::ConstantInt(1),
            Expression::ConstantBool(true)
        ]
    );
}

#[test]
fn equality_ignores_the_order_of_declaration() {
    let mut one = Model::new();
    one.add_variable(user("a"), int_var(1, 3));
    one.add_variable(user("b"), bool_var());
    let mut other = Model::new();
    other.add_variable(user("b"), int_var(0, 9));
    other.add_variable(user("a"), int_var(1, 3));
    assert_ne!(one, other);
    other.add_variable(user("b"), bool_var());
    assert_eq!(one, other);
    other.add_variable(user("c"), bool_var());
    assert_ne!(one, other);
    assert_ne!(other, one);
}

#[test]
fn equality_heeds_the_order_of_constraints() {
    let mut one = Model::new();
    one.add_constraint(Expression::ConstantInt(1));
    one.add_constraint(Expression::ConstantInt(2));
    let mut other = Model::new();
    other.add_constraint(Expression::ConstantInt(2));
    other.add_constraint(Expression::ConstantInt(1));
    assert_ne!(one, other);
}

#[test]
fn with_constraints_keeps_the_variables() {
    let mut model = Model::new();
    model.add_variable(user("a"), int_var(1, 3));
    model.add_constraint(Expression::ConstantInt(1));
    let other = model.with_constraints(vec![Expression::ConstantBool(false)]);
    assert_eq!(*other.constraints(), vec![Expression::ConstantBool(false)]);
    assert_eq!(other.get_variable(&user("a")), Some(&int_var(1, 3)));
    assert_eq!(other.variable_names(), vec![user("a")]);
}

#[test]
fn a_sound_model_passes_the_check_on_entry() {
    let mut model = Model::new();
    model.add_variable(user("a"), int_var(1, 3));
    model.add_variable(user("flag"), bool_var());
    model.add_constraint(Expression::Eq(
        Box::new(Expression::Reference(user("a"))),
        Box::new(Expression::Not(Box::new(Expression::Reference(user("flag"))))),
    ));
    assert_eq!(model.validate(), Ok(()));
    assert_eq!(Model::new().validate(), Ok(()));
}

#[test]
fn an_undeclared_reference_is_reported() {
    let mut model = Model::new();
    model.add_variable(user("a"), int_var(1, 3));
    model.add_constraint(Expression::Reference(user("a")));
    model.add_constraint(Expression::Sum(vec![
        Expression::Reference(user("a")),
        Expression::Not(Box::new(Expression::Reference(Name::MachineName(4)))),
        Expression::Reference(user("b")),
    ]));
    model.add_constraint(Expression::Reference(user("c")));
    assert_eq!(
        model.validate(),
        Err(ModelError::UndeclaredReference(Name::MachineName(4)))
    );
}

#[test]
fn an_empty_or_unordered_domain_is_reported() {
    let mut model = Model::new();
    model.add_variable(user("a"), int_var(1, 3));
    model.add_variable(user("e"), DecisionVariable::new(Domain::IntDomain(vec![])));
    assert_eq!(model.validate(), Err(ModelError::DomainMismatch(user("e"))));
    model.update_domain(&user("e"), Domain::IntDomain(vec![Range::Single(1)]));
    assert_eq!(model.validate(), Ok(()));
    model.update_domain(&user("e"), Domain::IntDomain(vec![Range::Bounded(3, 3)]));
    assert_eq!(model.validate(), Ok(()));
    model.update_domain(
        &user("a"),
        Domain::IntDomain(vec![Range::Bounded(5, 9), Range::Bounded(1, 3)]),
    );
    assert_eq!(model.validate(), Err(ModelError::DomainMismatch(user("a"))));
}

#[test]
fn a_bad_domain_is_reported_before_a_bad_reference() {
    let mut model = Model::new();
    model.add_constraint(Expression::Reference(user("nowhere")));
    model.add_variable(user("a"), int_var(3, 1));
    assert_eq!(model.validate(), Err(ModelError::DomainMismatch(user("a"))));
}
