// Traversals built on children and with_children.

use conjure_core::ast::{Expression, Name};
use conjure_core::registry::get_rule_by_name;
use conjure_core::rule::Rule;
use conjure_core::traversal::{Attempt, Transformation};

fn rules(names: &[&str]) -> Vec<Rule> {
    names.iter().map(|n| get_rule_by_name(n).unwrap()).collect()
}

fn sum(values: &[i32]) -> Expression {
    Expression::Sum(values.iter().map(|i| Expression::ConstantInt(*i)).collect())
}

#[test]
fn an_attempt_rewrites_where_a_rule_matches() {
    let rs = rules(&["sum_constants", "unwrap_sum"]);
    let attempt = Attempt { rules: &rs };
    assert_eq!(attempt.apply(sum(&[1, 2])), sum(&[3]));
    assert_eq!(attempt.apply(sum(&[3])), Expression::ConstantInt(3));
    assert_eq!(
        attempt.apply(Expression::ConstantInt(3)),
        Expression::ConstantInt(3)
    );
}

#[test]
fn descend_transforms_the_children_only() {
    let rs = rules(&["unwrap_sum"]);
    let attempt = Attempt { rules: &rs };
    // The root would match, but only its children are looked at.
    let e = Expression::Sum(vec![sum(&[7])]);
    assert_eq!(
        e.descend(&attempt),
        Expression::Sum(vec![Expression::ConstantInt(7)])
    );
    let e = Expression::Eq(Box::new(sum(&[1])), Box::new(sum(&[2, 3])));
    assert_eq!(
        e.descend(&attempt),
        Expression::Eq(Box::new(Expression::ConstantInt(1)), Box::new(sum(&[2, 3])))
    );
    // Grandchildren are out of reach.
    let e = Expression::Not(Box::new(Expression::Not(Box::new(sum(&[1])))));
    assert_eq!(e.descend(&attempt), e);
    let leaf = Expression::Reference(Name::MachineName(1));
    assert_eq!(leaf.descend(&attempt), leaf);
}

#[test]
fn transform_works_bottom_up() {
    let rs = rules(&["sum_constants", "unwrap_sum"]);
    let attempt = Attempt { rules: &rs };
    // One pass folds the inner sums; the outer sum, seen after them, is
    // folded too, but not yet unwrapped.
    let e = Expression::Sum(vec![sum(&[1, 2]), sum(&[4]), Expression::ConstantInt(10)]);
    assert_eq!(
        e.transform(&attempt),
        Expression::Sum(vec![sum(&[3]), Expression::ConstantInt(14)])
    );
    let e = Expression::Geq(Box::new(sum(&[5])), Box::new(sum(&[6])));
    assert_eq!(
        e.transform(&attempt),
        Expression::Geq(
            Box::new(Expression::ConstantInt(5)),
            Box::new(Expression::ConstantInt(6))
        )
    );
}
