// A whole run: check on entry, resolution, rewriting, gate, statistics.

use conjure_core::ast::{DecisionVariable, Domain, Expression, Model, Name, Range};
use conjure_core::context::{Context, RewriteStats};
use conjure_core::error::{ModelError, ResolveError, RewriteError};
use conjure_core::gate::GateError;
use conjure_core::pipeline::{prepare, PipelineError};
use conjure_core::registry::{get_rules, Registry};
use conjure_core::solver::{SolverFamily, Variant};

fn user(name: &str) -> Expression {
    Expression::Reference(Name::UserName(String::from(name)))
}

fn xyz_model() -> Model {
    let mut model = Model::new();
    for name in ["a", "b", "c"] {
        model.add_variable(
            Name::UserName(String::from(name)),
            DecisionVariable::new(Domain::IntDomain(vec![Range::Bounded(1, 3)])),
        );
    }
    model.add_constraint(Expression::Leq(
        Box::new(Expression::Sum(vec![user("a"), user("b"), user("c")])),
        Box::new(Expression::Sum(vec![
            Expression::ConstantInt(2),
            Expression::ConstantInt(3),
            Expression::ConstantInt(-1),
        ])),
    ));
    model.add_constraint(Expression::Lt(Box::new(user("a")), Box::new(user("b"))));
    model
}

fn minion_context() -> Context {
    Context::new(
        SolverFamily::Minion,
        vec![String::from("Base"), String::from("Minion")],
    )
}

#[test]
fn a_new_context_has_the_defaults() {
    let context = minion_context();
    assert_eq!(context.solver_family, SolverFamily::Minion);
    assert_eq!(context.rule_sets, vec!["Base", "Minion"]);
    assert_eq!(context.max_rewrites, 10000);
    assert_eq!(context.file_name, None);
    assert_eq!(context.stats.total_rewrites(), 0);
    assert_eq!(context.stats.run_time_nanos, 0);
}

#[test]
fn a_run_rewrites_the_model_and_counts_the_rewrites() {
    let mut context = minion_context();
    context.file_name = Some(String::from("xyz.essence"));
    let out = prepare(&xyz_model(), &Registry::standard(), &mut context).unwrap();
    assert_eq!(
        *out.constraints(),
        vec![
            Expression::SumLeq(
                vec![user("a"), user("b"), user("c")],
                Box::new(Expression::ConstantInt(4))
            ),
            Expression::Ineq(
                Box::new(user("a")),
                Box::new(user("b")),
                Box::new(Expression::ConstantInt(-1))
            ),
        ]
    );
    assert_eq!(
        context.stats.fired,
        vec!["sum_leq_to_sumleq", "sum_constants", "unwrap_sum", "lt_to_ineq"]
    );
    assert_eq!(context.stats.total_rewrites(), 4);
    assert_eq!(context.stats.fires_of("sum_constants"), 1);
    assert_eq!(context.stats.fires_of("unwrap_nested_or"), 0);
    assert_eq!(context.file_name, Some(String::from("xyz.essence")));
    assert_eq!(context.max_rewrites, 10000);

    // A second run over the same context adds to the statistics.
    prepare(&xyz_model(), &Registry::standard(), &mut context).unwrap();
    assert_eq!(context.stats.total_rewrites(), 8);
    assert_eq!(context.stats.fires_of("lt_to_ineq"), 2);
}

#[test]
fn a_model_with_an_undeclared_reference_does_not_enter() {
    let mut model = xyz_model();
    model.add_constraint(user("d"));
    let mut context = minion_context();
    assert_eq!(
        prepare(&model, &Registry::standard(), &mut context),
        Err(PipelineError::Model(ModelError::UndeclaredReference(
            Name::UserName(String::from("d"))
        )))
    );
    assert_eq!(context.stats.total_rewrites(), 0);
}

#[test]
fn an_unknown_rule_set_stops_the_run() {
    let mut context = Context::new(
        SolverFamily::Minion,
        vec![String::from("Constant"), String::from("Bubble")],
    );
    assert_eq!(
        prepare(&xyz_model(), &Registry::standard(), &mut context),
        Err(PipelineError::Resolve(ResolveError::UnknownRuleSet(
            String::from("Constant")
        )))
    );
}

#[test]
fn too_few_rewrites_stop_the_run() {
    let mut context = minion_context();
    context.max_rewrites = 2;
    assert_eq!(
        prepare(&xyz_model(), &Registry::standard(), &mut context),
        Err(PipelineError::Rewrite(
            RewriteError::RewriterDidNotConverge(String::from("unwrap_sum"), 1)
        ))
    );
    assert_eq!(context.stats.total_rewrites(), 0);
}

#[test]
fn rules_that_do_not_suffice_are_found_out_at_the_gate() {
    // The rule set Base leaves the comparisons as they are.
    let mut context = Context::new(SolverFamily::Minion, vec![String::from("Base")]);
    assert_eq!(
        prepare(&xyz_model(), &Registry::standard(), &mut context),
        Err(PipelineError::Gate(GateError::UnsupportedExpression(
            Variant::Leq,
            SolverFamily::Minion,
            vec![0]
        )))
    );
    // The rewrites that were made are counted all the same.
    assert_eq!(context.stats.fired, vec!["sum_constants", "unwrap_sum"]);
}

#[test]
fn an_empty_request_leaves_the_model_as_it_is() {
    let mut model = Model::new();
    model.add_constraint(Expression::ConstantInt(1));
    let mut context = Context::new(SolverFamily::SAT, vec![]);
    assert_eq!(
        prepare(&model, &Registry::standard(), &mut context),
        Ok(model.clone())
    );
    assert_eq!(context.stats.total_rewrites(), 0);
}

#[test]
fn statistics_record_the_rules_by_name() {
    let rules = get_rules();
    let mut stats = RewriteStats::new();
    stats.record(&rules, &vec![0, 1, 0, 14]);
    stats.record(&rules, &vec![]);
    stats.record(&rules, &vec![1]);
    assert_eq!(
        stats.fired,
        vec![
            "sum_constants",
            "unwrap_sum",
            "sum_constants",
            "distribute_or_over_and",
            "unwrap_sum"
        ]
    );
    assert_eq!(stats.total_rewrites(), 5);
    assert_eq!(stats.fires_of("sum_constants"), 2);
    assert_eq!(stats.fires_of("unwrap_sum"), 2);
    assert_eq!(stats.fires_of("distribute_or_over_and"), 1);
    assert_eq!(stats.fires_of("lt_to_ineq"), 0);
}

#[test]
fn run_time_adds_up_and_stops_at_the_maximum() {
    let mut stats = RewriteStats::new();
    stats.add_run_time(5);
    stats.add_run_time(7);
    assert_eq!(stats.run_time_nanos, 12);
    stats.add_run_time(u64::MAX - 12);
    assert_eq!(stats.run_time_nanos, u64::MAX);
    stats.add_run_time(1);
    assert_eq!(stats.run_time_nanos, u64::MAX);
    let mut stats = RewriteStats::new();
    stats.add_run_time(u64::MAX - 1);
    stats.add_run_time(5);
    assert_eq!(stats.run_time_nanos, u64::MAX);
    assert_eq!(stats.total_rewrites(), 0);
}
