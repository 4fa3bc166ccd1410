//! The stages between the parser and the solver in one call: the check of
//! the model on entry, the resolution of the rule sets, the rewriting, and
//! the check of the result against the solver family.

use vstd::prelude::*;
use crate::context::{names_fired, Context};
use crate::error::{ModelError, ResolveError, RewriteError};
use crate::gate::{validate_model, verdict, GateError};
use crate::model::{Model, ModelView};
use crate::registry::Registry;
use crate::resolver::{first_unknown, resolution, resolved};
use crate::rewriter::{fired_in_all, rewrite_model_traced, Stuck};
use crate::rule::texts_of;

verus! {

/// The stage at which a run stopped, and why.
#[derive(Debug, PartialEq, Eq)]
pub enum PipelineError {
    /// The model is not fit for rewriting.
    Model(ModelError),
    /// The rule sets could not be resolved.
    Resolve(ResolveError),
    /// The rewriter gave up.
    Rewrite(RewriteError),
    /// The rewritten model holds a node that the solver family rejects.
    Gate(GateError),
}

/// Takes `model` through all stages under the configuration of `context`,
/// with the rules of `registry`. The first stage that fails decides the
/// error. The rewrites are added to the statistics of `context` as soon as
/// the rewriter is done; the rest of `context` stays as it is.
pub fn prepare(model: &Model, registry: &Registry, context: &mut Context) -> (r: Result<
    Model,
    PipelineError,
>)
    requires
        registry.well_formed(),
    ensures
        final(context).solver_family == old(context).solver_family,
        final(context).rule_sets == old(context).rule_sets,
        final(context).max_rewrites == old(context).max_rewrites,
        final(context).file_name == old(context).file_name,
        final(context).stats.run_time_nanos == old(context).stats.run_time_nanos,
        ({
            let family = old(context).solver_family;
            let names = texts_of(old(context).rule_sets@);
            let budget = old(context).max_rewrites as nat;
            let rules = resolution(registry@, family, names);
            let before = old(context).stats.log();
            let after = final(context).stats.log();
            let rewrites = names_fired(rules, fired_in_all(model@.constraints, rules, budget));
            match r {
                Err(PipelineError::Model(e)) => model@.admits(Err(e)) && after == before,
                Err(PipelineError::Resolve(e)) => {
                    &&& model@.admits(Ok(()))
                    &&& first_unknown(registry@, names, 0) matches Some(i)
                    &&& e matches ResolveError::UnknownRuleSet(name)
                    &&& name@ == names[i]
                    &&& after == before
                },
                Err(PipelineError::Rewrite(RewriteError::RewriterDidNotConverge(rule, depth))) => {
                    &&& model@.admits(Ok(()))
                    &&& first_unknown(registry@, names, 0) is None
                    &&& model@.rewritten(rules, budget) == Err::<ModelView, Stuck>(
                        Stuck { rule: rule@, depth: depth as nat },
                    )
                    &&& after == before
                },
                Err(PipelineError::Gate(e)) => {
                    &&& model@.admits(Ok(()))
                    &&& first_unknown(registry@, names, 0) is None
                    &&& model@.rewritten(rules, budget) matches Ok(out)
                    &&& verdict(out.constraints, family, Err(e))
                    &&& after == before + rewrites
                },
                Ok(m) => {
                    &&& model@.admits(Ok(()))
                    &&& first_unknown(registry@, names, 0) is None
                    &&& model@.rewritten(rules, budget) == Ok::<ModelView, Stuck>(m@)
                    &&& verdict(m@.constraints, family, Ok(()))
                    &&& after == before + rewrites
                },
            }
        }),
{
    match model.validate() {
        Err(e) => {
            return Err(PipelineError::Model(e));
        },
        Ok(_) => {},
    }
    let rules = match registry.resolve(context.solver_family, &context.rule_sets) {
        Err(e) => {
            return Err(PipelineError::Resolve(e));
        },
        Ok(rules) => rules,
    };
    let done = match rewrite_model_traced(model, &rules, context.max_rewrites) {
        Err(e) => {
            return Err(PipelineError::Rewrite(e));
        },
        Ok(done) => done,
    };
    context.stats.record(&rules, &done.fired);
    match validate_model(&done.model, context.solver_family) {
        Err(e) => Err(PipelineError::Gate(e)),
        Ok(_) => Ok(done.model),
    }
}

} // verus!
