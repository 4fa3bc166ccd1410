//! What one run over a model shares between its stages: the configuration,
//! the provenance of the model, and the statistics of the rewriter.

use vstd::prelude::*;
use crate::position::indices;
use crate::rewriter::DEFAULT_MAX_REWRITES;
use crate::rule::{rules_of, texts_of, Rule, RuleView};
use crate::solver::SolverFamily;

verus! {

/// The names of the rules at the indices `fired`, in that order.
pub open spec fn names_fired(rules: Seq<RuleView>, fired: Seq<int>) -> Seq<Seq<char>> {
    Seq::new(fired.len(), |i: int| rules[fired[i]].name)
}

/// How often `name` occurs in `log`.
pub open spec fn occurrences(log: Seq<Seq<char>>, name: Seq<char>) -> nat
    decreases log.len(),
{
    if log.len() == 0 {
        0
    } else {
        occurrences(log.drop_last(), name) + if log.last() == name {
            1nat
        } else {
            0nat
        }
    }
}

/// Statistics of the rewriter, accumulated over its runs.
#[derive(Debug)]
pub struct RewriteStats {
    /// The name of the rule of each rewrite, in the order of the rewrites.
    pub fired: Vec<String>,
    /// Time spent rewriting, in nanoseconds, as the caller measured it.
    pub run_time_nanos: u64,
}

impl RewriteStats {
    /// The names of the rules that fired, in order.
    pub open spec fn log(&self) -> Seq<Seq<char>> {
        texts_of(self.fired@)
    }

    /// Statistics of no run.
    pub fn new() -> (s: RewriteStats)
        ensures
            s.log() == Seq::<Seq<char>>::empty(),
            s.run_time_nanos == 0,
    {
        let s = RewriteStats { fired: Vec::new(), run_time_nanos: 0 };
        assert(s.log() =~= Seq::<Seq<char>>::empty());
        s
    }

    /// Appends the rewrites of one run: the rules of `rules` at the indices
    /// `fired`.
    pub fn record(&mut self, rules: &Vec<Rule>, fired: &Vec<usize>)
        requires
            forall|i: int| 0 <= i < fired.len() ==> #[trigger] fired[i] < rules.len(),
        ensures
            final(self).log() == old(self).log() + names_fired(rules_of(rules@), indices(fired@)),
            final(self).run_time_nanos == old(self).run_time_nanos,
    {
        let ghost before = self.log();
        let ghost rs = rules_of(rules@);
        let mut k: usize = 0;
        assert(self.log() =~= before + names_fired(rs, indices(fired@.subrange(0, 0))));
        while k < fired.len()
            invariant
                k <= fired.len(),
                rs == rules_of(rules@),
                forall|i: int| 0 <= i < fired.len() ==> #[trigger] fired[i] < rules.len(),
                self.log() == before + names_fired(rs, indices(fired@.subrange(0, k as int))),
                self.run_time_nanos == old(self).run_time_nanos,
            decreases fired.len() - k,
        {
            let ghost log = self.log();
            let name = rules[fired[k]].name.clone();
            self.fired.push(name);
            proof {
                assert(rs[fired[k as int] as int].name == name@);
                assert(self.log() =~= log.push(name@));
                assert(log.push(name@) =~= before + names_fired(
                    rs,
                    indices(fired@.subrange(0, k + 1)),
                ));
            }
            k += 1;
        }
        assert(fired@.subrange(0, k as int) =~= fired@);
    }

    /// Number of rewrites over all runs.
    pub fn total_rewrites(&self) -> (n: usize)
        ensures
            n == self.log().len(),
    {
        self.fired.len()
    }

    /// Number of rewrites by the rule named `rule` over all runs.
    pub fn fires_of(&self, rule: &str) -> (n: usize)
        ensures
            n == occurrences(self.log(), rule@),
    {
        let ghost log = self.log();
        let wanted = rule.to_owned();
        let mut n: usize = 0;
        let mut k: usize = 0;
        while k < self.fired.len()
            invariant
                k <= self.fired.len(),
                log == self.log(),
                wanted@ == rule@,
                n == occurrences(log.subrange(0, k as int), rule@),
                n <= k,
            decreases self.fired.len() - k,
        {
            proof {
                assert(log.subrange(0, k + 1).drop_last() =~= log.subrange(0, k as int));
                assert(log.subrange(0, k + 1).last() == self.fired[k as int]@);
            }
            if self.fired[k] == wanted {
                n += 1;
            }
            k += 1;
        }
        assert(log.subrange(0, k as int) =~= log);
        n
    }

    /// Adds `nanos` nanoseconds to the time spent rewriting. The sum stops
    /// at `u64::MAX`.
    pub fn add_run_time(&mut self, nanos: u64)
        ensures
            final(self).run_time_nanos == if old(self).run_time_nanos + nanos > u64::MAX {
                u64::MAX
            } else {
                (old(self).run_time_nanos + nanos) as u64
            },
            final(self).fired == old(self).fired,
    {
        if nanos > u64::MAX - self.run_time_nanos {
            self.run_time_nanos = u64::MAX;
        } else {
            self.run_time_nanos = self.run_time_nanos + nanos;
        }
    }
}

/// The state that the stages of one run share.
#[derive(Debug)]
pub struct Context {
    /// The family of the solver that will take the model.
    pub solver_family: SolverFamily,
    /// The names of the rule sets to rewrite with.
    pub rule_sets: Vec<String>,
    /// The number of rewrites allowed for one constraint.
    pub max_rewrites: usize,
    /// The file the model was read from, if it was read from one.
    pub file_name: Option<String>,
    /// What the rewriter did so far.
    pub stats: RewriteStats,
}

impl Context {
    /// The context of a run for `solver_family` with the rule sets
    /// `rule_sets`, the default number of rewrites, no file name and empty
    /// statistics.
    pub fn new(solver_family: SolverFamily, rule_sets: Vec<String>) -> (c: Context)
        ensures
            c.solver_family == solver_family,
            c.rule_sets == rule_sets,
            c.max_rewrites == DEFAULT_MAX_REWRITES,
            c.file_name is None,
            c.stats.log() == Seq::<Seq<char>>::empty(),
            c.stats.run_time_nanos == 0,
    {
        Context {
            solver_family,
            rule_sets,
            max_rewrites: DEFAULT_MAX_REWRITES,
            file_name: None,
            stats: RewriteStats::new(),
        }
    }
}

} // verus!
