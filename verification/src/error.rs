//! Errors surfaced by the library.

use vstd::prelude::*;
use crate::name::Name;

verus! {

/// Misuse of the one-layer traversal.
#[derive(Debug, Clone, Copy, PartialEq, Eq, Structural)]
pub enum UniplateError {
    /// `WrongNumberOfChildren(expected, got)`: a node with `expected`
    /// children was rebuilt from `got` of them.
    WrongNumberOfChildren(usize, usize),
}

/// Why a rule gave no result.
#[derive(Debug, Clone, Copy, PartialEq, Eq, Structural)]
pub enum RuleApplicationError {
    /// The rule does not match at this node.
    RuleNotApplicable,
}

/// Why rewriting a model stopped without a result.
#[derive(Debug, PartialEq, Eq)]
pub enum RewriteError {
    /// `RewriterDidNotConverge(rule, depth)`: the allowed rewrites of one
    /// constraint were used up while the rule named `rule` still matched at
    /// a node `depth` levels below the root.
    RewriterDidNotConverge(String, usize),
}

/// What is wrong with a model as it enters rewriting.
#[derive(Debug, PartialEq, Eq)]
pub enum ModelError {
    /// The domain of this variable is empty or not in canonical form.
    DomainMismatch(Name),
    /// A constraint refers to this name, which no variable declares.
    UndeclaredReference(Name),
}

/// A failed registration or lookup in the rule registry.
#[derive(Debug, PartialEq, Eq)]
pub enum RegistryError {
    /// A rule of this name is registered already.
    DuplicateRule(String),
    /// No rule of this name is registered.
    UnknownRule(String),
}

/// A failed resolution of rule sets.
#[derive(Debug, PartialEq, Eq)]
pub enum ResolveError {
    /// No registered rule belongs to a rule set of this name.
    UnknownRuleSet(String),
}

} // verus!
