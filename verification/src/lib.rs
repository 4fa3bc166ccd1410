//! Constraint-model rewriting.
//!
//! A model holds decision variables and constraints over them. Rewriting
//! brings the constraints into the fragment that a solver family accepts:
//! rules taken from a registry and resolved for the family are applied,
//! one rewrite at a time, until none of them matches anywhere.
//!
//! The data model is in [`ast`]; [`uniplate`], [`position`] and
//! [`traversal`] walk expressions; [`rule`], [`rules`] and [`catalogue`]
//! hold the rules; [`registry`] and [`resolver`] select them;
//! [`rewriter`] applies them; [`gate`] checks the result; [`pipeline`]
//! runs all stages over a [`context`]. What holds of the rules and of the
//! rewriter beyond the contracts of their functions is proved in
//! [`variants`], [`semantics`], [`soundness`], [`locality`],
//! [`termination`] and [`rank`].

pub mod ast;
pub mod error;
pub mod text;
pub mod name;
pub mod domain;
pub mod expression;
pub mod model;
pub mod display;
pub mod uniplate;
pub mod position;
pub mod traversal;
pub mod solver;
pub mod rule;
pub mod rules;
pub mod catalogue;
pub mod registry;
pub mod resolver;
pub mod rewriter;
pub mod gate;
pub mod context;
pub mod pipeline;
pub mod variants;
pub mod semantics;
pub mod soundness;
pub mod locality;
pub mod termination;
pub mod rank;
