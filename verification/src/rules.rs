//! The catalogue of rewrite rules.

pub mod sequence;
pub mod base;
pub mod cnf;
pub mod minion;
