//! The data model in one place: names, domains, expressions and models.

pub use crate::domain::{DecisionVariable, Domain, DomainView, Range};
pub use crate::expression::{Expression, Term};
pub use crate::model::{Model, ModelView};
pub use crate::name::{Name, NameView};
