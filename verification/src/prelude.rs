//! The editing, querying and stringifying traits in one import.

pub use crate::operation::Selector;
pub use crate::operation::edit::Editable;
pub use crate::operation::html::Htmlifiable;
pub use crate::operation::query::Queryable;
