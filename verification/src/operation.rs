//! Traits for editing, querying and stringifying the document tree, and the
//! selectors they take.

pub mod edit;
pub mod html;
pub mod query;
pub mod selector;

pub use selector::Selector;
