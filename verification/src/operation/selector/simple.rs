//! Simple selectors: one condition on one element.

use vstd::prelude::*;

verus! {

/// A selector with a single component: a class, id, or type (tag) test,
/// not combined with any other component.
#[derive(Debug)]
pub enum SimpleSelector {
    Class(String),
    Id(String),
    Tag(String),
}

/// Model of a [`SimpleSelector`].
pub enum SpecSimple {
    Class(Seq<char>),
    Id(Seq<char>),
    Tag(Seq<char>),
}

/// Model of a [`SimpleSelector`].
pub open spec fn simple_view(s: SimpleSelector) -> SpecSimple {
    match s {
        SimpleSelector::Class(c) => SpecSimple::Class(c@),
        SimpleSelector::Id(i) => SpecSimple::Id(i@),
        SimpleSelector::Tag(t) => SpecSimple::Tag(t@),
    }
}

} // verus!
