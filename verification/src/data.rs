//! The fixed set of void tags: element types that never take children or a
//! separate end tag, and are emitted as childless elements even when written
//! without `/>`.

use vstd::prelude::*;

use crate::text::str_eq;

verus! {

/// True iff `name` is one of the void tags.
pub open spec fn is_void_name(name: Seq<char>) -> bool {
    name == "area"@ || name == "base"@ || name == "br"@ || name == "col"@ || name == "command"@
        || name == "embed"@ || name == "hr"@ || name == "img"@ || name == "input"@ || name
        == "keygen"@ || name == "link"@ || name == "meta"@ || name == "param"@ || name == "source"@
        || name == "track"@ || name == "wbr"@
}

/// Void-tag test on a tag name.
pub fn is_void_tag(name: &str) -> (r: bool)
    ensures
        r == is_void_name(name@),
{
    str_eq(name, "area") || str_eq(name, "base") || str_eq(name, "br") || str_eq(name, "col")
        || str_eq(name, "command") || str_eq(name, "embed") || str_eq(name, "hr") || str_eq(
        name,
        "img",
    ) || str_eq(name, "input") || str_eq(name, "keygen") || str_eq(name, "link") || str_eq(
        name,
        "meta",
    ) || str_eq(name, "param") || str_eq(name, "source") || str_eq(name, "track") || str_eq(
        name,
        "wbr",
    )
}

} // verus!
