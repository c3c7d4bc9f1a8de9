//! Selectors: compilation of a CSS-like selector string and matching
//! against single elements.
//!
//! The grammar supports type, class and id selectors (`div`, `.cls`,
//! `#id`), their concatenations (`div.cls#id`), and comma-separated
//! alternative lists (`h1, h2`).  A selector list matches an element iff
//! any alternative matches; an alternative matches iff all its components
//! do.

use vstd::prelude::*;

pub mod compound;
pub mod simple;

use crate::Element;
use crate::model::{SpecElem, elem_view};
use crate::operation::selector::compound::{
    CompoundSelector, compile_compound, compound_view,
};
use crate::operation::selector::simple::SpecSimple;
use crate::parse::token::{attr_lookup, lookup_attr};
use crate::text::{
    chars_list_view, chars_eq_str, split_char, split_chars, str_eq, str_to_chars, trim_chars,
    trim_spec,
};

verus! {

/// A compiled selector: the list of comma-separated alternatives, each a
/// compound of simple selectors.
#[derive(Debug)]
pub struct Selector(pub Vec<CompoundSelector>);

/// Model of a [`Selector`].
pub open spec fn selector_view(s: Selector) -> Seq<Seq<SpecSimple>> {
    s.0@.map_values(|c: CompoundSelector| compound_view(c))
}

/// The compiled form of a selector string: each comma-separated alternative
/// compiled on its own.
pub open spec fn compile_selector(s: Seq<char>) -> Seq<Seq<SpecSimple>> {
    split_char(s, ',').map_values(|p: Seq<char>| compile_compound(p))
}

/// The class list of a `class` attribute value: split on spaces, each
/// token trimmed.
pub open spec fn classes_of(v: Seq<char>) -> Seq<Seq<char>> {
    split_char(v, ' ').map_values(|p: Seq<char>| trim_spec(p))
}

/// True iff `x` is among `l`.
pub open spec fn class_list_contains(l: Seq<Seq<char>>, x: Seq<char>) -> bool
    decreases l.len(),
{
    if l.len() == 0 {
        false
    } else {
        l[0] == x || class_list_contains(l.drop_first(), x)
    }
}

/// Whether one simple selector holds of an element with the given tag name,
/// class list and id.  An element without a `class` attribute matches no
/// class selector; one without an `id` attribute matches no id selector.
pub open spec fn simple_matches(
    s: SpecSimple,
    name: Seq<char>,
    classes: Option<Seq<Seq<char>>>,
    id: Option<Seq<char>>,
) -> bool {
    match s {
        SpecSimple::Class(c) => classes is Some && class_list_contains(classes->0, c),
        SpecSimple::Id(x) => id is Some && id->0 == x,
        SpecSimple::Tag(t) => t == name,
    }
}

/// Whether all simple selectors of a compound hold.
pub open spec fn compound_matches(
    c: Seq<SpecSimple>,
    name: Seq<char>,
    classes: Option<Seq<Seq<char>>>,
    id: Option<Seq<char>>,
) -> bool
    decreases c.len(),
{
    if c.len() == 0 {
        true
    } else {
        simple_matches(c[0], name, classes, id) && compound_matches(
            c.drop_first(),
            name,
            classes,
            id,
        )
    }
}

/// Whether any alternative of a selector holds.
pub open spec fn any_matches(
    sel: Seq<Seq<SpecSimple>>,
    name: Seq<char>,
    classes: Option<Seq<Seq<char>>>,
    id: Option<Seq<char>>,
) -> bool
    decreases sel.len(),
{
    if sel.len() == 0 {
        false
    } else {
        compound_matches(sel[0], name, classes, id) || any_matches(
            sel.drop_first(),
            name,
            classes,
            id,
        )
    }
}

/// Whether the selector matches the element: its tag name, the class list
/// read from the first `class` attribute, and the first `id` attribute.
pub open spec fn spec_matches(sel: Seq<Seq<SpecSimple>>, e: SpecElem) -> bool {
    let classes = match attr_lookup(e.attrs, "class"@) {
        Some(v) => Some(classes_of(v)),
        None => None,
    };
    any_matches(sel, e.name, classes, attr_lookup(e.attrs, "id"@))
}

/// Matching is deterministic: the outcome is a function of the selector
/// text and the element's model alone.  Any two selectors compiled from the
/// same text match any two elements of the same model identically, so
/// repeated calls of [`Selector::matches`] on equal inputs always return
/// the same boolean.
pub proof fn lemma_matching_deterministic(
    text: Seq<char>,
    s1: Selector,
    s2: Selector,
    e1: Element,
    e2: Element,
)
    requires
        selector_view(s1) == compile_selector(text),
        selector_view(s2) == compile_selector(text),
        elem_view(e1) == elem_view(e2),
    ensures
        spec_matches(selector_view(s1), elem_view(e1)) == spec_matches(
            selector_view(s2),
            elem_view(e2),
        ),
{
}

/// True iff `x` is among the class tokens `l`.
fn class_tokens_contain(l: &Vec<Vec<char>>, x: &str) -> (r: bool)
    ensures
        r == class_list_contains(chars_list_view(l@), x@),
{
    let ghost lv = chars_list_view(l@);
    let mut k: usize = 0;
    proof {
        assert(lv.skip(0) =~= lv);
    }
    while k < l.len()
        invariant
            k <= l@.len() == lv.len(),
            lv == chars_list_view(l@),
            class_list_contains(lv, x@) == class_list_contains(lv.skip(k as int), x@),
        decreases l@.len() - k,
    {
        proof {
            assert(lv.skip(k as int)[0] == lv[k as int]);
            assert(lv.skip(k as int).drop_first() =~= lv.skip(k + 1));
        }
        if chars_eq_str(&l[k], x) {
            return true;
        }
        k += 1;
    }
    proof {
        assert(lv.skip(lv.len() as int).len() == 0);
    }
    false
}

impl Selector {
    /// Compiles a selector string.  Compilation never fails: unsupported
    /// syntax simply yields alternatives that match little or nothing.
    pub fn from(selector: &str) -> (r: Selector)
        ensures
            selector_view(r) == compile_selector(selector@),
    {
        let pieces = split_chars(&str_to_chars(selector), ',');
        let ghost pv = chars_list_view(pieces@);
        let mut out: Vec<CompoundSelector> = Vec::new();
        let mut k: usize = 0;
        while k < pieces.len()
            invariant
                k <= pieces@.len() == pv.len(),
                pv == chars_list_view(pieces@),
                out@.len() == k,
                forall|j: int|
                    0 <= j < k ==> compound_view(#[trigger] out@[j]) == compile_compound(pv[j]),
            decreases pieces@.len() - k,
        {
            let c = CompoundSelector::from_chars(&pieces[k]);
            proof {
                assert(pieces@[k as int]@ == pv[k as int]);
            }
            out.push(c);
            k += 1;
        }
        let r = Selector(out);
        proof {
            assert(selector_view(r) =~= compile_selector(selector@));
        }
        r
    }

    /// Whether the selector matches the element.
    ///
    /// The element's class list is read from its first `class` attribute,
    /// split on spaces with each token trimmed; its id from its first `id`
    /// attribute.  The selector matches iff at least one alternative has
    /// all its components hold.
    pub fn matches(&self, element: &Element) -> (r: bool)
        ensures
            r == spec_matches(selector_view(*self), elem_view(*element)),
    {
        let ghost ev = elem_view(*element);
        proof {
            assert(ev.attrs == crate::model::attrs_view(element.attrs@));
        }
        let element_classes: Option<Vec<Vec<char>>> = match lookup_attr(&element.attrs, "class") {
            Some(value) => {
                let pieces = split_chars(&str_to_chars(value.as_str()), ' ');
                let ghost pv = chars_list_view(pieces@);
                let mut tokens: Vec<Vec<char>> = Vec::new();
                let mut k: usize = 0;
                while k < pieces.len()
                    invariant
                        k <= pieces@.len() == pv.len(),
                        pv == chars_list_view(pieces@),
                        tokens@.len() == k,
                        forall|j: int|
                            0 <= j < k ==> (#[trigger] tokens@[j])@ == trim_spec(pv[j]),
                    decreases pieces@.len() - k,
                {
                    let t = trim_chars(&pieces[k]);
                    proof {
                        assert(pieces@[k as int]@ == pv[k as int]);
                    }
                    tokens.push(t);
                    k += 1;
                }
                proof {
                    assert(chars_list_view(tokens@) =~= classes_of(value@));
                }
                Some(tokens)
            },
            None => None,
        };
        let ghost classes = match attr_lookup(ev.attrs, "class"@) {
            Some(v) => Some(classes_of(v)),
            None => None,
        };
        let element_id = lookup_attr(&element.attrs, "id");
        let ghost id = attr_lookup(ev.attrs, "id"@);
        proof {
            match element_id {
                Some(ref v) => assert(id == Some(v@)),
                None => assert(id is None),
            }
            match element_classes {
                Some(ref ts) => assert(classes == Some(chars_list_view(ts@))),
                None => assert(classes is None),
            }
        }
        let ghost sel = selector_view(*self);
        let mut ci: usize = 0;
        proof {
            assert(sel.skip(0) =~= sel);
        }
        while ci < self.0.len()
            invariant
                ci <= self.0@.len() == sel.len(),
                sel == selector_view(*self),
                ev == elem_view(*element),
                classes == (match attr_lookup(ev.attrs, "class"@) {
                    Some(v) => Some(classes_of(v)),
                    None => None,
                }),
                id == attr_lookup(ev.attrs, "id"@),
                match element_id {
                    Some(ref v) => id == Some(v@),
                    None => id is None,
                },
                match element_classes {
                    Some(ref ts) => classes == Some(chars_list_view(ts@)),
                    None => classes is None,
                },
                any_matches(sel, ev.name, classes, id) == any_matches(
                    sel.skip(ci as int),
                    ev.name,
                    classes,
                    id,
                ),
            decreases self.0@.len() - ci,
        {
            let ghost comp = sel[ci as int];
            proof {
                assert(sel.skip(ci as int)[0] == comp);
                assert(sel.skip(ci as int).drop_first() =~= sel.skip(ci + 1));
                assert(comp == compound_view(self.0@[ci as int]));
            }
            let simples = &self.0[ci].0;
            let mut si: usize = 0;
            let mut all = true;
            proof {
                assert(comp.skip(0) =~= comp);
            }
            while si < simples.len() && all
                invariant
                    si <= simples@.len() == comp.len(),
                    comp == compound_view(self.0@[ci as int]),
                    ev == elem_view(*element),
                    ci < self.0@.len(),
                    simples == &self.0@[ci as int].0,
                    classes == (match attr_lookup(ev.attrs, "class"@) {
                        Some(v) => Some(classes_of(v)),
                        None => None,
                    }),
                    id == attr_lookup(ev.attrs, "id"@),
                    match element_id {
                        Some(ref v) => id == Some(v@),
                        None => id is None,
                    },
                    match element_classes {
                        Some(ref ts) => classes == Some(chars_list_view(ts@)),
                        None => classes is None,
                    },
                    all ==> compound_matches(comp, ev.name, classes, id) == compound_matches(
                        comp.skip(si as int),
                        ev.name,
                        classes,
                        id,
                    ),
                    !all ==> !compound_matches(comp, ev.name, classes, id),
                decreases simples@.len() - si,
            {
                proof {
                    assert(comp.skip(si as int)[0] == comp[si as int]);
                    assert(comp.skip(si as int).drop_first() =~= comp.skip(si + 1));
                    assert(comp[si as int] == crate::operation::selector::simple::simple_view(
                        simples@[si as int],
                    ));
                }
                proof {
                    assert(ev.name == element.name@);
                }
                let ok = match &simples[si] {
                    crate::operation::selector::simple::SimpleSelector::Class(c) => match
                        &element_classes {
                        Some(tokens) => class_tokens_contain(tokens, c.as_str()),
                        None => false,
                    },
                    crate::operation::selector::simple::SimpleSelector::Id(x) => match &element_id {
                        Some(idv) => str_eq(x.as_str(), idv.as_str()),
                        None => false,
                    },
                    crate::operation::selector::simple::SimpleSelector::Tag(t) => str_eq(
                        t.as_str(),
                        element.name.as_str(),
                    ),
                };
                proof {
                    assert(ok == simple_matches(comp[si as int], ev.name, classes, id));
                }
                if !ok {
                    all = false;
                }
                si += 1;
            }
            proof {
                if all {
                    assert(comp.skip(simples@.len() as int).len() == 0);
                }
            }
            if all {
                proof {
                    assert(compound_matches(comp, ev.name, classes, id));
                    assert(any_matches(sel.skip(ci as int), ev.name, classes, id));
                }
                return true;
            }
            ci += 1;
        }
        proof {
            assert(sel.skip(sel.len() as int).len() == 0);
        }
        false
    }
}

} // verus!
