//! A small, forgiving HTML parser and editor.
//!
//! The library parses an HTML fragment or document into a tree of [`Node`]s,
//! either strictly ([`parse`], which reports the first well-formedness
//! violation with its source location) or leniently ([`try_parse`], which
//! always returns a best-effort tree).  The tree can be queried and edited
//! with CSS-like selectors and serialized back to HTML text.

use vstd::prelude::*;

pub mod data;
pub mod entity;
pub mod model;
pub mod operation;
pub mod parse;
pub mod prelude;
pub mod text;

pub use parse::{HTMLParseError, InnerHTMLParseError, SourceLocation, parse, try_parse};

use crate::model::{
    SpecDoctype, SpecElem, SpecNode, attrs_view, borrowed_attrs_view, doctype_view, elem_view,
    lemma_nodes_view_eq, node_view, nodes_view,
};

verus! {

/// Doctype of an HTML document or an XML declaration.
#[derive(Debug)]
pub enum Doctype {
    Html,
    Xml { version: String, encoding: String },
}

/// A node of the document tree.
#[derive(Debug)]
pub enum Node {
    Element(Element),
    Text(String),
    Comment(String),
    Doctype(Doctype),
}

/// An element of the document tree: a tag name, an ordered list of
/// `(key, value)` attribute pairs (duplicate keys allowed; lookups take the
/// first occurrence), and an ordered list of child nodes.
#[derive(Debug)]
pub struct Element {
    pub name: String,
    pub attrs: Vec<(String, String)>,
    pub children: Vec<Node>,
}

impl Clone for Doctype {
    /// A clone models the same doctype.
    fn clone(&self) -> (res: Doctype)
        ensures
            doctype_view(res) == doctype_view(*self),
    {
        match self {
            Doctype::Html => Doctype::Html,
            Doctype::Xml { version, encoding } => Doctype::Xml {
                version: version.clone(),
                encoding: encoding.clone(),
            },
        }
    }
}

/// Copies a list of attribute pairs.
pub(crate) fn clone_attrs(attrs: &Vec<(String, String)>) -> (res: Vec<(String, String)>)
    ensures
        attrs_view(res@) == attrs_view(attrs@),
{
    let mut out: Vec<(String, String)> = Vec::new();
    let mut i: usize = 0;
    while i < attrs.len()
        invariant
            i <= attrs.len(),
            out@.len() == i,
            forall|j: int|
                0 <= j < i ==> (#[trigger] out@[j].0)@ == attrs@[j].0@ && out@[j].1@
                    == attrs@[j].1@,
        decreases attrs.len() - i,
    {
        let (k, v) = &attrs[i];
        out.push((k.clone(), v.clone()));
        i += 1;
    }
    assert(attrs_view(out@) =~= attrs_view(attrs@));
    out
}

impl Clone for Node {
    /// A clone models the same node.
    fn clone(&self) -> (res: Node)
        ensures
            node_view(res) == node_view(*self),
        decreases *self,
    {
        match self {
            Node::Element(e) => Node::Element(e.clone()),
            Node::Text(t) => Node::Text(t.clone()),
            Node::Comment(c) => Node::Comment(c.clone()),
            Node::Doctype(d) => Node::Doctype(d.clone()),
        }
    }
}

impl Clone for Element {
    /// A clone models the same element.
    fn clone(&self) -> (res: Element)
        ensures
            elem_view(res) == elem_view(*self),
        decreases *self,
    {
        let mut children: Vec<Node> = Vec::new();
        let mut i: usize = 0;
        while i < self.children.len()
            invariant
                i <= self.children.len(),
                children@.len() == i,
                forall|j: int|
                    0 <= j < i ==> node_view(#[trigger] children@[j]) == node_view(
                        self.children@[j],
                    ),
            decreases self.children.len() - i,
        {
            assert(decreases_to!(*self => self.children@[i as int]));
            let child = self.children[i].clone();
            children.push(child);
            i += 1;
        }
        proof {
            lemma_nodes_view_eq(children@, self.children@);
        }
        Element { name: self.name.clone(), attrs: clone_attrs(&self.attrs), children }
    }
}

impl Node {
    /// True iff this node is an element node.
    pub fn is_element(&self) -> (r: bool)
        ensures
            r == (node_view(*self) is Element),
    {
        match self {
            Node::Element { .. } => true,
            _ => false,
        }
    }

    /// Unwrap the node into an element.  Only element nodes may be handed in.
    pub fn into_element(self) -> (r: Element)
        requires
            node_view(self) is Element,
        ensures
            node_view(self) == SpecNode::Element(elem_view(r)),
    {
        match self {
            Node::Element(element) => element,
            _ => unreached(),
        }
    }

    /// Borrow the node as an element, or `None` if it is no element.
    pub fn as_element(&self) -> (r: Option<&Element>)
        ensures
            match r {
                Some(e) => node_view(*self) == SpecNode::Element(elem_view(*e)),
                None => !(node_view(*self) is Element),
            },
    {
        match self {
            Node::Element(element) => Some(element),
            _ => None,
        }
    }

    /// Borrow the node as a mutable element, or `None` if it is no element.
    pub fn as_element_mut(&mut self) -> (r: Option<&mut Element>)
        ensures
            match r {
                Some(e) => node_view(*old(self)) == SpecNode::Element(elem_view(*e))
                    && node_view(*final(self)) == SpecNode::Element(elem_view(*final(e))),
                None => !(node_view(*old(self)) is Element) && *final(self) == *old(self),
            },
    {
        match self {
            Node::Element(element) => Some(element),
            _ => None,
        }
    }
}

/// Turns borrowed attribute pairs into owned ones.
fn convert_attrs(attrs: Vec<(&str, &str)>) -> (res: Vec<(String, String)>)
    ensures
        attrs_view(res@) == borrowed_attrs_view(attrs@),
{
    let mut out: Vec<(String, String)> = Vec::new();
    let mut i: usize = 0;
    while i < attrs.len()
        invariant
            i <= attrs.len(),
            out@.len() == i,
            forall|j: int|
                0 <= j < i ==> (#[trigger] out@[j].0)@ == attrs@[j].0@ && out@[j].1@
                    == attrs@[j].1@,
        decreases attrs.len() - i,
    {
        let (k, v) = attrs[i];
        out.push((k.to_owned(), v.to_owned()));
        i += 1;
    }
    assert(attrs_view(out@) =~= borrowed_attrs_view(attrs@));
    out
}

impl Node {
    /// Create a new element node from a tag name, attribute pairs, and
    /// children.
    pub fn new_element(name: &str, attrs: Vec<(&str, &str)>, children: Vec<Node>) -> (r: Node)
        ensures
            node_view(r) == SpecNode::Element(
                SpecElem {
                    name: name@,
                    attrs: borrowed_attrs_view(attrs@),
                    children: nodes_view(children@),
                },
            ),
    {
        Element { name: name.to_owned(), attrs: convert_attrs(attrs), children }.into_node()
    }
}

impl Element {
    /// Create a new element from a tag name, attribute pairs, and children.
    pub fn new(name: &str, attrs: Vec<(&str, &str)>, children: Vec<Node>) -> (r: Element)
        ensures
            elem_view(r) == (SpecElem {
                name: name@,
                attrs: borrowed_attrs_view(attrs@),
                children: nodes_view(children@),
            }),
    {
        Element { name: name.to_owned(), attrs: convert_attrs(attrs), children }
    }

    /// Turn the element into an element node.
    pub fn into_node(self) -> (r: Node)
        ensures
            node_view(r) == SpecNode::Element(elem_view(self)),
    {
        Node::Element(self)
    }
}

impl From<Element> for Node {
    /// An element converts into an element node.
    fn from(element: Element) -> (r: Node)
        ensures
            node_view(r) == SpecNode::Element(elem_view(element)),
    {
        Node::Element(element)
    }
}

impl vstd::std_specs::convert::FromSpecImpl<Element> for Node {
    open spec fn obeys_from_spec() -> bool {
        true
    }

    open spec fn from_spec(element: Element) -> Node {
        Node::Element(element)
    }
}

} // verus!
