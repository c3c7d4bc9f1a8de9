//! The mathematical model of the document tree.
//!
//! Every contract in the crate speaks of these types: a [`SpecNode`] is a
//! [`crate::Node`] with every string replaced by its character sequence, so
//! that contracts can state what a function does independently of heap
//! representation.  The `*_view` functions map the executable tree onto the
//! model.

use vstd::prelude::*;

use crate::{Doctype, Element, Node};

verus! {

/// Model of a [`Doctype`].
pub enum SpecDoctype {
    Html,
    Xml { version: Seq<char>, encoding: Seq<char> },
}

/// Model of an [`Element`].
pub struct SpecElem {
    pub name: Seq<char>,
    pub attrs: Seq<(Seq<char>, Seq<char>)>,
    pub children: Seq<SpecNode>,
}

/// Model of a [`Node`].
pub enum SpecNode {
    Element(SpecElem),
    Text(Seq<char>),
    Comment(Seq<char>),
    Doctype(SpecDoctype),
}

/// Model of a list of attribute pairs.
pub open spec fn attrs_view(attrs: Seq<(String, String)>) -> Seq<(Seq<char>, Seq<char>)> {
    attrs.map_values(|p: (String, String)| (p.0@, p.1@))
}

/// Model of a list of strings.
pub open spec fn strings_view(s: Seq<String>) -> Seq<Seq<char>> {
    s.map_values(|x: String| x@)
}

/// Appending a string appends its model.
pub broadcast proof fn lemma_strings_view_push(s: Seq<String>, x: String)
    ensures
        #[trigger] strings_view(s.push(x)) == strings_view(s).push(x@),
{
    assert(strings_view(s.push(x)) =~= strings_view(s).push(x@));
}

/// Model of a list of borrowed attribute pairs, as handed to constructors.
pub open spec fn borrowed_attrs_view(attrs: Seq<(&str, &str)>) -> Seq<(Seq<char>, Seq<char>)> {
    attrs.map_values(|p: (&str, &str)| (p.0@, p.1@))
}

/// Model of a [`Doctype`].
pub open spec fn doctype_view(d: Doctype) -> SpecDoctype {
    match d {
        Doctype::Html => SpecDoctype::Html,
        Doctype::Xml { version, encoding } => SpecDoctype::Xml {
            version: version@,
            encoding: encoding@,
        },
    }
}

/// Model of a [`Node`].
pub open spec fn node_view(n: Node) -> SpecNode
    decreases n,
{
    match n {
        Node::Element(e) => SpecNode::Element(elem_view(e)),
        Node::Text(t) => SpecNode::Text(t@),
        Node::Comment(c) => SpecNode::Comment(c@),
        Node::Doctype(d) => SpecNode::Doctype(doctype_view(d)),
    }
}

/// Model of an [`Element`].
pub open spec fn elem_view(e: Element) -> SpecElem
    decreases e,
{
    SpecElem {
        name: e.name@,
        attrs: attrs_view(e.attrs@),
        children: nodes_view(e.children@),
    }
}

/// Model of a sequence of [`Node`]s.
pub open spec fn nodes_view(s: Seq<Node>) -> Seq<SpecNode>
    decreases s,
{
    if s.len() == 0 {
        Seq::empty()
    } else {
        seq![node_view(s[0])] + nodes_view(s.drop_first())
    }
}

/// `nodes_view` maps the sequence pointwise.
pub broadcast proof fn lemma_nodes_view_len(s: Seq<Node>)
    ensures
        #[trigger] nodes_view(s).len() == s.len(),
    decreases s,
{
    if s.len() > 0 {
        lemma_nodes_view_len(s.drop_first());
    }
}

/// The model of the `i`th node is the `i`th model.
pub broadcast proof fn lemma_nodes_view_index(s: Seq<Node>, i: int)
    requires
        0 <= i < s.len(),
    ensures
        #[trigger] nodes_view(s)[i] == node_view(s[i]),
    decreases s,
{
    lemma_nodes_view_len(s);
    if i > 0 {
        lemma_nodes_view_index(s.drop_first(), i - 1);
    }
}

/// Pointwise equal models give equal sequence models.
pub proof fn lemma_nodes_view_eq(a: Seq<Node>, b: Seq<Node>)
    requires
        a.len() == b.len(),
        forall|i: int| 0 <= i < a.len() ==> node_view(#[trigger] a[i]) == node_view(b[i]),
    ensures
        nodes_view(a) == nodes_view(b),
{
    lemma_nodes_view_len(a);
    lemma_nodes_view_len(b);
    assert forall|i: int| 0 <= i < a.len() implies nodes_view(a)[i] == nodes_view(b)[i] by {
        lemma_nodes_view_index(a, i);
        lemma_nodes_view_index(b, i);
    }
    assert(nodes_view(a) =~= nodes_view(b));
}

/// Appending a node appends its model.
pub broadcast proof fn lemma_nodes_view_push(s: Seq<Node>, n: Node)
    ensures
        #[trigger] nodes_view(s.push(n)) == nodes_view(s).push(node_view(n)),
{
    lemma_nodes_view_len(s);
    lemma_nodes_view_len(s.push(n));
    assert forall|i: int| 0 <= i < s.len() + 1 implies nodes_view(s.push(n))[i] == nodes_view(
        s,
    ).push(node_view(n))[i] by {
        lemma_nodes_view_index(s.push(n), i);
        if i < s.len() {
            lemma_nodes_view_index(s, i);
            assert(s.push(n)[i] == s[i]);
        } else {
            assert(s.push(n)[i] == n);
        }
    }
    assert(nodes_view(s.push(n)) =~= nodes_view(s).push(node_view(n)));
}

} // verus!
