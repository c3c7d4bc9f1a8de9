//! Editing the document tree: trimming empty text, inserting into matching
//! elements, and removing matching elements, all by [`Selector`].

use vstd::prelude::*;

use crate::model::{
    SpecElem, SpecNode, attrs_view, elem_view, lemma_nodes_view_index, lemma_nodes_view_len,
    node_view, nodes_view,
};
use crate::operation::selector::{Selector, selector_view, spec_matches};
use crate::operation::selector::simple::SpecSimple;
use crate::text::{is_blank, trim_spec};
use crate::{Element, Node, clone_attrs};

verus! {

/// What trimming keeps of one node: comments and whitespace-only text go,
/// elements keep their trimmed children, everything else stays.
pub open spec fn trim_one(n: SpecNode) -> Seq<SpecNode>
    decreases n, 0int,
{
    match n {
        SpecNode::Comment(_) => Seq::empty(),
        SpecNode::Text(t) => if trim_spec(t).len() == 0 {
            Seq::empty()
        } else {
            seq![n]
        },
        SpecNode::Doctype(_) => seq![n],
        SpecNode::Element(e) => seq![
            SpecNode::Element(
                SpecElem { name: e.name, attrs: e.attrs, children: spec_trim_nodes(e.children) },
            ),
        ],
    }
}

/// The trimmed form of a node list.
pub open spec fn spec_trim_nodes(s: Seq<SpecNode>) -> Seq<SpecNode>
    decreases s, 1int,
{
    if s.len() == 0 {
        Seq::empty()
    } else {
        trim_one(s[0]) + spec_trim_nodes(s.drop_first())
    }
}

/// Trimming one more node at the back appends its trimmed form.
proof fn lemma_trim_snoc(s: Seq<SpecNode>, x: SpecNode)
    ensures
        spec_trim_nodes(s.push(x)) == spec_trim_nodes(s) + trim_one(x),
    decreases s.len(),
{
    let p = s.push(x);
    if s.len() == 0 {
        assert(p[0] == x);
        assert(p.drop_first() =~= Seq::<SpecNode>::empty());
        assert(spec_trim_nodes(Seq::<SpecNode>::empty()) == Seq::<SpecNode>::empty());
        assert(spec_trim_nodes(p) == trim_one(p[0]) + spec_trim_nodes(p.drop_first()));
        assert(trim_one(x) + Seq::<SpecNode>::empty() =~= trim_one(x));
        assert(Seq::<SpecNode>::empty() + trim_one(x) =~= trim_one(x));
    } else {
        assert(p[0] == s[0]);
        assert(p.drop_first() =~= s.drop_first().push(x));
        lemma_trim_snoc(s.drop_first(), x);
        assert((trim_one(s[0]) + (spec_trim_nodes(s.drop_first()) + trim_one(x))) =~= (trim_one(
            s[0],
        ) + spec_trim_nodes(s.drop_first())) + trim_one(x));
    }
}

/// One node with `target` inserted below every matching element, the
/// element's own children first.
pub open spec fn insert_one(
    n: SpecNode,
    sel: Seq<Seq<SpecSimple>>,
    target: SpecNode,
) -> SpecNode
    decreases n, 0int,
{
    match n {
        SpecNode::Element(e) => {
            let ch = spec_insert_nodes(e.children, sel, target);
            let ch2 = if spec_matches(
                sel,
                SpecElem { name: e.name, attrs: e.attrs, children: Seq::empty() },
            ) {
                ch.push(target)
            } else {
                ch
            };
            SpecNode::Element(SpecElem { name: e.name, attrs: e.attrs, children: ch2 })
        },
        _ => n,
    }
}

/// A node list with `target` inserted below every matching element.
pub open spec fn spec_insert_nodes(
    s: Seq<SpecNode>,
    sel: Seq<Seq<SpecSimple>>,
    target: SpecNode,
) -> Seq<SpecNode>
    decreases s, 1int,
{
    if s.len() == 0 {
        Seq::empty()
    } else {
        seq![insert_one(s[0], sel, target)] + spec_insert_nodes(s.drop_first(), sel, target)
    }
}

/// Inserting below one more node at the back appends its inserted form.
proof fn lemma_insert_snoc(
    s: Seq<SpecNode>,
    x: SpecNode,
    sel: Seq<Seq<SpecSimple>>,
    target: SpecNode,
)
    ensures
        spec_insert_nodes(s.push(x), sel, target) == spec_insert_nodes(s, sel, target).push(
            insert_one(x, sel, target),
        ),
    decreases s.len(),
{
    let p = s.push(x);
    assert(spec_insert_nodes(p, sel, target) == seq![insert_one(p[0], sel, target)]
        + spec_insert_nodes(p.drop_first(), sel, target));
    if s.len() == 0 {
        assert(p[0] == x);
        assert(p.drop_first() =~= Seq::<SpecNode>::empty());
        assert(spec_insert_nodes(p.drop_first(), sel, target) == Seq::<SpecNode>::empty());
        assert(spec_insert_nodes(s, sel, target) == Seq::<SpecNode>::empty());
        assert(spec_insert_nodes(p, sel, target) =~= spec_insert_nodes(s, sel, target).push(
            insert_one(x, sel, target),
        ));
    } else {
        assert(p[0] == s[0]);
        assert(p.drop_first() =~= s.drop_first().push(x));
        lemma_insert_snoc(s.drop_first(), x, sel, target);
        assert(spec_insert_nodes(s, sel, target) == seq![insert_one(s[0], sel, target)]
            + spec_insert_nodes(s.drop_first(), sel, target));
        assert(spec_insert_nodes(p, sel, target) =~= spec_insert_nodes(s, sel, target).push(
            insert_one(x, sel, target),
        ));
    }
}

/// What removal keeps of one node: a matching element goes, any other
/// element keeps its cleaned children, everything else stays.
pub open spec fn remove_one(n: SpecNode, sel: Seq<Seq<SpecSimple>>) -> Seq<SpecNode>
    decreases n, 0int,
{
    match n {
        SpecNode::Element(e) => if spec_matches(
            sel,
            SpecElem { name: e.name, attrs: e.attrs, children: Seq::empty() },
        ) {
            Seq::empty()
        } else {
            seq![
                SpecNode::Element(
                    SpecElem {
                        name: e.name,
                        attrs: e.attrs,
                        children: spec_remove_nodes(e.children, sel),
                    },
                ),
            ]
        },
        _ => seq![n],
    }
}

/// A node list with every matching element removed, at every depth.
pub open spec fn spec_remove_nodes(s: Seq<SpecNode>, sel: Seq<Seq<SpecSimple>>) -> Seq<SpecNode>
    decreases s, 1int,
{
    if s.len() == 0 {
        Seq::empty()
    } else {
        remove_one(s[0], sel) + spec_remove_nodes(s.drop_first(), sel)
    }
}

/// Removing below one more node at the back appends what it keeps.
proof fn lemma_remove_snoc(s: Seq<SpecNode>, x: SpecNode, sel: Seq<Seq<SpecSimple>>)
    ensures
        spec_remove_nodes(s.push(x), sel) == spec_remove_nodes(s, sel) + remove_one(x, sel),
    decreases s.len(),
{
    let p = s.push(x);
    assert(spec_remove_nodes(p, sel) == remove_one(p[0], sel) + spec_remove_nodes(
        p.drop_first(),
        sel,
    ));
    if s.len() == 0 {
        assert(p[0] == x);
        assert(p.drop_first() =~= Seq::<SpecNode>::empty());
        assert(spec_remove_nodes(p.drop_first(), sel) == Seq::<SpecNode>::empty());
        assert(spec_remove_nodes(s, sel) == Seq::<SpecNode>::empty());
        assert(remove_one(x, sel) + Seq::<SpecNode>::empty() =~= remove_one(x, sel));
        assert(Seq::<SpecNode>::empty() + remove_one(x, sel) =~= remove_one(x, sel));
    } else {
        assert(p[0] == s[0]);
        assert(p.drop_first() =~= s.drop_first().push(x));
        lemma_remove_snoc(s.drop_first(), x, sel);
        assert(spec_remove_nodes(s, sel) == remove_one(s[0], sel) + spec_remove_nodes(
            s.drop_first(),
            sel,
        ));
        assert((remove_one(s[0], sel) + (spec_remove_nodes(s.drop_first(), sel) + remove_one(
            x,
            sel,
        ))) =~= (remove_one(s[0], sel) + spec_remove_nodes(s.drop_first(), sel)) + remove_one(
            x,
            sel,
        ));
    }
}

/// The trimmed copy of a node list.
fn trim_nodes(nodes: &Vec<Node>) -> (r: Vec<Node>)
    ensures
        nodes_view(r@) == spec_trim_nodes(nodes_view(nodes@)),
    decreases nodes@,
{
    let ghost nv = nodes_view(nodes@);
    let mut out: Vec<Node> = Vec::new();
    let mut i: usize = 0;
    proof {
        lemma_nodes_view_len(nodes@);
        assert(nodes_view(Seq::<Node>::empty()) =~= Seq::<SpecNode>::empty());
        assert(nv.take(0) =~= Seq::<SpecNode>::empty());
    }
    while i < nodes.len()
        invariant
            i <= nodes@.len() == nv.len(),
            nv == nodes_view(nodes@),
            nodes_view(out@) == spec_trim_nodes(nv.take(i as int)),
        decreases nodes@.len() - i,
    {
        proof {
            lemma_nodes_view_index(nodes@, i as int);
            lemma_trim_snoc(nv.take(i as int), nv[i as int]);
            assert(nv.take(i as int).push(nv[i as int]) =~= nv.take(i + 1));
        }
        let ghost before = nodes_view(out@);
        match &nodes[i] {
            Node::Comment(_) => {
                proof {
                    assert(nodes_view(out@) =~= before + trim_one(nv[i as int]));
                }
            },
            Node::Text(t) => {
                if is_blank(t.as_str()) {
                    proof {
                        assert(nodes_view(out@) =~= before + trim_one(nv[i as int]));
                    }
                } else {
                    let node = Node::Text(t.clone());
                    proof {
                        crate::model::lemma_nodes_view_push(out@, node);
                    }
                    out.push(node);
                    proof {
                        assert(nodes_view(out@) =~= before + trim_one(nv[i as int]));
                    }
                }
            },
            Node::Doctype(d) => {
                let node = Node::Doctype(d.clone());
                proof {
                    crate::model::lemma_nodes_view_push(out@, node);
                }
                out.push(node);
                proof {
                    assert(nodes_view(out@) =~= before + trim_one(nv[i as int]));
                }
            },
            Node::Element(e) => {
                assert(decreases_to!(nodes@, 1int => e.children@, 1int));
                let children = trim_nodes(&e.children);
                let node = Node::Element(
                    Element { name: e.name.clone(), attrs: clone_attrs(&e.attrs), children },
                );
                proof {
                    crate::model::lemma_nodes_view_push(out@, node);
                }
                out.push(node);
                proof {
                    assert(nodes_view(out@) =~= before + trim_one(nv[i as int]));
                }
            },
        }
        i += 1;
    }
    proof {
        assert(nv.take(nv.len() as int) =~= nv);
    }
    out
}

/// A copy of the node list with `target` inserted below every matching
/// element.
fn insert_nodes(nodes: &Vec<Node>, selector: &Selector, target: &Node) -> (r: Vec<Node>)
    ensures
        nodes_view(r@) == spec_insert_nodes(
            nodes_view(nodes@),
            selector_view(*selector),
            node_view(*target),
        ),
    decreases nodes@,
{
    let ghost nv = nodes_view(nodes@);
    let ghost sel = selector_view(*selector);
    let ghost tv = node_view(*target);
    let mut out: Vec<Node> = Vec::new();
    let mut i: usize = 0;
    proof {
        lemma_nodes_view_len(nodes@);
        assert(nodes_view(Seq::<Node>::empty()) =~= Seq::<SpecNode>::empty());
        assert(nv.take(0) =~= Seq::<SpecNode>::empty());
        assert(spec_insert_nodes(nv.take(0), sel, tv) =~= Seq::<SpecNode>::empty());
    }
    while i < nodes.len()
        invariant
            i <= nodes@.len() == nv.len(),
            nv == nodes_view(nodes@),
            sel == selector_view(*selector),
            tv == node_view(*target),
            nodes_view(out@) == spec_insert_nodes(nv.take(i as int), sel, tv),
        decreases nodes@.len() - i,
    {
        proof {
            lemma_nodes_view_index(nodes@, i as int);
            lemma_insert_snoc(nv.take(i as int), nv[i as int], sel, tv);
            assert(nv.take(i as int).push(nv[i as int]) =~= nv.take(i + 1));
        }
        match &nodes[i] {
            Node::Element(e) => {
                assert(decreases_to!(nodes@, 1int => e.children@, 1int));
                let mut children = insert_nodes(&e.children, selector, target);
                let probe = Element {
                    name: e.name.clone(),
                    attrs: clone_attrs(&e.attrs),
                    children: Vec::new(),
                };
                let ghost pre_children = nodes_view(children@);
                if selector.matches(&probe) {
                    let extra = target.clone();
                    proof {
                        crate::model::lemma_nodes_view_push(children@, extra);
                    }
                    children.push(extra);
                    proof {
                        assert(nodes_view(children@) == pre_children.push(tv));
                    }
                }
                let node = Node::Element(
                    Element { name: e.name.clone(), attrs: clone_attrs(&e.attrs), children },
                );
                proof {
                    crate::model::lemma_nodes_view_push(out@, node);
                    assert(node_view(node) == insert_one(nv[i as int], sel, tv));
                }
                out.push(node);
            },
            _ => {
                let node = nodes[i].clone();
                proof {
                    crate::model::lemma_nodes_view_push(out@, node);
                    assert(node_view(node) == insert_one(nv[i as int], sel, tv));
                }
                out.push(node);
            },
        }
        i += 1;
    }
    proof {
        assert(nv.take(nv.len() as int) =~= nv);
    }
    out
}

/// A copy of the node list with every matching element removed.
fn remove_nodes(nodes: &Vec<Node>, selector: &Selector) -> (r: Vec<Node>)
    ensures
        nodes_view(r@) == spec_remove_nodes(nodes_view(nodes@), selector_view(*selector)),
    decreases nodes@,
{
    let ghost nv = nodes_view(nodes@);
    let ghost sel = selector_view(*selector);
    let mut out: Vec<Node> = Vec::new();
    let mut i: usize = 0;
    proof {
        lemma_nodes_view_len(nodes@);
        assert(nodes_view(Seq::<Node>::empty()) =~= Seq::<SpecNode>::empty());
        assert(nv.take(0) =~= Seq::<SpecNode>::empty());
    }
    while i < nodes.len()
        invariant
            i <= nodes@.len() == nv.len(),
            nv == nodes_view(nodes@),
            sel == selector_view(*selector),
            nodes_view(out@) == spec_remove_nodes(nv.take(i as int), sel),
        decreases nodes@.len() - i,
    {
        proof {
            lemma_nodes_view_index(nodes@, i as int);
            lemma_remove_snoc(nv.take(i as int), nv[i as int], sel);
            assert(nv.take(i as int).push(nv[i as int]) =~= nv.take(i + 1));
        }
        let ghost before = nodes_view(out@);
        match &nodes[i] {
            Node::Element(e) => {
                let probe = Element {
                    name: e.name.clone(),
                    attrs: clone_attrs(&e.attrs),
                    children: Vec::new(),
                };
                if selector.matches(&probe) {
                    proof {
                        assert(nodes_view(out@) =~= before + remove_one(nv[i as int], sel));
                    }
                } else {
                    assert(decreases_to!(nodes@, 1int => e.children@, 1int));
                    let children = remove_nodes(&e.children, selector);
                    let node = Node::Element(
                        Element { name: e.name.clone(), attrs: clone_attrs(&e.attrs), children },
                    );
                    proof {
                        crate::model::lemma_nodes_view_push(out@, node);
                    }
                    out.push(node);
                    proof {
                        assert(nodes_view(out@) =~= before + remove_one(nv[i as int], sel));
                    }
                }
            },
            _ => {
                let node = nodes[i].clone();
                proof {
                    crate::model::lemma_nodes_view_push(out@, node);
                }
                out.push(node);
                proof {
                    assert(nodes_view(out@) =~= before + remove_one(nv[i as int], sel));
                }
            },
        }
        i += 1;
    }
    proof {
        assert(nv.take(nv.len() as int) =~= nv);
    }
    out
}

/// Whether `n` is `o` with every matching element replaced by an output of
/// `repl`: a matching element becomes some node the replacer could return
/// for it, any other element keeps its tag and attributes around replaced
/// children, and other nodes stay as they are.
pub open spec fn replaced_one<F: Fn(&Element) -> Node>(
    repl: F,
    sel: Seq<Seq<SpecSimple>>,
    o: Node,
    n: Node,
) -> bool
    decreases o, 0int,
{
    match o {
        Node::Element(e) => if spec_matches(sel, elem_view(e)) {
            call_ensures(repl, (&e,), n)
        } else {
            n matches Node::Element(ne) && ne.name@ == e.name@ && attrs_view(ne.attrs@)
                == attrs_view(e.attrs@) && replaced_nodes(repl, sel, e.children@, ne.children@)
        },
        _ => node_view(n) == node_view(o),
    }
}

/// Whether `ns` is `os` with every matching element replaced, node by node.
pub open spec fn replaced_nodes<F: Fn(&Element) -> Node>(
    repl: F,
    sel: Seq<Seq<SpecSimple>>,
    os: Seq<Node>,
    ns: Seq<Node>,
) -> bool
    decreases os, 1int,
{
    if os.len() != ns.len() {
        false
    } else if os.len() == 0 {
        true
    } else {
        replaced_one(repl, sel, os[0], ns[0]) && replaced_nodes(
            repl,
            sel,
            os.drop_first(),
            ns.drop_first(),
        )
    }
}

/// Replacing below one more node at the back extends the relation.
proof fn lemma_replaced_snoc<F: Fn(&Element) -> Node>(
    repl: F,
    sel: Seq<Seq<SpecSimple>>,
    os: Seq<Node>,
    ns: Seq<Node>,
    o: Node,
    n: Node,
)
    requires
        replaced_nodes(repl, sel, os, ns),
        replaced_one(repl, sel, o, n),
    ensures
        replaced_nodes(repl, sel, os.push(o), ns.push(n)),
    decreases os.len(),
{
    let po = os.push(o);
    let pn = ns.push(n);
    assert(ns.len() == os.len());
    assert(replaced_nodes(repl, sel, po, pn) == (replaced_one(repl, sel, po[0], pn[0])
        && replaced_nodes(repl, sel, po.drop_first(), pn.drop_first())));
    if os.len() == 0 {
        assert(po[0] == o && pn[0] == n);
        assert(po.drop_first() =~= Seq::<Node>::empty());
        assert(pn.drop_first() =~= Seq::<Node>::empty());
        assert(replaced_nodes(repl, sel, po.drop_first(), pn.drop_first()));
    } else {
        assert(po[0] == os[0] && pn[0] == ns[0]);
        assert(po.drop_first() =~= os.drop_first().push(o));
        assert(pn.drop_first() =~= ns.drop_first().push(n));
        assert(replaced_one(repl, sel, os[0], ns[0]) && replaced_nodes(
            repl,
            sel,
            os.drop_first(),
            ns.drop_first(),
        ));
        lemma_replaced_snoc(repl, sel, os.drop_first(), ns.drop_first(), o, n);
    }
}

/// A copy of the node list with every matching element replaced by the
/// replacer's output for it.
fn replace_nodes<F: Fn(&Element) -> Node>(nodes: &Vec<Node>, selector: &Selector, repl: &F) -> (r:
    Vec<Node>)
    requires
        forall|e: &Element| call_requires(*repl, (e,)),
    ensures
        replaced_nodes(*repl, selector_view(*selector), nodes@, r@),
    decreases nodes@,
{
    let ghost sel = selector_view(*selector);
    let mut out: Vec<Node> = Vec::new();
    let mut i: usize = 0;
    proof {
        assert(nodes@.take(0) =~= Seq::<Node>::empty());
        assert(out@ =~= Seq::<Node>::empty());
    }
    while i < nodes.len()
        invariant
            i <= nodes@.len(),
            out@.len() == i,
            sel == selector_view(*selector),
            forall|e: &Element| call_requires(*repl, (e,)),
            replaced_nodes(*repl, sel, nodes@.take(i as int), out@),
        decreases nodes@.len() - i,
    {
        let ghost prev = out@;
        match &nodes[i] {
            Node::Element(e) => {
                if selector.matches(e) {
                    let n = repl(e);
                    proof {
                        assert(replaced_one(*repl, sel, nodes@[i as int], n));
                    }
                    out.push(n);
                } else {
                    assert(decreases_to!(nodes@, 1int => e.children@, 1int));
                    let children = replace_nodes(&e.children, selector, repl);
                    let node = Node::Element(
                        Element { name: e.name.clone(), attrs: crate::clone_attrs(&e.attrs), children },
                    );
                    proof {
                        assert(replaced_one(*repl, sel, nodes@[i as int], node));
                    }
                    out.push(node);
                }
            },
            _ => {
                let node = nodes[i].clone();
                proof {
                    assert(replaced_one(*repl, sel, nodes@[i as int], node));
                }
                out.push(node);
            },
        }
        proof {
            lemma_replaced_snoc(*repl, sel, nodes@.take(i as int), prev, nodes@[i as int], out@.last());
            assert(nodes@.take(i as int).push(nodes@[i as int]) =~= nodes@.take(i + 1));
            assert(prev.push(out@.last()) =~= out@);
        }
        i += 1;
    }
    proof {
        assert(nodes@.take(nodes@.len() as int) =~= nodes@);
    }
    out
}

/// Insert and remove elements by [`Selector`], and trim the tree.
pub trait Editable {
    /// The node list the editor works on: a list's own nodes, an element's
    /// children.
    spec fn edit_model(&self) -> Seq<SpecNode>;

    /// The same node list, as the executable values the editor holds.
    spec fn edit_nodes(&self) -> Seq<Node>;

    /// The editing value's own tag name and attributes, where it has them.
    spec fn edit_frame(&self) -> Option<(Seq<char>, Seq<(Seq<char>, Seq<char>)>)>;

    /// Remove all whitespace-only text nodes and all comments, at every
    /// depth.
    fn trim(&mut self)
        ensures
            final(self).edit_model() == spec_trim_nodes(old(self).edit_model()),
            final(self).edit_frame() == old(self).edit_frame(),
    ;

    /// Insert `target` as the last child of every element matching the
    /// selector (the editing element itself included, where it matches).
    fn insert_to(&mut self, selector: &Selector, target: Node)
        ensures
            final(self).edit_model() == (match old(self).edit_frame() {
                None => spec_insert_nodes(
                    old(self).edit_model(),
                    selector_view(*selector),
                    node_view(target),
                ),
                Some((name, attrs)) => {
                    let inner = spec_insert_nodes(
                        old(self).edit_model(),
                        selector_view(*selector),
                        node_view(target),
                    );
                    if spec_matches(
                        selector_view(*selector),
                        SpecElem { name, attrs, children: Seq::empty() },
                    ) {
                        inner.push(node_view(target))
                    } else {
                        inner
                    }
                },
            }),
            final(self).edit_frame() == old(self).edit_frame(),
    ;

    /// Remove every element matching the selector, at every depth below
    /// the editing value.
    fn remove_by(&mut self, selector: &Selector)
        ensures
            final(self).edit_model() == spec_remove_nodes(
                old(self).edit_model(),
                selector_view(*selector),
            ),
            final(self).edit_frame() == old(self).edit_frame(),
    ;

    /// Replace every element matching the selector by what `repl` returns
    /// for it; a replaced element's descendants are not visited.  The
    /// replacer must accept every element.
    fn replace_with<F: Fn(&Element) -> Node>(&mut self, selector: &Selector, repl: F)
        requires
            forall|e: &Element| call_requires(repl, (e,)),
        ensures
            replaced_nodes(
                repl,
                selector_view(*selector),
                old(self).edit_nodes(),
                final(self).edit_nodes(),
            ),
            final(self).edit_frame() == old(self).edit_frame(),
    ;
}

impl Editable for Vec<Node> {
    /// A node list edits its own nodes.
    open spec fn edit_model(&self) -> Seq<SpecNode> {
        nodes_view(self@)
    }

    /// A node list's nodes are its own.
    open spec fn edit_nodes(&self) -> Seq<Node> {
        self@
    }

    /// A node list has no tag of its own.
    open spec fn edit_frame(&self) -> Option<(Seq<char>, Seq<(Seq<char>, Seq<char>)>)> {
        None
    }

    fn trim(&mut self) {
        let trimmed = trim_nodes(self);
        *self = trimmed;
    }

    fn insert_to(&mut self, selector: &Selector, target: Node) {
        let inserted = insert_nodes(self, selector, &target);
        *self = inserted;
    }

    fn remove_by(&mut self, selector: &Selector) {
        let removed = remove_nodes(self, selector);
        *self = removed;
    }

    fn replace_with<F: Fn(&Element) -> Node>(&mut self, selector: &Selector, repl: F) {
        let replaced = replace_nodes(self, selector, &repl);
        *self = replaced;
    }
}

impl Editable for Element {
    /// An element edits its children.
    open spec fn edit_model(&self) -> Seq<SpecNode> {
        nodes_view(self.children@)
    }

    /// An element's nodes are its children.
    open spec fn edit_nodes(&self) -> Seq<Node> {
        self.children@
    }

    /// An element's own tag name and attributes take part in insertion.
    open spec fn edit_frame(&self) -> Option<(Seq<char>, Seq<(Seq<char>, Seq<char>)>)> {
        Some((self.name@, attrs_view(self.attrs@)))
    }

    fn trim(&mut self) {
        let trimmed = trim_nodes(&self.children);
        self.children = trimmed;
    }

    fn insert_to(&mut self, selector: &Selector, target: Node) {
        let mut inserted = insert_nodes(&self.children, selector, &target);
        let probe = Element {
            name: self.name.clone(),
            attrs: clone_attrs(&self.attrs),
            children: Vec::new(),
        };
        if selector.matches(&probe) {
            proof {
                crate::model::lemma_nodes_view_push(inserted@, target);
            }
            inserted.push(target);
        }
        self.children = inserted;
    }

    fn remove_by(&mut self, selector: &Selector) {
        let removed = remove_nodes(&self.children, selector);
        self.children = removed;
    }

    fn replace_with<F: Fn(&Element) -> Node>(&mut self, selector: &Selector, repl: F) {
        let replaced = replace_nodes(&self.children, selector, &repl);
        self.children = replaced;
    }
}

} // verus!
