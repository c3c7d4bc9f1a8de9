//! Querying the document tree for elements by [`Selector`].
//!
//! A query walks the tree in document order, checking each element itself
//! before its children.  [`Queryable::query`] returns the first match,
//! [`Queryable::query_all`] every match, with an element's matching
//! descendants listed before the element itself.

use vstd::prelude::*;

use crate::model::{
    SpecElem, SpecNode, elem_view, lemma_nodes_view_index, lemma_nodes_view_len, node_view,
    nodes_view,
};
use crate::operation::selector::{Selector, selector_view, spec_matches};
use crate::operation::selector::simple::SpecSimple;
use crate::{Element, Node};

verus! {

/// The first element among `s` (checking each element before its children)
/// that the selector matches.
pub open spec fn spec_query(s: Seq<SpecNode>, sel: Seq<Seq<SpecSimple>>) -> Option<SpecElem>
    decreases s,
{
    if s.len() == 0 {
        None
    } else {
        match s[0] {
            SpecNode::Element(e) => if spec_matches(sel, e) {
                Some(e)
            } else {
                match spec_query(e.children, sel) {
                    Some(found) => Some(found),
                    None => spec_query(s.drop_first(), sel),
                }
            },
            _ => spec_query(s.drop_first(), sel),
        }
    }
}

/// One step of the search: the head node's own result decides, the rest of
/// the list only if the head holds no match.
proof fn lemma_query_step(s: Seq<SpecNode>, sel: Seq<Seq<SpecSimple>>)
    requires
        s.len() > 0,
    ensures
        spec_query(s, sel) == (match spec_query(seq![s[0]], sel) {
            Some(found) => Some(found),
            None => spec_query(s.drop_first(), sel),
        }),
{
    let single = seq![s[0]];
    assert(single.len() == 1);
    assert(single[0] == s[0]);
    assert(single.drop_first() =~= Seq::<SpecNode>::empty());
    assert(spec_query(Seq::<SpecNode>::empty(), sel) is None);
    match s[0] {
        SpecNode::Element(e) => {
            assert(spec_query(single, sel) == (if spec_matches(sel, e) {
                Some(e)
            } else {
                match spec_query(e.children, sel) {
                    Some(found) => Some(found),
                    None => spec_query(single.drop_first(), sel),
                }
            }));
        },
        _ => {
            assert(spec_query(single, sel) is None);
        },
    }
}

/// Every element among `s` that the selector matches, matching descendants
/// of an element listed before the element itself.
pub open spec fn spec_query_all(s: Seq<SpecNode>, sel: Seq<Seq<SpecSimple>>) -> Seq<SpecElem>
    decreases s, 1int,
{
    if s.len() == 0 {
        Seq::empty()
    } else {
        query_all_one(s[0], sel) + spec_query_all(s.drop_first(), sel)
    }
}

/// The matches within one node.
pub open spec fn query_all_one(n: SpecNode, sel: Seq<Seq<SpecSimple>>) -> Seq<SpecElem>
    decreases n, 0int,
{
    match n {
        SpecNode::Element(e) => spec_query_all(e.children, sel) + (if spec_matches(sel, e) {
            seq![e]
        } else {
            Seq::<SpecElem>::empty()
        }),
        _ => Seq::empty(),
    }
}

/// Model of a list of borrowed elements.
pub open spec fn elems_view(s: Seq<&Element>) -> Seq<SpecElem> {
    s.map_values(|e: &Element| elem_view(*e))
}

/// Query elements by [`Selector`].
pub trait Queryable {
    /// The node list a query searches: a list's own nodes, or the single
    /// node a value stands for.
    spec fn query_model(&self) -> Seq<SpecNode>;

    /// The first matching element in document order, an element checked
    /// before its children; `None` iff nothing matches.
    fn query(&self, selector: &Selector) -> (r: Option<&Element>)
        ensures
            match r {
                Some(e) => spec_query(self.query_model(), selector_view(*selector)) == Some(
                    elem_view(*e),
                ),
                None => spec_query(self.query_model(), selector_view(*selector)) is None,
            },
    ;

    /// Every matching element, an element's matching descendants listed
    /// before the element itself.
    fn query_all(&self, selector: &Selector) -> (r: Vec<&Element>)
        ensures
            elems_view(r@) == spec_query_all(self.query_model(), selector_view(*selector)),
    ;
}

impl Queryable for Vec<Node> {
    /// A node list is searched through its nodes.
    open spec fn query_model(&self) -> Seq<SpecNode> {
        nodes_view(self@)
    }

    fn query(&self, selector: &Selector) -> (r: Option<&Element>)
        decreases self@, 1int,
    {
        let ghost nv = nodes_view(self@);
        let ghost sel = selector_view(*selector);
        let mut i: usize = 0;
        proof {
            lemma_nodes_view_len(self@);
            assert(nv.skip(0) =~= nv);
        }
        while i < self.len()
            invariant
                i <= self@.len() == nv.len(),
                nv == nodes_view(self@),
                sel == selector_view(*selector),
                spec_query(nv, sel) == spec_query(nv.skip(i as int), sel),
            decreases self@.len() - i,
        {
            proof {
                lemma_nodes_view_index(self@, i as int);
                assert(nv.skip(i as int)[0] == nv[i as int]);
                assert(nv.skip(i as int).drop_first() =~= nv.skip(i + 1));
            }
            match &self[i] {
                Node::Element(element) => {
                    proof {
                        assert(nv[i as int] == SpecNode::Element(elem_view(*element)));
                        assert(element.query_model() =~= seq![nv[i as int]]);
                        assert(element.query_model().len() == 1);
                        assert(element.query_model()[0] == nv[i as int]);
                        assert(element.query_model().drop_first() =~= Seq::<SpecNode>::empty());
                    }
                    proof {
                        lemma_query_step(nv.skip(i as int), sel);
                        assert(seq![nv.skip(i as int)[0]] =~= seq![nv[i as int]]);
                    }
                    match element.query(selector) {
                        Some(elem) => {
                            proof {
                                assert(spec_query(seq![nv[i as int]], sel) == Some(
                                    elem_view(*elem),
                                ));
                            }
                            return Some(elem);
                        },
                        None => {
                            proof {
                                assert(spec_query(seq![nv[i as int]], sel) is None);
                            }
                        },
                    }
                },
                _ => {},
            }
            i += 1;
        }
        proof {
            assert(nv.skip(nv.len() as int).len() == 0);
        }
        None
    }

    fn query_all(&self, selector: &Selector) -> (r: Vec<&Element>)
        decreases self@, 1int,
    {
        let ghost nv = nodes_view(self@);
        let ghost sel = selector_view(*selector);
        let mut out: Vec<&Element> = Vec::new();
        let mut i: usize = 0;
        proof {
            lemma_nodes_view_len(self@);
            assert(nv.take(0) =~= Seq::<SpecNode>::empty());
            assert(elems_view(Seq::<&Element>::empty()) =~= Seq::<SpecElem>::empty());
        }
        while i < self.len()
            invariant
                i <= self@.len() == nv.len(),
                nv == nodes_view(self@),
                sel == selector_view(*selector),
                elems_view(out@) == spec_query_all(nv.take(i as int), sel),
            decreases self@.len() - i,
        {
            proof {
                lemma_nodes_view_index(self@, i as int);
                lemma_query_all_snoc(nv.take(i as int), nv[i as int], sel);
                assert(nv.take(i as int).push(nv[i as int]) =~= nv.take(i + 1));
            }
            let ghost before = elems_view(out@);
            match &self[i] {
                Node::Element(element) => {
                    proof {
                        assert(nv[i as int] == SpecNode::Element(elem_view(*element)));
                    }
                    proof {
                        assert(element.query_model() =~= seq![nv[i as int]]);
                        assert(element.query_model()[0] == nv[i as int]);
                        assert(element.query_model().drop_first() =~= Seq::<SpecNode>::empty());
                        assert(spec_query_all(Seq::<SpecNode>::empty(), sel) == Seq::<
                            SpecElem,
                        >::empty());
                    }
                    let sub = element.query_all(selector);
                    proof {
                        assert(query_all_one(nv[i as int], sel) + Seq::<SpecElem>::empty()
                            =~= query_all_one(nv[i as int], sel));
                    }
                    let mut k: usize = 0;
                    while k < sub.len()
                        invariant
                            k <= sub@.len(),
                            elems_view(sub@) == query_all_one(nv[i as int], sel),
                            nv == nodes_view(self@),
                            i < nv.len(),
                            elems_view(out@) == before + elems_view(sub@).take(k as int),
                        decreases sub@.len() - k,
                    {
                        let e = sub[k];
                        proof {
                            assert(elems_view(sub@)[k as int] == elem_view(*e));
                        }
                        let ghost prev = out@;
                        out.push(e);
                        proof {
                            assert(elems_view(out@) =~= elems_view(prev).push(elem_view(*e)));
                            assert((before + elems_view(sub@).take(k as int)).push(elem_view(*e))
                                =~= before + elems_view(sub@).take(k + 1));
                        }
                        k += 1;
                    }
                    proof {
                        assert(elems_view(sub@).take(sub@.len() as int) =~= elems_view(sub@));
                        assert(elems_view(out@) =~= before + query_all_one(nv[i as int], sel));
                    }
                },
                _ => {
                    proof {
                        assert(query_all_one(nv[i as int], sel) == Seq::<SpecElem>::empty());
                        assert(elems_view(out@) =~= before + query_all_one(nv[i as int], sel));
                    }
                },
            }
            i += 1;
        }
        proof {
            assert(nv.take(nv.len() as int) =~= nv);
        }
        out
    }
}

/// Searching one more node at the back appends its matches.
proof fn lemma_query_all_snoc(s: Seq<SpecNode>, x: SpecNode, sel: Seq<Seq<SpecSimple>>)
    ensures
        spec_query_all(s.push(x), sel) == spec_query_all(s, sel) + query_all_one(x, sel),
    decreases s.len(),
{
    let p = s.push(x);
    assert(spec_query_all(p, sel) == query_all_one(p[0], sel) + spec_query_all(
        p.drop_first(),
        sel,
    ));
    if s.len() == 0 {
        assert(p[0] == x);
        assert(p.drop_first() =~= Seq::<SpecNode>::empty());
        assert(spec_query_all(p.drop_first(), sel) == Seq::<SpecElem>::empty());
        assert(spec_query_all(s, sel) == Seq::<SpecElem>::empty());
        assert(query_all_one(x, sel) + Seq::<SpecElem>::empty() =~= query_all_one(x, sel));
        assert(Seq::<SpecElem>::empty() + query_all_one(x, sel) =~= query_all_one(x, sel));
    } else {
        assert(p[0] == s[0]);
        assert(p.drop_first() =~= s.drop_first().push(x));
        lemma_query_all_snoc(s.drop_first(), x, sel);
        assert(spec_query_all(s, sel) == query_all_one(s[0], sel) + spec_query_all(
            s.drop_first(),
            sel,
        ));
        assert((query_all_one(s[0], sel) + (spec_query_all(s.drop_first(), sel) + query_all_one(
            x,
            sel,
        ))) =~= (query_all_one(s[0], sel) + spec_query_all(s.drop_first(), sel)) + query_all_one(
            x,
            sel,
        ));
    }
}

impl Queryable for Element {
    /// An element is searched as the single node it stands for: itself
    /// first, then its children.
    open spec fn query_model(&self) -> Seq<SpecNode> {
        seq![SpecNode::Element(elem_view(*self))]
    }

    fn query(&self, selector: &Selector) -> (r: Option<&Element>)
        decreases *self, 0int,
    {
        let ghost ev = elem_view(*self);
        let ghost sel = selector_view(*selector);
        proof {
            assert(self.query_model()[0] == SpecNode::Element(ev));
            assert(self.query_model().drop_first() =~= Seq::<SpecNode>::empty());
        }
        proof {
            assert(self.query_model().len() == 1);
        }
        if selector.matches(self) {
            Some(self)
        } else {
            let r = self.children.query(selector);
            proof {
                assert(nodes_view(self.children@) == ev.children);
                assert(spec_query(self.query_model().drop_first(), sel) is None);
            }
            r
        }
    }

    fn query_all(&self, selector: &Selector) -> (r: Vec<&Element>)
        decreases *self, 0int,
    {
        let ghost ev = elem_view(*self);
        let ghost sel = selector_view(*selector);
        proof {
            assert(self.query_model()[0] == SpecNode::Element(ev));
            assert(self.query_model().drop_first() =~= Seq::<SpecNode>::empty());
            assert(nodes_view(self.children@) == ev.children);
        }
        proof {
            assert(self.query_model().len() == 1);
            assert(spec_query_all(Seq::<SpecNode>::empty(), sel) == Seq::<SpecElem>::empty());
        }
        let mut elements = self.children.query_all(selector);
        let ghost before = elems_view(elements@);
        if selector.matches(self) {
            elements.push(self);
            proof {
                assert(elems_view(elements@) =~= before.push(ev));
                assert(before.push(ev) =~= before + seq![ev]);
            }
        } else {
            proof {
                assert(before + Seq::<SpecElem>::empty() =~= before);
            }
        }
        proof {
            assert(query_all_one(SpecNode::Element(ev), sel) + Seq::<SpecElem>::empty()
                =~= query_all_one(SpecNode::Element(ev), sel));
        }
        elements
    }
}

impl Queryable for Node {
    /// A node is searched as the single node it is; a non-element holds no
    /// matches.
    open spec fn query_model(&self) -> Seq<SpecNode> {
        seq![node_view(*self)]
    }

    fn query(&self, selector: &Selector) -> (r: Option<&Element>)
        decreases *self, 1int,
    {
        proof {
            assert(self.query_model().len() == 1);
            assert(self.query_model()[0] == node_view(*self));
            assert(self.query_model().drop_first() =~= Seq::<SpecNode>::empty());
            assert(spec_query(Seq::<SpecNode>::empty(), selector_view(*selector)) is None);
        }
        match self {
            Node::Element(element) => {
                proof {
                    assert(node_view(*self) == SpecNode::Element(elem_view(*element)));
                    assert(self.query_model() =~= element.query_model());
                }
                let r = element.query(selector);
                proof {
                    assert(spec_query(element.query_model(), selector_view(*selector))
                        == spec_query(self.query_model(), selector_view(*selector)));
                }
                r
            },
            _ => None,
        }
    }

    fn query_all(&self, selector: &Selector) -> (r: Vec<&Element>)
        decreases *self, 1int,
    {
        proof {
            assert(self.query_model().len() == 1);
            assert(self.query_model()[0] == node_view(*self));
            assert(self.query_model().drop_first() =~= Seq::<SpecNode>::empty());
            assert(spec_query_all(Seq::<SpecNode>::empty(), selector_view(*selector)) == Seq::<
                SpecElem,
            >::empty());
        }
        match self {
            Node::Element(element) => {
                proof {
                    assert(node_view(*self) == SpecNode::Element(elem_view(*element)));
                    assert(self.query_model() =~= element.query_model());
                }
                let r = element.query_all(selector);
                proof {
                    assert(spec_query_all(element.query_model(), selector_view(*selector))
                        == spec_query_all(self.query_model(), selector_view(*selector)));
                }
                r
            },
            _ => {
                let r: Vec<&Element> = Vec::new();
                proof {
                    assert(elems_view(r@) =~= Seq::<SpecElem>::empty());
                    assert(query_all_one(node_view(*self), selector_view(*selector)) == Seq::<
                        SpecElem,
                    >::empty());
                }
                r
            },
        }
    }
}

} // verus!
