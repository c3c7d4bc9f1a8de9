//! Serialization of the document tree back to HTML text.
//!
//! Elements print their tag, their attributes (`key="value"`, a bare key
//! for an empty value, values escaped), and, unless the tag is void, their
//! children and a closing tag.  Text escapes its markup-significant
//! characters, except directly inside a `script` or `style` element, whose
//! bodies are emitted verbatim.

use vstd::prelude::*;

use crate::data::{is_void_name, is_void_tag};
use crate::entity::{escape_chars, escape_spec};
use crate::model::{
    SpecDoctype, SpecElem, SpecNode, elem_view, node_view, nodes_view,
};
use crate::text::{chars_to_string, str_to_chars};
use crate::{Doctype, Element, Node};

verus! {

/// The rendering of one attribute pair: `key="value"`, or the bare key for
/// an empty value.
pub open spec fn html_attr(p: (Seq<char>, Seq<char>)) -> Seq<char> {
    if p.1.len() == 0 {
        p.0
    } else {
        p.0 + seq!['=', '"'] + escape_spec(p.1, true) + seq!['"']
    }
}

/// The rendering of an attribute list, space-separated.
pub open spec fn html_attrs(a: Seq<(Seq<char>, Seq<char>)>) -> Seq<char>
    decreases a.len(),
{
    if a.len() == 0 {
        Seq::empty()
    } else if a.len() == 1 {
        html_attr(a[0])
    } else {
        html_attr(a[0]) + seq![' '] + html_attrs(a.drop_first())
    }
}

/// The rendering of a doctype.
pub open spec fn html_doctype(d: SpecDoctype) -> Seq<char> {
    match d {
        SpecDoctype::Html => seq![
            '<',
            '!',
            'D',
            'O',
            'C',
            'T',
            'Y',
            'P',
            'E',
            ' ',
            'h',
            't',
            'm',
            'l',
            '>',
        ],
        SpecDoctype::Xml { version, encoding } => seq![
            '<',
            '?',
            'x',
            'm',
            'l',
            ' ',
            'v',
            'e',
            'r',
            's',
            'i',
            'o',
            'n',
            '=',
            '"',
        ] + version + seq![
            '"',
            ' ',
            'e',
            'n',
            'c',
            'o',
            'd',
            'i',
            'n',
            'g',
            '=',
            '"',
        ] + encoding + seq!['"', '?', '>'],
    }
}

/// The rendering of a node.
pub open spec fn html_node(n: SpecNode) -> Seq<char>
    decreases n, 0int,
{
    match n {
        SpecNode::Element(e) => html_elem(e),
        SpecNode::Text(t) => escape_spec(t, false),
        SpecNode::Comment(c) => seq!['<', '!', '-', '-'] + c + seq!['-', '-', '>'],
        SpecNode::Doctype(d) => html_doctype(d),
    }
}

/// The rendering of a node among the children of an element; `raw` says the
/// element is a raw-text one, whose direct text children print verbatim.
pub open spec fn html_node_in(n: SpecNode, raw: bool) -> Seq<char>
    decreases n, 1int,
{
    if raw && n is Text {
        n->Text_0
    } else {
        html_node(n)
    }
}

/// The rendering of a list of children.
pub open spec fn html_children(s: Seq<SpecNode>, raw: bool) -> Seq<char>
    decreases s,
{
    if s.len() == 0 {
        Seq::empty()
    } else {
        html_node_in(s[0], raw) + html_children(s.drop_first(), raw)
    }
}

/// The rendering of an element: the open tag with its attributes; then,
/// unless the tag is void, the children and the closing tag.
pub open spec fn html_elem(e: SpecElem) -> Seq<char>
    decreases e, 2int,
{
    let raw = e.name == "script"@ || e.name == "style"@;
    let open = if e.attrs.len() == 0 {
        seq!['<'] + e.name + seq!['>']
    } else {
        seq!['<'] + e.name + seq![' '] + html_attrs(e.attrs) + seq!['>']
    };
    if is_void_name(e.name) {
        open
    } else {
        open + html_children(e.children, raw) + seq!['<', '/'] + e.name + seq!['>']
    }
}

/// Appending an attribute extends the rendering by a separator and the
/// attribute.
proof fn lemma_html_attrs_snoc(a: Seq<(Seq<char>, Seq<char>)>, x: (Seq<char>, Seq<char>))
    ensures
        html_attrs(a.push(x)) == if a.len() == 0 {
            html_attr(x)
        } else {
            html_attrs(a) + seq![' '] + html_attr(x)
        },
    decreases a.len(),
{
    let p = a.push(x);
    if a.len() == 0 {
        assert(p.len() == 1);
        assert(p[0] == x);
    } else {
        assert(p[0] == a[0]);
        assert(p.drop_first() =~= a.drop_first().push(x));
        lemma_html_attrs_snoc(a.drop_first(), x);
        if a.len() == 1 {
            assert(html_attrs(p) == html_attr(p[0]) + seq![' '] + html_attrs(p.drop_first()));
            assert(html_attrs(a) == html_attr(a[0]));
            assert(html_attrs(p.drop_first()) == html_attr(x));
        } else {
            assert(html_attrs(a) == html_attr(a[0]) + seq![' '] + html_attrs(a.drop_first()));
            assert((html_attr(a[0]) + seq![' '] + (html_attrs(a.drop_first()) + seq![' ']
                + html_attr(x))) =~= (html_attr(a[0]) + seq![' '] + html_attrs(a.drop_first()))
                + seq![' '] + html_attr(x));
        }
    }
}

/// Appending a child extends the rendering by the child's.
proof fn lemma_html_children_snoc(s: Seq<SpecNode>, x: SpecNode, raw: bool)
    ensures
        html_children(s.push(x), raw) == html_children(s, raw) + html_node_in(x, raw),
    decreases s.len(),
{
    let p = s.push(x);
    if s.len() == 0 {
        assert(p[0] == x);
        assert(p.drop_first() =~= Seq::<SpecNode>::empty());
        assert(html_children(p.drop_first(), raw) == Seq::<char>::empty());
        assert(html_node_in(x, raw) + Seq::<char>::empty() =~= html_node_in(x, raw));
        assert(Seq::<char>::empty() + html_node_in(x, raw) =~= html_node_in(x, raw));
    } else {
        assert(p[0] == s[0]);
        assert(p.drop_first() =~= s.drop_first().push(x));
        lemma_html_children_snoc(s.drop_first(), x, raw);
        assert((html_node_in(s[0], raw) + (html_children(s.drop_first(), raw) + html_node_in(
            x,
            raw,
        ))) =~= (html_node_in(s[0], raw) + html_children(s.drop_first(), raw)) + html_node_in(
            x,
            raw,
        ));
    }
}

/// Appends the characters of `s` to `out`.
fn append_str(out: &mut Vec<char>, s: &str)
    ensures
        final(out)@ == old(out)@ + s@,
{
    let len = s.unicode_len();
    let mut i: usize = 0;
    while i < len
        invariant
            i <= len == s@.len(),
            out@ == old(out)@ + s@.subrange(0, i as int),
        decreases len - i,
    {
        out.push(s.get_char(i));
        assert(old(out)@ + s@.subrange(0, i as int) + seq![s@[i as int]] =~= old(out)@
            + s@.subrange(0, i + 1));
        i += 1;
    }
    assert(out@ =~= old(out)@ + s@);
}

/// Appends the characters of `v` to `out`.
fn append_vec(out: &mut Vec<char>, v: &Vec<char>)
    ensures
        final(out)@ == old(out)@ + v@,
{
    let len = v.len();
    let mut i: usize = 0;
    while i < len
        invariant
            i <= len == v@.len(),
            out@ == old(out)@ + v@.subrange(0, i as int),
        decreases len - i,
    {
        out.push(v[i]);
        assert(old(out)@ + v@.subrange(0, i as int) + seq![v@[i as int]] =~= old(out)@
            + v@.subrange(0, i + 1));
        i += 1;
    }
    assert(out@ =~= old(out)@ + v@);
}

/// Writes the rendering of an attribute list to `out`.
fn write_attrs(attrs: &Vec<(String, String)>, out: &mut Vec<char>)
    ensures
        final(out)@ == old(out)@ + html_attrs(crate::model::attrs_view(attrs@)),
{
    let ghost av = crate::model::attrs_view(attrs@);
    let mut i: usize = 0;
    proof {
        assert(av.take(0) =~= Seq::<(Seq<char>, Seq<char>)>::empty());
    }
    while i < attrs.len()
        invariant
            i <= attrs@.len() == av.len(),
            av == crate::model::attrs_view(attrs@),
            out@ == old(out)@ + html_attrs(av.take(i as int)),
        decreases attrs@.len() - i,
    {
        let ghost pre = out@;
        if i > 0 {
            out.push(' ');
        }
        let (k, v) = &attrs[i];
        proof {
            assert(av[i as int] == (k@, v@));
        }
        append_str(out, k.as_str());
        if v.unicode_len() > 0 {
            out.push('=');
            out.push('"');
            append_vec(out, &escape_chars(&str_to_chars(v.as_str()), true));
            out.push('"');
            proof {
                assert(html_attr(av[i as int]) == k@ + seq!['=', '"'] + escape_spec(v@, true)
                    + seq!['"']);
            }
        } else {
            proof {
                assert(html_attr(av[i as int]) == k@);
            }
        }
        proof {
            lemma_html_attrs_snoc(av.take(i as int), av[i as int]);
            assert(av.take(i as int).push(av[i as int]) =~= av.take(i + 1));
            if i == 0 {
                assert(out@ =~= pre + html_attr(av[0]));
                assert(out@ =~= old(out)@ + html_attrs(av.take(1)));
            } else {
                assert(out@ =~= pre + seq![' '] + html_attr(av[i as int]));
                assert(out@ =~= old(out)@ + html_attrs(av.take(i + 1)));
            }
        }
        i += 1;
    }
    proof {
        assert(av.take(av.len() as int) =~= av);
    }
}

/// Writes the rendering of a node standing among children to `out`.
fn write_node(n: &Node, raw: bool, out: &mut Vec<char>)
    ensures
        final(out)@ == old(out)@ + html_node_in(node_view(*n), raw),
    decreases *n, 1int,
{
    match n {
        Node::Text(t) => {
            if raw {
                append_str(out, t.as_str());
            } else {
                append_vec(out, &escape_chars(&str_to_chars(t.as_str()), false));
            }
        },
        Node::Element(e) => {
            assert(decreases_to!(*n, 1int => *e, 2int));
            write_elem(e, out);
        },
        Node::Comment(c) => {
            let ghost pre = out@;
            out.push('<');
            out.push('!');
            out.push('-');
            out.push('-');
            append_str(out, c.as_str());
            out.push('-');
            out.push('-');
            out.push('>');
            proof {
                assert(out@ =~= pre + (seq!['<', '!', '-', '-'] + c@ + seq!['-', '-', '>']));
            }
        },
        Node::Doctype(d) => {
            let ghost pre = out@;
            match d {
                Doctype::Html => {
                    out.push('<');
                    out.push('!');
                    out.push('D');
                    out.push('O');
                    out.push('C');
                    out.push('T');
                    out.push('Y');
                    out.push('P');
                    out.push('E');
                    out.push(' ');
                    out.push('h');
                    out.push('t');
                    out.push('m');
                    out.push('l');
                    out.push('>');
                    proof {
                        assert(out@ =~= pre + html_doctype(crate::model::doctype_view(*d)));
                    }
                },
                Doctype::Xml { version, encoding } => {
                    out.push('<');
                    out.push('?');
                    out.push('x');
                    out.push('m');
                    out.push('l');
                    out.push(' ');
                    out.push('v');
                    out.push('e');
                    out.push('r');
                    out.push('s');
                    out.push('i');
                    out.push('o');
                    out.push('n');
                    out.push('=');
                    out.push('"');
                    append_str(out, version.as_str());
                    out.push('"');
                    out.push(' ');
                    out.push('e');
                    out.push('n');
                    out.push('c');
                    out.push('o');
                    out.push('d');
                    out.push('i');
                    out.push('n');
                    out.push('g');
                    out.push('=');
                    out.push('"');
                    append_str(out, encoding.as_str());
                    out.push('"');
                    out.push('?');
                    out.push('>');
                    proof {
                        assert(out@ =~= pre + html_doctype(crate::model::doctype_view(*d)));
                    }
                },
            }
        },
    }
}

/// Writes the rendering of an element to `out`.
fn write_elem(e: &Element, out: &mut Vec<char>)
    ensures
        final(out)@ == old(out)@ + html_elem(elem_view(*e)),
    decreases *e, 2int,
{
    let ghost ev = elem_view(*e);
    let raw = crate::text::str_eq(e.name.as_str(), "script") || crate::text::str_eq(
        e.name.as_str(),
        "style",
    );
    let ghost pre = out@;
    out.push('<');
    append_str(out, e.name.as_str());
    if e.attrs.len() > 0 {
        out.push(' ');
        write_attrs(&e.attrs, out);
    }
    out.push('>');
    proof {
        if ev.attrs.len() == 0 {
            assert(out@ =~= pre + (seq!['<'] + ev.name + seq!['>']));
        } else {
            assert(out@ =~= pre + (seq!['<'] + ev.name + seq![' '] + html_attrs(ev.attrs)
                + seq!['>']));
        }
    }
    let ghost opened = out@;
    if is_void_tag(e.name.as_str()) {
        return ;
    }
    let mut i: usize = 0;
    proof {
        assert(nodes_view(e.children@).take(0) =~= Seq::<SpecNode>::empty());
        crate::model::lemma_nodes_view_len(e.children@);
    }
    while i < e.children.len()
        invariant
            i <= e.children@.len(),
            nodes_view(e.children@).len() == e.children@.len(),
            raw == (elem_view(*e).name == "script"@ || elem_view(*e).name == "style"@),
            opened == pre + (if elem_view(*e).attrs.len() == 0 {
                seq!['<'] + elem_view(*e).name + seq!['>']
            } else {
                seq!['<'] + elem_view(*e).name + seq![' '] + html_attrs(elem_view(*e).attrs)
                    + seq!['>']
            }),
            out@ == opened + html_children(nodes_view(e.children@).take(i as int), raw),
        decreases e.children@.len() - i,
    {
        let ghost cv = nodes_view(e.children@);
        proof {
            crate::model::lemma_nodes_view_index(e.children@, i as int);
        }
        assert(decreases_to!(*e, 2int => e.children@[i as int], 1int));
        let ghost before = out@;
        write_node(&e.children[i], raw, out);
        proof {
            lemma_html_children_snoc(cv.take(i as int), cv[i as int], raw);
            assert(cv.take(i as int).push(cv[i as int]) =~= cv.take(i + 1));
            assert(out@ =~= opened + html_children(cv.take(i + 1), raw));
        }
        i += 1;
    }
    proof {
        assert(nodes_view(e.children@).take(e.children@.len() as int) =~= nodes_view(e.children@));
    }
    out.push('<');
    out.push('/');
    append_str(out, e.name.as_str());
    out.push('>');
    proof {
        assert(out@ =~= pre + html_elem(elem_view(*e)));
    }
}

/// Stringify into HTML.
pub trait Htmlifiable {
    /// The HTML rendering of the value, as a character sequence.
    spec fn html_model(&self) -> Seq<char>;

    /// Convert the value to its HTML string.
    fn html(&self) -> (r: String)
        ensures
            r@ == self.html_model(),
    ;
}

impl Htmlifiable for Element {
    /// An element renders as its open tag, children and closing tag.
    open spec fn html_model(&self) -> Seq<char> {
        html_elem(elem_view(*self))
    }

    fn html(&self) -> (r: String) {
        let mut out: Vec<char> = Vec::new();
        write_elem(self, &mut out);
        proof {
            assert(Seq::<char>::empty() + html_elem(elem_view(*self)) =~= html_elem(
                elem_view(*self),
            ));
        }
        chars_to_string(&out)
    }
}

impl Htmlifiable for Node {
    /// A node renders as its HTML form, text escaped.
    open spec fn html_model(&self) -> Seq<char> {
        html_node(node_view(*self))
    }

    fn html(&self) -> (r: String) {
        let mut out: Vec<char> = Vec::new();
        write_node(self, false, &mut out);
        proof {
            assert(html_node_in(node_view(*self), false) == html_node(node_view(*self)));
            assert(Seq::<char>::empty() + html_node(node_view(*self)) =~= html_node(
                node_view(*self),
            ));
        }
        chars_to_string(&out)
    }
}

impl Htmlifiable for Vec<Node> {
    /// A node list renders as the concatenation of its nodes' renderings.
    open spec fn html_model(&self) -> Seq<char> {
        html_children(nodes_view(self@), false)
    }

    fn html(&self) -> (r: String) {
        let ghost cv = nodes_view(self@);
        let mut out: Vec<char> = Vec::new();
        let mut i: usize = 0;
        proof {
            crate::model::lemma_nodes_view_len(self@);
            assert(cv.take(0) =~= Seq::<SpecNode>::empty());
            assert(out@ =~= Seq::<char>::empty() + html_children(cv.take(0), false));
        }
        while i < self.len()
            invariant
                i <= self@.len() == cv.len(),
                cv == nodes_view(self@),
                out@ == html_children(cv.take(i as int), false),
            decreases self@.len() - i,
        {
            proof {
                crate::model::lemma_nodes_view_index(self@, i as int);
            }
            write_node(&self[i], false, &mut out);
            proof {
                lemma_html_children_snoc(cv.take(i as int), cv[i as int], false);
                assert(cv.take(i as int).push(cv[i as int]) =~= cv.take(i + 1));
                assert(out@ =~= html_children(cv.take(i + 1), false));
            }
            i += 1;
        }
        proof {
            assert(cv.take(cv.len() as int) =~= cv);
        }
        chars_to_string(&out)
    }
}

} // verus!
