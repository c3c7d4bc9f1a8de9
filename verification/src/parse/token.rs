//! Tokens of the scanner, and the classification of bracketed text into a
//! token.
//!
//! When the scanner has accumulated a full `<...>` region, [`Token::from`]
//! classifies it, in priority order: self-closing tag (`/>` suffix), end tag
//! (`</` prefix), comment (`<!--` prefix), doctype (`<!` prefix), XML
//! declaration (`<?` prefix), start tag (`<` prefix).  Anything else, and
//! any form whose tag name is missing, is an [`InvalidTag`] error.
//!
//! [`InvalidTag`]: crate::InnerHTMLParseError::InvalidTag

use vstd::prelude::*;

use crate::model::{
    SpecDoctype, SpecElem, SpecNode, attrs_view, doctype_view, elem_view, node_view,
};
use crate::parse::attrs;
use crate::parse::attrs::split_attrs;
use crate::parse::{InnerHTMLParseError, SpecInnerError, inner_error_view};
use crate::text::{chars_to_string, str_to_chars, subrange_chars, trim_chars, trim_spec};
use crate::{Doctype, Element, Node, clone_attrs};

verus! {

/// A token of the scanner.
#[derive(Debug)]
pub enum Token {
    /// A start tag, like `<div>`.
    Start(String, Vec<(String, String)>),
    /// An end tag, like `</div>`.
    End(String),
    /// A self-closing tag, like `<div />`.
    Closing(String, Vec<(String, String)>),
    /// A doctype or XML declaration, like `<!doctype html>`.
    Doctype(Doctype),
    /// A comment, like `<!-- comment -->`.
    Comment(String),
    /// A run of plain text.
    Text(String),
}

/// Model of a [`Token`].
pub enum SpecToken {
    Start(Seq<char>, Seq<(Seq<char>, Seq<char>)>),
    End(Seq<char>),
    Closing(Seq<char>, Seq<(Seq<char>, Seq<char>)>),
    Doctype(SpecDoctype),
    Comment(Seq<char>),
    Text(Seq<char>),
}

/// Model of a [`Token`].
pub open spec fn token_view(t: Token) -> SpecToken {
    match t {
        Token::Start(name, a) => SpecToken::Start(name@, attrs_view(a@)),
        Token::End(name) => SpecToken::End(name@),
        Token::Closing(name, a) => SpecToken::Closing(name@, attrs_view(a@)),
        Token::Doctype(d) => SpecToken::Doctype(doctype_view(d)),
        Token::Comment(c) => SpecToken::Comment(c@),
        Token::Text(s) => SpecToken::Text(s@),
    }
}

/// ASCII whitespace, as tag-name scanning understands it.
pub open spec fn is_ascii_ws(c: char) -> bool {
    c == ' ' || c == '\t' || c == '\n' || c == '\r' || c == '\u{0C}'
}

/// The length of the leading run of space characters of `s`.
pub open spec fn space_run(s: Seq<char>) -> int
    decreases s.len(),
{
    if s.len() > 0 && s[0] == ' ' {
        1 + space_run(s.drop_first())
    } else {
        0
    }
}

/// The length of the leading run of non-space characters of `s`.
pub open spec fn non_space_run(s: Seq<char>) -> int
    decreases s.len(),
{
    if s.len() > 0 && s[0] != ' ' {
        1 + non_space_run(s.drop_first())
    } else {
        0
    }
}

/// The length of the leading run of ASCII whitespace of `s`.
pub open spec fn ws_run(s: Seq<char>) -> int
    decreases s.len(),
{
    if s.len() > 0 && is_ascii_ws(s[0]) {
        1 + ws_run(s.drop_first())
    } else {
        0
    }
}

/// The length of the leading run of non-whitespace characters of `s`.
pub open spec fn non_ws_run(s: Seq<char>) -> int
    decreases s.len(),
{
    if s.len() > 0 && !is_ascii_ws(s[0]) {
        1 + non_ws_run(s.drop_first())
    } else {
        0
    }
}

/// A prefix of spaces up to a non-space (or the end) is the space run.
proof fn lemma_space_run_eq(s: Seq<char>, n: int)
    requires
        0 <= n <= s.len(),
        forall|j: int| 0 <= j < n ==> s[j] == ' ',
        n == s.len() || s[n] != ' ',
    ensures
        space_run(s) == n,
    decreases s.len(),
{
    if n > 0 {
        let t = s.drop_first();
        assert(forall|j: int| 0 <= j < n - 1 ==> #[trigger] t[j] == s[j + 1]);
        lemma_space_run_eq(t, n - 1);
    }
}

/// A prefix of non-spaces up to a space (or the end) is the non-space run.
proof fn lemma_non_space_run_eq(s: Seq<char>, n: int)
    requires
        0 <= n <= s.len(),
        forall|j: int| 0 <= j < n ==> s[j] != ' ',
        n == s.len() || s[n] == ' ',
    ensures
        non_space_run(s) == n,
    decreases s.len(),
{
    if n > 0 {
        let t = s.drop_first();
        assert(forall|j: int| 0 <= j < n - 1 ==> #[trigger] t[j] == s[j + 1]);
        lemma_non_space_run_eq(t, n - 1);
    }
}

/// A prefix of whitespace up to a non-whitespace (or the end) is the
/// whitespace run.
proof fn lemma_ws_run_eq(s: Seq<char>, n: int)
    requires
        0 <= n <= s.len(),
        forall|j: int| 0 <= j < n ==> is_ascii_ws(#[trigger] s[j]),
        n == s.len() || !is_ascii_ws(s[n]),
    ensures
        ws_run(s) == n,
    decreases s.len(),
{
    if n > 0 {
        let t = s.drop_first();
        assert(forall|j: int| 0 <= j < n - 1 ==> #[trigger] t[j] == s[j + 1]);
        lemma_ws_run_eq(t, n - 1);
    }
}

/// A prefix of non-whitespace up to a whitespace (or the end) is the
/// non-whitespace run.
proof fn lemma_non_ws_run_eq(s: Seq<char>, n: int)
    requires
        0 <= n <= s.len(),
        forall|j: int| 0 <= j < n ==> !is_ascii_ws(#[trigger] s[j]),
        n == s.len() || is_ascii_ws(s[n]),
    ensures
        non_ws_run(s) == n,
    decreases s.len(),
{
    if n > 0 {
        let t = s.drop_first();
        assert(forall|j: int| 0 <= j < n - 1 ==> #[trigger] t[j] == s[j + 1]);
        lemma_non_ws_run_eq(t, n - 1);
    }
}

/// The first occurrence of `key` among `a`, by key.
pub open spec fn attr_lookup(a: Seq<(Seq<char>, Seq<char>)>, key: Seq<char>) -> Option<Seq<char>>
    decreases a.len(),
{
    if a.len() == 0 {
        None
    } else if a[0].0 == key {
        Some(a[0].1)
    } else {
        attr_lookup(a.drop_first(), key)
    }
}

/// Classification of the bracketed text `tag` (delimiters included) into a
/// token, or the violation it contains.
pub open spec fn classify(tag: Seq<char>) -> Result<SpecToken, SpecInnerError> {
    let len = tag.len() as int;
    if len >= 2 && tag[len - 2] == '/' && tag[len - 1] == '>' {
        // A self-closing tag: the name runs from the first non-space after
        // `<` to the next space, or to the `/>`.
        let start = 1 + space_run(tag.skip(1));
        let nrun = non_space_run(tag.skip(start));
        let end = if start + nrun < len {
            start + nrun
        } else {
            len - 2
        };
        let name = if start <= end {
            tag.subrange(start, end)
        } else {
            Seq::<char>::empty()
        };
        if name.len() == 0 {
            Err(SpecInnerError::Invalid { tag: tag, reason: "tag name cannot be empty"@ })
        } else {
            Ok(SpecToken::Closing(name, split_attrs(trim_spec(tag.subrange(end, len - 2)))))
        }
    } else if len >= 2 && tag[0] == '<' && tag[1] == '/' {
        // An end tag: the name is everything between `</` and `>`, trimmed.
        if len < 3 {
            Err(SpecInnerError::Invalid { tag: tag, reason: "malformed end tag"@ })
        } else {
            let name = trim_spec(tag.subrange(2, len - 1));
            if name.len() == 0 {
                Err(SpecInnerError::Invalid { tag: tag, reason: "tag name cannot be empty"@ })
            } else {
                Ok(SpecToken::End(name))
            }
        }
    } else if len >= 4 && tag[0] == '<' && tag[1] == '!' && tag[2] == '-' && tag[3] == '-' {
        // A comment that was never routed through comment mode.
        if len >= 7 {
            Ok(SpecToken::Comment(tag.subrange(4, len - 3)))
        } else {
            Err(SpecInnerError::Invalid { tag: tag, reason: "malformed comment"@ })
        }
    } else if len >= 2 && tag[0] == '<' && tag[1] == '!' {
        Ok(SpecToken::Doctype(SpecDoctype::Html))
    } else if len >= 2 && tag[0] == '<' && tag[1] == '?' {
        // An XML declaration: its attributes must carry version and encoding.
        if len < 4 {
            Err(SpecInnerError::Invalid { tag: tag, reason: "malformed xml declaration"@ })
        } else {
            let a = split_attrs(tag.subrange(2, len - 2));
            match attr_lookup(a, "version"@) {
                None => Err(
                    SpecInnerError::Invalid {
                        tag: tag,
                        reason: "missing version attribute in xml declaration"@,
                    },
                ),
                Some(version) => match attr_lookup(a, "encoding"@) {
                    None => Err(
                        SpecInnerError::Invalid {
                            tag: tag,
                            reason: "missing encoding attribute in xml declaration"@,
                        },
                    ),
                    Some(encoding) => Ok(
                        SpecToken::Doctype(SpecDoctype::Xml { version, encoding }),
                    ),
                },
            }
        }
    } else if len >= 1 && tag[0] == '<' {
        // A start tag: the name runs from the first non-whitespace after `<`
        // to the next whitespace, or to the `>`.
        let start = 1 + ws_run(tag.skip(1));
        if start >= len {
            Err(SpecInnerError::Invalid { tag: tag, reason: "tag name cannot be empty"@ })
        } else {
            let nrun = non_ws_run(tag.skip(start));
            let end = if start + nrun < len {
                start + nrun
            } else {
                len - 1
            };
            let name = tag.subrange(start, end);
            if name.len() == 0 {
                Err(SpecInnerError::Invalid { tag: tag, reason: "tag name cannot be empty"@ })
            } else {
                Ok(SpecToken::Start(name, split_attrs(trim_spec(tag.subrange(end, len - 1)))))
            }
        }
    } else {
        Err(SpecInnerError::Invalid { tag: tag, reason: "not a recognized tag form"@ })
    }
}

/// The first attribute pair with the given key, if any.
pub(crate) fn lookup_attr(a: &Vec<(String, String)>, key: &str) -> (r: Option<String>)
    ensures
        match r {
            Some(value) => attr_lookup(attrs_view(a@), key@) == Some(value@),
            None => attr_lookup(attrs_view(a@), key@) is None,
        },
{
    let ghost av = attrs_view(a@);
    let mut i: usize = 0;
    proof {
        assert(av.skip(0) =~= av);
    }
    while i < a.len()
        invariant
            i <= a@.len(),
            av == attrs_view(a@),
            av.len() == a@.len(),
            attr_lookup(av, key@) == attr_lookup(av.skip(i as int), key@),
        decreases a@.len() - i,
    {
        let ghost t = av.skip(i as int);
        proof {
            assert(t[0] == av[i as int]);
            assert(av[i as int] == (a@[i as int].0@, a@[i as int].1@));
            assert(t.drop_first() =~= av.skip(i + 1));
        }
        let (k, value) = &a[i];
        if crate::text::str_eq(k.as_str(), key) {
            return Some(value.clone());
        }
        i += 1;
    }
    proof {
        assert(av.skip(av.len() as int).len() == 0);
    }
    None
}

impl Token {
    /// Classifies the bracketed text `tag` (delimiters included) into a
    /// token, or reports the violation it contains.
    pub fn from(tag: String) -> (r: Result<Token, InnerHTMLParseError>)
        ensures
            match r {
                Ok(t) => classify(tag@) == Ok::<SpecToken, SpecInnerError>(token_view(t)),
                Err(e) => classify(tag@) == Err::<SpecToken, SpecInnerError>(inner_error_view(e)),
            },
    {
        let v = str_to_chars(tag.as_str());
        let ghost s = v@;
        let len = v.len();
        if len >= 2 && v[len - 2] == '/' && v[len - 1] == '>' {
            let mut st: usize = 1;
            while st < len && v[st] == ' '
                invariant
                    1 <= st <= len,
                    v@ == s,
                    len == s.len(),
                    forall|j: int| 1 <= j < st ==> s[j] == ' ',
                decreases len - st,
            {
                st += 1;
            }
            proof {
                let t1 = s.skip(1);
                assert(forall|j: int| 0 <= j < t1.len() ==> #[trigger] t1[j] == s[j + 1]);
                lemma_space_run_eq(t1, st - 1);
            }
            let mut en: usize = st;
            while en < len && v[en] != ' '
                invariant
                    st <= en <= len,
                    v@ == s,
                    len == s.len(),
                    forall|j: int| st <= j < en ==> s[j] != ' ',
                decreases len - en,
            {
                en += 1;
            }
            proof {
                let t2 = s.skip(st as int);
                assert(forall|j: int| 0 <= j < t2.len() ==> #[trigger] t2[j] == s[j + st]);
                lemma_non_space_run_eq(t2, en - st);
            }
            let end = if en < len {
                en
            } else {
                len - 2
            };
            proof {
                if en < len {
                    assert(s[en as int] == ' ');
                    assert(en <= len - 3);
                }
            }
            if st >= end {
                return Err(
                    InnerHTMLParseError::InvalidTag { tag, reason: "tag name cannot be empty" },
                );
            }
            let name = chars_to_string(&subrange_chars(&v, st, end));
            let attr_text = chars_to_string(&trim_chars(&subrange_chars(&v, end, len - 2)));
            Ok(Token::Closing(name, attrs::parse(attr_text)))
        } else if len >= 2 && v[0] == '<' && v[1] == '/' {
            if len < 3 {
                return Err(
                    InnerHTMLParseError::InvalidTag { tag, reason: "malformed end tag" },
                );
            }
            let name_chars = trim_chars(&subrange_chars(&v, 2, len - 1));
            if name_chars.len() == 0 {
                return Err(
                    InnerHTMLParseError::InvalidTag { tag, reason: "tag name cannot be empty" },
                );
            }
            Ok(Token::End(chars_to_string(&name_chars)))
        } else if len >= 4 && v[0] == '<' && v[1] == '!' && v[2] == '-' && v[3] == '-' {
            if len >= 7 {
                Ok(Token::Comment(chars_to_string(&subrange_chars(&v, 4, len - 3))))
            } else {
                Err(InnerHTMLParseError::InvalidTag { tag, reason: "malformed comment" })
            }
        } else if len >= 2 && v[0] == '<' && v[1] == '!' {
            Ok(Token::Doctype(Doctype::Html))
        } else if len >= 2 && v[0] == '<' && v[1] == '?' {
            if len < 4 {
                return Err(
                    InnerHTMLParseError::InvalidTag {
                        tag,
                        reason: "malformed xml declaration",
                    },
                );
            }
            let a = attrs::parse(chars_to_string(&subrange_chars(&v, 2, len - 2)));
            let version = match lookup_attr(&a, "version") {
                Some(version) => version,
                None => {
                    return Err(
                        InnerHTMLParseError::InvalidTag {
                            tag,
                            reason: "missing version attribute in xml declaration",
                        },
                    );
                },
            };
            let encoding = match lookup_attr(&a, "encoding") {
                Some(encoding) => encoding,
                None => {
                    return Err(
                        InnerHTMLParseError::InvalidTag {
                            tag,
                            reason: "missing encoding attribute in xml declaration",
                        },
                    );
                },
            };
            Ok(Token::Doctype(Doctype::Xml { version, encoding }))
        } else if len >= 1 && v[0] == '<' {
            let mut st: usize = 1;
            while st < len && is_ws(v[st])
                invariant
                    1 <= st <= len,
                    v@ == s,
                    len == s.len(),
                    forall|j: int| 1 <= j < st ==> is_ascii_ws(s[j]),
                decreases len - st,
            {
                st += 1;
            }
            proof {
                let t1 = s.skip(1);
                assert(forall|j: int| 0 <= j < t1.len() ==> #[trigger] t1[j] == s[j + 1]);
                lemma_ws_run_eq(t1, st - 1);
            }
            if st >= len {
                return Err(
                    InnerHTMLParseError::InvalidTag { tag, reason: "tag name cannot be empty" },
                );
            }
            let mut en: usize = st;
            while en < len && !is_ws(v[en])
                invariant
                    st <= en <= len,
                    v@ == s,
                    len == s.len(),
                    forall|j: int| st <= j < en ==> !is_ascii_ws(s[j]),
                decreases len - en,
            {
                en += 1;
            }
            proof {
                let t2 = s.skip(st as int);
                assert(forall|j: int| 0 <= j < t2.len() ==> #[trigger] t2[j] == s[j + st]);
                lemma_non_ws_run_eq(t2, en - st);
            }
            let end = if en < len {
                en
            } else {
                len - 1
            };
            if end == st {
                return Err(
                    InnerHTMLParseError::InvalidTag { tag, reason: "tag name cannot be empty" },
                );
            }
            let name = chars_to_string(&subrange_chars(&v, st, end));
            let attr_text = chars_to_string(&trim_chars(&subrange_chars(&v, end, len - 1)));
            Ok(Token::Start(name, attrs::parse(attr_text)))
        } else {
            Err(InnerHTMLParseError::InvalidTag { tag, reason: "not a recognized tag form" })
        }
    }

    /// Strips the `<!--` and `-->` delimiters off a full comment.
    pub fn from_comment(comment: String) -> (r: Token)
        requires
            comment@.len() >= 7,
        ensures
            token_view(r) == SpecToken::Comment(
                comment@.subrange(4, comment@.len() - 3),
            ),
    {
        let v = str_to_chars(comment.as_str());
        let len = v.len();
        Token::Comment(chars_to_string(&subrange_chars(&v, 4, len - 3)))
    }

    /// The childless node a token stands for.
    pub fn node(&self) -> (r: Node)
        ensures
            node_view(r) == token_node(token_view(*self)),
    {
        proof {
            assert(attrs_view(Seq::<(String, String)>::empty()) =~= Seq::<(
                Seq<char>,
                Seq<char>,
            )>::empty());
        }
        match self {
            Token::Start(name, a) => Element {
                name: name.clone(),
                attrs: clone_attrs(a),
                children: Vec::new(),
            }.into_node(),
            Token::End(name) => Element {
                name: name.clone(),
                attrs: Vec::new(),
                children: Vec::new(),
            }.into_node(),
            Token::Closing(name, a) => Element {
                name: name.clone(),
                attrs: clone_attrs(a),
                children: Vec::new(),
            }.into_node(),
            Token::Doctype(d) => Node::Doctype(d.clone()),
            Token::Comment(c) => Node::Comment(c.clone()),
            Token::Text(t) => Node::Text(t.clone()),
        }
    }

    /// The childless node a token stands for, consuming the token.
    pub fn into_node(self) -> (r: Node)
        ensures
            node_view(r) == token_node(token_view(self)),
    {
        proof {
            assert(attrs_view(Seq::<(String, String)>::empty()) =~= Seq::<(
                Seq<char>,
                Seq<char>,
            )>::empty());
        }
        match self {
            Token::Start(name, a) => Element { name, attrs: a, children: Vec::new() }.into_node(),
            Token::End(name) => Element {
                name,
                attrs: Vec::new(),
                children: Vec::new(),
            }.into_node(),
            Token::Closing(name, a) => Element {
                name,
                attrs: a,
                children: Vec::new(),
            }.into_node(),
            Token::Doctype(d) => Node::Doctype(d),
            Token::Comment(c) => Node::Comment(c),
            Token::Text(t) => Node::Text(t),
        }
    }

    /// The childless element a tag token stands for.  Only tag tokens may be
    /// handed in.
    pub fn into_element(self) -> (r: Element)
        requires
            token_view(self) is Start || token_view(self) is End || token_view(self) is Closing,
        ensures
            elem_view(r) == token_element(token_view(self)),
    {
        proof {
            assert(attrs_view(Seq::<(String, String)>::empty()) =~= Seq::<(
                Seq<char>,
                Seq<char>,
            )>::empty());
        }
        match self {
            Token::Start(name, a) => Element { name, attrs: a, children: Vec::new() },
            Token::End(name) => Element { name, attrs: Vec::new(), children: Vec::new() },
            Token::Closing(name, a) => Element { name, attrs: a, children: Vec::new() },
            _ => unreached(),
        }
    }
}

/// Copies a token.
pub fn clone_token(t: &Token) -> (r: Token)
    ensures
        token_view(r) == token_view(*t),
{
    match t {
        Token::Start(n, a) => Token::Start(n.clone(), clone_attrs(a)),
        Token::End(n) => Token::End(n.clone()),
        Token::Closing(n, a) => Token::Closing(n.clone(), clone_attrs(a)),
        Token::Doctype(d) => Token::Doctype(d.clone()),
        Token::Comment(c) => Token::Comment(c.clone()),
        Token::Text(s) => Token::Text(s.clone()),
    }
}

/// ASCII whitespace test on a character.
fn is_ws(c: char) -> (r: bool)
    ensures
        r == is_ascii_ws(c),
{
    c == ' ' || c == '\t' || c == '\n' || c == '\r' || c == '\u{0C}'
}

/// The childless node a token stands for.
pub open spec fn token_node(t: SpecToken) -> SpecNode {
    match t {
        SpecToken::Start(name, a) => SpecNode::Element(
            SpecElem { name, attrs: a, children: Seq::empty() },
        ),
        SpecToken::End(name) => SpecNode::Element(
            SpecElem { name, attrs: Seq::empty(), children: Seq::empty() },
        ),
        SpecToken::Closing(name, a) => SpecNode::Element(
            SpecElem { name, attrs: a, children: Seq::empty() },
        ),
        SpecToken::Doctype(d) => SpecNode::Doctype(d),
        SpecToken::Comment(c) => SpecNode::Comment(c),
        SpecToken::Text(s) => SpecNode::Text(s),
    }
}

/// The childless element a tag token stands for.
pub open spec fn token_element(t: SpecToken) -> SpecElem {
    match t {
        SpecToken::Start(name, a) => SpecElem { name, attrs: a, children: Seq::empty() },
        SpecToken::End(name) => SpecElem { name, attrs: Seq::empty(), children: Seq::empty() },
        SpecToken::Closing(name, a) => SpecElem { name, attrs: a, children: Seq::empty() },
        _ => SpecElem { name: Seq::empty(), attrs: Seq::empty(), children: Seq::empty() },
    }
}

} // verus!
