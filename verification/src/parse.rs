//! Strict and lenient parsing of HTML text into a tree of [`Node`]s.
//!
//! The pipeline scans the input once into a sequence of positioned tokens
//! (tracking quoting, comments and raw-text `script`/`style` bodies), then
//! reduces the token sequence with an open-tag stack into a tree, either
//! strictly (the first well-formedness violation is reported with its source
//! location) or leniently (stray end tags are dropped and open tags are
//! auto-closed at the end of the input).

use vstd::prelude::*;

pub mod attrs;
pub mod token;

use crate::data::is_void_name;
use crate::model::{SpecElem, SpecNode, nodes_view};
use crate::{Element, Node};
use crate::parse::token::{SpecToken, Token, classify, token_element, token_node, token_view};

verus! {

/// A zero-based character offset into the source string handed to
/// [`crate::parse`], pointing at the first character of the lexeme that
/// produced a token or an error.
#[derive(Debug, Clone, Copy, PartialEq, Eq, Structural)]
pub struct SourceLocation(pub usize);

impl SourceLocation {
    /// Moves the location by a signed character offset.  The move fails —
    /// returns `None` rather than silently wrapping — where the result
    /// would leave the location's range.
    pub fn offset(self, rhs: isize) -> (r: Option<SourceLocation>)
        ensures
            match r {
                Some(l) => l.0 == self.0 + rhs,
                None => self.0 + rhs < 0 || self.0 + rhs > usize::MAX,
            },
    {
        match self.0.checked_add_signed(rhs) {
            Some(n) => Some(SourceLocation(n)),
            None => None,
        }
    }
}

/// A well-formedness violation, with the source location at which it was
/// detected.
#[derive(Debug, Clone, PartialEq)]
pub struct HTMLParseError {
    pub source_location: SourceLocation,
    pub inner: InnerHTMLParseError,
}

/// The kinds of well-formedness violation the strict parser reports.
#[derive(Debug, Clone, PartialEq)]
pub enum InnerHTMLParseError {
    /// An end tag closed a start tag of a different name.
    MismatchedTags { start_tag: String, start_location: SourceLocation, end_tag: String },
    /// An end tag appeared with no tag open.
    UnopenedTag { tag: String },
    /// A start tag was never closed.
    UnclosedTag { tag: String },
    /// A bracketed region could not be classified into a recognized tag form.
    InvalidTag { tag: String, reason: &'static str },
}

/// Model of an [`InnerHTMLParseError`].
pub enum SpecInnerError {
    Mismatched { start_tag: Seq<char>, start_location: int, end_tag: Seq<char> },
    Unopened { tag: Seq<char> },
    Unclosed { tag: Seq<char> },
    Invalid { tag: Seq<char>, reason: Seq<char> },
}

/// Model of an [`HTMLParseError`].
pub struct SpecError {
    pub loc: int,
    pub inner: SpecInnerError,
}

/// Model of an [`InnerHTMLParseError`].
pub open spec fn inner_error_view(e: InnerHTMLParseError) -> SpecInnerError {
    match e {
        InnerHTMLParseError::MismatchedTags { start_tag, start_location, end_tag } =>
            SpecInnerError::Mismatched {
            start_tag: start_tag@,
            start_location: start_location.0 as int,
            end_tag: end_tag@,
        },
        InnerHTMLParseError::UnopenedTag { tag } => SpecInnerError::Unopened { tag: tag@ },
        InnerHTMLParseError::UnclosedTag { tag } => SpecInnerError::Unclosed { tag: tag@ },
        InnerHTMLParseError::InvalidTag { tag, reason } => SpecInnerError::Invalid {
            tag: tag@,
            reason: reason@,
        },
    }
}

/// Model of an [`HTMLParseError`].
pub open spec fn error_view(e: HTMLParseError) -> SpecError {
    SpecError { loc: e.source_location.0 as int, inner: inner_error_view(e.inner) }
}

impl InnerHTMLParseError {
    /// Pairs the violation with the location at which it was detected.
    pub fn with_location(self, source_location: SourceLocation) -> (r: HTMLParseError)
        ensures
            error_view(r) == (SpecError {
                loc: source_location.0 as int,
                inner: inner_error_view(self),
            }),
    {
        HTMLParseError { source_location, inner: self }
    }
}

/// Model of a positioned token list.
pub open spec fn tokens_view(v: Seq<(Token, SourceLocation)>) -> Seq<(SpecToken, int)> {
    v.map_values(|p: (Token, SourceLocation)| (token_view(p.0), p.1.0 as int))
}

/// True iff `s` ends with `suffix`.
pub open spec fn ends_with_spec(s: Seq<char>, suffix: Seq<char>) -> bool {
    s.len() >= suffix.len() && s.subrange(s.len() - suffix.len(), s.len() as int) == suffix
}

/// Appending a positioned token appends its model.
pub broadcast proof fn lemma_tokens_view_push(
    v: Seq<(Token, SourceLocation)>,
    t: Token,
    l: SourceLocation,
)
    ensures
        #[trigger] tokens_view(v.push((t, l))) == tokens_view(v).push((token_view(t), l.0 as int)),
{
    assert(tokens_view(v.push((t, l))) =~= tokens_view(v).push((token_view(t), l.0 as int)));
}

/// The scanner's state: pending characters, the tokens emitted so far, and
/// the four mutually exclusive scanning modes plus the bracket flag.
#[verifier::ext_equal]
pub struct TokState {
    pub chars: Seq<char>,
    pub tokens: Seq<(SpecToken, int)>,
    pub in_quotes: Option<char>,
    pub in_brackets: bool,
    pub in_comment: bool,
    pub in_script: bool,
    pub in_style: bool,
}

/// The scanner's starting state.
pub open spec fn tok_init() -> TokState {
    TokState {
        chars: Seq::empty(),
        tokens: Seq::empty(),
        in_quotes: None,
        in_brackets: false,
        in_comment: false,
        in_script: false,
        in_style: false,
    }
}

/// The closing sequence of a comment.
pub open spec fn comment_close() -> Seq<char> {
    seq!['-', '-', '>']
}

/// The closing sequence of a script body.
pub open spec fn script_close() -> Seq<char> {
    seq!['<', '/', 's', 'c', 'r', 'i', 'p', 't', '>']
}

/// The closing sequence of a style body.
pub open spec fn style_close() -> Seq<char> {
    seq!['<', '/', 's', 't', 'y', 'l', 'e', '>']
}

/// One transition of the scanner on character `ch` at position `i`.
///
/// Inside quotes every character accumulates, the matching quote closing the
/// span unless it is preceded by a backslash.  A comment closes at the first
/// `-->` that leaves room for the `<!--` opener; a raw-text body closes at
/// its literal `</script>`/`</style>`, emitting the body and a synthetic end
/// tag.  Otherwise `<` flushes pending text and opens a bracketed region,
/// `>` closes it and classifies the region, `<!--` enters comment mode, and
/// a quote inside brackets opens a quoted span.
pub open spec fn tok_step(st: TokState, ch: char, i: int) -> Result<TokState, SpecError> {
    if st.in_quotes is Some {
        let q = st.in_quotes->0;
        let closes = ch == q && (st.chars.len() == 0 || st.chars.last() != '\\');
        if closes {
            Ok(TokState { chars: st.chars.push(ch), in_quotes: None, ..st })
        } else {
            Ok(TokState { chars: st.chars.push(ch), ..st })
        }
    } else if st.in_comment {
        let c2 = st.chars.push(ch);
        if ends_with_spec(c2, comment_close()) && c2.len() >= 7 {
            let loc = i + 1 - c2.len();
            Ok(
                TokState {
                    chars: Seq::empty(),
                    tokens: st.tokens.push((SpecToken::Comment(c2.subrange(4, c2.len() - 3)), loc)),
                    in_comment: false,
                    in_brackets: false,
                    ..st
                },
            )
        } else {
            Ok(TokState { chars: c2, ..st })
        }
    } else if st.in_script {
        let c2 = st.chars.push(ch);
        if ends_with_spec(c2, script_close()) {
            let body = c2.take(c2.len() - 9);
            Ok(
                TokState {
                    chars: Seq::empty(),
                    tokens: st.tokens.push((SpecToken::Text(body), i + 1 - c2.len())).push(
                        (SpecToken::End("script"@), i + 1 - 9),
                    ),
                    in_script: false,
                    ..st
                },
            )
        } else {
            Ok(TokState { chars: c2, ..st })
        }
    } else if st.in_style {
        let c2 = st.chars.push(ch);
        if ends_with_spec(c2, style_close()) {
            let body = c2.take(c2.len() - 8);
            Ok(
                TokState {
                    chars: Seq::empty(),
                    tokens: st.tokens.push((SpecToken::Text(body), i + 1 - c2.len())).push(
                        (SpecToken::End("style"@), i + 1 - 8),
                    ),
                    in_style: false,
                    ..st
                },
            )
        } else {
            Ok(TokState { chars: c2, ..st })
        }
    } else if ch == '<' {
        let flushed = if st.chars.len() > 0 {
            st.tokens.push(
                (SpecToken::Text(crate::entity::decode_spec(st.chars)), i + 1 - st.chars.len()),
            )
        } else {
            st.tokens
        };
        Ok(TokState { chars: seq!['<'], tokens: flushed, in_brackets: true, ..st })
    } else if ch == '>' {
        let c2 = st.chars.push(ch);
        let loc = i + 1 - c2.len();
        match crate::parse::token::classify(c2) {
            Err(e) => Err(SpecError { loc, inner: e }),
            Ok(tok) => Ok(
                TokState {
                    chars: Seq::empty(),
                    tokens: st.tokens.push((tok, loc)),
                    in_brackets: false,
                    in_script: st.in_script || (tok matches SpecToken::Start(name, _) && name
                        == "script"@),
                    in_style: st.in_style || (tok matches SpecToken::Start(name, _) && name
                        == "style"@),
                    ..st
                },
            ),
        }
    } else if ch == '-' {
        let c2 = st.chars.push(ch);
        if c2 == seq!['<', '!', '-', '-'] {
            Ok(TokState { chars: c2, in_comment: true, ..st })
        } else {
            Ok(TokState { chars: c2, ..st })
        }
    } else {
        let quotes = if st.in_brackets && ch == '\'' {
            Some('\'')
        } else if st.in_brackets && ch == '"' {
            Some('"')
        } else {
            st.in_quotes
        };
        Ok(TokState { chars: st.chars.push(ch), in_quotes: quotes, ..st })
    }
}

/// The scanner's state after the first `i` characters of `s`, or the first
/// violation.
pub open spec fn tok_run(s: Seq<char>, i: int) -> Result<TokState, SpecError>
    decreases i,
{
    if i <= 0 {
        Ok(tok_init())
    } else {
        match tok_run(s, i - 1) {
            Err(e) => Err(e),
            Ok(st) => tok_step(st, s[i - 1], i - 1),
        }
    }
}

/// The token sequence of `s`: the scanner's output after all of `s`, with
/// any residual text flushed as a final text token.
pub open spec fn spec_tokenize(s: Seq<char>) -> Result<Seq<(SpecToken, int)>, SpecError> {
    match tok_run(s, s.len() as int) {
        Err(e) => Err(e),
        Ok(st) => Ok(
            if st.chars.len() > 0 {
                st.tokens.push(
                    (SpecToken::Text(crate::entity::decode_spec(st.chars)), s.len()
                        - st.chars.len()),
                )
            } else {
                st.tokens
            },
        ),
    }
}

/// Once the scanner fails, it stays failed.
proof fn lemma_tok_run_err_persists(s: Seq<char>, j: int, k: int)
    requires
        0 <= j <= k,
        tok_run(s, j) is Err,
    ensures
        tok_run(s, k) == tok_run(s, j),
    decreases k - j,
{
    if k > j {
        lemma_tok_run_err_persists(s, j, k - 1);
    }
}

/// One pass of the strict reducer: walking the tokens from `i` with the
/// given open-tag stack, the index `start_idx` of the open top-level tag,
/// and the nodes finished so far.
///
/// A start tag of a void element is emitted childless; any other start tag
/// is pushed.  An end tag pops the stack: with nothing open it is an
/// `Unopened` violation, with the wrong name a `Mismatched` one; when it
/// closes the top-level tag, the tokens strictly between the pair are
/// reduced recursively into the element's children.  At the end of the
/// tokens a non-empty stack is an `Unclosed` violation naming the innermost
/// open tag.
pub open spec fn strict_reduce(
    tokens: Seq<(SpecToken, int)>,
    i: int,
    stack: Seq<(SpecToken, int)>,
    start_idx: int,
    acc: Seq<SpecNode>,
) -> Result<Seq<SpecNode>, SpecError>
    decreases tokens.len(), tokens.len() - i,
{
    if i < 0 || i >= tokens.len() {
        if stack.len() > 0 {
            Err(
                SpecError {
                    loc: stack.last().1,
                    inner: SpecInnerError::Unclosed { tag: token_element(stack.last().0).name },
                },
            )
        } else {
            Ok(acc)
        }
    } else {
        let tok = tokens[i].0;
        let loc = tokens[i].1;
        match tok {
            SpecToken::Start(tag, a) => {
                if is_void_name(tag) {
                    if stack.len() == 0 {
                        strict_reduce(
                            tokens,
                            i + 1,
                            stack,
                            start_idx,
                            acc.push(
                                SpecNode::Element(
                                    SpecElem { name: tag, attrs: a, children: Seq::empty() },
                                ),
                            ),
                        )
                    } else {
                        strict_reduce(tokens, i + 1, stack, start_idx, acc)
                    }
                } else if stack.len() == 0 {
                    strict_reduce(tokens, i + 1, stack.push((tok, loc)), i, acc)
                } else {
                    strict_reduce(tokens, i + 1, stack.push((tok, loc)), start_idx, acc)
                }
            },
            SpecToken::End(tag) => {
                if stack.len() == 0 {
                    Err(SpecError { loc, inner: SpecInnerError::Unopened { tag } })
                } else {
                    let se = token_element(stack.last().0);
                    if tag != se.name {
                        Err(
                            SpecError {
                                loc,
                                inner: SpecInnerError::Mismatched {
                                    start_tag: se.name,
                                    start_location: stack.last().1,
                                    end_tag: tag,
                                },
                            },
                        )
                    } else if stack.len() == 1 {
                        let lo = if 0 <= start_idx + 1 <= i {
                            start_idx + 1
                        } else {
                            i
                        };
                        match strict_reduce(tokens.subrange(lo, i), 0, Seq::empty(), 0, Seq::empty()) {
                            Err(e) => Err(e),
                            Ok(children) => strict_reduce(
                                tokens,
                                i + 1,
                                stack.drop_last(),
                                start_idx,
                                acc.push(
                                    SpecNode::Element(
                                        SpecElem { name: se.name, attrs: se.attrs, children },
                                    ),
                                ),
                            ),
                        }
                    } else {
                        strict_reduce(tokens, i + 1, stack.drop_last(), start_idx, acc)
                    }
                }
            },
            _ => {
                if stack.len() == 0 {
                    strict_reduce(tokens, i + 1, stack, start_idx, acc.push(token_node(tok)))
                } else {
                    strict_reduce(tokens, i + 1, stack, start_idx, acc)
                }
            },
        }
    }
}

/// The strict reduction of a token sequence into a tree.
pub open spec fn spec_stack_to_dom(tokens: Seq<(SpecToken, int)>) -> Result<
    Seq<SpecNode>,
    SpecError,
> {
    strict_reduce(tokens, 0, Seq::empty(), 0, Seq::empty())
}

/// One pass of the lenient reducer.  It differs from the strict one in
/// never failing: an end tag with nothing open is dropped, an end tag of
/// the wrong name has no effect, and at the end of the tokens any open
/// structure collapses into a single element around the first still-open
/// tag, holding everything after it, appended to the nodes already
/// finished.
pub open spec fn lenient_reduce(
    tokens: Seq<(SpecToken, int)>,
    i: int,
    stack: Seq<SpecToken>,
    start_idx: int,
    acc: Seq<SpecNode>,
) -> Seq<SpecNode>
    decreases tokens.len(), tokens.len() - i,
{
    if i < 0 || i >= tokens.len() {
        if stack.len() > 0 {
            let be = token_element(stack[0]);
            let lo = if 1 <= start_idx + 1 <= tokens.len() {
                start_idx + 1
            } else {
                tokens.len() as int
            };
            let children = if tokens.len() > 0 {
                lenient_reduce(
                    tokens.subrange(lo, tokens.len() as int),
                    0,
                    Seq::empty(),
                    0,
                    Seq::empty(),
                )
            } else {
                Seq::empty()
            };
            acc.push(SpecNode::Element(SpecElem { name: be.name, attrs: be.attrs, children }))
        } else {
            acc
        }
    } else {
        let tok = tokens[i].0;
        match tok {
            SpecToken::Start(tag, a) => {
                if is_void_name(tag) {
                    if stack.len() == 0 {
                        lenient_reduce(
                            tokens,
                            i + 1,
                            stack,
                            start_idx,
                            acc.push(
                                SpecNode::Element(
                                    SpecElem { name: tag, attrs: a, children: Seq::empty() },
                                ),
                            ),
                        )
                    } else {
                        lenient_reduce(tokens, i + 1, stack, start_idx, acc)
                    }
                } else if stack.len() == 0 {
                    lenient_reduce(tokens, i + 1, stack.push(tok), i, acc)
                } else {
                    lenient_reduce(tokens, i + 1, stack.push(tok), start_idx, acc)
                }
            },
            SpecToken::End(tag) => {
                if stack.len() == 0 {
                    lenient_reduce(tokens, i + 1, stack, start_idx, acc)
                } else {
                    let se = token_element(stack.last());
                    if tag != se.name {
                        lenient_reduce(tokens, i + 1, stack, start_idx, acc)
                    } else if stack.len() == 1 {
                        let lo = if 0 <= start_idx + 1 <= i {
                            start_idx + 1
                        } else {
                            i
                        };
                        let children = lenient_reduce(
                            tokens.subrange(lo, i),
                            0,
                            Seq::empty(),
                            0,
                            Seq::empty(),
                        );
                        lenient_reduce(
                            tokens,
                            i + 1,
                            stack.drop_last(),
                            start_idx,
                            acc.push(
                                SpecNode::Element(
                                    SpecElem { name: se.name, attrs: se.attrs, children },
                                ),
                            ),
                        )
                    } else {
                        lenient_reduce(tokens, i + 1, stack.drop_last(), start_idx, acc)
                    }
                }
            },
            _ => {
                if stack.len() == 0 {
                    lenient_reduce(tokens, i + 1, stack, start_idx, acc.push(token_node(tok)))
                } else {
                    lenient_reduce(tokens, i + 1, stack, start_idx, acc)
                }
            },
        }
    }
}

/// The lenient reduction of a token sequence into a tree.
pub open spec fn spec_try_stack_to_dom(tokens: Seq<(SpecToken, int)>) -> Seq<SpecNode> {
    lenient_reduce(tokens, 0, Seq::empty(), 0, Seq::empty())
}

/// The strict parse of `s`: its token sequence reduced strictly, or the
/// first violation found on the way.
pub open spec fn spec_parse(s: Seq<char>) -> Result<Seq<SpecNode>, SpecError> {
    match spec_tokenize(s) {
        Err(e) => Err(e),
        Ok(tokens) => spec_stack_to_dom(tokens),
    }
}

/// The lenient parse of `s`: its token sequence reduced leniently; a
/// scanning violation yields the empty tree.
pub open spec fn spec_try_parse(s: Seq<char>) -> Seq<SpecNode> {
    match spec_tokenize(s) {
        Err(_) => Seq::empty(),
        Ok(tokens) => spec_try_stack_to_dom(tokens),
    }
}

/// True iff `v` ends with `suf`.
fn has_suffix(v: &Vec<char>, suf: &Vec<char>) -> (r: bool)
    ensures
        r == ends_with_spec(v@, suf@),
{
    let vl = v.len();
    let sl = suf.len();
    if vl < sl {
        return false;
    }
    let mut j: usize = 0;
    while j < sl
        invariant
            j <= sl == suf@.len() <= vl == v@.len(),
            forall|k: int| 0 <= k < j ==> v@[vl - sl + k] == suf@[k],
        decreases sl - j,
    {
        if v[vl - sl + j] != suf[j] {
            assert(v@.subrange(vl - sl, vl as int)[j as int] != suf@[j as int]);
            return false;
        }
        j += 1;
    }
    assert(v@.subrange(vl - sl, vl as int) =~= suf@);
    true
}

/// Scans `html` into its positioned token sequence, or reports the first
/// violation with its location.
fn html_to_stack(html: &str) -> (r: Result<Vec<(Token, SourceLocation)>, HTMLParseError>)
    ensures
        match r {
            Ok(v) => spec_tokenize(html@) == Ok::<Seq<(SpecToken, int)>, SpecError>(
                tokens_view(v@),
            ),
            Err(e) => spec_tokenize(html@) == Err::<Seq<(SpecToken, int)>, SpecError>(
                error_view(e),
            ),
        },
{
    broadcast use lemma_tokens_view_push;

    let v = crate::text::str_to_chars(html);
    let ghost s = v@;
    let len = v.len();
    // The literal closing sequences of comments and raw-text bodies.
    let mut close_comment: Vec<char> = Vec::new();
    close_comment.push('-');
    close_comment.push('-');
    close_comment.push('>');
    proof {
        assert(close_comment@ =~= comment_close());
    }
    let mut close_script: Vec<char> = Vec::new();
    close_script.push('<');
    close_script.push('/');
    close_script.push('s');
    close_script.push('c');
    close_script.push('r');
    close_script.push('i');
    close_script.push('p');
    close_script.push('t');
    close_script.push('>');
    proof {
        assert(close_script@ =~= script_close());
    }
    let mut close_style: Vec<char> = Vec::new();
    close_style.push('<');
    close_style.push('/');
    close_style.push('s');
    close_style.push('t');
    close_style.push('y');
    close_style.push('l');
    close_style.push('e');
    close_style.push('>');
    proof {
        assert(close_style@ =~= style_close());
    }
    let mut chars_stack: Vec<char> = Vec::new();
    let mut token_stack: Vec<(Token, SourceLocation)> = Vec::new();
    let mut in_quotes: Option<char> = None;
    let mut in_brackets = false;
    let mut in_comment = false;
    let mut in_script = false;
    let mut in_style = false;
    let mut i: usize = 0;
    proof {
        assert(tokens_view(token_stack@) =~= Seq::<(SpecToken, int)>::empty());
    }
    while i < len
        invariant
            i <= len == s.len(),
            v@ == s,
            html@ == s,
            close_comment@ == comment_close(),
            close_script@ == script_close(),
            close_style@ == style_close(),
            chars_stack@.len() <= i,
            tok_run(s, i as int) == Ok::<TokState, SpecError>(
                TokState {
                    chars: chars_stack@,
                    tokens: tokens_view(token_stack@),
                    in_quotes: in_quotes,
                    in_brackets: in_brackets,
                    in_comment: in_comment,
                    in_script: in_script,
                    in_style: in_style,
                },
            ),
        decreases len - i,
    {
        let ghost st_cur = TokState {
            chars: chars_stack@,
            tokens: tokens_view(token_stack@),
            in_quotes: in_quotes,
            in_brackets: in_brackets,
            in_comment: in_comment,
            in_script: in_script,
            in_style: in_style,
        };
        proof {
            assert(tok_run(s, i + 1) == tok_step(st_cur, s[i as int], i as int));
        }
        let ch = v[i];
        if in_quotes.is_some() {
            let q = match in_quotes {
                Some(q) => q,
                None => unreached(),
            };
            if ch == q {
                let escaped = chars_stack.len() > 0 && chars_stack[chars_stack.len() - 1] == '\\';
                if !escaped {
                    in_quotes = None;
                }
            }
            chars_stack.push(ch);
        } else if in_comment {
            chars_stack.push(ch);
            if has_suffix(&chars_stack, &close_comment) && chars_stack.len() >= 7 {
                let l = chars_stack.len();
                let comment = crate::text::chars_to_string(&chars_stack);
                let start_loc = SourceLocation(i + 1 - l);
                token_stack.push((Token::from_comment(comment), start_loc));
                chars_stack = Vec::new();
                in_comment = false;
                in_brackets = false;
            }
        } else if in_script {
            chars_stack.push(ch);
            if has_suffix(&chars_stack, &close_script) {
                let l = chars_stack.len();
                let body = crate::text::subrange_chars(&chars_stack, 0, l - 9);
                proof {
                    assert(body@ =~= chars_stack@.take(l - 9));
                }
                let script_start_loc = SourceLocation(i + 1 - l);
                let end_tag_loc = SourceLocation(i + 1 - 9);
                token_stack.push(
                    (Token::Text(crate::text::chars_to_string(&body)), script_start_loc),
                );
                token_stack.push((Token::End("script".to_owned()), end_tag_loc));
                chars_stack = Vec::new();
                in_script = false;
            }
        } else if in_style {
            chars_stack.push(ch);
            if has_suffix(&chars_stack, &close_style) {
                let l = chars_stack.len();
                let body = crate::text::subrange_chars(&chars_stack, 0, l - 8);
                proof {
                    assert(body@ =~= chars_stack@.take(l - 8));
                }
                let style_start_loc = SourceLocation(i + 1 - l);
                let end_tag_loc = SourceLocation(i + 1 - 8);
                token_stack.push(
                    (Token::Text(crate::text::chars_to_string(&body)), style_start_loc),
                );
                token_stack.push((Token::End("style".to_owned()), end_tag_loc));
                chars_stack = Vec::new();
                in_style = false;
            }
        } else if ch == '<' {
            in_brackets = true;
            if chars_stack.len() > 0 {
                let text = crate::text::chars_to_string(&crate::entity::decode_chars(&chars_stack));
                let text_start_loc = SourceLocation(i + 1 - chars_stack.len());
                token_stack.push((Token::Text(text), text_start_loc));
                chars_stack = Vec::new();
            }
            chars_stack.push(ch);
            proof {
                assert(chars_stack@ =~= seq!['<']);
            }
        } else if ch == '>' {
            in_brackets = false;
            chars_stack.push(ch);
            let l = chars_stack.len();
            let tag_text = crate::text::chars_to_string(&chars_stack);
            chars_stack = Vec::new();
            let start_loc = SourceLocation(i + 1 - l);
            let tag = match Token::from(tag_text) {
                Ok(tag) => tag,
                Err(e) => {
                    proof {
                        lemma_tok_run_err_persists(s, i + 1, s.len() as int);
                    }
                    return Err(e.with_location(start_loc));
                },
            };
            match &tag {
                Token::Start(tag_name, _) => {
                    if crate::text::str_eq(tag_name.as_str(), "script") {
                        in_script = true;
                    }
                    if crate::text::str_eq(tag_name.as_str(), "style") {
                        in_style = true;
                    }
                },
                _ => {},
            }
            token_stack.push((tag, start_loc));
        } else if ch == '-' {
            chars_stack.push(ch);
            if chars_stack.len() == 4 && chars_stack[0] == '<' && chars_stack[1] == '!'
                && chars_stack[2] == '-' && chars_stack[3] == '-' {
                proof {
                    assert(chars_stack@ =~= seq!['<', '!', '-', '-']);
                }
                in_comment = true;
            }
        } else {
            if in_brackets {
                if ch == '\'' {
                    in_quotes = Some('\'');
                } else if ch == '"' {
                    in_quotes = Some('"');
                }
            }
            chars_stack.push(ch);
        }
        proof {
            let st_next = TokState {
                chars: chars_stack@,
                tokens: tokens_view(token_stack@),
                in_quotes: in_quotes,
                in_brackets: in_brackets,
                in_comment: in_comment,
                in_script: in_script,
                in_style: in_style,
            };
            assert(tok_step(st_cur, s[i as int], i as int) is Ok);
            assert(tok_step(st_cur, s[i as int], i as int)->Ok_0 =~= st_next);
        }
        i += 1;
    }
    if chars_stack.len() > 0 {
        let text = crate::text::chars_to_string(&crate::entity::decode_chars(&chars_stack));
        let text_start_loc = SourceLocation(len - chars_stack.len());
        token_stack.push((Token::Text(text), text_start_loc));
    }
    Ok(token_stack)
}

/// Copy of the positioned tokens `v[lo..hi]`.
fn clone_tokens_range(v: &Vec<(Token, SourceLocation)>, lo: usize, hi: usize) -> (r: Vec<
    (Token, SourceLocation),
>)
    requires
        lo <= hi <= v@.len(),
    ensures
        tokens_view(r@) == tokens_view(v@).subrange(lo as int, hi as int),
{
    let mut out: Vec<(Token, SourceLocation)> = Vec::new();
    let mut j = lo;
    while j < hi
        invariant
            lo <= j <= hi <= v@.len(),
            out@.len() == j - lo,
            forall|k: int|
                0 <= k < out@.len() ==> token_view(#[trigger] out@[k].0) == token_view(
                    v@[lo + k].0,
                ) && out@[k].1 == v@[lo + k].1,
        decreases hi - j,
    {
        let pair = &v[j];
        out.push((crate::parse::token::clone_token(&pair.0), pair.1));
        j += 1;
    }
    proof {
        assert(tokens_view(out@) =~= tokens_view(v@).subrange(lo as int, hi as int));
    }
    out
}

/// Reduces a token sequence strictly into a tree, reporting the first
/// well-formedness violation with its location.
fn stack_to_dom(token_stack: Vec<(Token, SourceLocation)>) -> (r: Result<Vec<Node>, HTMLParseError>)
    ensures
        match r {
            Ok(nodes) => spec_stack_to_dom(tokens_view(token_stack@)) == Ok::<
                Seq<SpecNode>,
                SpecError,
            >(nodes_view(nodes@)),
            Err(e) => spec_stack_to_dom(tokens_view(token_stack@)) == Err::<
                Seq<SpecNode>,
                SpecError,
            >(error_view(e)),
        },
    decreases token_stack@.len(),
{
    let ghost tv = tokens_view(token_stack@);
    let ghost full = spec_stack_to_dom(tv);
    let len = token_stack.len();
    let mut nodes: Vec<Node> = Vec::new();
    let mut start_tags_stack: Vec<(Token, SourceLocation)> = Vec::new();
    let mut start_tag_index: usize = 0;
    let mut i: usize = 0;
    proof {
        assert(nodes_view(Seq::<Node>::empty()) =~= Seq::<SpecNode>::empty());
        assert(tokens_view(Seq::<(Token, SourceLocation)>::empty()) =~= Seq::<
            (SpecToken, int),
        >::empty());
    }
    while i < len
        invariant
            i <= len == token_stack@.len(),
            tv == tokens_view(token_stack@),
            full == spec_stack_to_dom(tv),
            full == strict_reduce(
                tv,
                i as int,
                tokens_view(start_tags_stack@),
                start_tag_index as int,
                nodes_view(nodes@),
            ),
            start_tag_index <= i,
            start_tags_stack@.len() > 0 ==> start_tag_index < i,
            forall|k: int|
                0 <= k < start_tags_stack@.len() ==> tokens_view(start_tags_stack@)[k].0 is Start,
        decreases len - i,
    {
        let ghost sv = tokens_view(start_tags_stack@);
        let ghost av = nodes_view(nodes@);
        let ghost si0 = start_tag_index as int;
        let location = token_stack[i].1;
        proof {
            assert(tv[i as int] == (token_view(token_stack@[i as int].0), location.0 as int));
        }
        match &token_stack[i].0 {
            Token::Start(tag, a) => {
                proof {
                    assert(tv[i as int].0 == SpecToken::Start(tag@, crate::model::attrs_view(a@)));
                }
                let is_void = crate::data::is_void_tag(tag.as_str());
                if start_tags_stack.len() == 0 {
                    if is_void {
                        let elem = Element {
                            name: tag.clone(),
                            attrs: crate::clone_attrs(a),
                            children: Vec::new(),
                        };
                        let node = elem.into_node();
                        proof {
                            crate::model::lemma_nodes_view_push(nodes@, node);
                        }
                        nodes.push(node);
                        proof {
                            assert(strict_reduce(tv, i as int, sv, si0, av) == strict_reduce(
                                tv,
                                i + 1,
                                sv,
                                si0,
                                nodes_view(nodes@),
                            ));
                        }
                    } else {
                        start_tag_index = i;
                        start_tags_stack.push(
                            (Token::Start(tag.clone(), crate::clone_attrs(a)), location),
                        );
                        proof {
                            lemma_tokens_view_push(
                                start_tags_stack@.drop_last(),
                                start_tags_stack@.last().0,
                                start_tags_stack@.last().1,
                            );
                            assert(start_tags_stack@.drop_last().push(start_tags_stack@.last())
                                =~= start_tags_stack@);
                            assert(tokens_view(start_tags_stack@) == sv.push(
                                (tv[i as int].0, location.0 as int),
                            ));
                            assert(strict_reduce(tv, i as int, sv, si0, av) == strict_reduce(
                                tv,
                                i + 1,
                                tokens_view(start_tags_stack@),
                                i as int,
                                av,
                            ));
                        }
                    }
                } else if is_void {
                    // A void tag below the top level is rebuilt by the
                    // recursive reduction of the enclosing element.
                    proof {
                        assert(strict_reduce(tv, i as int, sv, si0, av) == strict_reduce(tv, i + 1, sv, si0, av));
                    }
                } else {
                    start_tags_stack.push(
                        (Token::Start(tag.clone(), crate::clone_attrs(a)), location),
                    );
                    proof {
                        lemma_tokens_view_push(
                            start_tags_stack@.drop_last(),
                            start_tags_stack@.last().0,
                            start_tags_stack@.last().1,
                        );
                        assert(start_tags_stack@.drop_last().push(start_tags_stack@.last())
                            =~= start_tags_stack@);
                        assert(tokens_view(start_tags_stack@) == sv.push(
                            (tv[i as int].0, location.0 as int),
                        ));
                        assert(strict_reduce(tv, i as int, sv, si0, av) == strict_reduce(
                            tv,
                            i + 1,
                            tokens_view(start_tags_stack@),
                            si0,
                            av,
                        ));
                    }
                }
            },
            Token::End(tag) => {
                proof {
                    assert(tv[i as int].0 == SpecToken::End(tag@));
                }
                if start_tags_stack.len() == 0 {
                    proof {
                        assert(strict_reduce(tv, i as int, sv, si0, av) == Err::<Seq<SpecNode>, SpecError>(
                            SpecError {
                                loc: location.0 as int,
                                inner: SpecInnerError::Unopened { tag: tag@ },
                            },
                        ));
                    }
                    return Err(
                        InnerHTMLParseError::UnopenedTag { tag: tag.clone() }.with_location(
                            location,
                        ),
                    );
                }
                let ghost l = sv.len() as int;
                let (start_tok, start_location) = match start_tags_stack.pop() {
                    Some(p) => p,
                    None => unreached(),
                };
                proof {
                    assert(sv[l - 1] == (token_view(start_tok), start_location.0 as int));
                    assert(tokens_view(start_tags_stack@) =~= sv.drop_last());
                }
                let start_tag = start_tok.into_element();
                let ghost se = token_element(sv.last().0);
                proof {
                    assert(crate::model::elem_view(start_tag) == se);
                }
                if !crate::text::str_eq(tag.as_str(), start_tag.name.as_str()) {
                    proof {
                        assert(strict_reduce(tv, i as int, sv, si0, av) == Err::<Seq<SpecNode>, SpecError>(
                            SpecError {
                                loc: location.0 as int,
                                inner: SpecInnerError::Mismatched {
                                    start_tag: se.name,
                                    start_location: start_location.0 as int,
                                    end_tag: tag@,
                                },
                            },
                        ));
                    }
                    return Err(
                        InnerHTMLParseError::MismatchedTags {
                            start_tag: start_tag.name,
                            start_location,
                            end_tag: tag.clone(),
                        }.with_location(location),
                    );
                }
                if start_tags_stack.len() == 0 {
                    let sub = clone_tokens_range(&token_stack, start_tag_index + 1, i);
                    proof {
                        assert(sub@.len() == tokens_view(sub@).len());
                        assert(sub@.len() < token_stack@.len());
                        assert(tokens_view(sub@) == tv.subrange(si0 + 1, i as int));
                    }
                    let children = match stack_to_dom(sub) {
                        Ok(children) => children,
                        Err(e) => {
                            proof {
                                assert(strict_reduce(tv, i as int, sv, si0, av) == Err::<
                                    Seq<SpecNode>,
                                    SpecError,
                                >(error_view(e)));
                            }
                            return Err(e);
                        },
                    };
                    let elem = Element {
                        name: start_tag.name,
                        attrs: start_tag.attrs,
                        children,
                    };
                    proof {
                        assert(crate::model::elem_view(elem) == (SpecElem {
                            name: se.name,
                            attrs: se.attrs,
                            children: nodes_view(elem.children@),
                        }));
                    }
                    let node = elem.into_node();
                    proof {
                        crate::model::lemma_nodes_view_push(nodes@, node);
                    }
                    nodes.push(node);
                    proof {
                        assert(strict_reduce(tv, i as int, sv, si0, av) == strict_reduce(
                            tv,
                            i + 1,
                            tokens_view(start_tags_stack@),
                            si0,
                            nodes_view(nodes@),
                        ));
                    }
                } else {
                    proof {
                        assert(strict_reduce(tv, i as int, sv, si0, av) == strict_reduce(
                            tv,
                            i + 1,
                            tokens_view(start_tags_stack@),
                            si0,
                            av,
                        ));
                    }
                }
            },
            _ => {
                proof {
                    assert(!(tv[i as int].0 is Start) && !(tv[i as int].0 is End));
                }
                if start_tags_stack.len() == 0 {
                    let node = token_stack[i].0.node();
                    proof {
                        crate::model::lemma_nodes_view_push(nodes@, node);
                    }
                    nodes.push(node);
                    proof {
                        assert(strict_reduce(tv, i as int, sv, si0, av) == strict_reduce(
                            tv,
                            i + 1,
                            sv,
                            si0,
                            nodes_view(nodes@),
                        ));
                    }
                } else {
                    proof {
                        assert(strict_reduce(tv, i as int, sv, si0, av) == strict_reduce(tv, i + 1, sv, si0, av));
                    }
                }
            },
        }
        i += 1;
    }
    match start_tags_stack.pop() {
        Some((token, location)) => {
            proof {
                assert(tokens_view(start_tags_stack@.push((token, location))).last() == (
                    token_view(token),
                    location.0 as int,
                ));
            }
            let start_tag_name = token.into_element().name;
            Err(InnerHTMLParseError::UnclosedTag { tag: start_tag_name }.with_location(location))
        },
        None => Ok(nodes),
    }
}

/// Reduces a token sequence leniently into a tree; it never fails.
fn try_stack_to_dom(token_stack: Vec<(Token, SourceLocation)>) -> (r: Vec<Node>)
    ensures
        nodes_view(r@) == spec_try_stack_to_dom(tokens_view(token_stack@)),
    decreases token_stack@.len(),
{
    let ghost tv = tokens_view(token_stack@);
    let ghost full = spec_try_stack_to_dom(tv);
    let len = token_stack.len();
    let mut nodes: Vec<Node> = Vec::new();
    let mut start_tags_stack: Vec<(Token, SourceLocation)> = Vec::new();
    let mut start_tag_index: usize = 0;
    let mut i: usize = 0;
    proof {
        assert(nodes_view(Seq::<Node>::empty()) =~= Seq::<SpecNode>::empty());
        assert(tokens_view(Seq::<(Token, SourceLocation)>::empty()) =~= Seq::<
            (SpecToken, int),
        >::empty());
        assert(toks_only(Seq::<(SpecToken, int)>::empty()) =~= Seq::<SpecToken>::empty());
    }
    while i < len
        invariant
            i <= len == token_stack@.len(),
            tv == tokens_view(token_stack@),
            full == spec_try_stack_to_dom(tv),
            full == lenient_reduce(
                tv,
                i as int,
                toks_only(tokens_view(start_tags_stack@)),
                start_tag_index as int,
                nodes_view(nodes@),
            ),
            start_tag_index <= i,
            start_tags_stack@.len() > 0 ==> start_tag_index < i,
            forall|k: int|
                0 <= k < start_tags_stack@.len() ==> tokens_view(start_tags_stack@)[k].0 is Start,
        decreases len - i,
    {
        let ghost sv = toks_only(tokens_view(start_tags_stack@));
        let ghost svp = tokens_view(start_tags_stack@);
        let ghost av = nodes_view(nodes@);
        let ghost si0 = start_tag_index as int;
        let location = token_stack[i].1;
        proof {
            assert(tv[i as int] == (token_view(token_stack@[i as int].0), location.0 as int));
            assert(sv.len() == start_tags_stack@.len());
            assert(forall|k: int|
                0 <= k < sv.len() ==> #[trigger] sv[k] == tokens_view(start_tags_stack@)[k].0);
        }
        match &token_stack[i].0 {
            Token::Start(tag, a) => {
                proof {
                    assert(tv[i as int].0 == SpecToken::Start(tag@, crate::model::attrs_view(a@)));
                }
                let is_void = crate::data::is_void_tag(tag.as_str());
                if start_tags_stack.len() == 0 {
                    if is_void {
                        let elem = Element {
                            name: tag.clone(),
                            attrs: crate::clone_attrs(a),
                            children: Vec::new(),
                        };
                        let node = elem.into_node();
                        proof {
                            crate::model::lemma_nodes_view_push(nodes@, node);
                        }
                        nodes.push(node);
                        proof {
                            assert(lenient_reduce(tv, i as int, sv, si0, av) == lenient_reduce(
                                tv,
                                i + 1,
                                sv,
                                si0,
                                nodes_view(nodes@),
                            ));
                        }
                    } else {
                        start_tag_index = i;
                        start_tags_stack.push(
                            (Token::Start(tag.clone(), crate::clone_attrs(a)), location),
                        );
                        proof {
                            lemma_tokens_view_push(
                                start_tags_stack@.drop_last(),
                                start_tags_stack@.last().0,
                                start_tags_stack@.last().1,
                            );
                            assert(start_tags_stack@.drop_last().push(start_tags_stack@.last())
                                =~= start_tags_stack@);
                            assert(tokens_view(start_tags_stack@) =~= svp.push(
                                (tv[i as int].0, location.0 as int),
                            ));
                            assert(toks_only(tokens_view(start_tags_stack@)) =~= sv.push(
                                tv[i as int].0,
                            ));
                            assert(lenient_reduce(tv, i as int, sv, si0, av) == lenient_reduce(
                                tv,
                                i + 1,
                                toks_only(tokens_view(start_tags_stack@)),
                                i as int,
                                av,
                            ));
                        }
                    }
                } else if is_void {
                    // A void tag below the top level is rebuilt by the
                    // recursive reduction of the enclosing element.
                    proof {
                        assert(lenient_reduce(tv, i as int, sv, si0, av) == lenient_reduce(tv, i + 1, sv, si0, av));
                    }
                } else {
                    start_tags_stack.push(
                        (Token::Start(tag.clone(), crate::clone_attrs(a)), location),
                    );
                    proof {
                        lemma_tokens_view_push(
                            start_tags_stack@.drop_last(),
                            start_tags_stack@.last().0,
                            start_tags_stack@.last().1,
                        );
                        assert(start_tags_stack@.drop_last().push(start_tags_stack@.last())
                            =~= start_tags_stack@);
                        assert(tokens_view(start_tags_stack@) =~= svp.push(
                            (tv[i as int].0, location.0 as int),
                        ));
                        assert(toks_only(tokens_view(start_tags_stack@)) =~= sv.push(
                            tv[i as int].0,
                        ));
                        assert(lenient_reduce(tv, i as int, sv, si0, av) == lenient_reduce(
                            tv,
                            i + 1,
                            toks_only(tokens_view(start_tags_stack@)),
                            si0,
                            av,
                        ));
                    }
                }
            },
            Token::End(tag) => {
                proof {
                    assert(tv[i as int].0 == SpecToken::End(tag@));
                }
                if start_tags_stack.len() > 0 {
                    let ghost l = sv.len() as int;
                    let ghost pre_v = start_tags_stack@;
                    let (start_tok, start_location) = match start_tags_stack.pop() {
                        Some(p) => p,
                        None => unreached(),
                    };
                    proof {
                        assert(sv[l - 1] == token_view(start_tok));
                        assert(toks_only(tokens_view(start_tags_stack@)) =~= sv.drop_last());
                        assert forall|k: int|
                            0 <= k < start_tags_stack@.len() implies tokens_view(
                            start_tags_stack@,
                        )[k].0 is Start by {
                            assert(start_tags_stack@[k] == pre_v[k]);
                            assert(tokens_view(start_tags_stack@)[k].0 == token_view(
                                start_tags_stack@[k].0,
                            ));
                            assert(tokens_view(pre_v)[k].0 == token_view(pre_v[k].0));
                        }
                    }
                    let start_tag = start_tok.into_element();
                    let ghost se = token_element(sv.last());
                    proof {
                        assert(crate::model::elem_view(start_tag) == se);
                    }
                    if !crate::text::str_eq(tag.as_str(), start_tag.name.as_str()) {
                        // The end tag closes nothing: put the start tag back
                        // and take no other action.
                        proof {
                            assert(sv.last() is Start);
                            assert(sv.last() == SpecToken::Start(se.name, se.attrs));
                        }
                        let ghost popped_v = start_tags_stack@;
                        start_tags_stack.push(
                            (Token::Start(start_tag.name, start_tag.attrs), start_location),
                        );
                        proof {
                            assert forall|k: int|
                                0 <= k < start_tags_stack@.len() implies tokens_view(
                                start_tags_stack@,
                            )[k].0 is Start by {
                                if k < start_tags_stack@.len() - 1 {
                                    assert(start_tags_stack@[k] == popped_v[k]);
                                    assert(tokens_view(start_tags_stack@)[k].0 == token_view(
                                        popped_v[k].0,
                                    ));
                                    assert(toks_only(tokens_view(popped_v))[k] == token_view(
                                        popped_v[k].0,
                                    ));
                                    assert(toks_only(tokens_view(popped_v))[k] == sv.drop_last()[k]);
                                } else {
                                    assert(start_tags_stack@[k].0 is Start);
                                }
                            }
                            assert(toks_only(tokens_view(start_tags_stack@)) =~= sv);
                            assert(lenient_reduce(tv, i as int, sv, si0, av) == lenient_reduce(tv, i + 1, sv, si0, av));
                        }
                    } else if start_tags_stack.len() == 0 {
                        let sub = clone_tokens_range(&token_stack, start_tag_index + 1, i);
                        proof {
                            assert(sub@.len() == tokens_view(sub@).len());
                            assert(sub@.len() < token_stack@.len());
                            assert(tokens_view(sub@) == tv.subrange(si0 + 1, i as int));
                        }
                        let children = try_stack_to_dom(sub);
                        let elem = Element {
                            name: start_tag.name,
                            attrs: start_tag.attrs,
                            children,
                        };
                        proof {
                            assert(crate::model::elem_view(elem) == (SpecElem {
                                name: se.name,
                                attrs: se.attrs,
                                children: nodes_view(elem.children@),
                            }));
                        }
                        let node = elem.into_node();
                        proof {
                            crate::model::lemma_nodes_view_push(nodes@, node);
                        }
                        nodes.push(node);
                        proof {
                            assert(lenient_reduce(tv, i as int, sv, si0, av) == lenient_reduce(
                                tv,
                                i + 1,
                                toks_only(tokens_view(start_tags_stack@)),
                                si0,
                                nodes_view(nodes@),
                            ));
                        }
                    } else {
                        proof {
                            assert(lenient_reduce(tv, i as int, sv, si0, av) == lenient_reduce(
                                tv,
                                i + 1,
                                toks_only(tokens_view(start_tags_stack@)),
                                si0,
                                av,
                            ));
                        }
                    }
                } else {
                    proof {
                        assert(lenient_reduce(tv, i as int, sv, si0, av) == lenient_reduce(tv, i + 1, sv, si0, av));
                    }
                }
            },
            _ => {
                proof {
                    assert(!(tv[i as int].0 is Start) && !(tv[i as int].0 is End));
                }
                if start_tags_stack.len() == 0 {
                    let node = token_stack[i].0.node();
                    proof {
                        crate::model::lemma_nodes_view_push(nodes@, node);
                    }
                    nodes.push(node);
                    proof {
                        assert(lenient_reduce(tv, i as int, sv, si0, av) == lenient_reduce(
                            tv,
                            i + 1,
                            sv,
                            si0,
                            nodes_view(nodes@),
                        ));
                    }
                } else {
                    proof {
                        assert(lenient_reduce(tv, i as int, sv, si0, av) == lenient_reduce(tv, i + 1, sv, si0, av));
                    }
                }
            },
        }
        i += 1;
    }
    let ghost av_final = nodes_view(nodes@);
    if start_tags_stack.len() > 0 {
        let ghost sv = toks_only(tokens_view(start_tags_stack@));
        let ghost si0 = start_tag_index as int;
        proof {
            assert(sv.len() == start_tags_stack@.len());
            assert(sv[0] == tokens_view(start_tags_stack@)[0].0);
        }
        let sub = clone_tokens_range(&token_stack, start_tag_index + 1, len);
        proof {
            assert(sub@.len() == tokens_view(sub@).len());
            assert(sub@.len() < token_stack@.len());
            assert(tokens_view(sub@) == tv.subrange(si0 + 1, len as int));
        }
        let children = try_stack_to_dom(sub);
        let bottom = match &start_tags_stack[0].0 {
            Token::Start(name, a) => Element {
                name: name.clone(),
                attrs: crate::clone_attrs(a),
                children,
            },
            _ => unreached(),
        };
        proof {
            assert(sv[0] == token_view(start_tags_stack@[0].0));
            assert(crate::model::elem_view(bottom) == (SpecElem {
                name: token_element(sv[0]).name,
                attrs: token_element(sv[0]).attrs,
                children: nodes_view(bottom.children@),
            }));
        }
        let node = bottom.into_node();
        proof {
            crate::model::lemma_nodes_view_push(nodes@, node);
        }
        nodes.push(node);
        proof {
            assert(nodes_view(nodes@) == lenient_reduce(tv, len as int, sv, si0, av_final));
        }
        nodes
    } else {
        nodes
    }
}


/// The positioned tokens without their positions.
pub open spec fn toks_only(v: Seq<(SpecToken, int)>) -> Seq<SpecToken> {
    v.map_values(|p: (SpecToken, int)| p.0)
}

/// Where the strict reducer succeeds, the lenient reducer takes the same
/// branches and builds the same tree.
proof fn lemma_lenient_agrees_step(
    tokens: Seq<(SpecToken, int)>,
    i: int,
    stack: Seq<(SpecToken, int)>,
    si: int,
    acc: Seq<SpecNode>,
)
    requires
        strict_reduce(tokens, i, stack, si, acc) is Ok,
    ensures
        strict_reduce(tokens, i, stack, si, acc) == Ok::<Seq<SpecNode>, SpecError>(
            lenient_reduce(tokens, i, toks_only(stack), si, acc),
        ),
    decreases tokens.len(), tokens.len() - i,
{
    let stackl = toks_only(stack);
    assert(stackl.len() == stack.len());
    if i < 0 || i >= tokens.len() {
        // The strict reducer succeeds only with an empty stack; both return
        // the accumulator.
    } else {
        let tok = tokens[i].0;
        match tok {
            SpecToken::Start(tag, a) => {
                if is_void_name(tag) {
                    if stack.len() == 0 {
                        lemma_lenient_agrees_step(
                            tokens,
                            i + 1,
                            stack,
                            si,
                            acc.push(
                                SpecNode::Element(
                                    SpecElem { name: tag, attrs: a, children: Seq::empty() },
                                ),
                            ),
                        );
                    } else {
                        lemma_lenient_agrees_step(tokens, i + 1, stack, si, acc);
                    }
                } else if stack.len() == 0 {
                    assert(toks_only(stack.push(tokens[i])) =~= stackl.push(tok));
                    lemma_lenient_agrees_step(tokens, i + 1, stack.push(tokens[i]), i, acc);
                } else {
                    assert(toks_only(stack.push(tokens[i])) =~= stackl.push(tok));
                    lemma_lenient_agrees_step(tokens, i + 1, stack.push(tokens[i]), si, acc);
                }
            },
            SpecToken::End(tag) => {
                // A stray or mismatched end tag would have failed the
                // strict reducer.
                assert(stack.len() > 0);
                let se = token_element(stack.last().0);
                assert(stackl.last() == stack.last().0);
                assert(tag == se.name);
                assert(toks_only(stack.drop_last()) =~= stackl.drop_last());
                if stack.len() == 1 {
                    let lo = if 0 <= si + 1 <= i {
                        si + 1
                    } else {
                        i
                    };
                    let sub = tokens.subrange(lo, i);
                    assert(strict_reduce(sub, 0, Seq::empty(), 0, Seq::empty()) is Ok);
                    assert(toks_only(Seq::<(SpecToken, int)>::empty()) =~= Seq::<
                        SpecToken,
                    >::empty());
                    lemma_lenient_agrees_step(sub, 0, Seq::empty(), 0, Seq::empty());
                    let children = lenient_reduce(sub, 0, Seq::empty(), 0, Seq::empty());
                    lemma_lenient_agrees_step(
                        tokens,
                        i + 1,
                        stack.drop_last(),
                        si,
                        acc.push(
                            SpecNode::Element(
                                SpecElem { name: se.name, attrs: se.attrs, children },
                            ),
                        ),
                    );
                } else {
                    lemma_lenient_agrees_step(tokens, i + 1, stack.drop_last(), si, acc);
                }
            },
            _ => {
                if stack.len() == 0 {
                    lemma_lenient_agrees_step(tokens, i + 1, stack, si, acc.push(token_node(tok)));
                } else {
                    lemma_lenient_agrees_step(tokens, i + 1, stack, si, acc);
                }
            },
        }
    }
}

/// Whether a tree can be spelled out in tags: void elements are childless,
/// and children are well formed in turn.
pub open spec fn wf_node(n: SpecNode) -> bool
    decreases n, 0int,
{
    match n {
        SpecNode::Element(e) => (is_void_name(e.name) ==> e.children.len() == 0) && wf_forest(
            e.children,
        ),
        _ => true,
    }
}

/// Whether every node of a forest is well formed.
pub open spec fn wf_forest(ns: Seq<SpecNode>) -> bool
    decreases ns, 1int,
{
    if ns.len() == 0 {
        true
    } else {
        wf_node(ns[0]) && wf_forest(ns.drop_first())
    }
}

/// The token sequence that spells out one node: its tag pair around its
/// children's tokens (a void tag alone), or the node's own token.
pub open spec fn node_tokens(n: SpecNode) -> Seq<(SpecToken, int)>
    decreases n, 0int,
{
    match n {
        SpecNode::Element(e) => if is_void_name(e.name) {
            seq![(SpecToken::Start(e.name, e.attrs), 0int)]
        } else {
            seq![(SpecToken::Start(e.name, e.attrs), 0int)] + forest_tokens(e.children) + seq![
                (SpecToken::End(e.name), 0int),
            ]
        },
        SpecNode::Text(t) => seq![(SpecToken::Text(t), 0int)],
        SpecNode::Comment(c) => seq![(SpecToken::Comment(c), 0int)],
        SpecNode::Doctype(d) => seq![(SpecToken::Doctype(d), 0int)],
    }
}

/// The token sequence that spells out a forest, node by node.
pub open spec fn forest_tokens(ns: Seq<SpecNode>) -> Seq<(SpecToken, int)>
    decreases ns, 1int,
{
    if ns.len() == 0 {
        Seq::empty()
    } else {
        node_tokens(ns[0]) + forest_tokens(ns.drop_first())
    }
}

/// A node spells out at least one token.
proof fn lemma_node_tokens_len(n: SpecNode)
    ensures
        node_tokens(n).len() >= 1,
{
}

/// Scanning the tokens of a well-formed forest with at least one tag open
/// neither changes the stack nor emits anything: every start pushed within
/// is popped by its own end.
proof fn lemma_scan_forest(
    full: Seq<(SpecToken, int)>,
    j: int,
    ms: Seq<SpecNode>,
    stack: Seq<(SpecToken, int)>,
    si: int,
    acc: Seq<SpecNode>,
)
    requires
        0 <= j,
        j + forest_tokens(ms).len() <= full.len(),
        full.subrange(j, j + forest_tokens(ms).len()) == forest_tokens(ms),
        stack.len() >= 1,
        wf_forest(ms),
    ensures
        strict_reduce(full, j, stack, si, acc) == strict_reduce(full, j + forest_tokens(ms).len(), stack, si, acc),
    decreases full.len() - j,
{
    if ms.len() == 0 {
        assert(forest_tokens(ms).len() == 0);
    } else {
        let m0 = ms[0];
        let it = node_tokens(m0);
        let rest = ms.drop_first();
        let ft = forest_tokens(ms);
        lemma_node_tokens_len(m0);
        assert(wf_node(m0));
        assert(wf_forest(rest));
        assert(ft == it + forest_tokens(rest));
        assert(forall|k2: int| j <= k2 < j + ft.len() ==> #[trigger] full[k2] == ft[k2 - j]);
        assert(full.subrange(j + it.len(), j + ft.len()) =~= forest_tokens(rest));
        match m0 {
            SpecNode::Element(e) => {
                if is_void_name(e.name) {
                    assert(full[j] == (SpecToken::Start(e.name, e.attrs), 0int));
                    assert(strict_reduce(full, j, stack, si, acc) == strict_reduce(full, j + 1, stack, si, acc));
                    lemma_scan_forest(full, j + 1, rest, stack, si, acc);
                } else {
                    let ct = forest_tokens(e.children);
                    assert(it == seq![(SpecToken::Start(e.name, e.attrs), 0int)] + ct + seq![
                        (SpecToken::End(e.name), 0int),
                    ]);
                    assert(full[j] == it[0]);
                    assert(it[0] == (SpecToken::Start(e.name, e.attrs), 0int));
                    let stack2 = stack.push(full[j]);
                    assert(strict_reduce(full, j, stack, si, acc) == strict_reduce(full, j + 1, stack2, si, acc));
                    assert(full.subrange(j + 1, j + 1 + ct.len()) =~= ct) by {
                        assert(forall|k: int|
                            0 <= k < ct.len() ==> #[trigger] it[1 + k] == ct[k]);
                    }
                    lemma_scan_forest(full, j + 1, e.children, stack2, si, acc);
                    let jp = j + 1 + ct.len();
                    assert(full[jp] == it[1 + ct.len() as int]);
                    assert(it[1 + ct.len() as int] == (SpecToken::End(e.name), 0int));
                    assert(token_element(stack2.last().0).name == e.name);
                    assert(stack2.len() >= 2);
                    assert(stack2.drop_last() =~= stack);
                    assert(strict_reduce(full, jp, stack2, si, acc) == strict_reduce(full, jp + 1, stack, si, acc));
                    lemma_scan_forest(full, jp + 1, rest, stack, si, acc);
                }
            },
            _ => {
                assert(full[j] == it[0]);
                assert(!(full[j].0 is Start) && !(full[j].0 is End));
                assert(strict_reduce(full, j, stack, si, acc) == strict_reduce(full, j + 1, stack, si, acc));
                lemma_scan_forest(full, j + 1, rest, stack, si, acc);
            },
        }
    }
}

/// Reducing the tokens of a well-formed forest from an empty stack
/// succeeds and appends exactly that forest.
proof fn lemma_parse_forest(
    full: Seq<(SpecToken, int)>,
    j: int,
    ms: Seq<SpecNode>,
    si: int,
    acc: Seq<SpecNode>,
)
    requires
        0 <= j <= full.len(),
        j + forest_tokens(ms).len() == full.len(),
        full.subrange(j, full.len() as int) == forest_tokens(ms),
        wf_forest(ms),
    ensures
        strict_reduce(full, j, Seq::empty(), si, acc) == Ok::<Seq<SpecNode>, SpecError>(acc + ms),
    decreases full.len(), full.len() - j,
{
    if ms.len() == 0 {
        assert(j == full.len());
        assert(acc + ms =~= acc);
    } else {
        let m0 = ms[0];
        let it = node_tokens(m0);
        let rest = ms.drop_first();
        let ft = forest_tokens(ms);
        lemma_node_tokens_len(m0);
        assert(wf_node(m0));
        assert(wf_forest(rest));
        assert(ft == it + forest_tokens(rest));
        assert(forall|k2: int| j <= k2 < j + ft.len() ==> #[trigger] full[k2] == ft[k2 - j]);
        assert(full.subrange(j + it.len(), full.len() as int) =~= forest_tokens(rest));
        assert(acc + ms =~= acc.push(m0) + rest);
        match m0 {
            SpecNode::Element(e) => {
                if is_void_name(e.name) {
                    assert(full[j] == (SpecToken::Start(e.name, e.attrs), 0int));
                    assert(e.children.len() == 0);
                    assert(e.children =~= Seq::<SpecNode>::empty());
                    assert(strict_reduce(full, j, Seq::empty(), si, acc) == strict_reduce(
                        full,
                        j + 1,
                        Seq::empty(),
                        si,
                        acc.push(m0),
                    ));
                    lemma_parse_forest(full, j + 1, rest, si, acc.push(m0));
                } else {
                    let ct = forest_tokens(e.children);
                    assert(it == seq![(SpecToken::Start(e.name, e.attrs), 0int)] + ct + seq![
                        (SpecToken::End(e.name), 0int),
                    ]);
                    assert(full[j] == it[0]);
                    assert(it[0] == (SpecToken::Start(e.name, e.attrs), 0int));
                    let stack2 = Seq::<(SpecToken, int)>::empty().push(full[j]);
                    assert(strict_reduce(full, j, Seq::empty(), si, acc) == strict_reduce(full, j + 1, stack2, j, acc));
                    assert(full.subrange(j + 1, j + 1 + ct.len()) =~= ct) by {
                        assert(forall|k: int|
                            0 <= k < ct.len() ==> #[trigger] it[1 + k] == ct[k]);
                    }
                    lemma_scan_forest(full, j + 1, e.children, stack2, j, acc);
                    let jp = j + 1 + ct.len();
                    assert(full[jp] == it[1 + ct.len() as int]);
                    assert(it[1 + ct.len() as int] == (SpecToken::End(e.name), 0int));
                    assert(stack2.len() == 1);
                    assert(token_element(stack2.last().0).name == e.name);
                    assert(token_element(stack2.last().0).attrs == e.attrs);
                    let sub = full.subrange(j + 1, jp);
                    assert(sub =~= ct);
                    assert(sub.subrange(0, sub.len() as int) =~= ct);
                    lemma_parse_forest(sub, 0, e.children, 0, Seq::empty());
                    assert(Seq::<SpecNode>::empty() + e.children =~= e.children);
                    assert(strict_reduce(sub, 0, Seq::empty(), 0, Seq::empty()) == Ok::<
                        Seq<SpecNode>,
                        SpecError,
                    >(e.children));
                    assert(stack2.drop_last() =~= Seq::<(SpecToken, int)>::empty());
                    assert(strict_reduce(full, jp, stack2, j, acc) == strict_reduce(
                        full,
                        jp + 1,
                        Seq::empty(),
                        j,
                        acc.push(
                            SpecNode::Element(
                                SpecElem { name: e.name, attrs: e.attrs, children: e.children },
                            ),
                        ),
                    ));
                    assert(SpecNode::Element(
                        SpecElem { name: e.name, attrs: e.attrs, children: e.children },
                    ) == m0);
                    lemma_parse_forest(full, jp + 1, rest, j, acc.push(m0));
                }
            },
            _ => {
                assert(full[j] == it[0]);
                assert(!(full[j].0 is Start) && !(full[j].0 is End));
                assert(token_node(full[j].0) == m0);
                assert(strict_reduce(full, j, Seq::empty(), si, acc) == strict_reduce(
                    full,
                    j + 1,
                    Seq::empty(),
                    si,
                    acc.push(m0),
                ));
                lemma_parse_forest(full, j + 1, rest, si, acc.push(m0));
            },
        }
    }
}

/// Scanning text without tag delimiters only accumulates it: no mode is
/// entered and no token is emitted before the end of the input.
proof fn lemma_tok_run_plain(s: Seq<char>, i: int)
    requires
        0 <= i <= s.len(),
        forall|k: int| 0 <= k < s.len() ==> #[trigger] s[k] != '<' && s[k] != '>',
    ensures
        tok_run(s, i) == Ok::<TokState, SpecError>(
            TokState {
                chars: s.take(i),
                tokens: Seq::empty(),
                in_quotes: None,
                in_brackets: false,
                in_comment: false,
                in_script: false,
                in_style: false,
            },
        ),
    decreases i,
{
    if i == 0 {
        assert(s.take(0) =~= Seq::<char>::empty());
    } else {
        lemma_tok_run_plain(s, i - 1);
        let st = TokState {
            chars: s.take(i - 1),
            tokens: Seq::empty(),
            in_quotes: None,
            in_brackets: false,
            in_comment: false,
            in_script: false,
            in_style: false,
        };
        let ch = s[i - 1];
        if ch == '-' {
            // The four-character comment opener cannot occur: it would
            // start with `<`.
            let c2 = st.chars.push(ch);
            if c2 == seq!['<', '!', '-', '-'] {
                assert(c2[0] == '<');
                assert(i - 1 >= 1 ==> c2[0] == s[0]);
                assert(false);
            }
        }
        assert(tok_step(st, ch, i - 1) is Ok);
        assert(tok_step(st, ch, i - 1)->Ok_0 =~= (TokState {
            chars: s.take(i),
            tokens: Seq::empty(),
            in_quotes: None,
            in_brackets: false,
            in_comment: false,
            in_script: false,
            in_style: false,
        })) by {
            assert(s.take(i - 1).push(ch) =~= s.take(i));
        }
    }
}

/// Text without tag delimiters scans to a single text token, its character
/// references decoded, standing at the input's start.
proof fn lemma_tokenize_plain(s: Seq<char>)
    requires
        s.len() > 0,
        forall|k: int| 0 <= k < s.len() ==> #[trigger] s[k] != '<' && s[k] != '>',
    ensures
        spec_tokenize(s) == Ok::<Seq<(SpecToken, int)>, SpecError>(
            seq![(SpecToken::Text(crate::entity::decode_spec(s)), 0int)],
        ),
{
    lemma_tok_run_plain(s, s.len() as int);
    assert(s.take(s.len() as int) =~= s);
    assert(Seq::<(SpecToken, int)>::empty().push(
        (SpecToken::Text(crate::entity::decode_spec(s)), 0int),
    ) =~= seq![(SpecToken::Text(crate::entity::decode_spec(s)), 0int)]);
}

/// A text node's rendering parses back to exactly that node: serializing
/// escapes the markup-significant characters, and parsing decodes them
/// again.  This is the round trip for text content; for elements the
/// serializer normalizes attribute quoting, so the parse of a rendering is
/// related by [`lemma_balanced_tokens_parse`] at the token level instead.
pub proof fn lemma_text_round_trip(t: Seq<char>)
    requires
        t.len() > 0,
    ensures
        spec_parse(crate::entity::escape_spec(t, false)) == Ok::<Seq<SpecNode>, SpecError>(
            seq![SpecNode::Text(t)],
        ),
{
    let rendered = crate::entity::escape_spec(t, false);
    crate::entity::lemma_escape_no_markup(t, false);
    crate::entity::lemma_decode_inverts_escape(t, false);
    lemma_tokenize_plain(rendered);
    let tokens = seq![(SpecToken::Text(t), 0int)];
    assert(spec_tokenize(rendered) == Ok::<Seq<(SpecToken, int)>, SpecError>(tokens));
    assert(tokens[0].0 == SpecToken::Text(t));
    assert(strict_reduce(tokens, 0, Seq::empty(), 0, Seq::empty()) == strict_reduce(
        tokens,
        1,
        Seq::empty(),
        0,
        Seq::<SpecNode>::empty().push(SpecNode::Text(t)),
    ));
    assert(Seq::<SpecNode>::empty().push(SpecNode::Text(t)) =~= seq![SpecNode::Text(t)]);
}

/// Every input whose tags nest correctly parses, and into exactly the tree
/// the nesting spells: the strict reduction of a well-formed forest's token
/// sequence — in which every start tag has exactly one matching, correctly
/// nested end tag — succeeds and returns that forest.
pub proof fn lemma_balanced_tokens_parse(ms: Seq<SpecNode>)
    requires
        wf_forest(ms),
    ensures
        spec_stack_to_dom(forest_tokens(ms)) == Ok::<Seq<SpecNode>, SpecError>(ms),
{
    let ft = forest_tokens(ms);
    assert(ft.subrange(0, ft.len() as int) =~= ft);
    lemma_parse_forest(ft, 0, ms, 0, Seq::empty());
    assert(Seq::<SpecNode>::empty() + ms =~= ms);
}

/// On any well-formed input the lenient parse builds the same tree as the
/// strict parse: wherever `parse` succeeds, `try_parse` returns exactly its
/// nodes.
pub proof fn lemma_try_parse_agrees_with_parse(html: Seq<char>, nodes: Seq<SpecNode>)
    requires
        spec_parse(html) == Ok::<Seq<SpecNode>, SpecError>(nodes),
    ensures
        spec_try_parse(html) == nodes,
{
    match spec_tokenize(html) {
        Err(_) => {
            assert(false);
        },
        Ok(tokens) => {
            assert(toks_only(Seq::<(SpecToken, int)>::empty()) =~= Seq::<SpecToken>::empty());
            lemma_lenient_agrees_step(tokens, 0, Seq::empty(), 0, Seq::empty());
        },
    }
}

/// Parses `html` strictly into a tree of nodes.
///
/// The result reflects the document's nesting: every start tag must be
/// closed by a matching, correctly nested end tag.  On the first violation
/// the parse stops and reports it: an end tag with nothing open is an
/// [`UnopenedTag`] at the end tag's location, an end tag closing a start tag
/// of another name is a [`MismatchedTags`] at the end tag's location
/// (carrying the start tag's name and location), a start tag never closed is
/// an [`UnclosedTag`] at its own location, and an unclassifiable bracketed
/// region is an [`InvalidTag`] at its start.
///
/// [`UnopenedTag`]: InnerHTMLParseError::UnopenedTag
/// [`MismatchedTags`]: InnerHTMLParseError::MismatchedTags
/// [`UnclosedTag`]: InnerHTMLParseError::UnclosedTag
/// [`InvalidTag`]: InnerHTMLParseError::InvalidTag
pub fn parse(html: &str) -> (r: Result<Vec<Node>, HTMLParseError>)
    ensures
        match r {
            Ok(nodes) => spec_parse(html@) == Ok::<Seq<SpecNode>, SpecError>(nodes_view(nodes@)),
            Err(e) => spec_parse(html@) == Err::<Seq<SpecNode>, SpecError>(error_view(e)),
        },
{
    let stack = match html_to_stack(html) {
        Ok(stack) => stack,
        Err(e) => {
            return Err(e);
        },
    };
    stack_to_dom(stack)
}

/// Parses `html` leniently into a tree of nodes; it never fails.
///
/// Stray end tags are dropped, end tags that match nothing are ignored, and
/// tags still open at the end of the input are closed around the remaining
/// content.  A scanning violation yields the empty tree.
pub fn try_parse(html: &str) -> (r: Vec<Node>)
    ensures
        nodes_view(r@) == spec_try_parse(html@),
{
    match html_to_stack(html) {
        Ok(stack) => try_stack_to_dom(stack),
        Err(_) => {
            let r: Vec<Node> = Vec::new();
            proof {
                assert(nodes_view(Seq::<Node>::empty()) =~= Seq::<SpecNode>::empty());
            }
            r
        },
    }
}

} // verus!
