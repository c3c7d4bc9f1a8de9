//! Compound selectors: a conjunction of simple selectors on one element,
//! and their compilation from text.

use vstd::prelude::*;

use crate::operation::selector::simple::{SimpleSelector, SpecSimple, simple_view};
use crate::text::{chars_to_string, trim_chars, trim_spec};

verus! {

/// A sequence of simple selectors not separated by a combinator: a set of
/// simultaneous conditions on a single element.
#[derive(Debug)]
pub struct CompoundSelector(pub Vec<SimpleSelector>);

/// Model of a list of simple selectors.
pub open spec fn simples_view(s: Seq<SimpleSelector>) -> Seq<SpecSimple> {
    s.map_values(|x: SimpleSelector| simple_view(x))
}

/// Model of a [`CompoundSelector`].
pub open spec fn compound_view(c: CompoundSelector) -> Seq<SpecSimple> {
    simples_view(c.0@)
}

/// Which kind of simple selector the characters read so far belong to:
/// a tag name by default, a class after `.`, an id after `#`.
enum SelectorMark {
    Class,
    Id,
    Tag,
}

/// The compiler's position, as a spec value.
pub enum SpecMark {
    Class,
    Id,
    Tag,
}

/// The compiler's state: the active mark, the pending characters, and the
/// simple selectors collected so far.
pub struct CcState {
    pub mark: SpecMark,
    pub chars: Seq<char>,
    pub items: Seq<SpecSimple>,
}

/// The pending characters as a simple selector under the given mark.
pub open spec fn cc_flush(mark: SpecMark, chars: Seq<char>) -> SpecSimple {
    match mark {
        SpecMark::Class => SpecSimple::Class(chars),
        SpecMark::Id => SpecSimple::Id(chars),
        SpecMark::Tag => SpecSimple::Tag(chars),
    }
}

/// One transition of the compiler: `#` and `.` flush a non-empty
/// accumulation under the active mark and switch it; any other character
/// accumulates.
pub open spec fn cc_step(st: CcState, ch: char) -> CcState {
    if ch == '#' {
        CcState {
            mark: SpecMark::Id,
            chars: Seq::empty(),
            items: if st.chars.len() > 0 {
                st.items.push(cc_flush(st.mark, st.chars))
            } else {
                st.items
            },
        }
    } else if ch == '.' {
        CcState {
            mark: SpecMark::Class,
            chars: Seq::empty(),
            items: if st.chars.len() > 0 {
                st.items.push(cc_flush(st.mark, st.chars))
            } else {
                st.items
            },
        }
    } else {
        CcState { chars: st.chars.push(ch), ..st }
    }
}

/// The compiler's state after reading all of `s`.
pub open spec fn cc_run(s: Seq<char>) -> CcState
    decreases s.len(),
{
    if s.len() == 0 {
        CcState { mark: SpecMark::Tag, chars: Seq::empty(), items: Seq::empty() }
    } else {
        cc_step(cc_run(s.drop_last()), s.last())
    }
}

/// The compiled form of one comma-separated alternative: its text is
/// trimmed, scanned, and the final accumulation always flushed (an
/// alternative ending in a marker yields an empty name).
pub open spec fn compile_compound(s: Seq<char>) -> Seq<SpecSimple> {
    let st = cc_run(trim_spec(s));
    st.items.push(cc_flush(st.mark, st.chars))
}

/// Unfolds one step of `cc_run` at position `i`.
proof fn lemma_cc_run_step(s: Seq<char>, i: int)
    requires
        0 <= i < s.len(),
    ensures
        cc_run(s.take(i + 1)) == cc_step(cc_run(s.take(i)), s[i]),
{
    let t = s.take(i + 1);
    assert(t.drop_last() =~= s.take(i));
    assert(t.last() == s[i]);
}

impl CompoundSelector {
    /// Compiles one comma-separated alternative of a selector.
    pub fn from(selector: &str) -> (r: CompoundSelector)
        ensures
            compound_view(r) == compile_compound(selector@),
    {
        CompoundSelector::from_chars(&crate::text::str_to_chars(selector))
    }

    /// Compiles one alternative given as characters.
    pub(crate) fn from_chars(selector: &Vec<char>) -> (r: CompoundSelector)
        ensures
            compound_view(r) == compile_compound(selector@),
    {
        let trimmed = trim_chars(selector);
        let ghost s = trimmed@;
        let len = trimmed.len();
        let mut mark = SelectorMark::Tag;
        let mut chars_stack: Vec<char> = Vec::new();
        let mut simple_selectors: Vec<SimpleSelector> = Vec::new();
        let mut i: usize = 0;
        proof {
            assert(s.take(0) =~= Seq::<char>::empty());
            assert(simples_view(Seq::<SimpleSelector>::empty()) =~= Seq::<SpecSimple>::empty());
        }
        while i < len
            invariant
                i <= len == s.len(),
                trimmed@ == s,
                cc_run(s.take(i as int)).mark == (match mark {
                    SelectorMark::Class => SpecMark::Class,
                    SelectorMark::Id => SpecMark::Id,
                    SelectorMark::Tag => SpecMark::Tag,
                }),
                cc_run(s.take(i as int)).chars == chars_stack@,
                cc_run(s.take(i as int)).items == simples_view(simple_selectors@),
            decreases len - i,
        {
            proof {
                lemma_cc_run_step(s, i as int);
            }
            let ch = trimmed[i];
            if ch == '#' || ch == '.' {
                if chars_stack.len() > 0 {
                    let string = chars_to_string(&chars_stack);
                    chars_stack = Vec::new();
                    let item = match mark {
                        SelectorMark::Class => SimpleSelector::Class(string),
                        SelectorMark::Id => SimpleSelector::Id(string),
                        SelectorMark::Tag => SimpleSelector::Tag(string),
                    };
                    let ghost prev = simple_selectors@;
                    simple_selectors.push(item);
                    proof {
                        assert(simples_view(simple_selectors@) =~= simples_view(prev).push(
                            simple_view(simple_selectors@.last()),
                        ));
                    }
                }
                if ch == '#' {
                    mark = SelectorMark::Id;
                } else {
                    mark = SelectorMark::Class;
                }
            } else {
                chars_stack.push(ch);
            }
            i += 1;
        }
        proof {
            assert(s.take(len as int) =~= s);
        }
        let string = chars_to_string(&chars_stack);
        let item = match mark {
            SelectorMark::Class => SimpleSelector::Class(string),
            SelectorMark::Id => SimpleSelector::Id(string),
            SelectorMark::Tag => SimpleSelector::Tag(string),
        };
        let ghost prev = simple_selectors@;
        simple_selectors.push(item);
        proof {
            assert(simples_view(simple_selectors@) =~= simples_view(prev).push(
                simple_view(simple_selectors@.last()),
            ));
        }
        CompoundSelector(simple_selectors)
    }
}

} // verus!
