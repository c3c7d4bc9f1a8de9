//! The attribute splitter: parses the raw text standing between a tag name
//! and the tag's closing delimiter into an ordered list of `(key, value)`
//! pairs.
//!
//! A character-position state machine handles quoted, unquoted and boolean
//! (valueless) attribute forms.  Inside a quoted value a quote preceded by a
//! backslash is taken literally.  Values have their character references
//! decoded; keys are kept as written.  A value still open at the end of the
//! input is flushed as written (the machine never fails).

use vstd::prelude::*;

use crate::entity::{decode_chars, decode_spec};
use crate::model::{attrs_view, lemma_strings_view_push, strings_view};
use crate::text::{chars_to_string, str_to_chars};

verus! {

/// Position of the splitter inside the attribute text: in a key, just past
/// `=`, in a value (quoted by the given delimiter or unquoted), or in the
/// space between attributes.
pub enum AttrPos {
    Key,
    Equal,
    Value(Option<char>),
    Space,
}

/// The full state of the splitter: position, pending characters, and the
/// keys and values collected so far (in reverse of their final order).
pub struct AttrState {
    pub pos: AttrPos,
    pub chars: Seq<char>,
    pub keys: Seq<Seq<char>>,
    pub vals: Seq<Seq<char>>,
}

/// The splitter's starting state.
pub open spec fn attr_init() -> AttrState {
    AttrState { pos: AttrPos::Key, chars: Seq::empty(), keys: Seq::empty(), vals: Seq::empty() }
}

/// One transition of the splitter on character `ch`.
pub open spec fn attr_step(st: AttrState, ch: char) -> AttrState {
    match st.pos {
        AttrPos::Key => if ch == '=' {
            AttrState { pos: AttrPos::Equal, chars: Seq::empty(), keys: st.keys.push(st.chars), ..st }
        } else if ch == ' ' {
            AttrState {
                pos: AttrPos::Space,
                chars: Seq::empty(),
                keys: st.keys.push(st.chars),
                vals: st.vals.push(Seq::empty()),
            }
        } else {
            AttrState { chars: st.chars.push(ch), ..st }
        },
        AttrPos::Equal => if ch == '\'' {
            AttrState { pos: AttrPos::Value(Some('\'')), ..st }
        } else if ch == '"' {
            AttrState { pos: AttrPos::Value(Some('"')), ..st }
        } else {
            AttrState { pos: AttrPos::Value(None), chars: st.chars.push(ch), ..st }
        },
        AttrPos::Value(None) => if ch == ' ' {
            AttrState {
                pos: AttrPos::Space,
                chars: Seq::empty(),
                vals: st.vals.push(decode_spec(st.chars)),
                ..st
            }
        } else {
            AttrState { chars: st.chars.push(ch), ..st }
        },
        AttrPos::Value(Some(q)) => if ch == q {
            if st.chars.len() == 0 {
                AttrState { pos: AttrPos::Space, vals: st.vals.push(Seq::empty()), ..st }
            } else if st.chars.last() == '\\' {
                AttrState { chars: st.chars.push(ch), ..st }
            } else {
                AttrState {
                    pos: AttrPos::Space,
                    chars: Seq::empty(),
                    vals: st.vals.push(decode_spec(st.chars)),
                    ..st
                }
            }
        } else {
            AttrState { chars: st.chars.push(ch), ..st }
        },
        AttrPos::Space => if ch != ' ' {
            AttrState { pos: AttrPos::Key, chars: st.chars.push(ch), ..st }
        } else {
            st
        },
    }
}

/// The splitter's state after reading all of `s`.
pub open spec fn attr_run(s: Seq<char>) -> AttrState
    decreases s.len(),
{
    if s.len() == 0 {
        attr_init()
    } else {
        attr_step(attr_run(s.drop_last()), s.last())
    }
}

/// The end-of-input flush: a pending key becomes a boolean attribute, and a
/// key still waiting for its value receives the pending characters (empty
/// for a bare `=`).
pub open spec fn attr_finish(st: AttrState) -> (Seq<Seq<char>>, Seq<Seq<char>>) {
    let (keys1, vals1, chars1) = if st.pos is Key && st.chars.len() > 0 {
        (st.keys.push(st.chars), st.vals.push(Seq::<char>::empty()), Seq::<char>::empty())
    } else {
        (st.keys, st.vals, st.chars)
    };
    if keys1.len() == vals1.len() + 1 {
        (keys1, vals1.push(decode_spec(chars1)))
    } else {
        (keys1, vals1)
    }
}

/// The attribute pairs of `s`: the collected keys and values, zipped, in
/// reverse of the order they appear in `s`.
pub open spec fn split_attrs(s: Seq<char>) -> Seq<(Seq<char>, Seq<char>)> {
    let (keys, vals) = attr_finish(attr_run(s));
    Seq::new(keys.len(), |i: int| (keys[keys.len() - 1 - i], vals[keys.len() - 1 - i]))
}

/// The machine keeps one value for each completed key, and pending
/// characters occur only in a key or a value.
proof fn lemma_attr_run_counts(s: Seq<char>)
    ensures
        match attr_run(s).pos {
            AttrPos::Key | AttrPos::Space => attr_run(s).keys.len() == attr_run(s).vals.len(),
            AttrPos::Equal | AttrPos::Value(_) => attr_run(s).keys.len() == attr_run(s).vals.len()
                + 1,
        },
        attr_run(s).pos is Equal || attr_run(s).pos is Space ==> attr_run(s).chars.len() == 0,
    decreases s.len(),
{
    if s.len() > 0 {
        lemma_attr_run_counts(s.drop_last());
    }
}

/// Unfolds one step of `attr_run` at position `i`.
proof fn lemma_attr_run_step(s: Seq<char>, i: int)
    requires
        0 <= i < s.len(),
    ensures
        attr_run(s.take(i + 1)) == attr_step(attr_run(s.take(i)), s[i]),
{
    let t = s.take(i + 1);
    assert(t.drop_last() =~= s.take(i));
    assert(t.last() == s[i]);
}

/// Splits attribute text into its `(key, value)` pairs.
///
/// Given the raw text between a tag name and the closing `>` or `/>`, the
/// result holds one pair per attribute, a boolean attribute pairing with the
/// empty string, with character references in values decoded.
pub fn parse(attr_str: String) -> (r: Vec<(String, String)>)
    ensures
        attrs_view(r@) == split_attrs(attr_str@),
{
    broadcast use lemma_strings_view_push;

    let s = str_to_chars(attr_str.as_str());
    let ghost sv = s@;
    let len = s.len();
    let mut pos = AttrPos::Key;
    let mut chars_stack: Vec<char> = Vec::new();
    let mut key_stack: Vec<String> = Vec::new();
    let mut value_stack: Vec<String> = Vec::new();
    let mut i: usize = 0;
    proof {
        assert(sv.take(0) =~= Seq::<char>::empty());
        assert(strings_view(key_stack@) =~= Seq::<Seq<char>>::empty());
        assert(strings_view(value_stack@) =~= Seq::<Seq<char>>::empty());
    }
    while i < len
        invariant
            i <= len == sv.len(),
            s@ == sv,
            attr_run(sv.take(i as int)).pos == pos,
            attr_run(sv.take(i as int)).chars == chars_stack@,
            attr_run(sv.take(i as int)).keys == strings_view(key_stack@),
            attr_run(sv.take(i as int)).vals == strings_view(value_stack@),
        decreases len - i,
    {
        proof {
            lemma_attr_run_step(sv, i as int);
        }
        let ch = s[i];
        match pos {
            AttrPos::Key => {
                if ch == '=' {
                    let key = chars_to_string(&chars_stack);
                    chars_stack = Vec::new();
                    key_stack.push(key);
                    pos = AttrPos::Equal;
                } else if ch == ' ' {
                    let key = chars_to_string(&chars_stack);
                    chars_stack = Vec::new();
                    key_stack.push(key);
                    value_stack.push(chars_to_string(&Vec::new()));
                    pos = AttrPos::Space;
                } else {
                    chars_stack.push(ch);
                }
            },
            AttrPos::Equal => {
                if ch == '\'' {
                    pos = AttrPos::Value(Some('\''));
                } else if ch == '"' {
                    pos = AttrPos::Value(Some('"'));
                } else {
                    pos = AttrPos::Value(None);
                    chars_stack.push(ch);
                }
            },
            AttrPos::Value(None) => {
                if ch == ' ' {
                    let value = chars_to_string(&decode_chars(&chars_stack));
                    chars_stack = Vec::new();
                    value_stack.push(value);
                    pos = AttrPos::Space;
                } else {
                    chars_stack.push(ch);
                }
            },
            AttrPos::Value(Some(q)) => {
                if ch == q {
                    if chars_stack.len() == 0 {
                        value_stack.push(chars_to_string(&Vec::new()));
                        pos = AttrPos::Space;
                    } else if chars_stack[chars_stack.len() - 1] == '\\' {
                        chars_stack.push(ch);
                    } else {
                        let value = chars_to_string(&decode_chars(&chars_stack));
                        chars_stack = Vec::new();
                        value_stack.push(value);
                        pos = AttrPos::Space;
                    }
                } else {
                    chars_stack.push(ch);
                }
            },
            AttrPos::Space => {
                if ch != ' ' {
                    pos = AttrPos::Key;
                    chars_stack.push(ch);
                }
            },
        }
        i += 1;
    }
    proof {
        assert(sv.take(len as int) =~= sv);
        lemma_attr_run_counts(sv);
    }
    // End-of-input flush, mirroring `attr_finish`.
    let is_key = match pos {
        AttrPos::Key => true,
        _ => false,
    };
    if is_key && chars_stack.len() > 0 {
        key_stack.push(chars_to_string(&chars_stack));
        value_stack.push(chars_to_string(&Vec::new()));
        chars_stack = Vec::new();
    }
    if value_stack.len() < key_stack.len() {
        value_stack.push(chars_to_string(&decode_chars(&chars_stack)));
    }
    let ghost keys_final = attr_finish(attr_run(sv)).0;
    let ghost vals_final = attr_finish(attr_run(sv)).1;
    assert(strings_view(key_stack@) == keys_final);
    assert(strings_view(value_stack@) == vals_final);
    assert(key_stack@.len() == value_stack@.len());
    // Collect the pairs, reversing the stacks.
    let ghost n = key_stack@.len() as int;
    let mut out: Vec<(String, String)> = Vec::new();
    while key_stack.len() > 0
        invariant
            key_stack@.len() == value_stack@.len(),
            strings_view(key_stack@) == keys_final.take(key_stack@.len() as int),
            strings_view(value_stack@) == vals_final.take(key_stack@.len() as int),
            out@.len() + key_stack@.len() == n == keys_final.len() == vals_final.len(),
            forall|j: int|
                0 <= j < out@.len() ==> (#[trigger] out@[j]).0@ == keys_final[n - 1 - j]
                    && out@[j].1@ == vals_final[n - 1 - j],
        decreases key_stack@.len(),
    {
        let ghost m = key_stack@.len() as int;
        let k = match key_stack.pop() {
            Some(k) => k,
            None => unreached(),
        };
        proof {
            assert(strings_view(key_stack@.push(k)) == keys_final.take(m));
            assert(strings_view(key_stack@.push(k))[m - 1] == k@);
            assert(strings_view(key_stack@) =~= keys_final.take(m).drop_last());
            assert(keys_final.take(m).drop_last() =~= keys_final.take(m - 1));
        }
        let v = match value_stack.pop() {
            Some(v) => v,
            None => unreached(),
        };
        proof {
            assert(strings_view(value_stack@.push(v)) == vals_final.take(m));
            assert(strings_view(value_stack@.push(v))[m - 1] == v@);
            assert(strings_view(value_stack@) =~= vals_final.take(m).drop_last());
            assert(vals_final.take(m).drop_last() =~= vals_final.take(m - 1));
        }
        out.push((k, v));
    }
    proof {
        assert forall|j: int| 0 <= j < n implies attrs_view(out@)[j] == split_attrs(sv)[j] by {
            assert(attrs_view(out@)[j] == (out@[j].0@, out@[j].1@));
            assert(split_attrs(sv)[j] == (keys_final[n - 1 - j], vals_final[n - 1 - j]));
        }
        assert(attrs_view(out@) =~= split_attrs(sv));
    }
    out
}

} // verus!
