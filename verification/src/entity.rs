//! Character-reference handling.
//!
//! Parsing replaces the named references `&amp;`, `&lt;`, `&gt;`, `&quot;`
//! and `&apos;` and decimal references `&#n;` for ASCII `n` by the characters
//! they stand for; serialization escapes the markup-significant characters
//! back into named references.  Anything else passes through unchanged, and
//! the bodies of raw-text elements (`script`, `style`) are never touched.

use vstd::prelude::*;

verus! {

/// Decimal digit test.
pub open spec fn is_digit_char(c: char) -> bool {
    48 <= c as u32 <= 57
}

/// The length of the run of decimal digits at the front of `s`.
pub open spec fn digit_run_len(s: Seq<char>) -> int
    decreases s.len(),
{
    if s.len() > 0 && is_digit_char(s[0]) {
        1 + digit_run_len(s.drop_first())
    } else {
        0
    }
}

/// The value of the run of `n` decimal digits at the front of `s`.
pub open spec fn digit_run_val(s: Seq<char>, n: int) -> int
    decreases n,
{
    if n <= 0 {
        0
    } else {
        digit_run_val(s, n - 1) * 10 + (s[n - 1] as u32 - 48)
    }
}

/// The character reference at the front of `s`, if any, with the number of
/// characters it spans.
pub open spec fn entity_at(s: Seq<char>) -> Option<(char, int)> {
    if s.len() >= 4 && s[0] == '&' && s[1] == 'l' && s[2] == 't' && s[3] == ';' {
        Some(('<', 4))
    } else if s.len() >= 4 && s[0] == '&' && s[1] == 'g' && s[2] == 't' && s[3] == ';' {
        Some(('>', 4))
    } else if s.len() >= 5 && s[0] == '&' && s[1] == 'a' && s[2] == 'm' && s[3] == 'p' && s[4]
        == ';' {
        Some(('&', 5))
    } else if s.len() >= 6 && s[0] == '&' && s[1] == 'q' && s[2] == 'u' && s[3] == 'o' && s[4]
        == 't' && s[5] == ';' {
        Some(('"', 6))
    } else if s.len() >= 6 && s[0] == '&' && s[1] == 'a' && s[2] == 'p' && s[3] == 'o' && s[4]
        == 's' && s[5] == ';' {
        Some(('\'', 6))
    } else if s.len() >= 2 && s[0] == '&' && s[1] == '#' {
        let n = digit_run_len(s.subrange(2, s.len() as int));
        let v = digit_run_val(s.subrange(2, s.len() as int), n);
        if n >= 1 && 2 + n < s.len() && s[2 + n] == ';' && v < 128 {
            Some(((v as u8) as char, n + 3))
        } else {
            None
        }
    } else {
        None
    }
}

/// `s` with every character reference replaced by its character.
pub open spec fn decode_spec(s: Seq<char>) -> Seq<char>
    decreases s.len(),
{
    if s.len() == 0 {
        Seq::empty()
    } else {
        match entity_at(s) {
            Some((c, k)) => seq![c] + decode_spec(s.skip(k)),
            None => seq![s[0]] + decode_spec(s.drop_first()),
        }
    }
}

/// The escaped form of one text character.
pub open spec fn escape_char(c: char, quotes: bool) -> Seq<char> {
    if c == '&' {
        seq!['&', 'a', 'm', 'p', ';']
    } else if c == '<' {
        seq!['&', 'l', 't', ';']
    } else if c == '>' {
        seq!['&', 'g', 't', ';']
    } else if c == '"' && quotes {
        seq!['&', 'q', 'u', 'o', 't', ';']
    } else {
        seq![c]
    }
}

/// `s` with markup-significant characters escaped; `quotes` says whether
/// double quotes are escaped too (they are inside attribute values).
pub open spec fn escape_spec(s: Seq<char>, quotes: bool) -> Seq<char>
    decreases s.len(),
{
    if s.len() == 0 {
        Seq::empty()
    } else {
        escape_char(s[0], quotes) + escape_spec(s.drop_first(), quotes)
    }
}

/// A character reference spans at least one character.
proof fn lemma_entity_at_len(s: Seq<char>)
    ensures
        match entity_at(s) {
            Some((c, k)) => 1 <= k <= s.len(),
            None => true,
        },
{
    if s.len() >= 2 && s[0] == '&' && s[1] == '#' {
        lemma_digit_run_len_bound(s.subrange(2, s.len() as int));
    }
}

/// The digit run is no longer than the sequence.
proof fn lemma_digit_run_len_bound(s: Seq<char>)
    ensures
        0 <= digit_run_len(s) <= s.len(),
    decreases s.len(),
{
    if s.len() > 0 && is_digit_char(s[0]) {
        lemma_digit_run_len_bound(s.drop_first());
    }
}

/// Digits of the run are digits, and the run stops at a non-digit.
proof fn lemma_digit_run_chars(s: Seq<char>)
    ensures
        forall|j: int| 0 <= j < digit_run_len(s) ==> is_digit_char(s[j]),
        digit_run_len(s) < s.len() ==> !is_digit_char(s[digit_run_len(s)]),
    decreases s.len(),
{
    lemma_digit_run_len_bound(s);
    if s.len() > 0 && is_digit_char(s[0]) {
        lemma_digit_run_chars(s.drop_first());
        lemma_digit_run_len_bound(s.drop_first());
        assert forall|j: int| 0 <= j < digit_run_len(s) implies is_digit_char(s[j]) by {
            if j > 0 {
                assert(is_digit_char(s.drop_first()[j - 1]));
            }
        }
    }
}

/// A prefix of digits up to a non-digit (or the end) is the digit run.
proof fn lemma_digit_run_len_eq(s: Seq<char>, n: int)
    requires
        0 <= n <= s.len(),
        forall|j: int| 0 <= j < n ==> is_digit_char(s[j]),
        n == s.len() || !is_digit_char(s[n]),
    ensures
        digit_run_len(s) == n,
    decreases s.len(),
{
    if n > 0 {
        let t = s.drop_first();
        assert(forall|j: int| 0 <= j < n - 1 ==> is_digit_char(#[trigger] t[j]) == is_digit_char(
            s[j + 1],
        ));
        lemma_digit_run_len_eq(t, n - 1);
    }
}

/// The value of a longer run never falls back under 128.
proof fn lemma_digit_run_val_mono(s: Seq<char>, n: int)
    requires
        0 <= n,
        digit_run_val(s, n) >= 128,
    ensures
        digit_run_val(s, n + 1) >= 128,
{
    let v = digit_run_val(s, n);
    assert(digit_run_val(s, n + 1) == v * 10 + (s[n] as u32 - 48));
    assert(v * 10 == v + 9 * v);
}

/// The character reference at position `i` of `v`, if any, with the number
/// of characters it spans.
fn entity_at_pos(v: &Vec<char>, i: usize) -> (r: Option<(char, usize)>)
    requires
        i < v@.len(),
    ensures
        match r {
            Some((c, k)) => entity_at(v@.skip(i as int)) == Some((c, k as int)),
            None => entity_at(v@.skip(i as int)) is None,
        },
{
    let ghost s = v@.skip(i as int);
    let len = v.len();
    let rem = len - i;
    proof {
        assert(s.len() == rem);
        assert(forall|j: int| 0 <= j < s.len() ==> s[j] == v@[i + j]);
    }
    if v[i] != '&' {
        return None;
    }
    if rem >= 4 && v[i + 1] == 'l' && v[i + 2] == 't' && v[i + 3] == ';' {
        return Some(('<', 4));
    }
    if rem >= 4 && v[i + 1] == 'g' && v[i + 2] == 't' && v[i + 3] == ';' {
        return Some(('>', 4));
    }
    if rem >= 5 && v[i + 1] == 'a' && v[i + 2] == 'm' && v[i + 3] == 'p' && v[i + 4] == ';' {
        return Some(('&', 5));
    }
    if rem >= 6 && v[i + 1] == 'q' && v[i + 2] == 'u' && v[i + 3] == 'o' && v[i + 4] == 't' && v[i
        + 5] == ';' {
        return Some(('"', 6));
    }
    if rem >= 6 && v[i + 1] == 'a' && v[i + 2] == 'p' && v[i + 3] == 'o' && v[i + 4] == 's' && v[i
        + 5] == ';' {
        return Some(('\'', 6));
    }
    if rem >= 2 && v[i + 1] == '#' {
        let ghost d = s.subrange(2, s.len() as int);
        proof {
            assert(forall|j: int| 0 <= j < d.len() ==> d[j] == v@[i + 2 + j]);
        }
        let start = i + 2;
        let mut j = start;
        let mut val: u32 = 0;
        while j < len && 48 <= (v[j] as u32) && (v[j] as u32) <= 57
            invariant
                start <= j <= len == v@.len(),
                start == i + 2 <= len,
                d == v@.skip(i as int).subrange(2, v@.len() - i),
                d.len() == len - start,
                forall|k: int| 0 <= k < j - start ==> is_digit_char(d[k]),
                val <= 1280,
                (digit_run_val(d, j - start) < 128 && val == digit_run_val(d, j - start))
                    || (digit_run_val(d, j - start) >= 128 && val >= 128),
            decreases len - j,
        {
            proof {
                assert(d[j - start] == v@[j as int]);
                if digit_run_val(d, j - start) >= 128 {
                    lemma_digit_run_val_mono(d, j - start);
                }
            }
            let dv: u32 = (v[j] as u32) - 48;
            if val < 128 {
                val = val * 10 + dv;
            }
            j += 1;
        }
        proof {
            if j < len {
                assert(d[j - start] == v@[j as int]);
            }
            lemma_digit_run_len_eq(d, j - start);
        }
        let n = j - start;
        if n >= 1 && j < len && v[j] == ';' && val < 128 {
            return Some(((val as u8) as char, n + 3));
        }
        return None;
    }
    None
}

/// `v` with every character reference replaced by its character.
pub fn decode_chars(v: &Vec<char>) -> (r: Vec<char>)
    ensures
        r@ == decode_spec(v@),
{
    let mut out: Vec<char> = Vec::new();
    let mut i: usize = 0;
    proof {
        assert(v@.skip(0) =~= v@);
    }
    while i < v.len()
        invariant
            i <= v@.len(),
            decode_spec(v@) == out@ + decode_spec(v@.skip(i as int)),
        decreases v@.len() - i,
    {
        let ghost s = v@.skip(i as int);
        proof {
            lemma_entity_at_len(s);
        }
        let ghost prev = out@;
        match entity_at_pos(v, i) {
            Some((c, k)) => {
                out.push(c);
                proof {
                    assert(s.skip(k as int) =~= v@.skip(i + k));
                    assert(decode_spec(s) == seq![c] + decode_spec(v@.skip(i + k)));
                    assert(prev + (seq![c] + decode_spec(v@.skip(i + k))) =~= out@ + decode_spec(
                        v@.skip(i + k),
                    ));
                }
                i += k;
            },
            None => {
                let c = v[i];
                out.push(c);
                proof {
                    assert(s[0] == c);
                    assert(s.drop_first() =~= v@.skip(i + 1));
                    assert(decode_spec(s) == seq![c] + decode_spec(v@.skip(i + 1)));
                    assert(prev + (seq![c] + decode_spec(v@.skip(i + 1))) =~= out@ + decode_spec(
                        v@.skip(i + 1),
                    ));
                }
                i += 1;
            },
        }
    }
    proof {
        assert(v@.skip(v@.len() as int).len() == 0);
        assert(out@ + decode_spec(v@.skip(v@.len() as int)) =~= out@);
    }
    out
}

/// Escaping loses nothing: decoding an escaped text returns it unchanged,
/// whichever way quotes were treated.
pub proof fn lemma_decode_inverts_escape(s: Seq<char>, quotes: bool)
    ensures
        decode_spec(escape_spec(s, quotes)) == s,
    decreases s.len(),
{
    if s.len() > 0 {
        let c = s[0];
        let e = escape_char(c, quotes);
        let rest = escape_spec(s.drop_first(), quotes);
        let t = escape_spec(s, quotes);
        assert(t == e + rest);
        lemma_decode_inverts_escape(s.drop_first(), quotes);
        if c == '&' {
            assert(t[0] == '&' && t[1] == 'a' && t[2] == 'm' && t[3] == 'p' && t[4] == ';');
            assert(entity_at(t) == Some(('&', 5int)));
            assert(t.skip(5) =~= rest);
            assert(seq!['&'] + s.drop_first() =~= s);
        } else if c == '<' {
            assert(t[0] == '&' && t[1] == 'l' && t[2] == 't' && t[3] == ';');
            assert(entity_at(t) == Some(('<', 4int)));
            assert(t.skip(4) =~= rest);
            assert(seq!['<'] + s.drop_first() =~= s);
        } else if c == '>' {
            assert(t[0] == '&' && t[1] == 'g' && t[2] == 't' && t[3] == ';');
            assert(entity_at(t) == Some(('>', 4int)));
            assert(t.skip(4) =~= rest);
            assert(seq!['>'] + s.drop_first() =~= s);
        } else if c == '"' && quotes {
            assert(t[0] == '&' && t[1] == 'q' && t[2] == 'u' && t[3] == 'o' && t[4] == 't' && t[5]
                == ';');
            assert(entity_at(t) == Some(('"', 6int)));
            assert(t.skip(6) =~= rest);
            assert(seq!['"'] + s.drop_first() =~= s);
        } else {
            assert(t[0] == c);
            assert(c != '&');
            assert(entity_at(t) is None);
            assert(t.drop_first() =~= rest);
            assert(seq![c] + s.drop_first() =~= s);
        }
    }
}

/// Escaped text holds no tag delimiters, and escaping keeps at least one
/// character per character.
pub proof fn lemma_escape_no_markup(s: Seq<char>, quotes: bool)
    ensures
        forall|k: int|
            0 <= k < escape_spec(s, quotes).len() ==> #[trigger] escape_spec(s, quotes)[k] != '<'
                && escape_spec(s, quotes)[k] != '>',
        escape_spec(s, quotes).len() >= s.len(),
    decreases s.len(),
{
    if s.len() > 0 {
        let c = s[0];
        let e = escape_char(c, quotes);
        let rest = escape_spec(s.drop_first(), quotes);
        assert(escape_spec(s, quotes) == e + rest);
        lemma_escape_no_markup(s.drop_first(), quotes);
        assert(forall|k: int| 0 <= k < e.len() ==> #[trigger] e[k] != '<' && e[k] != '>');
    }
}

/// Appends the escaped form of `c` to `out`.
fn push_escaped(out: &mut Vec<char>, c: char, quotes: bool)
    ensures
        final(out)@ == old(out)@ + escape_char(c, quotes),
{
    if c == '&' {
        out.push('&');
        out.push('a');
        out.push('m');
        out.push('p');
        out.push(';');
    } else if c == '<' {
        out.push('&');
        out.push('l');
        out.push('t');
        out.push(';');
    } else if c == '>' {
        out.push('&');
        out.push('g');
        out.push('t');
        out.push(';');
    } else if c == '"' && quotes {
        out.push('&');
        out.push('q');
        out.push('u');
        out.push('o');
        out.push('t');
        out.push(';');
    } else {
        out.push(c);
    }
    assert(final(out)@ =~= old(out)@ + escape_char(c, quotes));
}

/// `v` with markup-significant characters escaped; `quotes` says whether
/// double quotes are escaped too.
pub fn escape_chars(v: &Vec<char>, quotes: bool) -> (r: Vec<char>)
    ensures
        r@ == escape_spec(v@, quotes),
{
    let mut out: Vec<char> = Vec::new();
    let mut i: usize = 0;
    proof {
        assert(v@.skip(0) =~= v@);
    }
    while i < v.len()
        invariant
            i <= v@.len(),
            escape_spec(v@, quotes) == out@ + escape_spec(v@.skip(i as int), quotes),
        decreases v@.len() - i,
    {
        let ghost s = v@.skip(i as int);
        let c = v[i];
        push_escaped(&mut out, c, quotes);
        proof {
            assert(s[0] == c);
            assert(s.drop_first() =~= v@.skip(i + 1));
            assert(escape_spec(v@, quotes) == out@ + escape_spec(v@.skip(i + 1), quotes));
        }
        i += 1;
    }
    proof {
        assert(out@ + escape_spec(v@.skip(v@.len() as int), quotes) =~= out@);
    }
    out
}

} // verus!
