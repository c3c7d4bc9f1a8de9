//! Character-level text helpers shared by the tokenizer, the selector
//! compiler and the tree editors: whitespace tests, trimming, splitting,
//! string equality, and conversions between `&str`/`String` and `Vec<char>`.

use vstd::prelude::*;

verus! {

/// The whitespace characters this crate recognizes: space, tab, line feed,
/// carriage return, vertical tab and form feed.
pub open spec fn is_space_char(c: char) -> bool {
    c == ' ' || c == '\t' || c == '\n' || c == '\r' || c == '\u{0B}' || c == '\u{0C}'
}

/// Whitespace test on a character.
pub fn is_space(c: char) -> (r: bool)
    ensures
        r == is_space_char(c),
{
    c == ' ' || c == '\t' || c == '\n' || c == '\r' || c == '\u{0B}' || c == '\u{0C}'
}

/// `s` without its leading whitespace.
pub open spec fn trim_start_spec(s: Seq<char>) -> Seq<char>
    decreases s.len(),
{
    if s.len() > 0 && is_space_char(s[0]) {
        trim_start_spec(s.drop_first())
    } else {
        s
    }
}

/// `s` without its trailing whitespace.
pub open spec fn trim_end_spec(s: Seq<char>) -> Seq<char>
    decreases s.len(),
{
    if s.len() > 0 && is_space_char(s.last()) {
        trim_end_spec(s.drop_last())
    } else {
        s
    }
}

/// `s` without leading and trailing whitespace.
pub open spec fn trim_spec(s: Seq<char>) -> Seq<char> {
    trim_end_spec(trim_start_spec(s))
}

/// Trimming the first of `n` leading spaces reduces to trimming the rest.
proof fn lemma_trim_start_step(s: Seq<char>, i: int)
    requires
        0 <= i <= s.len(),
        forall|j: int| 0 <= j < i ==> is_space_char(s[j]),
    ensures
        trim_start_spec(s) == trim_start_spec(s.subrange(i, s.len() as int)),
    decreases i,
{
    if i > 0 {
        assert(s.subrange(0, s.len() as int) =~= s);
        lemma_trim_start_step(s, i - 1);
        let t = s.subrange(i - 1, s.len() as int);
        assert(t[0] == s[i - 1]);
        assert(t.drop_first() =~= s.subrange(i, s.len() as int));
    } else {
        assert(s.subrange(0, s.len() as int) =~= s);
    }
}

/// Trimming the last of `n` trailing spaces reduces to trimming the rest.
proof fn lemma_trim_end_step(s: Seq<char>, i: int)
    requires
        0 <= i <= s.len(),
        forall|j: int| i <= j < s.len() ==> is_space_char(s[j]),
    ensures
        trim_end_spec(s) == trim_end_spec(s.subrange(0, i)),
    decreases s.len() - i,
{
    if i < s.len() {
        lemma_trim_end_step(s, i + 1);
        let t = s.subrange(0, i + 1);
        assert(t.last() == s[i]);
        assert(t.drop_last() =~= s.subrange(0, i));
    } else {
        assert(s.subrange(0, s.len() as int) =~= s);
    }
}

/// An all-whitespace sequence trims to nothing.
proof fn lemma_trim_all_ws(s: Seq<char>)
    requires
        forall|j: int| 0 <= j < s.len() ==> is_space_char(#[trigger] s[j]),
    ensures
        trim_spec(s).len() == 0,
    decreases s.len(),
{
    if s.len() > 0 {
        let t = s.drop_first();
        assert(forall|j: int| 0 <= j < t.len() ==> #[trigger] t[j] == s[j + 1]);
        lemma_trim_all_ws(t);
    }
}

/// A sequence whose first character is no whitespace keeps it under
/// `trim_end_spec`.
proof fn lemma_trim_end_keeps_head(s: Seq<char>)
    requires
        s.len() > 0,
        !is_space_char(s[0]),
    ensures
        trim_end_spec(s).len() > 0,
    decreases s.len(),
{
    if s.len() > 0 && is_space_char(s.last()) {
        lemma_trim_end_keeps_head(s.drop_last());
    }
}

/// A sequence holding a non-whitespace character does not trim to nothing.
proof fn lemma_trim_keeps_content(s: Seq<char>, j: int)
    requires
        0 <= j < s.len(),
        !is_space_char(s[j]),
    ensures
        trim_spec(s).len() > 0,
    decreases s.len(),
{
    if is_space_char(s[0]) {
        let t = s.drop_first();
        assert(t[j - 1] == s[j]);
        lemma_trim_keeps_content(t, j - 1);
    } else {
        lemma_trim_end_keeps_head(s);
    }
}

/// True iff `s` holds nothing but whitespace.
pub fn is_blank(s: &str) -> (r: bool)
    ensures
        r == (trim_spec(s@).len() == 0),
{
    let len = s.unicode_len();
    let mut i: usize = 0;
    while i < len
        invariant
            i <= len == s@.len(),
            forall|j: int| 0 <= j < i ==> is_space_char(#[trigger] s@[j]),
        decreases len - i,
    {
        if !is_space(s.get_char(i)) {
            proof {
                lemma_trim_keeps_content(s@, i as int);
            }
            return false;
        }
        i += 1;
    }
    proof {
        lemma_trim_all_ws(s@);
    }
    true
}

/// Copy of `v[lo..hi]`.
pub fn subrange_chars(v: &Vec<char>, lo: usize, hi: usize) -> (r: Vec<char>)
    requires
        lo <= hi <= v@.len(),
    ensures
        r@ == v@.subrange(lo as int, hi as int),
{
    let mut out: Vec<char> = Vec::new();
    let mut i: usize = lo;
    while i < hi
        invariant
            lo <= i <= hi <= v@.len(),
            out@.len() == i - lo,
            forall|j: int| 0 <= j < out@.len() ==> out@[j] == v@[lo + j],
        decreases hi - i,
    {
        out.push(v[i]);
        i += 1;
    }
    assert(out@ =~= v@.subrange(lo as int, hi as int));
    out
}

/// `v` without leading and trailing whitespace.
pub fn trim_chars(v: &Vec<char>) -> (r: Vec<char>)
    ensures
        r@ == trim_spec(v@),
{
    let len = v.len();
    let ghost s = v@;
    let mut lo: usize = 0;
    while lo < len && is_space(v[lo])
        invariant
            0 <= lo <= len == s.len(),
            v@ == s,
            forall|j: int| 0 <= j < lo ==> is_space_char(s[j]),
        decreases len - lo,
    {
        lo += 1;
    }
    proof {
        lemma_trim_start_step(s, lo as int);
    }
    let ghost t = s.subrange(lo as int, s.len() as int);
    assert(trim_start_spec(s) == trim_start_spec(t));
    assert(trim_start_spec(t) == t) by {
        if t.len() > 0 {
            assert(t[0] == s[lo as int]);
        }
    }
    let mut hi: usize = len;
    while hi > lo && is_space(v[hi - 1])
        invariant
            lo <= hi <= len == s.len(),
            v@ == s,
            forall|j: int| hi <= j < s.len() ==> is_space_char(s[j]),
        decreases hi,
    {
        hi -= 1;
    }
    proof {
        assert(forall|j: int|
            hi <= j - lo + lo < s.len() ==> is_space_char(t[j - lo]) == is_space_char(s[j]));
        assert(forall|j: int| hi - lo <= j < t.len() ==> is_space_char(t[j]));
        lemma_trim_end_step(t, hi - lo);
        assert(t.subrange(0, hi - lo) =~= s.subrange(lo as int, hi as int));
    }
    subrange_chars(v, lo, hi)
}

/// The length of the leading run of characters of `s` other than `sep`.
pub open spec fn sep_free_run(s: Seq<char>, sep: char) -> int
    decreases s.len(),
{
    if s.len() > 0 && s[0] != sep {
        1 + sep_free_run(s.drop_first(), sep)
    } else {
        0
    }
}

/// A prefix free of `sep` up to a `sep` (or the end) is the leading run.
proof fn lemma_sep_free_run_eq(s: Seq<char>, sep: char, n: int)
    requires
        0 <= n <= s.len(),
        forall|j: int| 0 <= j < n ==> s[j] != sep,
        n == s.len() || s[n] == sep,
    ensures
        sep_free_run(s, sep) == n,
    decreases s.len(),
{
    if n > 0 {
        let t = s.drop_first();
        assert(forall|j: int| 0 <= j < n - 1 ==> #[trigger] t[j] == s[j + 1]);
        lemma_sep_free_run_eq(t, sep, n - 1);
    }
}

/// `s` split on every occurrence of `sep`: the pieces between separators,
/// in order, the empty piece included.
pub open spec fn split_char(s: Seq<char>, sep: char) -> Seq<Seq<char>>
    decreases s.len(),
{
    let r = sep_free_run(s, sep);
    let n = if r >= 0 {
        r
    } else {
        0
    };
    if n >= s.len() {
        seq![s]
    } else {
        seq![s.take(n)] + split_char(s.skip(n + 1), sep)
    }
}

/// Model of a list of character vectors.
pub open spec fn chars_list_view(s: Seq<Vec<char>>) -> Seq<Seq<char>> {
    s.map_values(|v: Vec<char>| v@)
}

/// Splits `v` on every occurrence of `sep`.
pub fn split_chars(v: &Vec<char>, sep: char) -> (r: Vec<Vec<char>>)
    ensures
        chars_list_view(r@) == split_char(v@, sep),
{
    let len = v.len();
    let ghost s = v@;
    let mut out: Vec<Vec<char>> = Vec::new();
    let mut cur: Vec<char> = Vec::new();
    let mut i: usize = 0;
    proof {
        assert(chars_list_view(Seq::<Vec<char>>::empty()) =~= Seq::<Seq<char>>::empty());
        assert(cur@ + s.skip(0) =~= s);
    }
    while i < len
        invariant
            i <= len == s.len(),
            v@ == s,
            forall|j: int| 0 <= j < cur@.len() ==> cur@[j] != sep,
            split_char(s, sep) == chars_list_view(out@) + split_char(cur@ + s.skip(i as int), sep),
        decreases len - i,
    {
        let ghost rest = cur@ + s.skip(i as int);
        let c = v[i];
        if c == sep {
            proof {
                assert(forall|j: int| 0 <= j < cur@.len() ==> rest[j] != sep);
                assert(rest[cur@.len() as int] == sep);
                lemma_sep_free_run_eq(rest, sep, cur@.len() as int);
                assert(rest.take(cur@.len() as int) =~= cur@);
                assert(rest.skip(cur@.len() as int + 1) =~= s.skip(i + 1));
                assert(Seq::<char>::empty() + s.skip(i + 1) =~= s.skip(i + 1));
            }
            let ghost prev = out@;
            out.push(cur);
            proof {
                assert(chars_list_view(out@) =~= chars_list_view(prev).push(out@.last()@));
                assert(chars_list_view(prev) + (seq![out@.last()@] + split_char(
                    s.skip(i + 1),
                    sep,
                )) =~= chars_list_view(out@) + split_char(s.skip(i + 1), sep));
            }
            cur = Vec::new();
        } else {
            cur.push(c);
            proof {
                assert(cur@ + s.skip(i + 1) =~= rest);
            }
        }
        i += 1;
    }
    proof {
        let rest = cur@ + s.skip(len as int);
        assert(rest =~= cur@);
        assert(forall|j: int| 0 <= j < cur@.len() ==> rest[j] != sep);
        lemma_sep_free_run_eq(rest, sep, cur@.len() as int);
    }
    let ghost prev = out@;
    out.push(cur);
    proof {
        assert(chars_list_view(out@) =~= chars_list_view(prev).push(out@.last()@));
        assert(chars_list_view(prev) + seq![out@.last()@] =~= chars_list_view(out@));
    }
    out
}

/// The characters of `s`.
pub fn str_to_chars(s: &str) -> (v: Vec<char>)
    ensures
        v@ == s@,
{
    let len = s.unicode_len();
    let mut out: Vec<char> = Vec::new();
    let mut i: usize = 0;
    while i < len
        invariant
            i <= len == s@.len(),
            out@ == s@.subrange(0, i as int),
        decreases len - i,
    {
        out.push(s.get_char(i));
        assert(out@ =~= s@.subrange(0, i + 1 as int));
        i += 1;
    }
    assert(out@ =~= s@);
    out
}

/// Relies on `String`'s `FromIterator<char>` implementation: collecting an
/// iterator of characters yields the string of exactly those characters in
/// order.
#[verifier::external_body]
pub fn chars_to_string(v: &Vec<char>) -> (s: String)
    ensures
        s@ == v@,
{
    v.iter().collect()
}

/// Character-sequence equality of two string slices.
pub fn str_eq(a: &str, b: &str) -> (r: bool)
    ensures
        r == (a@ == b@),
{
    let alen = a.unicode_len();
    let blen = b.unicode_len();
    if alen != blen {
        return false;
    }
    let mut i: usize = 0;
    while i < alen
        invariant
            i <= alen == a@.len(),
            a@.len() == b@.len(),
            forall|j: int| 0 <= j < i ==> a@[j] == b@[j],
        decreases alen - i,
    {
        if a.get_char(i) != b.get_char(i) {
            return false;
        }
        i += 1;
    }
    assert(a@ =~= b@);
    true
}

/// Character-sequence equality of a character vector and a string slice.
pub fn chars_eq_str(v: &Vec<char>, s: &str) -> (r: bool)
    ensures
        r == (v@ == s@),
{
    let slen = s.unicode_len();
    if v.len() != slen {
        return false;
    }
    let mut i: usize = 0;
    while i < slen
        invariant
            i <= slen == s@.len(),
            v@.len() == s@.len(),
            forall|j: int| 0 <= j < i ==> v@[j] == s@[j],
        decreases slen - i,
    {
        if v[i] != s.get_char(i) {
            return false;
        }
        i += 1;
    }
    assert(v@ =~= s@);
    true
}

} // verus!
