//! Character-level helpers over the characters of a string.

use vstd::prelude::*;

verus! {

/// Unicode `White_Space`, the set that `char::is_whitespace` tests.
pub open spec fn is_white_space(ch: char) -> bool {
    ||| ch == ' '
    ||| ('\u{9}' <= ch && ch <= '\u{d}')
    ||| ch == '\u{85}'
    ||| ch == '\u{a0}'
    ||| ch == '\u{1680}'
    ||| ('\u{2000}' <= ch && ch <= '\u{200a}')
    ||| ch == '\u{2028}'
    ||| ch == '\u{2029}'
    ||| ch == '\u{202f}'
    ||| ch == '\u{205f}'
    ||| ch == '\u{3000}'
}

/// Whether `ch` is white space.
pub fn white_space(ch: char) -> (r: bool)
    ensures
        r == is_white_space(ch),
{
    ch == ' ' || ('\u{9}' <= ch && ch <= '\u{d}') || ch == '\u{85}' || ch == '\u{a0}' || ch == '\u{1680}'
        || ('\u{2000}' <= ch && ch <= '\u{200a}') || ch == '\u{2028}' || ch == '\u{2029}' || ch
        == '\u{202f}' || ch == '\u{205f}' || ch == '\u{3000}'
}

/// The first position at or after `i` that is not white space (or the end).
pub open spec fn trim_start_from(s: Seq<char>, i: int) -> int
    decreases s.len() - i,
{
    if i < 0 || i >= s.len() || !is_white_space(s[i]) {
        i
    } else {
        trim_start_from(s, i + 1)
    }
}

/// The end of `s[start..j]` once trailing white space is dropped.
pub open spec fn trim_end_from(s: Seq<char>, start: int, j: int) -> int
    decreases j - start,
{
    if j <= start || j > s.len() || !is_white_space(s[j - 1]) {
        j
    } else {
        trim_end_from(s, start, j - 1)
    }
}

/// `s` without leading and trailing white space.
pub open spec fn trim(s: Seq<char>) -> Seq<char> {
    let a = trim_start_from(s, 0);
    s.subrange(a, trim_end_from(s, a, s.len() as int))
}

/// The characters of `code`.
pub fn to_chars(code: &str) -> (r: Vec<char>)
    ensures
        r@ == code@,
{
    broadcast use vstd::string::group_string_axioms;

    let mut cs: Vec<char> = Vec::new();
    for ch in it: code.chars()
        invariant
            cs@ == it.seq().take(it.index() as int),
    {
        cs.push(ch);
    }
    cs
}

proof fn lemma_trim_start(s: Seq<char>, i: int, j: int)
    requires
        0 <= i <= j <= s.len(),
        forall|k: int| i <= k < j ==> is_white_space(#[trigger] s[k]),
        j == s.len() || !is_white_space(s[j]),
    ensures
        trim_start_from(s, i) == j,
    decreases j - i,
{
    if i < j {
        lemma_trim_start(s, i + 1, j);
    }
}

proof fn lemma_trim_end(s: Seq<char>, start: int, j: int, e: int)
    requires
        0 <= start <= e <= j <= s.len(),
        forall|k: int| e <= k < j ==> is_white_space(#[trigger] s[k]),
        e == start || !is_white_space(s[e - 1]),
    ensures
        trim_end_from(s, start, j) == e,
    decreases j - e,
{
    if e < j {
        lemma_trim_end(s, start, j - 1, e);
    }
}

/// The bounds of `cs[a..b]` without leading and trailing white space.
pub fn trim_range(cs: &Vec<char>, a: usize, b: usize) -> (r: (usize, usize))
    requires
        a <= b <= cs@.len(),
    ensures
        a <= r.0 <= r.1 <= b,
        cs@.subrange(r.0 as int, r.1 as int) == trim(cs@.subrange(a as int, b as int)),
{
    let ghost sub = cs@.subrange(a as int, b as int);
    let mut i = a;
    while i < b && white_space(cs[i])
        invariant
            a <= i <= b,
            b <= cs@.len(),
            forall|k: int| a <= k < i ==> is_white_space(#[trigger] cs@[k]),
        decreases b - i,
    {
        i = i + 1;
    }
    let mut j = b;
    while j > i && white_space(cs[j - 1])
        invariant
            a <= i <= j <= b,
            b <= cs@.len(),
            forall|k: int| j <= k < b ==> is_white_space(#[trigger] cs@[k]),
        decreases j - i,
    {
        j = j - 1;
    }
    proof {
        assert forall|k: int| 0 <= k < i - a implies is_white_space(#[trigger] sub[k]) by {
            assert(sub[k] == cs@[a + k]);
        }
        lemma_trim_start(sub, 0, i - a);
        assert forall|k: int| j - a <= k < b - a implies is_white_space(#[trigger] sub[k]) by {
            assert(sub[k] == cs@[a + k]);
        }
        lemma_trim_end(sub, i - a, b - a, j - a);
        assert(cs@.subrange(i as int, j as int) =~= sub.subrange(i - a, j - a));
    }
    (i, j)
}

} // verus!
