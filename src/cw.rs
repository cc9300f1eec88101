//! The content warning that may open a robot post: `[CW: spiders]`,
//! `(flashing lights)`.

use vstd::prelude::*;
use vstd::slice::slice_subrange;

use crate::chars::{
    back_white_space, chars_of, is_white_space, is_word_char, is_ws,
    lemma_skip_ws_bounds, skip_white_space, skip_ws, string_from_chars, trim, word_char,
};
use crate::numbers::{find_char, find_char_from, lemma_find_char};
use crate::parse_out::ParseOut;

verus! {

/// The first position at or after `i` that holds a word character, or the
/// length of `s`.
pub open spec fn skip_nonword(s: Seq<char>, i: int) -> int
    decreases s.len() - i,
{
    if 0 <= i < s.len() && !word_char(s[i]) {
        skip_nonword(s, i + 1)
    } else {
        i
    }
}

pub open spec fn is_close(c: char) -> bool {
    c == ']' || c == ')'
}

/// The first position at or after `i` that holds `]` or `)`, or the length of
/// `s`.
pub open spec fn find_close(s: Seq<char>, i: int) -> int
    decreases s.len() - i,
{
    if i < 0 || i >= s.len() {
        s.len() as int
    } else if is_close(s[i]) {
        i
    } else {
        find_close(s, i + 1)
    }
}

/// The warning text and its closing bracket when the warning starts at `t`:
/// one non-whitespace character, then at least one character that is no
/// closing bracket, then the first closing bracket. Yields the warning's
/// start, its end (the closing bracket) and the end of the match.
pub open spec fn warning_at(s: Seq<char>, t: int) -> Option<(int, int, int)> {
    let c = find_close(s, t + 1);
    if 0 <= t < s.len() && !is_ws(s[t]) && c < s.len() && c > t + 1 {
        Some((t, c, c + 1))
    } else {
        None
    }
}

/// The warning after a run of non-word characters from `q`, trying the
/// longest run first: the run may end at any position from `t` down to `q`.
pub open spec fn warning_from(s: Seq<char>, q: int, t: int) -> Option<(int, int, int)>
    decreases t - q + 1,
{
    if t < q {
        None
    } else {
        match warning_at(s, t) {
            Some(m) => Some(m),
            None => warning_from(s, q, t - 1),
        }
    }
}

/// The warning after the non-word characters that follow position `q`.
pub open spec fn warning_after(s: Seq<char>, q: int) -> Option<(int, int, int)> {
    warning_from(s, q, skip_nonword(s, q))
}

/// The warning, where a label ending in `:` at a position from `e` down to
/// `p + 1` may precede it, the latest such colon first; with no such label,
/// the warning right after `p`.
pub open spec fn labelled_warning(s: Seq<char>, p: int, e: int) -> Option<(int, int, int)>
    decreases e - p,
{
    if e <= p {
        warning_after(s, p)
    } else if s[e] == ':' && warning_after(s, e + 1) is Some {
        warning_after(s, e + 1)
    } else {
        labelled_warning(s, p, e - 1)
    }
}

/// A content warning at the start of `s`: after optional whitespace, an
/// opening `[` or `(`, an optional label that ends in `:` on the same line,
/// optional non-word characters, and the warning up to the first closing `]`
/// or `)`. Yields the warning's start and end and the end of the match.
pub open spec fn cw_match(s: Seq<char>) -> Option<(int, int, int)> {
    let p0 = skip_ws(s, 0);
    if p0 < s.len() && (s[p0] == '[' || s[p0] == '(') {
        labelled_warning(s, p0 + 1, find_char(s, '\n', p0 + 1) - 1)
    } else {
        None
    }
}

proof fn lemma_skip_nonword(s: Seq<char>, i: int)
    requires
        0 <= i <= s.len(),
    ensures
        i <= skip_nonword(s, i) <= s.len(),
    decreases s.len() - i,
{
    if i < s.len() && !word_char(s[i]) {
        lemma_skip_nonword(s, i + 1);
    }
}

proof fn lemma_warning_from(s: Seq<char>, q: int, t: int)
    requires
        0 <= q,
        t <= s.len(),
    ensures
        warning_from(s, q, t) matches Some((a, b, e)) ==> q <= a < b && b < s.len() && e == b + 1,
    decreases t - q + 1,
{
    if t >= q {
        if warning_at(s, t) is None {
            lemma_warning_from(s, q, t - 1);
        }
    }
}

proof fn lemma_labelled_warning(s: Seq<char>, p: int, e: int)
    requires
        0 <= p <= s.len(),
        e < s.len(),
    ensures
        labelled_warning(s, p, e) matches Some((a, b, m)) ==> p <= a < b && b < s.len() && m == b
            + 1,
    decreases e - p,
{
    if e <= p {
        lemma_skip_nonword(s, p);
        lemma_warning_from(s, p, skip_nonword(s, p));
    } else if s[e] == ':' && warning_after(s, e + 1) is Some {
        lemma_skip_nonword(s, e + 1);
        lemma_warning_from(s, e + 1, skip_nonword(s, e + 1));
    } else {
        lemma_labelled_warning(s, p, e - 1);
    }
}

fn skip_non_word(s: &[char], i: usize) -> (r: usize)
    requires
        i <= s@.len(),
    ensures
        r == skip_nonword(s@, i as int),
        i <= r <= s@.len(),
{
    let mut k = i;
    while k < s.len() && !is_word_char(s[k])
        invariant
            i <= k <= s@.len(),
            skip_nonword(s@, k as int) == skip_nonword(s@, i as int),
        decreases s@.len() - k,
    {
        k = k + 1;
    }
    k
}

fn find_close_from(s: &[char], i: usize) -> (r: usize)
    requires
        i <= s@.len(),
    ensures
        r == find_close(s@, i as int),
        i <= r <= s@.len(),
{
    let mut k = i;
    while k < s.len() && !(s[k] == ']' || s[k] == ')')
        invariant
            i <= k <= s@.len(),
            find_close(s@, k as int) == find_close(s@, i as int),
        decreases s@.len() - k,
    {
        k = k + 1;
    }
    k
}

fn warning_after_exec(s: &[char], q: usize) -> (r: Option<(usize, usize, usize)>)
    requires
        q <= s@.len(),
    ensures
        match warning_after(s@, q as int) {
            None => r is None,
            Some((a, b, e)) => r matches Some((x, y, z)) && x == a && y == b && z == e,
        },
{
    let m = skip_non_word(s, q);
    let mut t = m;
    loop
        invariant
            q <= t <= m <= s@.len(),
            warning_from(s@, q as int, t as int) == warning_after(s@, q as int),
        decreases t,
    {
        if t < s.len() && !is_white_space(s[t]) {
            let c = find_close_from(s, t + 1);
            if c < s.len() && c > t + 1 {
                return Some((t, c, c + 1));
            }
        }
        if t == q {
            proof {
                assert(warning_from(s@, q as int, q - 1) is None);
            }
            return None;
        }
        t = t - 1;
    }
}

fn cw_match_exec(s: &[char]) -> (r: Option<(usize, usize, usize)>)
    ensures
        match cw_match(s@) {
            None => r is None,
            Some((a, b, e)) => r matches Some((x, y, z)) && x == a && y == b && z == e,
        },
{
    let p0 = skip_white_space(s, 0);
    if !(p0 < s.len() && (s[p0] == '[' || s[p0] == '(')) {
        return None;
    }
    let p = p0 + 1;
    let nl = find_char_from(s, '\n', p);
    proof {
        lemma_find_char(s@, '\n', p as int);
    }
    let mut e = nl - 1;
    loop
        invariant
            p <= e + 1 <= nl <= s@.len(),
            e < s@.len(),
            labelled_warning(s@, p as int, e as int) == cw_match(s@),
        decreases e,
    {
        if e <= p {
            return warning_after_exec(s, p);
        }
        if s[e] == ':' {
            let w = warning_after_exec(s, e + 1);
            if w.is_some() {
                return w;
            }
        }
        e = e - 1;
    }
}

/// Reads an optional content warning from the start of a post: after
/// optional whitespace, `[` or `(`, an optional label ending in `:`,
/// optional non-word characters, then the warning up to the first `]` or
/// `)`. Yields the warning trimmed and the text after the closing bracket
/// without its leading whitespace; where no warning opens the post, no
/// warning and the whole text.
pub fn parse_cw(s: &str) -> (r: ParseOut<Option<String>>)
    ensures
        match cw_match(s@) {
            None => r.output is None && r.remainder@ == s@,
            Some((a, b, e)) => r.output matches Some(w) && w@ == trim(s@.subrange(a, b))
                && r.remainder@ == s@.skip(skip_ws(s@, e)),
        },
{
    let v = chars_of(s);
    match cw_match_exec(v.as_slice()) {
        None => ParseOut { output: None, remainder: s.to_owned() },
        Some((a, b, e)) => {
            proof {
                assert(cw_match(s@) is Some);
                lemma_skip_ws_bounds(s@, 0);
                lemma_find_char(s@, '\n', skip_ws(s@, 0) + 1);
                lemma_labelled_warning(
                    s@,
                    skip_ws(s@, 0) + 1,
                    find_char(s@, '\n', skip_ws(s@, 0) + 1) - 1,
                );
            }
            let w = trim_range(v.as_slice(), a, b);
            let rest = skip_white_space(v.as_slice(), e);
            let tail = string_from_chars(slice_subrange(v.as_slice(), rest, v.len()));
            ParseOut { output: Some(w), remainder: tail }
        },
    }
}

/// `s[a..b]` trimmed.
pub(crate) fn trim_range(s: &[char], a: usize, b: usize) -> (r: String)
    requires
        a <= b <= s@.len(),
    ensures
        r@ == trim(s@.subrange(a as int, b as int)),
{
    let sub = slice_subrange(s, a, b);
    let x = skip_white_space(sub, 0);
    let y = back_white_space(sub, x, sub.len());
    string_from_chars(slice_subrange(sub, x, y))
}

} // verus!
