//! Robot names: `"Teabot"`, `"Mischiefbots"`, `"R.O.B.O.T.S"`, and the
//! shorthand `"Salt- and Pepperbots"`.

use vstd::prelude::*;
use vstd::slice::slice_subrange;

use crate::chars::{
    chars_of, is_white_space, is_word_char, is_ws, lemma_skip_ws_bounds, skip_white_space, skip_ws,
    string_from_chars, word_char,
};
use crate::numbers::is_digit;
use crate::parse_out::ParseOut;
use crate::robot::{RobotName, RobotNameView};

verus! {

/// Decoration inside a written "bot": neither a word character nor whitespace.
pub open spec fn is_junk(c: char) -> bool {
    !word_char(c) && !is_ws(c)
}

/// The first position at or after `i` that holds no decoration.
pub open spec fn skip_junk(s: Seq<char>, i: int) -> int
    decreases s.len() - i,
{
    if 0 <= i < s.len() && is_junk(s[i]) {
        skip_junk(s, i + 1)
    } else {
        i
    }
}

/// The end of the run of non-whitespace characters that holds position `i`.
pub open spec fn run_end(s: Seq<char>, i: int) -> int
    decreases s.len() - i,
{
    if 0 <= i < s.len() && !is_ws(s[i]) {
        run_end(s, i + 1)
    } else {
        i
    }
}

/// The first position at or after `i` that holds no word character.
pub open spec fn skip_word(s: Seq<char>, i: int) -> int
    decreases s.len() - i,
{
    if 0 <= i < s.len() && word_char(s[i]) {
        skip_word(s, i + 1)
    } else {
        i
    }
}

/// A "bot" written at `j`: `b`, `o` and `t` in either case, each letter
/// possibly followed by decoration, then optionally decoration and an `s`
/// in either case. Yields the end of the "bot" and the end of the plural
/// marker (the end of the "bot" where there is none).
pub open spec fn bot_at(s: Seq<char>, j: int) -> Option<(int, int)> {
    if 0 <= j < s.len() && (s[j] == 'B' || s[j] == 'b') {
        let o = skip_junk(s, j + 1);
        if o < s.len() && (s[o] == 'O' || s[o] == 'o') {
            let t = skip_junk(s, o + 1);
            if t < s.len() && (s[t] == 'T' || s[t] == 't') {
                let u = skip_junk(s, t + 1);
                if u < s.len() && (s[u] == 'S' || s[u] == 's') {
                    Some((t + 1, u + 1))
                } else {
                    Some((t + 1, t + 1))
                }
            } else {
                None
            }
        } else {
            None
        }
    } else {
        None
    }
}

/// The latest position `k` with `i < k <= j` where a "bot" is written.
pub open spec fn last_bot(s: Seq<char>, i: int, j: int) -> Option<int>
    decreases j - i,
{
    if j <= i {
        None
    } else if bot_at(s, j) is Some {
        Some(j)
    } else {
        last_bot(s, i, j - 1)
    }
}

/// One full robot name in a text: where it starts, where its "bot" starts
/// and ends, and where the whole match ends.
pub struct BotMatch {
    pub start: int,
    pub sfx: int,
    pub sfx_end: int,
    pub end: int,
}

/// The leftmost full robot name at or after position `i`: a run of
/// non-whitespace characters followed, within the same run, by a written
/// "bot"; where the run holds several, the last one is the name's "bot".
pub open spec fn find_bot(s: Seq<char>, i: int) -> Option<BotMatch>
    decreases s.len() - i,
{
    if i < 0 || i >= s.len() {
        None
    } else if !is_ws(s[i]) && last_bot(s, i, run_end(s, i) - 1) is Some {
        let j = last_bot(s, i, run_end(s, i) - 1)->0;
        let (e, m) = bot_at(s, j)->0;
        Some(BotMatch { start: i, sfx: j, sfx_end: e, end: m })
    } else {
        find_bot(s, i + 1)
    }
}

/// The first `n` full robot names from position `i`, each search starting
/// where the previous name ended.
pub open spec fn bot_matches(s: Seq<char>, i: int, n: nat) -> Seq<BotMatch>
    decreases n,
{
    if n == 0 {
        seq![]
    } else {
        match find_bot(s, i) {
            None => seq![],
            Some(m) => seq![m] + bot_matches(s, m.end, (n - 1) as nat),
        }
    }
}

/// The word "and", in any case.
pub open spec fn is_and(w: Seq<char>) -> bool {
    &&& w.len() == 3
    &&& (w[0] == 'a' || w[0] == 'A')
    &&& (w[1] == 'n' || w[1] == 'N')
    &&& (w[2] == 'd' || w[2] == 'D')
}

pub open spec fn has_non_digit(w: Seq<char>) -> bool {
    exists|k: int| 0 <= k < w.len() && !is_digit(#[trigger] w[k])
}

/// The shorthand name a word gives: its leading run of word characters,
/// where the word is not "and", the run is at least two characters long and
/// not all ASCII digits.
pub open spec fn partial_of(w: Seq<char>) -> Option<Seq<char>> {
    let r = w.take(skip_word(w, 0));
    if !is_and(w) && r.len() >= 2 && has_non_digit(r) {
        Some(r)
    } else {
        None
    }
}

/// The first `n` shorthand names among the whitespace-separated words of
/// `t` from position `i`.
pub open spec fn partial_names(t: Seq<char>, i: int, n: nat) -> Seq<Seq<char>>
    decreases t.len() - i,
{
    let a = skip_ws(t, i);
    let b = run_end(t, a);
    if n == 0 || a >= t.len() || !(i < b <= t.len()) {
        seq![]
    } else {
        match partial_of(t.subrange(a, b)) {
            Some(p) => seq![p] + partial_names(t, b, (n - 1) as nat),
            None => partial_names(t, b, n),
        }
    }
}

pub open spec fn full_name(s: Seq<char>, m: BotMatch) -> RobotNameView {
    RobotNameView {
        prefix: s.subrange(m.start, m.sfx),
        suffix: s.subrange(m.sfx, m.sfx_end),
        plural: if m.end > m.sfx_end {
            Some(s.subrange(m.sfx_end, m.end))
        } else {
            None
        },
    }
}

/// The names of up to `target` robots in `s`, whether shorthand names were
/// used, and the position after the last full name. The full names are the
/// first `target` found. Where fewer were found and the first does not open
/// the text, shorthand names from the words before it fill the gap: each
/// borrows the first full name's "bot" and plural marker, and they come
/// first. `None` where no full name is found.
pub open spec fn names_spec(s: Seq<char>, target: nat) -> Option<(Seq<RobotNameView>, bool, int)> {
    let ms = bot_matches(s, 0, target);
    if ms.len() == 0 {
        None
    } else {
        let full = Seq::new(ms.len(), |k: int| full_name(s, ms[k]));
        let partial = ms.len() < target && ms[0].start > 0;
        let names = if partial {
            let ps = partial_names(s.take(ms[0].start), 0, (target - ms.len()) as nat);
            Seq::new(
                ps.len(),
                |k: int| RobotNameView { prefix: ps[k], suffix: full[0].suffix, plural: full[0].plural },
            ) + full
        } else {
            full
        };
        Some((names, partial, ms.last().end))
    }
}

fn skip_junk_exec(s: &[char], i: usize) -> (r: usize)
    requires
        i <= s@.len(),
    ensures
        r == skip_junk(s@, i as int),
        i <= r <= s@.len(),
{
    let mut k = i;
    while k < s.len() && !is_word_char(s[k]) && !is_white_space(s[k])
        invariant
            i <= k <= s@.len(),
            skip_junk(s@, k as int) == skip_junk(s@, i as int),
        decreases s@.len() - k,
    {
        k = k + 1;
    }
    k
}

fn run_end_exec(s: &[char], i: usize) -> (r: usize)
    requires
        i <= s@.len(),
    ensures
        r == run_end(s@, i as int),
        i <= r <= s@.len(),
{
    let mut k = i;
    while k < s.len() && !is_white_space(s[k])
        invariant
            i <= k <= s@.len(),
            run_end(s@, k as int) == run_end(s@, i as int),
        decreases s@.len() - k,
    {
        k = k + 1;
    }
    k
}

fn skip_word_exec(s: &[char], i: usize) -> (r: usize)
    requires
        i <= s@.len(),
    ensures
        r == skip_word(s@, i as int),
        i <= r <= s@.len(),
{
    let mut k = i;
    while k < s.len() && is_word_char(s[k])
        invariant
            i <= k <= s@.len(),
            skip_word(s@, k as int) == skip_word(s@, i as int),
        decreases s@.len() - k,
    {
        k = k + 1;
    }
    k
}

fn bot_at_exec(s: &[char], j: usize) -> (r: Option<(usize, usize)>)
    requires
        j < s@.len(),
    ensures
        match bot_at(s@, j as int) {
            None => r is None,
            Some((e, m)) => r matches Some((x, y)) && x == e && y == m && j < e <= m <= s@.len(),
        },
{
    if !(s[j] == 'B' || s[j] == 'b') {
        return None;
    }
    let o = skip_junk_exec(s, j + 1);
    if !(o < s.len() && (s[o] == 'O' || s[o] == 'o')) {
        return None;
    }
    let t = skip_junk_exec(s, o + 1);
    if !(t < s.len() && (s[t] == 'T' || s[t] == 't')) {
        return None;
    }
    let u = skip_junk_exec(s, t + 1);
    if u < s.len() && (s[u] == 'S' || s[u] == 's') {
        Some((t + 1, u + 1))
    } else {
        Some((t + 1, t + 1))
    }
}

fn last_bot_exec(s: &[char], i: usize, j: usize) -> (r: Option<usize>)
    requires
        j < s@.len(),
    ensures
        match last_bot(s@, i as int, j as int) {
            None => r is None,
            Some(k) => r == Some(k as usize) && i < k <= j,
        },
{
    let mut k = j;
    while k > i
        invariant
            k <= j < s@.len(),
            last_bot(s@, i as int, k as int) == last_bot(s@, i as int, j as int),
            forall|x: int| k < x <= j ==> bot_at(s@, x) is None,
        decreases k,
    {
        if bot_at_exec(s, k).is_some() {
            return Some(k);
        }
        k = k - 1;
    }
    None
}

proof fn lemma_last_bot(s: Seq<char>, i: int, j: int)
    ensures
        last_bot(s, i, j) matches Some(k) ==> i < k <= j && bot_at(s, k) is Some,
    decreases j - i,
{
    if j > i && bot_at(s, j) is None {
        lemma_last_bot(s, i, j - 1);
    }
}

proof fn lemma_run_end(s: Seq<char>, i: int)
    requires
        0 <= i <= s.len(),
    ensures
        i <= run_end(s, i) <= s.len(),
        i < s.len() && !is_ws(s[i]) ==> i < run_end(s, i),
    decreases s.len() - i,
{
    if i < s.len() && !is_ws(s[i]) {
        lemma_run_end(s, i + 1);
    }
}

proof fn lemma_find_bot(s: Seq<char>, i: int)
    requires
        0 <= i,
    ensures
        find_bot(s, i) matches Some(m) ==> i <= m.start < m.sfx < m.sfx_end <= m.end <= s.len(),
    decreases s.len() - i,
{
    if i < s.len() {
        if !is_ws(s[i]) && last_bot(s, i, run_end(s, i) - 1) is Some {
            lemma_run_end(s, i);
            lemma_last_bot(s, i, run_end(s, i) - 1);
            let j = last_bot(s, i, run_end(s, i) - 1)->0;
            lemma_bot_at(s, j);
        } else {
            lemma_find_bot(s, i + 1);
        }
    }
}

proof fn lemma_skip_junk(s: Seq<char>, i: int)
    requires
        0 <= i <= s.len(),
    ensures
        i <= skip_junk(s, i) <= s.len(),
    decreases s.len() - i,
{
    if i < s.len() && is_junk(s[i]) {
        lemma_skip_junk(s, i + 1);
    }
}

proof fn lemma_bot_at(s: Seq<char>, j: int)
    ensures
        bot_at(s, j) matches Some((e, m)) ==> j < e <= m <= s.len(),
{
    if 0 <= j < s.len() {
        lemma_skip_junk(s, j + 1);
        let o = skip_junk(s, j + 1);
        if o < s.len() {
            lemma_skip_junk(s, o + 1);
            let t = skip_junk(s, o + 1);
            if t < s.len() {
                lemma_skip_junk(s, t + 1);
            }
        }
    }
}

fn find_bot_exec(s: &[char], i: usize) -> (r: Option<(usize, usize, usize, usize)>)
    requires
        i <= s@.len(),
    ensures
        match find_bot(s@, i as int) {
            None => r is None,
            Some(m) => r matches Some((a, b, c, d)) && a == m.start && b == m.sfx && c == m.sfx_end
                && d == m.end,
        },
{
    let mut k = i;
    while k < s.len()
        invariant
            i <= k <= s@.len(),
            find_bot(s@, k as int) == find_bot(s@, i as int),
        decreases s@.len() - k,
    {
        if !is_white_space(s[k]) {
            let re = run_end_exec(s, k);
            proof {
                lemma_run_end(s@, k as int);
                lemma_last_bot(s@, k as int, re - 1);
            }
            let j = last_bot_exec(s, k, re - 1);
            if let Some(j) = j {
                let (e, m) = bot_at_exec(s, j).unwrap();
                return Some((k, j, e, m));
            }
        }
        k = k + 1;
    }
    None
}

/// Positions of one match, in order and within a text of length `n`.
pub open spec fn match_ok(m: (usize, usize, usize, usize), n: int) -> bool {
    m.0 < m.1 && m.1 < m.2 && m.2 <= m.3 && m.3 <= n
}

/// A span within a text of length `n`.
pub open spec fn span_ok(p: (usize, usize), n: int) -> bool {
    p.0 <= p.1 && p.1 <= n
}

/// The views of the names made from a list of matches.
pub open spec fn full_names(s: Seq<char>, ms: Seq<BotMatch>) -> Seq<RobotNameView> {
    Seq::new(ms.len(), |k: int| full_name(s, ms[k]))
}

/// The matches that the exec tuples stand for.
pub open spec fn matches_view(v: Seq<(usize, usize, usize, usize)>) -> Seq<BotMatch> {
    Seq::new(
        v.len(),
        |k: int| BotMatch { start: v[k].0 as int, sfx: v[k].1 as int, sfx_end: v[k].2 as int, end: v[k].3 as int },
    )
}

/// The first `n` full names from the start of `s`.
fn collect_matches(s: &[char], n: usize) -> (r: Vec<(usize, usize, usize, usize)>)
    ensures
        matches_view(r@) == bot_matches(s@, 0, n as nat),
        forall|k: int| 0 <= k < r@.len() ==> match_ok(#[trigger] r@[k], s@.len() as int),
{
    let mut found: Vec<(usize, usize, usize, usize)> = Vec::new();
    let mut pos: usize = 0;
    while found.len() < n
        invariant
            found@.len() <= n,
            pos <= s@.len(),
            matches_view(found@) + bot_matches(s@, pos as int, (n - found@.len()) as nat)
                == bot_matches(s@, 0, n as nat),
            forall|k: int| 0 <= k < found@.len() ==> match_ok(#[trigger] found@[k], s@.len() as int),
        decreases n - found@.len(),
    {
        proof {
            lemma_find_bot(s@, pos as int);
        }
        match find_bot_exec(s, pos) {
            None => {
                proof {
                    assert(bot_matches(s@, pos as int, (n - found@.len()) as nat) =~= seq![]);
                    assert(matches_view(found@) + seq![] =~= matches_view(found@));
                }
                return found;
            },
            Some(m) => {
                let ghost rem = (n - found@.len()) as nat;
                let ghost before = matches_view(found@);
                found.push(m);
                proof {
                    let bm = find_bot(s@, pos as int)->0;
                    assert(bot_matches(s@, pos as int, rem) == seq![bm] + bot_matches(
                        s@,
                        bm.end,
                        (rem - 1) as nat,
                    ));
                    assert(matches_view(found@) =~= before.push(bm));
                    assert(before + (seq![bm] + bot_matches(s@, bm.end, (rem - 1) as nat))
                        =~= before.push(bm) + bot_matches(s@, bm.end, (rem - 1) as nat));
                }
                pos = m.3;
            },
        }
    }
    proof {
        assert(bot_matches(s@, pos as int, 0) =~= seq![]);
        assert(matches_view(found@) + seq![] =~= matches_view(found@));
    }
    found
}

/// The length of the shorthand name that a word gives, if any.
fn partial_len(w: &[char]) -> (r: Option<usize>)
    ensures
        match partial_of(w@) {
            None => r is None,
            Some(p) => r matches Some(l) && l <= w@.len() && p == w@.take(l as int),
        },
{
    if w.len() == 3 && (w[0] == 'a' || w[0] == 'A') && (w[1] == 'n' || w[1] == 'N') && (w[2] == 'd'
        || w[2] == 'D') {
        return None;
    }
    let l = skip_word_exec(w, 0);
    if l < 2 {
        return None;
    }
    let mut k: usize = 0;
    while k < l
        invariant
            k <= l <= w@.len(),
            2 <= l,
            l == skip_word(w@, 0),
            !is_and(w@),
            forall|x: int| 0 <= x < k ==> is_digit(w@[x]),
        decreases l - k,
    {
        if !('0' <= w[k] && w[k] <= '9') {
            proof {
                assert(!is_digit(w@.take(l as int)[k as int]));
                assert(has_non_digit(w@.take(l as int)));
                assert(!is_and(w@));
            }
            return Some(l);
        }
        k = k + 1;
    }
    proof {
        assert forall|x: int| 0 <= x < l implies is_digit(#[trigger] w@.take(l as int)[x]) by {
            assert(w@.take(l as int)[x] == w@[x]);
        }
    }
    None
}

/// The shorthand names that position pairs of `t` stand for.
pub open spec fn spans_view(t: Seq<char>, v: Seq<(usize, usize)>) -> Seq<Seq<char>> {
    Seq::new(v.len(), |k: int| t.subrange(v[k].0 as int, v[k].1 as int))
}

/// The spans of the first `n` shorthand names among the words of `t`.
fn collect_partials(t: &[char], n: usize) -> (r: Vec<(usize, usize)>)
    ensures
        spans_view(t@, r@) == partial_names(t@, 0, n as nat),
        forall|k: int| 0 <= k < r@.len() ==> span_ok(#[trigger] r@[k], t@.len() as int),
{
    let mut out: Vec<(usize, usize)> = Vec::new();
    let mut i: usize = 0;
    while out.len() < n
        invariant
            out@.len() <= n,
            i <= t@.len(),
            spans_view(t@, out@) + partial_names(t@, i as int, (n - out@.len()) as nat)
                == partial_names(t@, 0, n as nat),
            forall|k: int| 0 <= k < out@.len() ==> span_ok(#[trigger] out@[k], t@.len() as int),
        decreases t@.len() - i,
    {
        let ghost rem = (n - out@.len()) as nat;
        let a = skip_white_space(t, i);
        proof {
            lemma_skip_ws_bounds(t@, i as int);
        }
        if a >= t.len() {
            proof {
                assert(partial_names(t@, i as int, rem) =~= seq![]);
                assert(spans_view(t@, out@) + seq![] =~= spans_view(t@, out@));
            }
            return out;
        }
        let b = run_end_exec(t, a);
        proof {
            lemma_run_end(t@, a as int);
        }
        let w = slice_subrange(t, a, b);
        let ghost before = spans_view(t@, out@);
        match partial_len(w) {
            Some(l) => {
                out.push((a, a + l));
                proof {
                    assert(w@.take(l as int) =~= t@.subrange(a as int, a + l));
                    assert(spans_view(t@, out@) =~= before.push(t@.subrange(a as int, a + l)));
                    let p = t@.subrange(a as int, a + l);
                    assert(partial_names(t@, i as int, rem) == seq![p] + partial_names(
                        t@,
                        b as int,
                        (rem - 1) as nat,
                    ));
                    assert(before + (seq![p] + partial_names(t@, b as int, (rem - 1) as nat))
                        =~= before.push(p) + partial_names(t@, b as int, (rem - 1) as nat));
                }
            },
            None => {},
        }
        i = b;
    }
    proof {
        assert(partial_names(t@, i as int, 0) =~= seq![]);
        assert(spans_view(t@, out@) + seq![] =~= spans_view(t@, out@));
    }
    out
}

fn opt_clone(o: &Option<String>) -> (r: Option<String>)
    ensures
        r == *o,
{
    match o {
        Some(p) => Some(p.clone()),
        None => None,
    }
}

/// Finds the names of up to `target_n` robots in `s`: the first `target_n`
/// full names (a run of non-whitespace characters ending in a written
/// "bot", with an optional plural marker), preceded, where fewer were found
/// and the first does not open the text, by shorthand names from the words
/// before the first full name. Yields the names, whether shorthand names were
/// used, and the text after the last full name; `None` where no full name is
/// found.
pub fn parse_names(s: &str, target_n: usize) -> (r: Option<ParseOut<(Vec<RobotName>, bool)>>)
    ensures
        match names_spec(s@, target_n as nat) {
            None => r is None,
            Some((names, partial, rest)) => r matches Some(out) && out.output.1 == partial
                && out.output.0@.len() == names.len() && (forall|k: int|
                0 <= k < names.len() ==> #[trigger] out.output.0@[k]@ == names[k])
                && out.remainder@ == s@.skip(rest),
        },
{
    let v = chars_of(s);
    let sv = v.as_slice();
    let ms = collect_matches(sv, target_n);
    let ghost bms = bot_matches(s@, 0, target_n as nat);
    if ms.len() == 0 {
        return None;
    }
    let mut full: Vec<RobotName> = Vec::new();
    let mut k: usize = 0;
    while k < ms.len()
        invariant
            k <= ms@.len(),
            sv@ == s@,
            matches_view(ms@) == bms,
            forall|x: int| 0 <= x < ms@.len() ==> match_ok(#[trigger] ms@[x], sv@.len() as int),
            full@.len() == k,
            forall|x: int| 0 <= x < k ==> #[trigger] full@[x]@ == full_name(s@, bms[x]),
        decreases ms@.len() - k,
    {
        let (a, b, c, d) = ms[k];
        let prefix = string_from_chars(slice_subrange(sv, a, b));
        let suffix = string_from_chars(slice_subrange(sv, b, c));
        let plural = if d > c {
            Some(string_from_chars(slice_subrange(sv, c, d)))
        } else {
            None
        };
        let name = RobotName { prefix, suffix, plural };
        proof {
            assert(bms[k as int] == matches_view(ms@)[k as int]);
            assert(name@ == full_name(s@, bms[k as int]));
        }
        full.push(name);
        k = k + 1;
    }
    let first_start = ms[0].0;
    let last_end = ms[ms.len() - 1].3;
    let use_partial = ms.len() < target_n && first_start > 0;
    proof {
        assert(bms[0] == matches_view(ms@)[0]);
        assert(bms.last() == matches_view(ms@)[ms@.len() - 1]);
    }
    let tail = string_from_chars(slice_subrange(sv, last_end, sv.len()));
    if !use_partial {
        proof {
            assert(full_names(s@, bms) =~= Seq::new(full@.len(), |x: int| full@[x]@));
        }
        return Some(ParseOut { output: (full, false), remainder: tail });
    }
    let t = slice_subrange(sv, 0, first_start);
    let spans = collect_partials(t, target_n - ms.len());
    let ghost ps = partial_names(s@.take(first_start as int), 0, (target_n - ms@.len()) as nat);
    proof {
        assert(t@ =~= s@.take(first_start as int));
    }
    let mut names: Vec<RobotName> = Vec::new();
    let mut j: usize = 0;
    while j < spans.len()
        invariant
            j <= spans@.len(),
            t@ == s@.take(first_start as int),
            spans_view(t@, spans@) == ps,
            forall|x: int| 0 <= x < spans@.len() ==> span_ok(#[trigger] spans@[x], t@.len() as int),
            full@.len() >= 1,
            names@.len() == j,
            forall|x: int|
                0 <= x < j ==> #[trigger] names@[x]@ == (RobotNameView {
                    prefix: ps[x],
                    suffix: full@[0]@.suffix,
                    plural: full@[0]@.plural,
                }),
        decreases spans@.len() - j,
    {
        let (a, b) = spans[j];
        let prefix = string_from_chars(slice_subrange(t, a, b));
        let suffix = full[0].suffix.clone();
        let plural = opt_clone(&full[0].plural);
        proof {
            assert(ps[j as int] == spans_view(t@, spans@)[j as int]);
        }
        names.push(RobotName { prefix, suffix, plural });
        j = j + 1;
    }
    let ghost partial_part = names@;
    let mut m: usize = 0;
    while m < full.len()
        invariant
            m <= full@.len(),
            names@.len() == partial_part.len() + m,
            forall|x: int| 0 <= x < partial_part.len() ==> #[trigger] names@[x]@ == partial_part[x]@,
            forall|x: int| 0 <= x < m ==> #[trigger] names@[partial_part.len() + x]@ == full@[x]@,
        decreases full@.len() - m,
    {
        names.push(full[m].clone_name());
        m = m + 1;
    }
    proof {
        let fv = full_names(s@, bms);
        assert(fv[0] == full@[0]@);
        let (expected, _, _) = names_spec(s@, target_n as nat)->0;
        assert forall|x: int| 0 <= x < names@.len() implies #[trigger] names@[x]@ == expected[x] by {
            if x >= partial_part.len() {
                assert(names@[partial_part.len() + (x - partial_part.len())]@ == full@[x - partial_part.len()]@);
            }
        }
    }
    Some(ParseOut { output: (names, true), remainder: tail })
}

} // verus!
