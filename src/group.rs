//! A whole robot post: content warning, numbers, names and body.

use vstd::prelude::*;
use vstd::slice::slice_subrange;

use crate::chars::{chars_of, is_word_char, skip_white_space, string_from_chars, trim, trim_start, word_char, skip_ws};
use crate::cw::{cw_match, parse_cw};
use crate::names::{bot_matches, names_spec, parse_names, partial_names};
use crate::numbers::{number_prefix, number_prefix_exec};
use crate::robot::{ParsedGroup, Robot, RobotName, RobotNameView};

verus! {

/// The most robots that one post is read as describing.
pub const MAX_GROUP_SIZE: usize = 5;

/// The first position at or after `i` that holds a word character, or the
/// length of `s`.
pub open spec fn find_word(s: Seq<char>, i: int) -> int
    decreases s.len() - i,
{
    if 0 <= i < s.len() && !word_char(s[i]) {
        find_word(s, i + 1)
    } else {
        i
    }
}

/// The body of a post: the text from its first word character on, or
/// nothing where it has none.
pub open spec fn body_of(s: Seq<char>) -> Seq<char> {
    s.skip(find_word(s, 0))
}

/// A parsed group as character sequences and integers.
pub struct GroupView {
    pub robots: Seq<(int, RobotNameView)>,
    pub body: Seq<char>,
    pub cw: Option<Seq<char>>,
}

/// The content warning that opens `s`, if any, and the text after it.
pub open spec fn cw_split(s: Seq<char>) -> (Option<Seq<char>>, Seq<char>) {
    match cw_match(s) {
        None => (None, s),
        Some((a, b, e)) => (Some(trim(s.subrange(a, b))), s.skip(skip_ws(s, e))),
    }
}

/// How many robots a range of numbers names, at most `MAX_GROUP_SIZE`.
pub open spec fn group_size(lo: int, hi: int) -> nat {
    if hi - lo + 1 < MAX_GROUP_SIZE {
        (hi - lo + 1) as nat
    } else {
        MAX_GROUP_SIZE as nat
    }
}

/// The name as it stands in a group: without its plural marker where
/// shorthand names were used.
pub open spec fn group_name(n: RobotNameView, partial: bool) -> RobotNameView {
    if partial {
        RobotNameView { plural: None, ..n }
    } else {
        n
    }
}

/// A robot post read as a group: the content warning that may open it, the
/// range of numbers, as many names as the range has numbers (at most
/// `MAX_GROUP_SIZE`), each name numbered from the range's least number in
/// order, and the body after the names. `None` where the post has no number
/// prefix or no robot name.
pub open spec fn group_spec(text: Seq<char>) -> Option<GroupView> {
    let (cw, s1) = cw_split(trim_start(text));
    match number_prefix(s1) {
        None => None,
        Some((lo, hi, p)) => {
            let s2 = s1.skip(p);
            match names_spec(s2, group_size(lo, hi)) {
                None => None,
                Some((names, partial, rest)) => Some(
                    GroupView {
                        robots: Seq::new(
                            names.len(),
                            |k: int| (lo + k, group_name(names[k], partial)),
                        ),
                        body: body_of(s2.skip(rest)),
                        cw,
                    },
                ),
            }
        },
    }
}

impl View for ParsedGroup {
    type V = GroupView;

    open spec fn view(&self) -> GroupView {
        GroupView {
            robots: Seq::new(
                self.robots@.len(),
                |k: int| (self.robots@[k].number as int, self.robots@[k].name@),
            ),
            body: self.body@,
            cw: match self.cw {
                Some(c) => Some(c@),
                None => None,
            },
        }
    }
}

pub proof fn lemma_bot_matches_len(s: Seq<char>, i: int, n: nat)
    ensures
        bot_matches(s, i, n).len() <= n,
    decreases n,
{
    if n > 0 {
        match crate::names::find_bot(s, i) {
            None => {},
            Some(m) => lemma_bot_matches_len(s, m.end, (n - 1) as nat),
        }
    }
}

pub proof fn lemma_partial_names_len(t: Seq<char>, i: int, n: nat)
    ensures
        partial_names(t, i, n).len() <= n,
    decreases t.len() - i,
{
    let a = skip_ws(t, i);
    let b = crate::names::run_end(t, a);
    if n == 0 || a >= t.len() || !(i < b <= t.len()) {
    } else {
        match crate::names::partial_of(t.subrange(a, b)) {
            Some(p) => lemma_partial_names_len(t, b, (n - 1) as nat),
            None => lemma_partial_names_len(t, b, n),
        }
    }
}

/// There are no more names than the number asked for.
pub proof fn lemma_names_len(s: Seq<char>, target: nat)
    ensures
        names_spec(s, target) matches Some((names, _, _)) ==> names.len() <= target,
{
    let ms = bot_matches(s, 0, target);
    lemma_bot_matches_len(s, 0, target);
    if ms.len() > 0 && ms.len() < target && ms[0].start > 0 {
        lemma_partial_names_len(s.take(ms[0].start), 0, (target - ms.len()) as nat);
    }
}

/// A post read as a group names at least one robot and at most
/// `MAX_GROUP_SIZE`, numbered one after another from the range's least
/// number.
pub proof fn lemma_group_size(text: Seq<char>)
    ensures
        group_spec(text) matches Some(g) ==> 1 <= g.robots.len() <= MAX_GROUP_SIZE && forall|k: int|
            0 < k < g.robots.len() ==> #[trigger] g.robots[k].0 == g.robots[0].0 + k,
{
    let (cw, s1) = cw_split(trim_start(text));
    match number_prefix(s1) {
        None => {},
        Some((lo, hi, p)) => {
            let s2 = s1.skip(p);
            lemma_names_len(s2, group_size(lo, hi));
            match names_spec(s2, group_size(lo, hi)) {
                None => {},
                Some((names, partial, rest)) => {
                    let ms = bot_matches(s2, 0, group_size(lo, hi));
                    let full = Seq::new(ms.len(), |k: int| crate::names::full_name(s2, ms[k]));
                    assert(names.len() >= full.len());
                },
            }
        },
    }
}

fn find_word_exec(s: &[char], i: usize) -> (r: usize)
    requires
        i <= s@.len(),
    ensures
        r == find_word(s@, i as int),
        i <= r <= s@.len(),
{
    let mut k = i;
    while k < s.len() && !is_word_char(s[k])
        invariant
            i <= k <= s@.len(),
            find_word(s@, k as int) == find_word(s@, i as int),
        decreases s@.len() - k,
    {
        k = k + 1;
    }
    k
}

/// Reads a robot post: an optional content warning, the numbers of the
/// robots before the first `)`, up to `MAX_GROUP_SIZE` robot names (as many
/// as the numbers name), and the body from the first word character after
/// the names. Each robot is numbered from the least number in order; where
/// shorthand names were used, no name keeps its plural marker. `None` where
/// the post has no number prefix or no robot name.
pub fn parse_group(text: &str) -> (r: Option<ParsedGroup>)
    ensures
        match group_spec(text@) {
            None => r is None,
            Some(g) => r matches Some(pg) && pg@ == g,
        },
{
    let v0 = chars_of(text);
    let a = skip_white_space(v0.as_slice(), 0);
    let s0 = string_from_chars(slice_subrange(v0.as_slice(), a, v0.len()));
    let cw_out = parse_cw(s0.as_str());
    let cw = cw_out.output;
    let ghost s1 = cw_out.remainder@;
    proof {
        assert(s1 == cw_split(trim_start(text@)).1);
    }
    let v1 = chars_of(cw_out.remainder.as_str());
    let (lo, hi, p) = match number_prefix_exec(v1.as_slice()) {
        None => return None,
        Some(x) => x,
    };
    let s2 = string_from_chars(slice_subrange(v1.as_slice(), p, v1.len()));
    let width: i64 = hi as i64 - lo as i64 + 1;
    let target: usize = if width < MAX_GROUP_SIZE as i64 {
        width as usize
    } else {
        MAX_GROUP_SIZE
    };
    proof {
        assert(target == group_size(lo as int, hi as int));
        lemma_names_len(s2@, target as nat);
    }
    let names_out = match parse_names(s2.as_str(), target) {
        None => return None,
        Some(x) => x,
    };
    let (names, partial) = names_out.output;
    let v3 = chars_of(names_out.remainder.as_str());
    let f = find_word_exec(v3.as_slice(), 0);
    let body = string_from_chars(slice_subrange(v3.as_slice(), f, v3.len()));
    let ghost expected = group_spec(text@)->0;
    let mut robots: Vec<Robot> = Vec::new();
    let mut k: usize = 0;
    while k < names.len()
        invariant
            k <= names@.len(),
            names@.len() <= target,
            target <= MAX_GROUP_SIZE,
            target as int <= hi - lo + 1,
            expected.robots.len() == names@.len(),
            forall|x: int|
                0 <= x < names@.len() ==> #[trigger] expected.robots[x] == (
                    lo + x,
                    group_name(names@[x]@, partial),
                ),
            robots@.len() == k,
            forall|x: int|
                0 <= x < k ==> (#[trigger] robots@[x]).number == lo + x && robots@[x].name@
                    == group_name(names@[x]@, partial),
        decreases names@.len() - k,
    {
        let n = &names[k];
        let name = if partial {
            RobotName { prefix: n.prefix.clone(), suffix: n.suffix.clone(), plural: None }
        } else {
            n.clone_name()
        };
        robots.push(Robot { number: lo + k as i32, name });
        k = k + 1;
    }
    let pg = ParsedGroup { robots, body, cw };
    proof {
        assert(pg@.robots =~= expected.robots);
    }
    Some(pg)
}

} // verus!
