//! Logic of the archive's web pages: pagination, image links and search
//! terms.

use vstd::prelude::*;
use vstd::slice::slice_subrange;

use crate::chars::{chars_of, is_ws, lemma_skip_ws_bounds, skip_white_space, skip_ws, string_from_chars};
use crate::ident_buf::{dec_i32, fmt_i32, parse_i32, decimal};
use crate::robot::{storage_name, storage_name_of};

verus! {

/// The pagination menu of a page of the archive. Pages are numbered from
/// zero.
#[derive(Clone, Copy, Debug, PartialEq, Eq)]
pub struct Pagination {
    pub current_page: u32,
    pub min_range_page: u32,
    pub max_range_page: u32,
    pub first_page: Option<u32>,
    pub last_page: Option<u32>,
    pub prev_page: Option<u32>,
    pub next_page: Option<u32>,
}

/// The spaces of the pagination menu.
pub const TOTAL_SPACES: u32 = 9;

/// The spaces on either side of the current page.
pub const ADJACENT_SPACES: u32 = 4;

/// The pagination of page `current` of `num` pages: the current page, the
/// range of pages listed around it, the first and last page where they fall
/// outside that range, and the pages before and after it. With at most
/// `TOTAL_SPACES` pages all are listed. `None` where the page does not exist.
pub open spec fn pagination_spec(current: u32, num: u32) -> Option<Pagination> {
    if num <= current {
        None
    } else {
        let last = (num - 1) as u32;
        let prev = if current > 0 { Some((current - 1) as u32) } else { None };
        let next = if current < last { Some((current + 1) as u32) } else { None };
        if num <= TOTAL_SPACES {
            Some(Pagination {
                current_page: current,
                min_range_page: 0,
                max_range_page: last,
                first_page: None,
                last_page: None,
                prev_page: prev,
                next_page: next,
            })
        } else {
            let centre = if current < ADJACENT_SPACES {
                ADJACENT_SPACES
            } else if current > last - ADJACENT_SPACES {
                (last - ADJACENT_SPACES) as u32
            } else {
                current
            };
            let lo = (centre - ADJACENT_SPACES) as u32;
            let hi = (centre + ADJACENT_SPACES) as u32;
            Some(Pagination {
                current_page: current,
                min_range_page: if lo > 0 { (lo + 1) as u32 } else { lo },
                max_range_page: if hi < last { (hi - 1) as u32 } else { hi },
                first_page: if lo > 0 { Some(0) } else { None },
                last_page: if hi < last { Some(last) } else { None },
                prev_page: prev,
                next_page: next,
            })
        }
    }
}

impl Pagination {
    pub fn try_new(current_page: u32, num_pages: u32) -> (r: Option<Self>)
        ensures
            r == pagination_spec(current_page, num_pages),
    {
        if num_pages <= current_page {
            return None;
        }
        let last_page = num_pages - 1;
        let prev_page = if current_page > 0 { Some(current_page - 1) } else { None };
        let next_page = if current_page < last_page { Some(current_page + 1) } else { None };
        if num_pages <= TOTAL_SPACES {
            return Some(Pagination {
                current_page,
                min_range_page: 0,
                max_range_page: last_page,
                first_page: None,
                last_page: None,
                prev_page,
                next_page,
            });
        }
        let centre = if current_page < ADJACENT_SPACES {
            ADJACENT_SPACES
        } else if current_page > last_page - ADJACENT_SPACES {
            last_page - ADJACENT_SPACES
        } else {
            current_page
        };
        let lo = centre - ADJACENT_SPACES;
        let hi = centre + ADJACENT_SPACES;
        let (min_range_page, first_page) = if lo > 0 { (lo + 1, Some(0)) } else { (lo, None) };
        let (max_range_page, last) = if hi < last_page { (hi - 1, Some(last_page)) } else { (hi, None) };
        Some(Pagination {
            current_page,
            min_range_page,
            max_range_page,
            first_page,
            last_page: last,
            prev_page,
            next_page,
        })
    }
}

/// The alt text shown where a robot image has none.
pub const MISSING_ALT: &'static str =
    "Sorry, no alt text was found for this robot. Please let me know at pantonshire@gmail.com, and I'll fix it as soon as I can.";

/// The path under which robot images are served.
pub const IMAGE_PREFIX: &'static str = "/robot_images/";

/// A robot's image as the pages show it.
#[derive(Clone, Debug)]
pub struct RobotImage {
    pub file_name: Option<String>,
    pub orig_alt: Option<String>,
    pub custom_alt: Option<String>,
}

impl RobotImage {
    /// The image's URL path, where there is an image.
    pub fn resource_url(&self) -> (r: Option<String>)
        ensures
            match self.file_name {
                None => r is None,
                Some(f) => r matches Some(u) && u@ == IMAGE_PREFIX@ + f@,
            },
    {
        match &self.file_name {
            None => None,
            Some(f) => {
                let mut v = chars_of(IMAGE_PREFIX);
                let mut fc = chars_of(f.as_str());
                v.append(&mut fc);
                Some(string_from_chars(v.as_slice()))
            },
        }
    }

    /// The image's alt text: the custom one, else the one posted with it, else
    /// `MISSING_ALT`.
    pub fn alt(&self) -> (r: &str)
        ensures
            r@ == match self.custom_alt {
                Some(c) => c@,
                None => match self.orig_alt {
                    Some(o) => o@,
                    None => MISSING_ALT@,
                },
            },
    {
        match &self.custom_alt {
            Some(c) => c.as_str(),
            None => match &self.orig_alt {
                Some(o) => o.as_str(),
                None => MISSING_ALT,
            },
        }
    }
}

/// The link to a robot's page: `/robots/{number}/{ident}`.
pub open spec fn page_link_spec(number: int, ident: Seq<char>) -> Seq<char> {
    "/robots/"@ + decimal(number) + seq!['/'] + ident
}

/// The link to a robot's page.
pub fn page_link(robot_number: i32, ident: &str) -> (r: String)
    ensures
        r@ == page_link_spec(robot_number as int, ident@),
{
    let mut v = chars_of("/robots/");
    let mut n = fmt_i32(robot_number);
    v.append(&mut n);
    v.push('/');
    let mut i = chars_of(ident);
    v.append(&mut i);
    string_from_chars(v.as_slice())
}

/// The whitespace-separated words of `t` from position `i`.
pub open spec fn words_from(t: Seq<char>, i: int) -> Seq<Seq<char>>
    decreases t.len() - i,
{
    let a = skip_ws(t, i);
    let b = crate::names::run_end(t, a);
    if a >= t.len() || !(i < b <= t.len()) {
        seq![]
    } else {
        seq![t.subrange(a, b)] + words_from(t, b)
    }
}

/// The storage names of the words, without those that come out empty.
pub open spec fn word_names(ws: Seq<Seq<char>>) -> Seq<Seq<char>>
    decreases ws.len(),
{
    if ws.len() == 0 {
        seq![]
    } else {
        let rest = word_names(ws.drop_last());
        let n = storage_name(ws.last());
        if n.len() == 0 {
            rest
        } else {
            rest.push(n)
        }
    }
}

/// A word without a trailing "bot" or "bots", where that leaves something.
pub open spec fn without_bot(w: Seq<char>) -> Option<Seq<char>> {
    if w.len() >= 3 && w.skip(w.len() - 3) == "bot"@ {
        if w.len() > 3 {
            Some(w.take(w.len() - 3))
        } else {
            None
        }
    } else if w.len() > 4 && w.skip(w.len() - 4) == "bots"@ {
        Some(w.take(w.len() - 4))
    } else {
        None
    }
}

/// The search terms of a list of names: each name, preceded by itself
/// without a trailing "bot" or "bots" where that leaves something.
pub open spec fn terms_of(ns: Seq<Seq<char>>) -> Seq<Seq<char>>
    decreases ns.len(),
{
    if ns.len() == 0 {
        seq![]
    } else {
        let rest = terms_of(ns.drop_last());
        let w = ns.last();
        match without_bot(w) {
            Some(t) => rest.push(t).push(w),
            None => rest.push(w),
        }
    }
}

/// The search terms of a query: the storage names of its words, each also
/// without a trailing "bot" or "bots"; `None` where no word has a storage
/// name.
pub open spec fn query_terms_spec(q: Seq<char>) -> Option<Seq<Seq<char>>> {
    let ns = word_names(words_from(q, 0));
    if ns.len() == 0 {
        None
    } else {
        Some(terms_of(ns))
    }
}

proof fn lemma_run_end_bounds(t: Seq<char>, a: int)
    requires
        0 <= a <= t.len(),
    ensures
        a <= crate::names::run_end(t, a) <= t.len(),
        a < t.len() && !is_ws(t[a]) ==> a < crate::names::run_end(t, a),
    decreases t.len() - a,
{
    if a < t.len() && !is_ws(t[a]) {
        lemma_run_end_bounds(t, a + 1);
    }
}

fn run_end_of(t: &[char], i: usize) -> (r: usize)
    requires
        i <= t@.len(),
    ensures
        r == crate::names::run_end(t@, i as int),
{
    let mut k = i;
    while k < t.len() && !crate::chars::is_white_space(t[k])
        invariant
            i <= k <= t@.len(),
            crate::names::run_end(t@, k as int) == crate::names::run_end(t@, i as int),
        decreases t@.len() - k,
    {
        k = k + 1;
    }
    k
}

fn ends_with(w: &[char], suffix: &str) -> (r: bool)
    ensures
        r == (w@.len() >= suffix@.len() && w@.skip(w@.len() - suffix@.len()) == suffix@),
{
    let s = chars_of(suffix);
    if w.len() < s.len() {
        return false;
    }
    let wl = w.len();
    let off = wl - s.len();
    let mut i: usize = 0;
    while i < s.len()
        invariant
            i <= s@.len(),
            s@ == suffix@,
            off + s@.len() == w@.len(),
            w@.len() == wl,
            forall|k: int| 0 <= k < i ==> w@[off + k] == s@[k],
        decreases s@.len() - i,
    {
        if w[off + i] != s[i] {
            proof {
                assert(w@.skip(off as int)[i as int] != s@[i as int]);
            }
            return false;
        }
        i = i + 1;
    }
    proof {
        assert(w@.skip(off as int) =~= s@);
    }
    true
}

/// The search terms of a query: the storage names of its words, each also
/// without a trailing "bot" or "bots" where that leaves something. `None`
/// where no word has a storage name.
pub fn to_query_terms(query: &str) -> (r: Option<Vec<String>>)
    ensures
        match query_terms_spec(query@) {
            None => r is None,
            Some(ts) => r matches Some(v) && v@.len() == ts.len() && forall|k: int|
                0 <= k < ts.len() ==> #[trigger] v@[k]@ == ts[k],
        },
{
    let q = chars_of(query);
    let qs = q.as_slice();
    let mut names: Vec<String> = Vec::new();
    let mut i: usize = 0;
    let ghost all = words_from(q@, 0);
    let ghost mut seen: Seq<Seq<char>> = seq![];
    proof {
        assert(seq![] + all =~= all);
    }
    loop
        invariant
            i <= q@.len(),
            q@ == query@,
            qs@ == q@,
            all == words_from(q@, 0),
            seen + words_from(q@, i as int) == all,
            names@.len() == word_names(seen).len(),
            forall|k: int| 0 <= k < names@.len() ==> #[trigger] names@[k]@ == word_names(seen)[k],
        ensures
            seen == all,
            names@.len() == word_names(seen).len(),
            forall|k: int| 0 <= k < names@.len() ==> #[trigger] names@[k]@ == word_names(seen)[k],
        decreases q@.len() - i,
    {
        let a = skip_white_space(qs, i);
        proof {
            lemma_skip_ws_bounds(q@, i as int);
            lemma_run_end_bounds(q@, a as int);
        }
        if a >= qs.len() {
            proof {
                assert(words_from(q@, i as int) =~= Seq::<Seq<char>>::empty());
                assert(seen =~= all);
            }
            break;
        }
        let b = run_end_of(qs, a);
        let w = string_from_chars(slice_subrange(qs, a, b));
        let n = storage_name_of(w.as_str());
        proof {
            assert(words_from(q@, i as int) == seq![q@.subrange(a as int, b as int)] + words_from(q@, b as int));
            assert(seen.push(q@.subrange(a as int, b as int)) + words_from(q@, b as int) =~= seen + words_from(q@, i as int));
            assert(seen.push(w@).drop_last() =~= seen);
            seen = seen.push(w@);
        }
        if !n.as_str().is_empty() {
            names.push(n);
        }
        i = b;
    }
    if names.len() == 0 {
        return None;
    }
    let mut terms: Vec<String> = Vec::new();
    let mut j: usize = 0;
    let ghost ns = word_names(seen);
    while j < names.len()
        invariant
            j <= names@.len(),
            names@.len() == ns.len(),
            forall|k: int| 0 <= k < names@.len() ==> #[trigger] names@[k]@ == ns[k],
            terms@.len() == terms_of(ns.take(j as int)).len(),
            forall|k: int| 0 <= k < terms@.len() ==> #[trigger] terms@[k]@ == terms_of(ns.take(j as int))[k],
        decreases names@.len() - j,
    {
        let w = chars_of(names[j].as_str());
        let ws = w.as_slice();
        proof {
            assert(ns.take(j + 1).drop_last() =~= ns.take(j as int));
            assert(ns.take(j + 1).last() == ns[j as int]);
            reveal_strlit("bot");
            reveal_strlit("bots");
        }
        let ghost before = terms_of(ns.take(j as int));
        if ends_with(ws, "bot") {
            if ws.len() > 3 {
                terms.push(string_from_chars(slice_subrange(ws, 0, ws.len() - 3)));
            }
        } else if ends_with(ws, "bots") && ws.len() > 4 {
            terms.push(string_from_chars(slice_subrange(ws, 0, ws.len() - 4)));
        }
        terms.push(string_from_chars(ws));
        proof {
            let after = terms_of(ns.take(j + 1));
            assert(terms@.len() == after.len());
            assert forall|k: int| 0 <= k < terms@.len() implies #[trigger] terms@[k]@ == after[k] by {
                if k < before.len() {
                    assert(after[k] == before[k]);
                }
            }
        }
        j = j + 1;
    }
    proof {
        assert(ns.take(j as int) =~= ns);
    }
    Some(terms)
}

/// The terms that are numbers, as numbers, in order.
pub open spec fn query_numbers_spec(ts: Seq<Seq<char>>) -> Seq<int>
    decreases ts.len(),
{
    if ts.len() == 0 {
        seq![]
    } else {
        let rest = query_numbers_spec(ts.drop_last());
        match dec_i32(ts.last()) {
            Some(n) => rest.push(n),
            None => rest,
        }
    }
}

/// The search terms that are numbers, as numbers, in order.
pub fn to_query_numbers(query_terms: &[String]) -> (r: Vec<i32>)
    ensures
        r@.len() == query_numbers_spec(Seq::new(query_terms@.len(), |k: int| query_terms@[k]@)).len(),
        forall|k: int| 0 <= k < r@.len() ==> #[trigger] r@[k] as int == query_numbers_spec(
            Seq::new(query_terms@.len(), |k: int| query_terms@[k]@),
        )[k],
{
    let ghost ts = Seq::new(query_terms@.len(), |k: int| query_terms@[k]@);
    let mut out: Vec<i32> = Vec::new();
    let mut i: usize = 0;
    while i < query_terms.len()
        invariant
            i <= query_terms@.len(),
            ts == Seq::new(query_terms@.len(), |k: int| query_terms@[k]@),
            out@.len() == query_numbers_spec(ts.take(i as int)).len(),
            forall|k: int| 0 <= k < out@.len() ==> #[trigger] out@[k] as int == query_numbers_spec(ts.take(i as int))[k],
        decreases query_terms@.len() - i,
    {
        proof {
            assert(ts.take(i + 1).drop_last() =~= ts.take(i as int));
            assert(ts.take(i + 1).last() == query_terms@[i as int]@);
        }
        match parse_i32(query_terms[i].as_str()) {
            Ok(n) => out.push(n),
            Err(_) => {},
        }
        i = i + 1;
    }
    proof {
        assert(ts.take(i as int) =~= ts);
    }
    out
}

/// Shared application data, handed to each request by copy.
pub struct CloneData<T: Clone> {
    pub inner: T,
}

impl<T: Clone> CloneData<T> {
    pub fn new(val: T) -> (r: Self)
        ensures
            r.inner == val,
    {
        CloneData { inner: val }
    }
}

} // verus!
