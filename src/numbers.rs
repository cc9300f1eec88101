//! The number prefix of a robot post: `"558/9)"`, `"690 - 692)"`, `"1207)"`.

use vstd::prelude::*;
use std::ops::RangeInclusive;
use vstd::slice::slice_subrange;

use crate::chars::{
    back_white_space, back_ws, chars_of, is_ws, lemma_skip_ws_bounds, skip_white_space, skip_ws, string_from_chars, trim,
};
use crate::parse_out::ParseOut;

verus! {

pub open spec fn is_digit(c: char) -> bool {
    '0' <= c <= '9'
}

pub open spec fn digit_value(c: char) -> int {
    c as int - '0' as int
}

/// The state of the left-to-right scan over the number segment.
pub struct ScanState {
    pub failed: bool,
    /// The numbers completed so far, signs applied.
    pub nums: Seq<int>,
    /// The value of the run of digits being read, if one is open.
    pub cur: Option<int>,
    /// Whether the open number is negative.
    pub neg: bool,
    /// Whether a `-` still marks the next number negative.
    pub enabled: bool,
    /// Whether any digit has been seen.
    pub found: bool,
}

pub open spec fn scan_init() -> ScanState {
    ScanState { failed: false, nums: seq![], cur: None, neg: false, enabled: true, found: false }
}

/// The numbers with the open run, if any, closed.
pub open spec fn flushed(st: ScanState) -> Seq<int> {
    match st.cur {
        Some(v) => st.nums.push(if st.neg { -v } else { v }),
        None => st.nums,
    }
}

/// One character of the scan. A digit extends the open run (a run whose value
/// leaves the `i32` range fails the scan); any other character closes it. A
/// `-` marks the next number negative while that is enabled; any other
/// character enables it again, and fails the scan if no digit came before.
pub open spec fn scan_step(st: ScanState, c: char) -> ScanState {
    if st.failed {
        st
    } else if is_digit(c) {
        let v = match st.cur {
            Some(v) => v * 10 + digit_value(c),
            None => digit_value(c),
        };
        if v > i32::MAX {
            ScanState { failed: true, ..st }
        } else {
            ScanState { cur: Some(v), found: true, enabled: false, ..st }
        }
    } else if c == '-' {
        ScanState { nums: flushed(st), cur: None, neg: st.neg || st.enabled, ..st }
    } else if !st.found {
        ScanState { failed: true, ..st }
    } else {
        ScanState { nums: flushed(st), cur: None, neg: false, enabled: true, ..st }
    }
}

/// The scan state after the first `n` characters of `s`.
pub open spec fn scan_prefix(s: Seq<char>, n: int) -> ScanState
    decreases n,
{
    if n <= 0 {
        scan_init()
    } else {
        scan_step(scan_prefix(s, n - 1), s[n - 1])
    }
}

/// The numbers listed in a number segment, or `None` where it is no list of
/// numbers.
pub open spec fn scan_numbers(s: Seq<char>) -> Option<Seq<int>> {
    let st = scan_prefix(s, s.len() as int);
    if st.failed {
        None
    } else {
        Some(flushed(st))
    }
}

pub open spec fn abs(n: int) -> int {
    if n < 0 {
        -n
    } else {
        n
    }
}

/// The number of decimal digits of a positive number.
pub open spec fn num_digits(n: int) -> nat
    decreases n,
{
    if n <= 0 {
        0
    } else {
        1 + num_digits(n / 10)
    }
}

pub open spec fn pow10(k: nat) -> int
    decreases k,
{
    if k == 0 {
        1
    } else {
        10 * pow10((k - 1) as nat)
    }
}

/// A later number of a list, read against the first: a positive number below
/// the first's magnitude abbreviates one that shares the first's leading
/// digits (`558` then `9` stands for `559`).
pub open spec fn expand(first: int, n: int) -> int {
    if 0 < n < abs(first) {
        let p = pow10(num_digits(n));
        let m = (abs(first) / p) * p + n;
        if first < 0 {
            -m
        } else {
            m
        }
    } else {
        n
    }
}

pub open spec fn in_i32(n: int) -> bool {
    i32::MIN <= n <= i32::MAX
}

/// The least and greatest of the first `k` numbers of `ns`, each read by
/// `expand` against the first; `None` where one leaves the `i32` range.
pub open spec fn range_prefix(ns: Seq<int>, k: int) -> Option<(int, int)>
    decreases k,
{
    if k <= 1 {
        Some((ns[0], ns[0]))
    } else {
        match range_prefix(ns, k - 1) {
            None => None,
            Some((lo, hi)) => {
                let x = expand(ns[0], ns[k - 1]);
                if !in_i32(x) {
                    None
                } else {
                    Some((if x < lo { x } else { lo }, if x > hi { x } else { hi }))
                }
            },
        }
    }
}

/// The inclusive range that a list of numbers names.
pub open spec fn numbers_range_spec(ns: Seq<int>) -> Option<(int, int)> {
    if ns.len() == 0 {
        None
    } else {
        range_prefix(ns, ns.len() as int)
    }
}

/// The first position at or after `i` that holds `c`, or the length of `s`.
pub open spec fn find_char(s: Seq<char>, c: char, i: int) -> int
    decreases s.len() - i,
{
    if i < 0 || i >= s.len() {
        s.len() as int
    } else if s[i] == c {
        i
    } else {
        find_char(s, c, i + 1)
    }
}

/// A post's number prefix: the range named before the first `)`, and the
/// position where the text after it starts (whitespace skipped).
pub open spec fn number_prefix(s: Seq<char>) -> Option<(int, int, int)> {
    let close = find_char(s, ')', 0);
    if close >= s.len() {
        None
    } else {
        match scan_numbers(trim(s.take(close))) {
            None => None,
            Some(ns) => match numbers_range_spec(ns) {
                None => None,
                Some((lo, hi)) => Some((lo, hi, skip_ws(s, close + 1))),
            },
        }
    }
}

pub proof fn lemma_find_char(s: Seq<char>, c: char, i: int)
    requires
        0 <= i <= s.len(),
    ensures
        i <= find_char(s, c, i) <= s.len(),
        find_char(s, c, i) < s.len() ==> s[find_char(s, c, i)] == c,
        forall|k: int| i <= k < find_char(s, c, i) ==> s[k] != c,
    decreases s.len() - i,
{
    if i < s.len() && s[i] != c {
        lemma_find_char(s, c, i + 1);
    }
}

/// The first position at or after `i` that holds `c`, or the length of `s`.
pub fn find_char_from(s: &[char], c: char, i: usize) -> (r: usize)
    requires
        i <= s@.len(),
    ensures
        r == find_char(s@, c, i as int),
{
    let mut k = i;
    while k < s.len() && s[k] != c
        invariant
            i <= k <= s@.len(),
            find_char(s@, c, k as int) == find_char(s@, c, i as int),
        decreases s@.len() - k,
    {
        k = k + 1;
    }
    k
}

/// The numbers listed in `s[lo..hi]`, or `None` where it is no list of
/// numbers.
fn scan_number_list(s: &[char], lo: usize, hi: usize) -> (r: Option<Vec<i32>>)
    requires
        lo <= hi <= s@.len(),
    ensures
        match scan_numbers(s@.subrange(lo as int, hi as int)) {
            None => r is None,
            Some(ns) => r matches Some(v) && v@.len() == ns.len() && forall|i: int|
                0 <= i < ns.len() ==> v@[i] as int == ns[i],
        },
{
    let ghost seg = s@.subrange(lo as int, hi as int);
    let mut nums: Vec<i32> = Vec::new();
    let mut cur: Option<i32> = None;
    let mut neg = false;
    let mut enabled = true;
    let mut found = false;
    let mut i = lo;
    while i < hi
        invariant
            lo <= i <= hi <= s@.len(),
            seg == s@.subrange(lo as int, hi as int),
            ({
                let st = scan_prefix(seg, i - lo);
                &&& !st.failed
                &&& nums@.len() == st.nums.len()
                &&& forall|k: int| 0 <= k < nums@.len() ==> nums@[k] as int == st.nums[k]
                &&& (match cur {
                    Some(v) => st.cur == Some(v as int) && 0 <= v,
                    None => st.cur is None,
                })
                &&& st.neg == neg
                &&& st.enabled == enabled
                &&& st.found == found
            }),
        decreases hi - i,
    {
        let c = s[i];
        proof {
            assert(seg[i - lo] == c);
            assert(scan_prefix(seg, i - lo + 1) == scan_step(scan_prefix(seg, i - lo), c));
        }
        if '0' <= c && c <= '9' {
            let d = (c as u32 - '0' as u32) as i64;
            let v: i64 = match cur {
                Some(x) => x as i64 * 10 + d,
                None => d,
            };
            if v > i32::MAX as i64 {
                proof {
                    lemma_scan_failed_stays(seg, i - lo + 1);
                }
                return None;
            }
            cur = Some(v as i32);
            found = true;
            enabled = false;
        } else {
            if let Some(x) = cur {
                let n = if neg { -x } else { x };
                nums.push(n);
                cur = None;
            }
            if c == '-' {
                neg = neg || enabled;
            } else if !found {
                proof {
                    lemma_scan_failed_stays(seg, i - lo + 1);
                }
                return None;
            } else {
                neg = false;
                enabled = true;
            }
        }
        i = i + 1;
    }
    proof {
        assert(seg.len() == hi - lo);
    }
    if let Some(x) = cur {
        let n = if neg { -x } else { x };
        nums.push(n);
    }
    Some(nums)
}

proof fn lemma_scan_failed_stays(s: Seq<char>, n: int)
    requires
        0 <= n <= s.len(),
        scan_prefix(s, n).failed,
    ensures
        scan_prefix(s, s.len() as int).failed,
    decreases s.len() - n,
{
    if n < s.len() {
        assert(scan_prefix(s, n + 1) == scan_step(scan_prefix(s, n), s[n]));
        lemma_scan_failed_stays(s, n + 1);
    }
}

/// `first` and `n` read by `expand`, where the result fits in `i32`.
fn expand_exec(first: i32, n: i32) -> (r: Option<i32>)
    ensures
        in_i32(expand(first as int, n as int)) ==> r == Some(expand(first as int, n as int) as i32),
        !in_i32(expand(first as int, n as int)) ==> r is None,
{
    let a: i64 = if first < 0 { -(first as i64) } else { first as i64 };
    if !(0 < n && (n as i64) < a) {
        return Some(n);
    }
    let mut p: i64 = 1;
    let mut x: i64 = n as i64;
    while x > 0
        invariant
            0 <= x,
            1 <= p,
            x * p <= n,
            0 < n,
            p * pow10(num_digits(x as int)) == pow10(num_digits(n as int)),
        decreases x,
    {
        proof {
            assert(num_digits(x as int) == 1 + num_digits(x as int / 10));
            assert(pow10(num_digits(x as int)) == 10 * pow10(num_digits(x as int / 10)));
            assert(p <= x * p) by (nonlinear_arith)
                requires x >= 1, p >= 1;
            assert((x / 10) * (p * 10) <= x * p) by (nonlinear_arith)
                requires x >= 0, p >= 1;
            assert(p * (10 * pow10(num_digits(x as int / 10))) == (p * 10) * pow10(num_digits(x as int / 10))) by (nonlinear_arith);
        }
        x = x / 10;
        p = p * 10;
    }
    proof {
        assert(num_digits(0) == 0);
        assert(pow10(0) == 1);
    }
    let q = a / p;
    proof {
        assert(q * p <= a) by (nonlinear_arith)
            requires q == a / p, p >= 1, a >= 0;
        assert(q * p >= 0) by (nonlinear_arith)
            requires q == a / p, p >= 1, a >= 0;
    }
    let m: i64 = q * p + n as i64;
    let v: i64 = if first < 0 { -m } else { m };
    if v < i32::MIN as i64 || v > i32::MAX as i64 {
        None
    } else {
        Some(v as i32)
    }
}

/// The inclusive range that a list of numbers names: the least and greatest
/// of the first number and of each later one read against it by `expand`.
/// `None` for an empty list, or where a number read so leaves the `i32`
/// range.
pub fn numbers_range(ns: &[i32]) -> (r: Option<(i32, i32)>)
    ensures
        ({
            let spec_ns = Seq::new(ns@.len(), |i: int| ns@[i] as int);
            match numbers_range_spec(spec_ns) {
                None => r is None,
                Some((lo, hi)) => r matches Some((l, h)) && l == lo && h == hi && lo <= hi,
            }
        }),
{
    let ghost spec_ns = Seq::new(ns@.len(), |i: int| ns@[i] as int);
    if ns.len() == 0 {
        return None;
    }
    let first = ns[0];
    let mut lo = first;
    let mut hi = first;
    let mut k: usize = 1;
    while k < ns.len()
        invariant
            1 <= k <= ns@.len(),
            spec_ns == Seq::new(ns@.len(), |i: int| ns@[i] as int),
            first == ns@[0],
            range_prefix(spec_ns, k as int) == Some((lo as int, hi as int)),
            lo <= hi,
        decreases ns@.len() - k,
    {
        let e = expand_exec(first, ns[k]);
        match e {
            None => {
                proof {
                    lemma_range_none_stays(spec_ns, k as int + 1);
                }
                return None;
            },
            Some(x) => {
                if x < lo {
                    lo = x;
                }
                if x > hi {
                    hi = x;
                }
            },
        }
        k = k + 1;
    }
    Some((lo, hi))
}

proof fn lemma_range_none_stays(ns: Seq<int>, k: int)
    requires
        2 <= k <= ns.len(),
        range_prefix(ns, k) is None,
    ensures
        range_prefix(ns, ns.len() as int) is None,
    decreases ns.len() - k,
{
    if k < ns.len() {
        lemma_range_none_stays(ns, k + 1);
    }
}

/// Reads a post's number prefix from `s`: the text up to the first `)`,
/// trimmed, is a list of numbers naming an inclusive range. Returns the
/// least and greatest number of the range and the position after the `)`
/// and any whitespace that follows it.
pub(crate) fn number_prefix_exec(s: &[char]) -> (r: Option<(i32, i32, usize)>)
    ensures
        match number_prefix(s@) {
            None => r is None,
            Some((lo, hi, rest)) => r matches Some((l, h, p)) && l == lo && h == hi && p == rest
                && lo <= hi && rest <= s@.len(),
        },
{
    let close = find_char_from(s, ')', 0);
    proof {
        lemma_find_char(s@, ')', 0);
    }
    if close >= s.len() {
        return None;
    }
    let ghost seg = s@.take(close as int);
    let a = skip_white_space(s, 0);
    let a = if a > close { close } else { a };
    proof {
        lemma_skip_ws_prefix(s@, close as int, 0);
    }
    let b = back_white_space(s, a, close);
    proof {
        lemma_back_ws_prefix(s@, close as int, a as int, close as int);
        assert(trim(seg) == s@.subrange(a as int, b as int));
    }
    let list = scan_number_list(s, a, b);
    match list {
        None => {
            proof {
                assert(close == find_char(s@, ')', 0));
                assert(scan_numbers(trim(seg)) is None);
            }
            None
        },
        Some(v) => {
            proof {
                let ns = scan_numbers(trim(seg))->0;
                assert(Seq::new(v@.len(), |i: int| v@[i] as int) == ns);
            }
            match numbers_range(v.as_slice()) {
                None => None,
                Some((lo, hi)) => {
                    let rest = skip_white_space(s, close + 1);
                    Some((lo, hi, rest))
                },
            }
        },
    }
}

/// `skip_ws` within a prefix agrees with `skip_ws` on the whole sequence,
/// up to the prefix's end.
proof fn lemma_skip_ws_prefix(s: Seq<char>, n: int, i: int)
    requires
        0 <= i <= n <= s.len(),
    ensures
        skip_ws(s.take(n), i) == if skip_ws(s, i) > n { n } else { skip_ws(s, i) },
    decreases n - i,
{
    lemma_skip_ws_bounds(s, i);
    if i < n && is_ws(s[i]) {
        lemma_skip_ws_prefix(s, n, i + 1);
    }
}

proof fn lemma_back_ws_prefix(s: Seq<char>, n: int, lo: int, j: int)
    requires
        0 <= lo <= j <= n <= s.len(),
    ensures
        back_ws(s.take(n), lo, j) == back_ws(s, lo, j),
    decreases j - lo,
{
    if lo < j && is_ws(s[j - 1]) {
        lemma_back_ws_prefix(s, n, lo, j - 1);
    }
}

/// Splits `s` at the first `)` and reads the text before it, trimmed, as a
/// list of numbers: the range they name, and the text after the `)` without
/// its leading whitespace. `None` where there is no `)`, where the text
/// before it is no list of numbers, or where a number leaves the `i32` range.
pub fn parse_numbers(s: &str) -> (r: Option<ParseOut<RangeInclusive<i32>>>)
    ensures
        match number_prefix(s@) {
            None => r is None,
            Some((lo, hi, rest)) => r matches Some(out) && out.output@.start == lo
                && out.output@.end == hi && !out.output@.exhausted && out.remainder@ == s@.skip(rest),
        },
{
    let v = chars_of(s);
    match number_prefix_exec(v.as_slice()) {
        None => None,
        Some((lo, hi, rest)) => {
            let tail = string_from_chars(slice_subrange(v.as_slice(), rest, v.len()));
            proof {
                assert(tail@ == s@.skip(rest as int));
            }
            Some(ParseOut { output: RangeInclusive::new(lo, hi), remainder: tail })
        },
    }
}

} // verus!
