//! Robot identifiers as text: `"{number}/{name}"`.

use vstd::prelude::*;
use vstd::slice::slice_subrange;
use std::num::ParseIntError;

use crate::chars::{chars_of, string_from_chars};
use crate::numbers::{digit_value, find_char, find_char_from, in_i32, is_digit, lemma_find_char};

verus! {

#[verifier::external_type_specification]
#[verifier::external_body]
pub struct ExParseIntError(ParseIntError);

/// The value of a run of decimal digits.
pub open spec fn digits_val(d: Seq<char>) -> int
    decreases d.len(),
{
    if d.len() == 0 {
        0
    } else {
        digits_val(d.drop_last()) * 10 + digit_value(d.last())
    }
}

pub open spec fn all_digits(d: Seq<char>) -> bool {
    forall|i: int| 0 <= i < d.len() ==> is_digit(#[trigger] d[i])
}

/// The `i32` that a string writes in decimal: an optional `+` or `-`, then
/// one or more ASCII digits, the value within the `i32` range.
pub open spec fn dec_i32(s: Seq<char>) -> Option<int> {
    let neg = s.len() > 0 && s[0] == '-';
    let d = if s.len() > 0 && (s[0] == '-' || s[0] == '+') {
        s.drop_first()
    } else {
        s
    };
    let v = if neg {
        -digits_val(d)
    } else {
        digits_val(d)
    };
    if d.len() == 0 || !all_digits(d) || !in_i32(v) {
        None
    } else {
        Some(v)
    }
}

/// Relies on `str::parse::<i32>`: an optional sign then decimal digits,
/// within the `i32` range, parse to their value; anything else is an error.
#[verifier::external_body]
pub(crate) fn parse_i32(s: &str) -> (r: Result<i32, ParseIntError>)
    ensures
        r is Ok <==> dec_i32(s@) is Some,
        r matches Ok(v) ==> dec_i32(s@) == Some(v as int),
{
    s.parse::<i32>()
}

pub open spec fn digit_char(d: int) -> char {
    (d + '0' as int) as char
}

/// The decimal digits of a number that is not negative.
pub open spec fn nat_digits(n: nat) -> Seq<char>
    decreases n,
{
    if n < 10 {
        seq![digit_char(n as int)]
    } else {
        nat_digits(n / 10).push(digit_char((n % 10) as int))
    }
}

/// The decimal form of an integer: a `-` for a negative one, then its digits.
pub open spec fn decimal(n: int) -> Seq<char> {
    if n < 0 {
        seq!['-'] + nat_digits((-n) as nat)
    } else {
        nat_digits(n as nat)
    }
}

pub proof fn lemma_digit_char(d: int)
    requires
        0 <= d < 10,
    ensures
        is_digit(digit_char(d)),
        digit_value(digit_char(d)) == d,
{
    assert((d + '0' as int) as char as int == d + '0' as int);
}

pub proof fn lemma_nat_digits(n: nat)
    ensures
        all_digits(nat_digits(n)),
        digits_val(nat_digits(n)) == n,
        nat_digits(n).len() > 0,
    decreases n,
{
    lemma_digit_char((n % 10) as int);
    if n >= 10 {
        lemma_nat_digits(n / 10);
        let d = nat_digits(n);
        assert(d.drop_last() =~= nat_digits(n / 10));
        assert(digits_val(d) == digits_val(nat_digits(n / 10)) * 10 + digit_value(d.last()));
        assert((n / 10) * 10 + n % 10 == n);
        assert forall|i: int| 0 <= i < d.len() implies is_digit(#[trigger] d[i]) by {
            if i < d.len() - 1 {
                assert(d[i] == nat_digits(n / 10)[i]);
            }
        }
    } else {
        assert(nat_digits(n).drop_last() =~= Seq::<char>::empty());
        assert(digits_val(Seq::<char>::empty()) == 0);
        assert(n % 10 == n);
    }
}

/// The decimal form of a number reads back as that number.
pub proof fn lemma_decimal_round_trip(n: int)
    requires
        in_i32(n),
    ensures
        dec_i32(decimal(n)) == Some(n),
        find_char(decimal(n), '/', 0) == decimal(n).len(),
{
    let s = decimal(n);
    if n < 0 {
        lemma_nat_digits((-n) as nat);
        assert(s.drop_first() =~= nat_digits((-n) as nat));
    } else {
        lemma_nat_digits(n as nat);
        assert(s[0] != '-' && s[0] != '+');
    }
    lemma_find_char(s, '/', 0);
    if find_char(s, '/', 0) < s.len() {
        let k = find_char(s, '/', 0);
        if n < 0 && k > 0 {
            assert(s[k] == s.drop_first()[k - 1]);
        }
    }
}

/// The decimal form of `n`.
pub fn fmt_i32(n: i32) -> (r: Vec<char>)
    ensures
        r@ == decimal(n as int),
{
    let mut m: u32 = if n < 0 { (-(n as i64)) as u32 } else { n as u32 };
    let ghost m0 = m as nat;
    let mut rev: Vec<char> = Vec::new();
    while m >= 10
        invariant
            m <= m0,
            m0 == if n < 0 { -(n as int) } else { n as int },
            nat_digits(m0) == nat_digits(m as nat) + rev@.reverse(),
        decreases m,
    {
        let d = m % 10;
        let c = ((d as u8) + ('0' as u8)) as char;
        proof {
            assert(c == digit_char(d as int));
            assert(rev@.push(c).reverse() =~= seq![c] + rev@.reverse());
            assert(nat_digits(m as nat) == nat_digits((m / 10) as nat).push(c));
            assert(nat_digits((m / 10) as nat).push(c) + rev@.reverse() =~= nat_digits(
                (m / 10) as nat,
            ) + (seq![c] + rev@.reverse()));
        }
        rev.push(c);
        m = m / 10;
    }
    let c = ((m as u8) + ('0' as u8)) as char;
    proof {
        assert(c == digit_char(m as int));
        assert(nat_digits(m as nat) == seq![c]);
        assert(rev@.push(c).reverse() =~= seq![c] + rev@.reverse());
    }
    rev.push(c);
    let mut out: Vec<char> = Vec::new();
    if n < 0 {
        out.push('-');
    }
    let mut i = rev.len();
    let ghost prefix = out@;
    while i > 0
        invariant
            i <= rev@.len(),
            out@ == prefix + rev@.subrange(i as int, rev@.len() as int).reverse(),
        decreases i,
    {
        i = i - 1;
        proof {
            assert(rev@.subrange(i as int, rev@.len() as int).reverse() =~= rev@.subrange(
                i + 1,
                rev@.len() as int,
            ).reverse().push(rev@[i as int]));
        }
        out.push(rev[i]);
    }
    proof {
        assert(rev@.subrange(0, rev@.len() as int) =~= rev@);
        assert(nat_digits(m0) =~= rev@.reverse());
        if n < 0 {
            assert(prefix =~= seq!['-']);
        } else {
            assert(prefix =~= Seq::<char>::empty());
            assert(out@ =~= rev@.reverse());
        }
    }
    out
}

/// A robot's number and normalised name, as stored and exchanged.
#[derive(Clone, Debug, PartialEq, Eq)]
pub struct IdentBuf {
    pub number: i32,
    pub name: String,
}

/// Why a text is no identifier.
#[derive(Debug)]
pub enum ParseIdentError {
    /// There is no `/` between the number and the name.
    MissingSlash,
    /// The text before the first `/` is no `i32`.
    InvalidNumber(ParseIntError),
}

/// Relies on `ParseIntError`'s `Display`: the text that describes the
/// error; nothing is claimed of it.
#[verifier::external_body]
fn int_error_text(e: &ParseIntError) -> (r: String) {
    e.to_string()
}

impl ParseIdentError {
    /// A description of the error.
    pub fn message(&self) -> (r: String)
        ensures
            self is MissingSlash ==> r@ == "missing slash separator"@,
    {
        match self {
            ParseIdentError::MissingSlash => "missing slash separator".to_owned(),
            ParseIdentError::InvalidNumber(e) => int_error_text(e),
        }
    }
}

/// An identifier's text: the number in decimal, `/`, and the name.
pub open spec fn ident_text(number: int, name: Seq<char>) -> Seq<char> {
    decimal(number) + seq!['/'] + name
}

/// How a text reads as an identifier: `None` where it has no `/`; else the
/// number that the text before the first `/` writes, if any, and the text
/// after it.
pub open spec fn ident_parse(s: Seq<char>) -> Option<(Option<int>, Seq<char>)> {
    let k = find_char(s, '/', 0);
    if k >= s.len() {
        None
    } else {
        Some((dec_i32(s.take(k)), s.skip(k + 1)))
    }
}

impl IdentBuf {
    pub fn new(number: i32, name: String) -> (r: Self)
        ensures
            r.number == number,
            r.name == name,
    {
        IdentBuf { number, name }
    }

    /// The identifier as text: `"{number}/{name}"`.
    pub fn to_text(&self) -> (r: String)
        ensures
            r@ == ident_text(self.number as int, self.name@),
    {
        let mut v = fmt_i32(self.number);
        v.push('/');
        let mut n = chars_of(self.name.as_str());
        v.append(&mut n);
        string_from_chars(v.as_slice())
    }

    /// Reads an identifier from text: the number before the first `/`, and
    /// the name after it, as it stands.
    pub fn from_str(s: &str) -> (r: Result<IdentBuf, ParseIdentError>)
        ensures
            match ident_parse(s@) {
                None => r matches Err(ParseIdentError::MissingSlash),
                Some((None, _)) => r matches Err(ParseIdentError::InvalidNumber(_)),
                Some((Some(n), name)) => r matches Ok(id) && id.number == n && id.name@ == name,
            },
    {
        let v = chars_of(s);
        let k = find_char_from(v.as_slice(), '/', 0);
        proof {
            lemma_find_char(s@, '/', 0);
        }
        if k >= v.len() {
            return Err(ParseIdentError::MissingSlash);
        }
        let num_text = string_from_chars(slice_subrange(v.as_slice(), 0, k));
        let name = string_from_chars(slice_subrange(v.as_slice(), k + 1, v.len()));
        proof {
            assert(num_text@ =~= s@.take(k as int));
            assert(name@ =~= s@.skip(k + 1));
        }
        match parse_i32(num_text.as_str()) {
            Ok(number) => Ok(IdentBuf::new(number, name)),
            Err(e) => Err(ParseIdentError::InvalidNumber(e)),
        }
    }
}

/// Writing an identifier as text and reading it back gives the same number
/// and name.
pub proof fn lemma_ident_text_round_trip(number: i32, name: Seq<char>)
    ensures
        ident_parse(ident_text(number as int, name)) == Some((Some(number as int), name)),
{
    let d = decimal(number as int);
    let s = ident_text(number as int, name);
    lemma_decimal_round_trip(number as int);
    lemma_find_char(d, '/', 0);
    lemma_find_slash(s, d.len() as int);
    assert(s.take(d.len() as int) =~= d);
    assert(s.skip(d.len() as int + 1) =~= name);
}

proof fn lemma_find_slash(s: Seq<char>, k: int)
    requires
        0 <= k < s.len(),
        s[k] == '/',
        forall|i: int| 0 <= i < k ==> s[i] != '/',
    ensures
        find_char(s, '/', 0) == k,
{
    lemma_find_char(s, '/', 0);
}

} // verus!
