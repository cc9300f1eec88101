//! Compact robot identifiers: a season, a number and a normalised name of at
//! most sixteen bytes, packed into a small fixed-size value.

use vstd::prelude::*;
use vstd::utf8::{
    char_is_scalar, decode_utf8, decode_utf8_encode_utf8, encode_scalar, encode_utf8,
    encode_utf8_decode_utf8, encode_utf8_valid_utf8, valid_utf8,
};
use std::cmp::Ordering;
use unicode_normalization::UnicodeNormalization;

use vstd::slice::slice_subrange;
use vstd::string::StringSliceAdditionalSpecFns;

use crate::chars::chars_of;

verus! {

/// The bytes that a compact identifier's name may take.
pub const IDENT_CAPACITY: usize = 16;

/// The canonical composition (NFC) of a string.
pub uninterp spec fn nfc_of(s: Seq<char>) -> Seq<char>;

/// The lowercase mapping of a character, as `char::to_lowercase` gives it.
pub uninterp spec fn lower_chars(c: char) -> Seq<char>;

/// Whether a character is alphanumeric, as `char::is_alphanumeric` says.
pub uninterp spec fn alnum(c: char) -> bool;

/// Relies on `unicode_normalization::UnicodeNormalization::nfc`: the
/// characters of the canonical composition of `s`.
#[verifier::external_body]
fn nfc_chars(s: &str) -> (r: Vec<char>)
    ensures
        r@ == nfc_of(s@),
{
    s.nfc().collect()
}

/// Relies on `char::to_lowercase`: the characters of `c`'s lowercase
/// mapping.
#[verifier::external_body]
fn char_to_lower(c: char) -> (r: Vec<char>)
    ensures
        r@ == lower_chars(c),
{
    c.to_lowercase().collect()
}

/// Relies on `char::is_alphanumeric`: whether `c` is alphabetic or numeric.
#[verifier::external_body]
fn is_alphanumeric(c: char) -> (r: bool)
    ensures
        r == alnum(c),
{
    c.is_alphanumeric()
}

/// A string's characters, each replaced by its lowercase mapping.
pub open spec fn lower_all(s: Seq<char>) -> Seq<char>
    decreases s.len(),
{
    if s.len() == 0 {
        seq![]
    } else {
        lower_all(s.drop_last()) + lower_chars(s.last())
    }
}

/// The alphanumeric characters of a string, in order.
pub open spec fn keep_alnum(s: Seq<char>) -> Seq<char>
    decreases s.len(),
{
    if s.len() == 0 {
        seq![]
    } else if alnum(s.last()) {
        keep_alnum(s.drop_last()).push(s.last())
    } else {
        keep_alnum(s.drop_last())
    }
}

/// The characters a name is made of: its canonical composition, in
/// lowercase, alphanumeric characters only.
pub open spec fn ident_chars(s: Seq<char>) -> Seq<char> {
    keep_alnum(lower_all(nfc_of(s)))
}

/// The length of a character's UTF-8 encoding.
pub open spec fn utf8_len(c: char) -> int {
    encode_scalar(c as u32).len() as int
}

/// The longest leading run of `cs` whose UTF-8 encoding fits in `room`
/// bytes: the run stops before the first character that would not fit.
pub open spec fn fit(cs: Seq<char>, room: int) -> Seq<char>
    decreases cs.len(),
{
    if cs.len() == 0 || utf8_len(cs[0]) > room {
        seq![]
    } else {
        seq![cs[0]] + fit(cs.drop_first(), room - utf8_len(cs[0]))
    }
}

/// The normalised name that a name prefix gives: its characters as
/// `ident_chars` gives them, as many as fit in `IDENT_CAPACITY` bytes.
pub open spec fn ident_name(s: Seq<char>) -> Seq<char> {
    fit(ident_chars(s), IDENT_CAPACITY as int)
}

pub proof fn lemma_encode_concat(a: Seq<char>, b: Seq<char>)
    ensures
        encode_utf8(a + b) == encode_utf8(a) + encode_utf8(b),
    decreases a.len(),
{
    if a.len() == 0 {
        assert(a + b =~= b);
        assert(encode_utf8(a) + encode_utf8(b) =~= encode_utf8(b));
    } else {
        lemma_encode_concat(a.drop_first(), b);
        assert((a + b).drop_first() =~= a.drop_first() + b);
        assert((a + b)[0] == a[0]);
        assert(encode_utf8(a) + encode_utf8(b) =~= encode_scalar(a[0] as u32) + (encode_utf8(
            a.drop_first(),
        ) + encode_utf8(b)));
    }
}

pub proof fn lemma_encode_one(c: char)
    ensures
        encode_utf8(seq![c]) == encode_scalar(c as u32),
{
    assert(seq![c].drop_first() =~= Seq::<char>::empty());
    assert(encode_utf8(Seq::<char>::empty()) =~= Seq::<u8>::empty());
    assert(encode_utf8(seq![c]) == encode_scalar(c as u32) + encode_utf8(seq![c].drop_first()));
    assert(encode_scalar(c as u32) + Seq::<u8>::empty() =~= encode_scalar(c as u32));
}

/// A run that `fit` gives leads `cs`, and its encoding fits in `room`.
pub proof fn lemma_fit(cs: Seq<char>, room: int)
    requires
        room >= 0,
    ensures
        fit(cs, room).len() <= cs.len(),
        fit(cs, room) == cs.take(fit(cs, room).len() as int),
        encode_utf8(fit(cs, room)).len() <= room,
        fit(cs, room).len() < cs.len() ==> encode_utf8(fit(cs, room)).len() + utf8_len(
            cs[fit(cs, room).len() as int],
        ) > room,
    decreases cs.len(),
{
    if cs.len() == 0 || utf8_len(cs[0]) > room {
        assert(cs.take(0) =~= Seq::<char>::empty());
    } else {
        let rest = cs.drop_first();
        let r2 = room - utf8_len(cs[0]);
        lemma_fit(rest, r2);
        let f = fit(cs, room);
        assert(f == seq![cs[0]] + fit(rest, r2));
        assert(f =~= cs.take(f.len() as int));
        lemma_encode_concat(seq![cs[0]], fit(rest, r2));
        lemma_encode_one(cs[0]);
    }
}

fn lower_alnum_chars(s: &str) -> (r: Vec<char>)
    ensures
        r@ == ident_chars(s@),
{
    let src = nfc_chars(s);
    let mut out: Vec<char> = Vec::new();
    let mut i: usize = 0;
    while i < src.len()
        invariant
            i <= src@.len(),
            src@ == nfc_of(s@),
            out@ == keep_alnum(lower_all(src@.take(i as int))),
        decreases src@.len() - i,
    {
        let low = char_to_lower(src[i]);
        let ghost base = lower_all(src@.take(i as int));
        proof {
            assert(src@.take(i + 1).drop_last() =~= src@.take(i as int));
        }
        let mut j: usize = 0;
        while j < low.len()
            invariant
                j <= low@.len(),
                low@ == lower_chars(src@[i as int]),
                out@ == keep_alnum(base + low@.take(j as int)),
            decreases low@.len() - j,
        {
            let c = low[j];
            proof {
                assert((base + low@.take(j + 1)).drop_last() =~= base + low@.take(j as int));
                assert((base + low@.take(j + 1)).last() == c);
            }
            if is_alphanumeric(c) {
                out.push(c);
            }
            j = j + 1;
        }
        proof {
            assert(low@.take(j as int) =~= low@);
        }
        i = i + 1;
    }
    proof {
        assert(src@.take(i as int) =~= src@);
    }
    out
}

/// The length of `c`'s UTF-8 encoding.
fn len_utf8(c: char) -> (r: usize)
    ensures
        r == utf8_len(c),
        1 <= r <= 4,
{
    proof {
        char_is_scalar(c);
    }
    let u = c as u32;
    if u <= 0x7F {
        1
    } else if u <= 0x7FF {
        2
    } else if u <= 0xFFFF {
        3
    } else {
        4
    }
}

/// Writes the UTF-8 encoding of `c` into `buf` at `at`.
fn encode_char(c: char, buf: &mut [u8; 16], at: usize) -> (n: usize)
    requires
        at + utf8_len(c) <= IDENT_CAPACITY,
    ensures
        n == utf8_len(c),
        final(buf)@.take(at as int) == old(buf)@.take(at as int),
        final(buf)@.subrange(at as int, at + n) == encode_scalar(c as u32),
        final(buf)@.skip(at + n) == old(buf)@.skip(at + n),
{
    proof {
        char_is_scalar(c);
    }
    let u = c as u32;
    if u <= 0x7F {
        buf[at] = (u & 0x7F) as u8;
        proof {
            assert(final(buf)@.subrange(at as int, at + 1) =~= encode_scalar(c as u32));
            assert(final(buf)@.take(at as int) =~= old(buf)@.take(at as int));
            assert(final(buf)@.skip(at + 1) =~= old(buf)@.skip(at + 1));
        }
        1
    } else if u <= 0x7FF {
        buf[at] = 0xC0 | ((u >> 6) & 0x1F) as u8;
        buf[at + 1] = 0x80 | (u & 0x3F) as u8;
        proof {
            assert(final(buf)@.subrange(at as int, at + 2) =~= encode_scalar(c as u32));
            assert(final(buf)@.take(at as int) =~= old(buf)@.take(at as int));
            assert(final(buf)@.skip(at + 2) =~= old(buf)@.skip(at + 2));
        }
        2
    } else if u <= 0xFFFF {
        buf[at] = 0xE0 | ((u >> 12) & 0x0F) as u8;
        buf[at + 1] = 0x80 | ((u >> 6) & 0x3F) as u8;
        buf[at + 2] = 0x80 | (u & 0x3F) as u8;
        proof {
            assert(final(buf)@.subrange(at as int, at + 3) =~= encode_scalar(c as u32));
            assert(final(buf)@.take(at as int) =~= old(buf)@.take(at as int));
            assert(final(buf)@.skip(at + 3) =~= old(buf)@.skip(at + 3));
        }
        3
    } else {
        buf[at] = 0xF0 | ((u >> 18) & 0x7) as u8;
        buf[at + 1] = 0x80 | ((u >> 12) & 0x3F) as u8;
        buf[at + 2] = 0x80 | ((u >> 6) & 0x3F) as u8;
        buf[at + 3] = 0x80 | (u & 0x3F) as u8;
        proof {
            assert(final(buf)@.subrange(at as int, at + 4) =~= encode_scalar(c as u32));
            assert(final(buf)@.take(at as int) =~= old(buf)@.take(at as int));
            assert(final(buf)@.skip(at + 4) =~= old(buf)@.skip(at + 4));
        }
        4
    }
}

/// Normalises a name prefix into a buffer: its characters as `ident_chars`
/// gives them, encoded as UTF-8 one after the other, stopping before the
/// first character whose encoding would not fit. Yields the buffer and the
/// number of bytes written; the bytes after them are zero.
pub fn str_to_ident_name(s: &str) -> (r: ([u8; 16], usize))
    ensures
        r.1 <= IDENT_CAPACITY,
        r.0@.take(r.1 as int) == encode_utf8(ident_name(s@)),
        forall|i: int| r.1 <= i < IDENT_CAPACITY ==> r.0@[i] == 0,
{
    let cs = lower_alnum_chars(s);
    let mut buf: [u8; 16] = [0u8; 16];
    let mut len: usize = 0;
    let mut k: usize = 0;
    proof {
        assert(cs@.take(0) =~= Seq::<char>::empty());
        assert(cs@.skip(0) =~= cs@);
        assert(buf@.take(0) =~= Seq::<u8>::empty());
        assert(Seq::<char>::empty() + fit(cs@, 16) =~= fit(cs@, 16));
    }
    while k < cs.len()
        invariant_except_break
            k <= cs@.len(),
            len <= IDENT_CAPACITY,
            cs@ == ident_chars(s@),
            buf@.len() == IDENT_CAPACITY,
            buf@.take(len as int) == encode_utf8(cs@.take(k as int)),
            forall|i: int| len <= i < IDENT_CAPACITY ==> buf@[i] == 0,
            fit(cs@, 16) == cs@.take(k as int) + fit(cs@.skip(k as int), 16 - len),
        ensures
            len <= IDENT_CAPACITY,
            buf@.take(len as int) == encode_utf8(ident_name(s@)),
            forall|i: int| len <= i < IDENT_CAPACITY ==> buf@[i] == 0,
        decreases cs@.len() - k,
    {
        let c = cs[k];
        let n = len_utf8(c);
        let ghost rest = cs@.skip(k as int);
        proof {
            assert(rest[0] == c);
            assert(rest.drop_first() =~= cs@.skip(k + 1));
        }
        if IDENT_CAPACITY - len < n {
            proof {
                assert(fit(rest, 16 - len) =~= Seq::<char>::empty());
                assert(cs@.take(k as int) + Seq::<char>::empty() =~= cs@.take(k as int));
            }
            break;
        }
        let ghost before = buf@;
        let w = encode_char(c, &mut buf, len);
        proof {
            assert(cs@.take(k + 1) =~= cs@.take(k as int) + seq![c]);
            lemma_encode_concat(cs@.take(k as int), seq![c]);
            lemma_encode_one(c);
            assert(buf@.take(len + w) =~= before.take(len as int) + buf@.subrange(
                len as int,
                len + w,
            ));
            assert forall|i: int| len + w <= i < IDENT_CAPACITY implies buf@[i] == 0 by {
                assert(buf@[i] == buf@.skip(len + w)[i - (len + w)]);
                assert(before[i] == before.skip(len + w)[i - (len + w)]);
            }
            assert(cs@.take(k as int) + (seq![c] + fit(cs@.skip(k + 1), 16 - len - w))
                =~= cs@.take(k + 1) + fit(cs@.skip(k + 1), 16 - len - w));
        }
        len = len + w;
        k = k + 1;
    }
    proof {
        if k == cs@.len() {
            assert(cs@.skip(k as int) =~= Seq::<char>::empty());
            assert(cs@.take(k as int) =~= cs@);
            assert(cs@ + Seq::<char>::empty() =~= cs@);
        }
    }
    (buf, len)
}

/// A robot's season, number and normalised name.
pub struct IdentView {
    pub season: u8,
    pub num: i16,
    pub name: Seq<char>,
}

/// A compact robot identifier. Equality and order go by the season, the
/// number and the name as text, in that order; the buffer's bytes past the
/// name take no part.
#[derive(Debug, Eq)]
pub struct Ident {
    season: u8,
    num: i16,
    name_len: u8,
    name: [u8; 16],
}

/// The error of building an identifier from a name prefix that normalises
/// to nothing.
#[derive(Debug)]
pub struct IdentError;

impl IdentError {
    /// A description of the error.
    pub fn message(&self) -> (r: &'static str) {
        "invalid robot id"
    }
}

/// Relies on `std::str::from_utf8`: the string whose bytes are `b`, exactly
/// when `b` is valid UTF-8.
#[verifier::external_body]
fn str_from_utf8(b: &[u8]) -> (r: Option<&str>)
    ensures
        r is Some <==> valid_utf8(b@),
        r matches Some(s) ==> s.spec_bytes() == b@,
{
    std::str::from_utf8(b).ok()
}

/// The order of two character sequences, character by character, a proper
/// prefix first.
pub open spec fn seq_cmp(a: Seq<char>, b: Seq<char>) -> Ordering
    decreases a.len(),
{
    if a.len() == 0 {
        if b.len() == 0 {
            Ordering::Equal
        } else {
            Ordering::Less
        }
    } else if b.len() == 0 {
        Ordering::Greater
    } else if a[0] < b[0] {
        Ordering::Less
    } else if a[0] > b[0] {
        Ordering::Greater
    } else {
        seq_cmp(a.drop_first(), b.drop_first())
    }
}

/// The order of two identifiers: by season, then number, then name.
pub open spec fn ident_cmp(a: IdentView, b: IdentView) -> Ordering {
    if a.season < b.season {
        Ordering::Less
    } else if a.season > b.season {
        Ordering::Greater
    } else if a.num < b.num {
        Ordering::Less
    } else if a.num > b.num {
        Ordering::Greater
    } else {
        seq_cmp(a.name, b.name)
    }
}

impl View for Ident {
    type V = IdentView;

    closed spec fn view(&self) -> IdentView {
        IdentView {
            season: self.season,
            num: self.num,
            name: decode_utf8(self.name@.take(self.name_len as int)),
        }
    }
}

impl Ident {
    #[verifier::type_invariant]
    spec fn wf(self) -> bool {
        &&& 1 <= self.name_len <= IDENT_CAPACITY
        &&& valid_utf8(self.name@.take(self.name_len as int))
    }

    /// The identifier of a robot with the given season and number, whose name
    /// is `prefix` normalised by `ident_name`. An `IdentError` where the
    /// normalised name is empty.
    pub fn new(season: u8, num: i16, prefix: &str) -> (r: Result<Ident, IdentError>)
        ensures
            ident_name(prefix@).len() == 0 <==> r is Err,
            r matches Ok(id) ==> id@ == (IdentView { season, num, name: ident_name(prefix@) }),
    {
        let (name, name_len) = str_to_ident_name(prefix);
        proof {
            lemma_fit(ident_chars(prefix@), IDENT_CAPACITY as int);
            encode_utf8_valid_utf8(ident_name(prefix@));
            encode_utf8_decode_utf8(ident_name(prefix@));
            if ident_name(prefix@).len() > 0 {
                lemma_encode_concat(
                    seq![ident_name(prefix@)[0]],
                    ident_name(prefix@).drop_first(),
                );
                assert(seq![ident_name(prefix@)[0]] + ident_name(prefix@).drop_first()
                    =~= ident_name(prefix@));
                lemma_encode_one(ident_name(prefix@)[0]);
                char_is_scalar(ident_name(prefix@)[0]);
            } else {
                assert(ident_name(prefix@) =~= Seq::<char>::empty());
            }
        }
        if name_len == 0 {
            return Err(IdentError);
        }
        Ok(Ident { season, num, name_len: name_len as u8, name })
    }

    /// The season.
    pub fn season(&self) -> (r: u8)
        ensures
            r == self@.season,
    {
        self.season
    }

    /// The number within the season.
    pub fn num(&self) -> (r: i16)
        ensures
            r == self@.num,
    {
        self.num
    }

    /// The normalised name.
    pub fn name(&self) -> (r: &str)
        ensures
            r@ == self@.name,
            1 <= r@.len(),
            encode_utf8(r@).len() <= IDENT_CAPACITY,
    {
        proof {
            use_type_invariant(self);
        }
        let bytes = slice_subrange(self.name.as_slice(), 0, self.name_len as usize);
        proof {
            assert(bytes@ =~= self.name@.take(self.name_len as int));
        }
        let s = str_from_utf8(bytes).unwrap();
        proof {
            encode_utf8_decode_utf8(s@);
            decode_utf8_encode_utf8(bytes@);
            if s@.len() == 0 {
                assert(s@ =~= Seq::<char>::empty());
                assert(encode_utf8(s@) =~= Seq::<u8>::empty());
            }
        }
        s
    }

    /// The season, the number and the name.
    pub fn decode(&self) -> (r: (u8, i16, &str))
        ensures
            r.0 == self@.season,
            r.1 == self@.num,
            r.2@ == self@.name,
    {
        (self.season, self.num, self.name())
    }

    /// The order of two identifiers: by season, then number, then name as
    /// text.
    pub fn cmp(&self, other: &Ident) -> (r: Ordering)
        ensures
            r == ident_cmp(self@, other@),
    {
        if self.season < other.season {
            return Ordering::Less;
        }
        if self.season > other.season {
            return Ordering::Greater;
        }
        if self.num < other.num {
            return Ordering::Less;
        }
        if self.num > other.num {
            return Ordering::Greater;
        }
        let a = chars_of(self.name());
        let b = chars_of(other.name());
        let mut i: usize = 0;
        proof {
            assert(a@.skip(0) =~= a@);
            assert(b@.skip(0) =~= b@);
        }
        while i < a.len() && i < b.len() && a[i] == b[i]
            invariant
                i <= a@.len(),
                i <= b@.len(),
                a@ == self@.name,
                b@ == other@.name,
                seq_cmp(a@.skip(i as int), b@.skip(i as int)) == seq_cmp(a@, b@),
            decreases a@.len() - i,
        {
            proof {
                assert(a@.skip(i as int).drop_first() =~= a@.skip(i + 1));
                assert(b@.skip(i as int).drop_first() =~= b@.skip(i + 1));
            }
            i = i + 1;
        }
        proof {
            if i < a@.len() {
                assert(a@.skip(i as int)[0] == a@[i as int]);
            }
            if i < b@.len() {
                assert(b@.skip(i as int)[0] == b@[i as int]);
            }
        }
        if i == a.len() {
            if i == b.len() {
                Ordering::Equal
            } else {
                Ordering::Less
            }
        } else if i == b.len() {
            Ordering::Greater
        } else if a[i] < b[i] {
            Ordering::Less
        } else {
            Ordering::Greater
        }
    }
}

impl Clone for Ident {
    fn clone(&self) -> (r: Ident)
        ensures
            r@ == self@,
    {
        proof {
            use_type_invariant(self);
        }
        Ident { season: self.season, num: self.num, name_len: self.name_len, name: self.name }
    }
}

impl PartialEq for Ident {
    fn eq(&self, other: &Ident) -> (r: bool) {
        proof {
            use_type_invariant(self);
            use_type_invariant(other);
        }
        if self.season != other.season || self.num != other.num || self.name_len != other.name_len {
            proof {
                if self@ == other@ {
                    decode_utf8_encode_utf8(self.name@.take(self.name_len as int));
                    decode_utf8_encode_utf8(other.name@.take(other.name_len as int));
                }
            }
            return false;
        }
        let n = self.name_len as usize;
        let mut i: usize = 0;
        while i < n
            invariant
                i <= n <= IDENT_CAPACITY,
                n == self.name_len,
                n == other.name_len,
                forall|k: int| 0 <= k < i ==> self.name@[k] == other.name@[k],
                valid_utf8(self.name@.take(n as int)),
                valid_utf8(other.name@.take(n as int)),
            decreases n - i,
        {
            if self.name[i] != other.name[i] {
                proof {
                    decode_utf8_encode_utf8(self.name@.take(n as int));
                    decode_utf8_encode_utf8(other.name@.take(n as int));
                    assert(self.name@.take(n as int)[i as int] != other.name@.take(n as int)[i as int]);
                }
                return false;
            }
            i = i + 1;
        }
        proof {
            assert(self.name@.take(n as int) =~= other.name@.take(n as int));
        }
        true
    }
}

impl vstd::std_specs::cmp::PartialEqSpecImpl for Ident {
    open spec fn obeys_eq_spec() -> bool {
        true
    }

    open spec fn eq_spec(&self, other: &Ident) -> bool {
        self@ == other@
    }
}

impl PartialOrd for Ident {
    fn partial_cmp(&self, other: &Ident) -> (r: Option<Ordering>) {
        Some(self.cmp(other))
    }
}

impl vstd::std_specs::cmp::PartialOrdSpecImpl for Ident {
    open spec fn obeys_partial_cmp_spec() -> bool {
        true
    }

    open spec fn partial_cmp_spec(&self, other: &Ident) -> Option<Ordering> {
        Some(ident_cmp(self@, other@))
    }
}

} // verus!
