//! The robots that a post describes.

use vstd::prelude::*;

use crate::chars::{chars_of, string_from_chars};
use crate::ident_buf::IdentBuf;

verus! {

/// The components of the name of a robot.
#[derive(Clone, PartialEq, Eq, Debug)]
pub struct RobotName {
    /// The portion of the name before "bot": `"Tea"` in `"Teabot"`, `"R.O."`
    /// in `"R.O.B.O.T.S"`.
    pub prefix: String,
    /// The "bot" portion of the name as written, made singular: `"bot"` in
    /// `"Mischiefbots"`, `"B.O.T"` in `"R.O.B.O.T.S"`.
    pub suffix: String,
    /// The plural marker, if present: `"s"` in `"Mischiefbots"`, `".S"` in
    /// `"R.O.B.O.T.S"`.
    pub plural: Option<String>,
}

/// A robot name as character sequences.
pub struct RobotNameView {
    pub prefix: Seq<char>,
    pub suffix: Seq<char>,
    pub plural: Option<Seq<char>>,
}

pub open spec fn opt_view(o: Option<String>) -> Option<Seq<char>> {
    match o {
        Some(s) => Some(s@),
        None => None,
    }
}

impl View for RobotName {
    type V = RobotNameView;

    open spec fn view(&self) -> RobotNameView {
        RobotNameView { prefix: self.prefix@, suffix: self.suffix@, plural: opt_view(self.plural) }
    }
}

impl RobotName {
    /// A copy of the name.
    pub fn clone_name(&self) -> (r: RobotName)
        ensures
            r@ == self@,
    {
        RobotName {
            prefix: self.prefix.clone(),
            suffix: self.suffix.clone(),
            plural: match &self.plural {
                Some(p) => Some(p.clone()),
                None => None,
            },
        }
    }
}

/// The ASCII transliteration of a string.
pub uninterp spec fn ascii_of(s: Seq<char>) -> Seq<char>;

/// The lowercase form of a string, as `str::to_lowercase` gives it.
pub uninterp spec fn lower_of(s: Seq<char>) -> Seq<char>;

/// Relies on `unidecode::unidecode`: the ASCII transliteration of `s`.
#[verifier::external_body]
pub(crate) fn transliterate(s: &str) -> (r: String)
    ensures
        r@ == ascii_of(s@),
{
    unidecode::unidecode(s)
}

/// Relies on `str::to_lowercase`: the lowercase form of `s`.
#[verifier::external_body]
pub(crate) fn lowercase(s: &str) -> (r: String)
    ensures
        r@ == lower_of(s@),
{
    s.to_lowercase()
}

pub open spec fn is_ascii_alnum(c: char) -> bool {
    ('0' <= c <= '9') || ('a' <= c <= 'z') || ('A' <= c <= 'Z')
}

/// The ASCII letters and digits of a string, in order.
pub open spec fn keep_ascii_alnum(s: Seq<char>) -> Seq<char>
    decreases s.len(),
{
    if s.len() == 0 {
        seq![]
    } else if is_ascii_alnum(s.last()) {
        keep_ascii_alnum(s.drop_last()).push(s.last())
    } else {
        keep_ascii_alnum(s.drop_last())
    }
}

/// The storage name of a name prefix: transliterated to ASCII, in
/// lowercase, letters and digits only.
pub open spec fn storage_name(s: Seq<char>) -> Seq<char> {
    keep_ascii_alnum(lower_of(ascii_of(s)))
}

/// The storage name of a name prefix.
pub fn storage_name_of(s: &str) -> (r: String)
    ensures
        r@ == storage_name(s@),
{
    let low = lowercase(transliterate(s).as_str());
    let v = chars_of(low.as_str());
    let mut out: Vec<char> = Vec::new();
    let mut i: usize = 0;
    while i < v.len()
        invariant
            i <= v@.len(),
            v@ == low@,
            out@ == keep_ascii_alnum(v@.take(i as int)),
        decreases v@.len() - i,
    {
        let c = v[i];
        proof {
            assert(v@.take(i + 1).drop_last() =~= v@.take(i as int));
        }
        if ('0' <= c && c <= '9') || ('a' <= c && c <= 'z') || ('A' <= c && c <= 'Z') {
            out.push(c);
        }
        i = i + 1;
    }
    proof {
        assert(v@.take(i as int) =~= v@);
    }
    string_from_chars(out.as_slice())
}

/// The full name: prefix, "bot", and plural marker.
pub open spec fn full_name_of(n: RobotNameView) -> Seq<char> {
    n.prefix + n.suffix + match n.plural {
        Some(p) => p,
        None => seq![],
    }
}

impl RobotName {
    /// The name's prefix as it is stored: transliterated to ASCII, in
    /// lowercase, letters and digits only.
    pub fn ident(&self) -> (r: String)
        ensures
            r@ == storage_name(self.prefix@),
    {
        storage_name_of(self.prefix.as_str())
    }

    /// The full name as written: prefix, "bot", and plural marker.
    pub fn full_name(&self) -> (r: String)
        ensures
            r@ == full_name_of(self@),
    {
        let mut v = chars_of(self.prefix.as_str());
        let mut s = chars_of(self.suffix.as_str());
        v.append(&mut s);
        match &self.plural {
            Some(p) => {
                let mut pc = chars_of(p.as_str());
                v.append(&mut pc);
            },
            None => {},
        }
        proof {
            assert(v@ =~= full_name_of(self@));
        }
        string_from_chars(v.as_slice())
    }
}

/// The name and number of a single robot.
#[derive(Clone, PartialEq, Eq, Debug)]
pub struct Robot {
    pub number: i32,
    pub name: RobotName,
}

impl Robot {
    /// The robot's storage identifier: its number and the storage name of
    /// its prefix.
    pub fn ident(&self) -> (r: IdentBuf)
        ensures
            r.number == self.number,
            r.name@ == storage_name(self.name.prefix@),
    {
        IdentBuf::new(self.number, self.name.ident())
    }
}

/// The result of parsing a robot post.
#[derive(Clone, PartialEq, Eq, Debug)]
pub struct ParsedGroup {
    /// The names and numbers of the robots found in the post.
    pub robots: Vec<Robot>,
    /// The body text of the post.
    pub body: String,
    /// The content warning, if one was found before the robots' numbers.
    pub cw: Option<String>,
}

} // verus!
