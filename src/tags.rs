//! The tags and attributes that sanitised markup may hold, and their names.

use vstd::prelude::*;

use crate::chars::chars_of;

verus! {

/// The tags that sanitised markup keeps.
#[derive(Clone, Copy, PartialEq, Eq, Debug, Structural)]
pub enum MdonHtmlTag {
    P,
    Br,
    A,
    Del,
    Pre,
    Code,
    Em,
    Strong,
    B,
    I,
    U,
    Ul,
    Ol,
    Li,
    Blockquote,
}

/// The attributes that sanitised markup may keep.
#[derive(Clone, Copy, PartialEq, Eq, Debug, Structural)]
pub enum MdonHtmlAttr {
    Href,
    Start,
    Reversed,
    Value,
}

/// The uppercase mapping of a character, as `char::to_uppercase` gives it.
pub uninterp spec fn upper_chars(c: char) -> Seq<char>;

/// Relies on `char::to_uppercase`: the characters of `c`'s uppercase
/// mapping.
#[verifier::external_body]
fn char_to_upper(c: char) -> (r: Vec<char>)
    ensures
        r@ == upper_chars(c),
{
    c.to_uppercase().collect()
}

/// The uppercase form of a string, character by character.
pub open spec fn upper_of(s: Seq<char>) -> Seq<char>
    decreases s.len(),
{
    if s.len() == 0 {
        seq![]
    } else {
        upper_of(s.drop_last()) + upper_chars(s.last())
    }
}

fn to_upper(s: &str) -> (r: Vec<char>)
    ensures
        r@ == upper_of(s@),
{
    let v = chars_of(s);
    let mut out: Vec<char> = Vec::new();
    let mut i: usize = 0;
    while i < v.len()
        invariant
            i <= v@.len(),
            v@ == s@,
            out@ == upper_of(s@.take(i as int)),
        decreases v@.len() - i,
    {
        let mut u = char_to_upper(v[i]);
        proof {
            assert(s@.take(i + 1).drop_last() =~= s@.take(i as int));
        }
        out.append(&mut u);
        i = i + 1;
    }
    proof {
        assert(s@.take(i as int) =~= s@);
    }
    out
}

fn chars_eq(a: &[char], b: &[char]) -> (r: bool)
    ensures
        r == (a@ == b@),
{
    if a.len() != b.len() {
        return false;
    }
    let mut i: usize = 0;
    while i < a.len()
        invariant
            i <= a@.len() == b@.len(),
            forall|k: int| 0 <= k < i ==> a@[k] == b@[k],
        decreases a@.len() - i,
    {
        if a[i] != b[i] {
            return false;
        }
        i = i + 1;
    }
    proof {
        assert(a@ =~= b@);
    }
    true
}

/// Whether the uppercase form `u` of a name is `lit`.
fn upper_is(u: &[char], lit: &str) -> (r: bool)
    ensures
        r == (u@ == lit@),
{
    let l = chars_of(lit);
    chars_eq(u, l.as_slice())
}

/// The tag whose uppercase name is `u`.
pub open spec fn tag_named(u: Seq<char>) -> Option<MdonHtmlTag> {
    if u == "P"@ {
        Some(MdonHtmlTag::P)
    } else if u == "BR"@ {
        Some(MdonHtmlTag::Br)
    } else if u == "A"@ {
        Some(MdonHtmlTag::A)
    } else if u == "DEL"@ {
        Some(MdonHtmlTag::Del)
    } else if u == "PRE"@ {
        Some(MdonHtmlTag::Pre)
    } else if u == "CODE"@ {
        Some(MdonHtmlTag::Code)
    } else if u == "EM"@ {
        Some(MdonHtmlTag::Em)
    } else if u == "STRONG"@ {
        Some(MdonHtmlTag::Strong)
    } else if u == "B"@ {
        Some(MdonHtmlTag::B)
    } else if u == "I"@ {
        Some(MdonHtmlTag::I)
    } else if u == "U"@ {
        Some(MdonHtmlTag::U)
    } else if u == "UL"@ {
        Some(MdonHtmlTag::Ul)
    } else if u == "OL"@ {
        Some(MdonHtmlTag::Ol)
    } else if u == "LI"@ {
        Some(MdonHtmlTag::Li)
    } else if u == "BLOCKQUOTE"@ {
        Some(MdonHtmlTag::Blockquote)
    } else {
        None
    }
}

/// The tag a name denotes, in any case.
pub open spec fn tag_of(name: Seq<char>) -> Option<MdonHtmlTag> {
    tag_named(upper_of(name))
}

/// The attribute whose uppercase name is `u`.
pub open spec fn attr_named(u: Seq<char>) -> Option<MdonHtmlAttr> {
    if u == "HREF"@ {
        Some(MdonHtmlAttr::Href)
    } else if u == "START"@ {
        Some(MdonHtmlAttr::Start)
    } else if u == "REVERSED"@ {
        Some(MdonHtmlAttr::Reversed)
    } else if u == "VALUE"@ {
        Some(MdonHtmlAttr::Value)
    } else {
        None
    }
}

/// The attribute a name denotes, in any case.
pub open spec fn attr_of(name: Seq<char>) -> Option<MdonHtmlAttr> {
    attr_named(upper_of(name))
}

/// The name of a tag, in lowercase.
pub open spec fn tag_name(t: MdonHtmlTag) -> Seq<char> {
    match t {
        MdonHtmlTag::P => "p"@,
        MdonHtmlTag::Br => "br"@,
        MdonHtmlTag::A => "a"@,
        MdonHtmlTag::Del => "del"@,
        MdonHtmlTag::Pre => "pre"@,
        MdonHtmlTag::Code => "code"@,
        MdonHtmlTag::Em => "em"@,
        MdonHtmlTag::Strong => "strong"@,
        MdonHtmlTag::B => "b"@,
        MdonHtmlTag::I => "i"@,
        MdonHtmlTag::U => "u"@,
        MdonHtmlTag::Ul => "ul"@,
        MdonHtmlTag::Ol => "ol"@,
        MdonHtmlTag::Li => "li"@,
        MdonHtmlTag::Blockquote => "blockquote"@,
    }
}

/// The name of an attribute, in lowercase.
pub open spec fn attr_name(a: MdonHtmlAttr) -> Seq<char> {
    match a {
        MdonHtmlAttr::Href => "href"@,
        MdonHtmlAttr::Start => "start"@,
        MdonHtmlAttr::Reversed => "reversed"@,
        MdonHtmlAttr::Value => "value"@,
    }
}

/// Whether an attribute may stand on a tag: `href` on `a`, `start` and
/// `reversed` on `ol`, `value` on `li`.
pub open spec fn attr_valid(t: MdonHtmlTag, a: MdonHtmlAttr) -> bool {
    ||| t == MdonHtmlTag::A && a == MdonHtmlAttr::Href
    ||| t == MdonHtmlTag::Ol && (a == MdonHtmlAttr::Start || a == MdonHtmlAttr::Reversed)
    ||| t == MdonHtmlTag::Li && a == MdonHtmlAttr::Value
}

impl MdonHtmlTag {
    /// Whether `attr` may stand on this tag.
    pub fn is_attr_valid(self, attr: MdonHtmlAttr) -> (r: bool)
        ensures
            r == attr_valid(self, attr),
    {
        match (self, attr) {
            (MdonHtmlTag::A, MdonHtmlAttr::Href) => true,
            (MdonHtmlTag::Ol, MdonHtmlAttr::Start) => true,
            (MdonHtmlTag::Ol, MdonHtmlAttr::Reversed) => true,
            (MdonHtmlTag::Li, MdonHtmlAttr::Value) => true,
            _ => false,
        }
    }

    /// The tag's name, in lowercase.
    pub fn scribe(self) -> (r: &'static str)
        ensures
            r@ == tag_name(self),
    {
        match self {
            MdonHtmlTag::P => "p",
            MdonHtmlTag::Br => "br",
            MdonHtmlTag::A => "a",
            MdonHtmlTag::Del => "del",
            MdonHtmlTag::Pre => "pre",
            MdonHtmlTag::Code => "code",
            MdonHtmlTag::Em => "em",
            MdonHtmlTag::Strong => "strong",
            MdonHtmlTag::B => "b",
            MdonHtmlTag::I => "i",
            MdonHtmlTag::U => "u",
            MdonHtmlTag::Ul => "ul",
            MdonHtmlTag::Ol => "ol",
            MdonHtmlTag::Li => "li",
            MdonHtmlTag::Blockquote => "blockquote",
        }
    }

    /// The tag that `name` denotes, compared without regard to case.
    pub fn try_unscribe(name: &str) -> (r: Option<MdonHtmlTag>)
        ensures
            r == tag_of(name@),
    {
        let u = to_upper(name);
        let u = u.as_slice();
        if upper_is(u, "P") {
            Some(MdonHtmlTag::P)
        } else if upper_is(u, "BR") {
            Some(MdonHtmlTag::Br)
        } else if upper_is(u, "A") {
            Some(MdonHtmlTag::A)
        } else if upper_is(u, "DEL") {
            Some(MdonHtmlTag::Del)
        } else if upper_is(u, "PRE") {
            Some(MdonHtmlTag::Pre)
        } else if upper_is(u, "CODE") {
            Some(MdonHtmlTag::Code)
        } else if upper_is(u, "EM") {
            Some(MdonHtmlTag::Em)
        } else if upper_is(u, "STRONG") {
            Some(MdonHtmlTag::Strong)
        } else if upper_is(u, "B") {
            Some(MdonHtmlTag::B)
        } else if upper_is(u, "I") {
            Some(MdonHtmlTag::I)
        } else if upper_is(u, "U") {
            Some(MdonHtmlTag::U)
        } else if upper_is(u, "UL") {
            Some(MdonHtmlTag::Ul)
        } else if upper_is(u, "OL") {
            Some(MdonHtmlTag::Ol)
        } else if upper_is(u, "LI") {
            Some(MdonHtmlTag::Li)
        } else if upper_is(u, "BLOCKQUOTE") {
            Some(MdonHtmlTag::Blockquote)
        } else {
            None
        }
    }
}

impl MdonHtmlAttr {
    /// The attribute's name, in lowercase.
    pub fn scribe(self) -> (r: &'static str)
        ensures
            r@ == attr_name(self),
    {
        match self {
            MdonHtmlAttr::Href => "href",
            MdonHtmlAttr::Start => "start",
            MdonHtmlAttr::Reversed => "reversed",
            MdonHtmlAttr::Value => "value",
        }
    }

    /// The attribute that `name` denotes, compared without regard to case.
    pub fn try_unscribe(name: &str) -> (r: Option<MdonHtmlAttr>)
        ensures
            r == attr_of(name@),
    {
        let u = to_upper(name);
        let u = u.as_slice();
        if upper_is(u, "HREF") {
            Some(MdonHtmlAttr::Href)
        } else if upper_is(u, "START") {
            Some(MdonHtmlAttr::Start)
        } else if upper_is(u, "REVERSED") {
            Some(MdonHtmlAttr::Reversed)
        } else if upper_is(u, "VALUE") {
            Some(MdonHtmlAttr::Value)
        } else {
            None
        }
    }
}

} // verus!
