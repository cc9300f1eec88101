//! The parts of the Mastodon API that the archive reads, and the walk over a
//! user's timeline.

use vstd::prelude::*;

use crate::chars::chars_of;

verus! {

/// A Mastodon account.
#[derive(Clone, Debug)]
pub struct MdonAcct {
    pub id: String,
}

/// A hashtag of a Mastodon status.
#[derive(Clone, Debug)]
pub struct MdonTag {
    pub name: String,
    pub url: String,
}

/// The kind of a Mastodon media attachment.
#[derive(Clone, Debug, PartialEq, Eq)]
pub enum MdonMediaType {
    Image,
    Gifv,
    Video,
    Audio,
    Unkown,
    /// A kind that the API names otherwise.
    Other(String),
}

/// The kind of media that the API calls `name`; names are matched exactly.
pub open spec fn media_type_spec(name: Seq<char>) -> MdonMediaType {
    if name == "image"@ {
        MdonMediaType::Image
    } else if name == "gifv"@ {
        MdonMediaType::Gifv
    } else if name == "video"@ {
        MdonMediaType::Video
    } else if name == "audio"@ {
        MdonMediaType::Audio
    } else if name == "unkown"@ {
        MdonMediaType::Unkown
    } else {
        MdonMediaType::Other(arbitrary())
    }
}

fn is_name(v: &Vec<char>, lit: &str) -> (r: bool)
    ensures
        r == (v@ == lit@),
{
    let l = chars_of(lit);
    if v.len() != l.len() {
        return false;
    }
    let mut i: usize = 0;
    while i < v.len()
        invariant
            i <= v@.len() == l@.len(),
            l@ == lit@,
            forall|k: int| 0 <= k < i ==> v@[k] == l@[k],
        decreases v@.len() - i,
    {
        if v[i] != l[i] {
            return false;
        }
        i = i + 1;
    }
    proof {
        assert(v@ =~= l@);
    }
    true
}

impl MdonMediaType {
    /// The kind of media that the API calls `name`: one of the known kinds,
    /// named in lowercase, or `Other` with the name.
    pub fn from_name(name: &str) -> (r: MdonMediaType)
        ensures
            media_type_spec(name@) is Other ==> (r matches MdonMediaType::Other(n) && n@ == name@),
            !(media_type_spec(name@) is Other) ==> r == media_type_spec(name@),
    {
        let v = chars_of(name);
        if is_name(&v, "image") {
            MdonMediaType::Image
        } else if is_name(&v, "gifv") {
            MdonMediaType::Gifv
        } else if is_name(&v, "video") {
            MdonMediaType::Video
        } else if is_name(&v, "audio") {
            MdonMediaType::Audio
        } else if is_name(&v, "unkown") {
            MdonMediaType::Unkown
        } else {
            MdonMediaType::Other(name.to_owned())
        }
    }
}

/// Where a walk over a user's timeline, newest first, stands: the id below
/// which the next page starts, and how many more pages may be fetched (no
/// limit where `None`).
#[derive(Clone, Debug)]
pub struct PageCursor {
    pub max_id: Option<String>,
    pub pages_left: Option<u32>,
}

impl PageCursor {
    pub fn new(max_id: Option<String>, pages: Option<u32>) -> (r: Self)
        ensures
            r.max_id == max_id,
            r.pages_left == pages,
    {
        PageCursor { max_id, pages_left: pages }
    }

    /// Before a page is fetched: whether one may be, counting it against
    /// the limit.
    pub fn start_page(&mut self) -> (r: bool)
        ensures
            final(self).max_id == old(self).max_id,
            match old(self).pages_left {
                None => r && final(self).pages_left is None,
                Some(n) => if n == 0 {
                    !r && final(self).pages_left == Some(0u32)
                } else {
                    r && final(self).pages_left == Some((n - 1) as u32)
                },
            },
    {
        match self.pages_left {
            None => true,
            Some(n) => {
                if n == 0 {
                    false
                } else {
                    self.pages_left = Some(n - 1);
                    true
                }
            },
        }
    }

    /// After a page was fetched: the id of its last status, if the page
    /// held any. Whether the walk goes on; where it does, the next page
    /// starts below that id.
    pub fn finish_page(&mut self, last_id: Option<&str>) -> (r: bool)
        ensures
            final(self).pages_left == old(self).pages_left,
            match last_id {
                None => !r && final(self).max_id == old(self).max_id,
                Some(id) => r && (final(self).max_id matches Some(m) && m@ == id@),
            },
    {
        match last_id {
            None => false,
            Some(id) => {
                self.max_id = Some(id.to_owned());
                true
            },
        }
    }
}

} // verus!
