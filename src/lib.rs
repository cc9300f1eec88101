//! Parsing of numbered robot posts, sanitising of post markup, and compact
//! robot identifiers.
//!
//! A post's text is read by [`group::parse_group`] into a [`robot::ParsedGroup`]:
//! the content warning that may open it, the robots' numbers and names, and
//! its body. A post's markup, once parsed into [`dom::DomNode`]s, is reduced by
//! [`html::MdonHtmlDoc::from_dom_node`] to a small tree of allowed tags, which
//! serialises back to escaped HTML. [`ident::Ident`] packs a robot's season,
//! number and normalised name into a compact value.

pub mod chars;
pub mod cw;
pub mod doc;
pub mod dom;
pub mod group;
pub mod html;
pub mod ident;
pub mod ident_buf;
pub mod laws;
pub mod mastodon;
pub mod names;
pub mod numbers;
pub mod parse_out;
pub mod robot;
pub mod site;
pub mod tags;

pub use cw::parse_cw;
pub use doc::parse_robot_doc;
pub use dom::DomNode;
pub use group::parse_group;
pub use html::{MdonHtmlDoc, MdonHtmlElem, MdonHtmlNode};
pub use ident::{Ident, IdentError};
pub use ident_buf::{IdentBuf, ParseIdentError};
pub use mastodon::{MdonAcct, MdonMediaType, MdonTag, PageCursor};
pub use names::parse_names;
pub use numbers::{numbers_range, parse_numbers};
pub use parse_out::ParseOut;
pub use robot::{ParsedGroup, Robot, RobotName};
pub use site::{CloneData, Pagination, RobotImage};
pub use tags::{MdonHtmlAttr, MdonHtmlTag};
