//! The generic tree that an HTML parser produces, as the sanitiser reads it.

use vstd::prelude::*;

verus! {

/// A node of a parsed HTML document: the shape that a permissive HTML
/// parser hands over, with names and text as plain strings.
#[derive(Debug)]
pub enum DomNode {
    Document { children: Vec<DomNode> },
    Doctype,
    Text { contents: String },
    Comment,
    Element { name: String, attrs: Vec<(String, String)>, children: Vec<DomNode> },
    ProcessingInstruction,
}

} // verus!
