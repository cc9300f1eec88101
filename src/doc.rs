//! Reading a robot post out of its sanitised markup.

use vstd::prelude::*;
use vstd::slice::slice_subrange;

use crate::group::{group_spec, parse_group, GroupView};
use crate::html::{
    clone_nodes, lemma_node_view, lemma_nodes_view_concat, lemma_nodes_view_empty, lemma_nodes_view_index,
    lemma_nodes_view_len, lemma_nodes_view_push, lemma_nodes_view_skip, nodes_view, HtmlTree,
    MdonHtmlDoc, MdonHtmlNode,
};
use crate::robot::ParsedGroup;
use crate::tags::MdonHtmlTag;

verus! {

/// A post whose markup opens with a paragraph whose first child is text:
/// that text read as a robot post, and the markup with the text replaced by
/// the post's body. `None` where the markup has no such opening or the text
/// is no robot post.
pub open spec fn robot_doc_spec(d: Seq<HtmlTree>) -> Option<(Seq<HtmlTree>, GroupView)> {
    if d.len() > 0 && d[0] is Element && d[0]->tag == MdonHtmlTag::P && d[0]->children.len() > 0
        && d[0]->children[0] is Text {
        match group_spec(d[0]->children[0]->Text_0) {
            None => None,
            Some(g) => Some(
                (
                    seq![
                        HtmlTree::Element {
                            tag: MdonHtmlTag::P,
                            attrs: d[0]->attrs,
                            children: seq![HtmlTree::Text(g.body)] + d[0]->children.skip(1),
                        },
                    ] + d.skip(1),
                    g,
                ),
            ),
        }
    } else {
        None
    }
}

/// Reads the robot post in a document whose first root is a paragraph that
/// opens with text, and gives the document with that text replaced by the
/// post's body, and the post.
pub fn parse_robot_doc(doc: &MdonHtmlDoc) -> (r: Option<(MdonHtmlDoc, ParsedGroup)>)
    ensures
        match robot_doc_spec(doc@) {
            None => r is None,
            Some((d, g)) => r matches Some((nd, pg)) && nd@ == d && pg@ == g,
        },
{
    let roots = doc.roots();
    proof {
        lemma_nodes_view_len(roots@);
    }
    if roots.len() == 0 {
        return None;
    }
    proof {
        lemma_nodes_view_index(roots@, 0);
        lemma_node_view(roots@[0]);
    }
    let first_elem = match &roots[0] {
        MdonHtmlNode::Element(e) => e,
        MdonHtmlNode::Text(_) => return None,
    };
    if first_elem.tag() != MdonHtmlTag::P {
        return None;
    }
    let children = first_elem.children();
    proof {
        lemma_nodes_view_len(children@);
    }
    if children.len() == 0 {
        return None;
    }
    proof {
        lemma_nodes_view_index(children@, 0);
        lemma_node_view(children@[0]);
    }
    let p_text = match &children[0] {
        MdonHtmlNode::Text(t) => t,
        MdonHtmlNode::Element(_) => return None,
    };
    let group = match parse_group(p_text.as_str()) {
        None => return None,
        Some(g) => g,
    };
    let mut new_children: Vec<MdonHtmlNode> = Vec::new();
    let body = MdonHtmlNode::Text(group.body.clone());
    proof {
        lemma_nodes_view_empty();
        lemma_nodes_view_push(new_children@, body);
        lemma_node_view(body);
    }
    new_children.push(body);
    let mut tail_children = clone_nodes(slice_subrange(children, 1, children.len()));
    proof {
        lemma_nodes_view_concat(new_children@, tail_children@);
        lemma_nodes_view_skip(children@, 1);
        assert(children@.subrange(1, children@.len() as int) =~= children@.skip(1));
    }
    let ghost nc = new_children@;
    new_children.append(&mut tail_children);
    let new_first = first_elem.clone_replace_children(new_children);
    let mut new_roots: Vec<MdonHtmlNode> = Vec::new();
    let first = MdonHtmlNode::Element(new_first);
    proof {
        lemma_nodes_view_empty();
        lemma_nodes_view_push(new_roots@, first);
        lemma_node_view(first);
    }
    new_roots.push(first);
    let mut tail_roots = clone_nodes(slice_subrange(roots, 1, roots.len()));
    proof {
        lemma_nodes_view_concat(new_roots@, tail_roots@);
        lemma_nodes_view_skip(roots@, 1);
        assert(roots@.subrange(1, roots@.len() as int) =~= roots@.skip(1));
    }
    new_roots.append(&mut tail_roots);
    let new_doc = MdonHtmlDoc::from_roots(new_roots);
    proof {
        let (d, g) = robot_doc_spec(doc@)->0;
        assert(nodes_view(nc) =~= seq![HtmlTree::Text(g.body)]);
        assert(new_doc@ =~= d);
    }
    Some((new_doc, group))
}

} // verus!
