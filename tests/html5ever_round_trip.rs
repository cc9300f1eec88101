use html5ever::{
    interface::QuirksMode, parse_fragment, tendril::TendrilSink, tokenizer::TokenizerOpts,
    tree_builder::TreeBuilderOpts, LocalName, Namespace, ParseOpts, QualName,
};
use markup5ever_rcdom::{Node, NodeData, RcDom};

use sbbarch::{DomNode, MdonHtmlDoc};

fn to_dom(node: &Node) -> DomNode {
    let children = || node.children.borrow().iter().map(|c| to_dom(c)).collect::<Vec<_>>();
    match &node.data {
        NodeData::Document => DomNode::Document { children: children() },
        NodeData::Doctype { .. } => DomNode::Doctype,
        NodeData::Text { contents } => DomNode::Text { contents: contents.borrow().to_string() },
        NodeData::Comment { .. } => DomNode::Comment,
        NodeData::Element { name, attrs, .. } => DomNode::Element {
            name: name.local.to_string(),
            attrs: attrs
                .borrow()
                .iter()
                .map(|a| (a.name.local.to_string(), a.value.to_string()))
                .collect(),
            children: children(),
        },
        NodeData::ProcessingInstruction { .. } => DomNode::ProcessingInstruction,
    }
}

fn sanitize_html(html: &str, depth: usize) -> MdonHtmlDoc {
    let opts = ParseOpts {
        tokenizer: TokenizerOpts::default(),
        tree_builder: TreeBuilderOpts {
            exact_errors: false,
            scripting_enabled: false,
            iframe_srcdoc: false,
            drop_doctype: true,
            ignore_missing_rules: false,
            quirks_mode: QuirksMode::NoQuirks,
        },
    };
    let dom = parse_fragment(
        RcDom::default(),
        opts,
        QualName::new(
            None,
            Namespace::from("http://www.w3.org/1999/xhtml"),
            LocalName::from("body"),
        ),
        Vec::new(),
    )
    .one(html);
    MdonHtmlDoc::from_dom_node(&to_dom(&dom.document), depth).unwrap()
}

#[test]
fn sanitised_html_is_a_fixed_point() {
    let inputs = [
        "<p>Hello <span class=\"h\">big</span> <b>world</b> &amp; co<br>next</p><div><i>x</i> y</div>",
        "<p><a href=\"https://example.org/?a=1&amp;b='2'\" rel=\"me\">link</a> \"quoted\" &lt;tag&gt;</p>",
        "<ol start=\"3\" reversed><li value=\"9\">one</li><li>two</li></ol><blockquote><p>q</p></blockquote>",
        "<p>#smolrobots <span class=\"invisible\">https://</span><span>example.org</span></p>",
    ];
    for input in inputs {
        let first = sanitize_html(input, 16);
        let html = first.to_html();
        let second = sanitize_html(&html, 16);
        assert_eq!(second.to_html(), html, "{input:?}");
    }
}

#[test]
fn html5ever_parse_then_sanitise() {
    let doc = sanitize_html("<p>Hello <span>big</span> <B>World</B><script>x</script></p>", 16);
    assert_eq!(doc.to_html(), "<p>Hello big <b>World</b>x</p>");
}
