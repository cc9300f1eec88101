use sbbarch::{parse_robot_doc, DomNode, MdonHtmlAttr, MdonHtmlDoc, MdonHtmlNode, MdonHtmlTag};

fn text(s: &str) -> DomNode {
    DomNode::Text { contents: s.to_string() }
}

fn elem(name: &str, attrs: &[(&str, &str)], children: Vec<DomNode>) -> DomNode {
    DomNode::Element {
        name: name.to_string(),
        attrs: attrs.iter().map(|(n, v)| (n.to_string(), v.to_string())).collect(),
        children,
    }
}

fn document(children: Vec<DomNode>) -> DomNode {
    DomNode::Document { children }
}

fn sanitize(children: Vec<DomNode>, depth: usize) -> MdonHtmlDoc {
    MdonHtmlDoc::from_dom_node(&document(children), depth).unwrap()
}

#[test]
fn text_is_escaped() {
    let node = MdonHtmlNode::Text("a&b\n\"c'<d>e".to_string());
    assert_eq!(node.to_html(), "a&amp;b&nbsp;&quot;c&apos;&lt;d&gt;e");
}

#[test]
fn escaped_text_has_no_bare_special_characters() {
    let plain = "<script>alert('x' & \"y\")</script>\n";
    let html = MdonHtmlNode::Text(plain.to_string()).to_html();
    for c in ['<', '>', '"', '\'', '\n'] {
        assert!(!html.contains(c));
    }
    let decoded = html
        .replace("&lt;", "<")
        .replace("&gt;", ">")
        .replace("&quot;", "\"")
        .replace("&apos;", "'")
        .replace("&nbsp;", "\n")
        .replace("&amp;", "&");
    assert_eq!(decoded, plain);
}

#[test]
fn unknown_tags_are_unwrapped_and_text_joined() {
    let doc = sanitize(
        vec![elem(
            "p",
            &[("class", "x")],
            vec![
                text("Hello "),
                elem("span", &[], vec![text("world")]),
                text("!"),
            ],
        )],
        16,
    );
    assert_eq!(doc.to_html(), "<p>Hello world!</p>");
    assert_eq!(doc.roots().len(), 1);
    match &doc.roots()[0] {
        MdonHtmlNode::Element(e) => {
            assert_eq!(e.tag(), MdonHtmlTag::P);
            assert!(e.attrs().is_empty());
            assert_eq!(e.children().len(), 1);
        }
        MdonHtmlNode::Text(_) => panic!("expected an element"),
    }
}

#[test]
fn attributes_are_filtered_by_tag() {
    let doc = sanitize(
        vec![
            elem("a", &[("href", "https://example.org/?a=1&b=2"), ("rel", "nofollow")], vec![text("link")]),
            elem("p", &[("href", "x"), ("value", "3")], vec![text("para")]),
            elem("ol", &[("start", "3"), ("reversed", ""), ("value", "1")], vec![
                elem("li", &[("value", "7"), ("href", "y")], vec![text("item")]),
            ]),
        ],
        16,
    );
    assert_eq!(
        doc.to_html(),
        "<a href='https://example.org/?a=1&amp;b=2'>link</a><p>para</p><ol start='3' reversed=''><li value='7'>item</li></ol>"
    );
}

#[test]
fn attribute_names_match_without_case() {
    let doc = sanitize(vec![elem("A", &[("HREF", "u")], vec![text("x")])], 16);
    assert_eq!(doc.to_html(), "<a href='u'>x</a>");
}

#[test]
fn empty_element_has_no_closing_tag() {
    let doc = sanitize(vec![elem("p", &[], vec![text("a"), elem("br", &[], vec![]), text("b")])], 16);
    assert_eq!(doc.to_html(), "<p>a<br>b</p>");
}

#[test]
fn depth_budget_drops_deep_nodes() {
    let tree = || {
        vec![elem(
            "p",
            &[],
            vec![elem("strong", &[], vec![elem("em", &[], vec![text("deep")])])],
        )]
    };
    assert_eq!(sanitize(tree(), 4).to_html(), "<p><strong><em>deep</em></strong></p>");
    assert_eq!(sanitize(tree(), 3).to_html(), "<p><strong><em></strong></p>");
    assert_eq!(sanitize(tree(), 2).to_html(), "<p><strong></p>");
    assert_eq!(sanitize(tree(), 1).to_html(), "<p>");
    assert_eq!(sanitize(tree(), 0).to_html(), "");
}

#[test]
fn unwrapped_elements_use_up_depth() {
    let doc = sanitize(vec![elem("div", &[], vec![elem("div", &[], vec![text("x")])])], 2);
    assert_eq!(doc.to_html(), "");
    let doc = sanitize(vec![elem("div", &[], vec![elem("div", &[], vec![text("x")])])], 3);
    assert_eq!(doc.to_html(), "x");
}

#[test]
fn other_nodes_give_nothing() {
    let doc = sanitize(
        vec![
            DomNode::Doctype,
            DomNode::Comment,
            text("a"),
            DomNode::ProcessingInstruction,
            text("b"),
            document(vec![text("c")]),
        ],
        16,
    );
    assert_eq!(doc.to_html(), "ab");
    assert_eq!(doc.roots().len(), 1);
}

#[test]
fn non_document_root_is_refused() {
    assert!(MdonHtmlDoc::from_dom_node(&text("x"), 16).is_none());
    assert!(MdonHtmlDoc::from_dom_node(&elem("p", &[], vec![]), 16).is_none());
}

#[test]
fn tag_names_match_without_case() {
    assert_eq!(MdonHtmlTag::try_unscribe("STRONG"), Some(MdonHtmlTag::Strong));
    assert_eq!(MdonHtmlTag::try_unscribe("BlockQuote"), Some(MdonHtmlTag::Blockquote));
    assert_eq!(MdonHtmlTag::try_unscribe("\u{17f}trong"), Some(MdonHtmlTag::Strong));
    assert_eq!(MdonHtmlTag::try_unscribe("span"), None);
    assert_eq!(MdonHtmlTag::try_unscribe(""), None);
    assert_eq!(MdonHtmlAttr::try_unscribe("Reversed"), Some(MdonHtmlAttr::Reversed));
    assert_eq!(MdonHtmlAttr::try_unscribe("class"), None);
    assert_eq!(MdonHtmlTag::Blockquote.scribe(), "blockquote");
    assert_eq!(MdonHtmlAttr::Href.scribe(), "href");
    assert!(MdonHtmlTag::Ol.is_attr_valid(MdonHtmlAttr::Start));
    assert!(!MdonHtmlTag::Li.is_attr_valid(MdonHtmlAttr::Href));
}

#[test]
fn resanitising_serialised_output_is_stable() {
    let first = sanitize(
        vec![elem("p", &[], vec![text("a"), elem("i", &[], vec![text("b")]), elem("span", &[], vec![text("c")])])],
        16,
    );
    let html = first.to_html();
    assert_eq!(html, "<p>a<i>b</i>c</p>");
    let reparsed = sanitize(vec![elem("p", &[], vec![text("a"), elem("i", &[], vec![text("b")]), text("c")])], 16);
    assert_eq!(reparsed.to_html(), html);
}

#[test]
fn robot_doc_replaces_opening_text() {
    let doc = sanitize(
        vec![
            elem(
                "p",
                &[],
                vec![
                    text("558/9) Salt- and Pepperbots. Bring you salt and pepper."),
                    elem("br", &[], vec![]),
                    text("#smallrobots"),
                ],
            ),
            elem("p", &[], vec![text("more")]),
        ],
        16,
    );
    let (new_doc, group) = parse_robot_doc(&doc).unwrap();
    assert_eq!(new_doc.to_html(), "<p>Bring you salt and pepper.<br>#smallrobots</p><p>more</p>");
    assert_eq!(group.robots.len(), 2);
    assert_eq!(group.robots[1].number, 559);
    assert_eq!(group.body, "Bring you salt and pepper.");
}

#[test]
fn robot_doc_needs_paragraph_with_text() {
    let doc = sanitize(vec![elem("b", &[], vec![text("1) Teabot. Tea.")])], 16);
    assert!(parse_robot_doc(&doc).is_none());
    let doc = sanitize(vec![elem("p", &[], vec![elem("b", &[], vec![text("1) Teabot. Tea.")])])], 16);
    assert!(parse_robot_doc(&doc).is_none());
    let doc = sanitize(vec![elem("p", &[], vec![text("no robots here")])], 16);
    assert!(parse_robot_doc(&doc).is_none());
    let doc = sanitize(vec![], 16);
    assert!(parse_robot_doc(&doc).is_none());
}
