//! Sanitised markup: a small tree of allowed tags and text, and its
//! serialisation as escaped HTML.

use vstd::prelude::*;

use crate::chars::{chars_of, string_from_chars};
use crate::dom::DomNode;
use crate::tags::{attr_name, attr_of, attr_valid, tag_name, tag_of, MdonHtmlAttr, MdonHtmlTag};

verus! {

broadcast use vstd::std_specs::vec::group_vec_axioms;

/// A document of sanitised markup.
#[derive(Debug)]
pub struct MdonHtmlDoc {
    roots: Vec<MdonHtmlNode>,
}

/// A node of sanitised markup.
#[derive(Debug)]
pub enum MdonHtmlNode {
    Element(MdonHtmlElem),
    Text(String),
}

/// An element of sanitised markup.
#[derive(Debug)]
pub struct MdonHtmlElem {
    tag: MdonHtmlTag,
    attrs: Vec<(MdonHtmlAttr, String)>,
    children: Vec<MdonHtmlNode>,
}

/// A node of sanitised markup as a mathematical tree.
pub enum HtmlTree {
    Element { tag: MdonHtmlTag, attrs: Seq<(MdonHtmlAttr, Seq<char>)>, children: Seq<HtmlTree> },
    Text(Seq<char>),
}

pub open spec fn attrs_view(a: Seq<(MdonHtmlAttr, String)>) -> Seq<(MdonHtmlAttr, Seq<char>)> {
    Seq::new(a.len(), |i: int| (a[i].0, a[i].1@))
}

pub closed spec fn node_view(n: MdonHtmlNode) -> HtmlTree
    decreases n,
{
    match n {
        MdonHtmlNode::Text(t) => HtmlTree::Text(t@),
        MdonHtmlNode::Element(e) => HtmlTree::Element {
            tag: e.tag,
            attrs: attrs_view(e.attrs@),
            children: nodes_view(e.children@),
        },
    }
}

pub closed spec fn nodes_view(s: Seq<MdonHtmlNode>) -> Seq<HtmlTree>
    decreases s,
{
    if s.len() == 0 {
        seq![]
    } else {
        nodes_view(s.drop_last()).push(node_view(s.last()))
    }
}

impl View for MdonHtmlNode {
    type V = HtmlTree;

    open spec fn view(&self) -> HtmlTree {
        node_view(*self)
    }
}

impl View for MdonHtmlElem {
    type V = HtmlTree;

    closed spec fn view(&self) -> HtmlTree {
        HtmlTree::Element {
            tag: self.tag,
            attrs: attrs_view(self.attrs@),
            children: nodes_view(self.children@),
        }
    }
}

impl View for MdonHtmlDoc {
    type V = Seq<HtmlTree>;

    closed spec fn view(&self) -> Seq<HtmlTree> {
        nodes_view(self.roots@)
    }
}

/// Appends `x` to a list of nodes, joining it to a text node that ends the
/// list where `x` is text too.
pub open spec fn push_merge(acc: Seq<HtmlTree>, x: HtmlTree) -> Seq<HtmlTree> {
    match x {
        HtmlTree::Text(t) => if acc.len() > 0 && acc.last() is Text {
            acc.drop_last().push(HtmlTree::Text(acc.last()->Text_0 + t))
        } else {
            acc.push(x)
        },
        _ => acc.push(x),
    }
}

/// A list of nodes with each run of adjacent text nodes joined into one.
pub open spec fn merge_texts(s: Seq<HtmlTree>) -> Seq<HtmlTree>
    decreases s.len(),
{
    if s.len() == 0 {
        seq![]
    } else {
        push_merge(merge_texts(s.drop_last()), s.last())
    }
}

/// Whether an attribute list holds only attributes valid for `t`.
pub open spec fn attrs_ok(t: MdonHtmlTag, a: Seq<(MdonHtmlAttr, Seq<char>)>) -> bool {
    forall|i: int| 0 <= i < a.len() ==> attr_valid(t, #[trigger] a[i].0)
}

/// The attributes of `a` that are valid for `t`, in order.
pub open spec fn valid_attrs(t: MdonHtmlTag, a: Seq<(MdonHtmlAttr, Seq<char>)>) -> Seq<
    (MdonHtmlAttr, Seq<char>),
>
    decreases a.len(),
{
    if a.len() == 0 {
        seq![]
    } else if attr_valid(t, a.last().0) {
        valid_attrs(t, a.drop_last()).push(a.last())
    } else {
        valid_attrs(t, a.drop_last())
    }
}

/// The escaped form of one character.
pub open spec fn escape_of(c: char) -> Seq<char> {
    if c == '&' {
        "&amp;"@
    } else if c == '\n' {
        "&nbsp;"@
    } else if c == '"' {
        "&quot;"@
    } else if c == '\'' {
        "&apos;"@
    } else if c == '<' {
        "&lt;"@
    } else if c == '>' {
        "&gt;"@
    } else {
        seq![c]
    }
}

pub open spec fn needs_escape(c: char) -> bool {
    c == '&' || c == '\n' || c == '"' || c == '\'' || c == '<' || c == '>'
}

/// Text with each character escaped.
pub open spec fn escape(s: Seq<char>) -> Seq<char>
    decreases s.len(),
{
    if s.len() == 0 {
        seq![]
    } else {
        escape_of(s[0]) + escape(s.drop_first())
    }
}

pub proof fn lemma_escape_push(s: Seq<char>, c: char)
    ensures
        escape(s.push(c)) == escape(s) + escape_of(c),
    decreases s.len(),
{
    if s.len() == 0 {
        assert(s.push(c).drop_first() =~= Seq::<char>::empty());
        assert(escape(Seq::<char>::empty()) =~= Seq::<char>::empty());
        assert(escape(s) =~= Seq::<char>::empty());
        assert(escape_of(c) + Seq::<char>::empty() =~= escape_of(c));
    } else {
        lemma_escape_push(s.drop_first(), c);
        assert(s.push(c).drop_first() =~= s.drop_first().push(c));
        assert(s.push(c)[0] == s[0]);
        assert(escape_of(s[0]) + (escape(s.drop_first()) + escape_of(c)) =~= (escape_of(s[0])
            + escape(s.drop_first())) + escape_of(c));
    }
}

/// The attributes as HTML: ` name='value'` for each.
pub open spec fn attrs_html(a: Seq<(MdonHtmlAttr, Seq<char>)>) -> Seq<char>
    decreases a.len(),
{
    if a.len() == 0 {
        seq![]
    } else {
        attrs_html(a.drop_last()) + " "@ + attr_name(a.last().0) + "='"@ + escape(a.last().1) + "'"@
    }
}

/// A node as HTML: text escaped; an element as its opening tag, then, where
/// it has children, the children and the closing tag.
pub open spec fn tree_html(t: HtmlTree) -> Seq<char>
    decreases t,
{
    match t {
        HtmlTree::Text(s) => escape(s),
        HtmlTree::Element { tag, attrs, children } => "<"@ + tag_name(tag) + attrs_html(attrs) + ">"@
            + if children.len() > 0 {
            trees_html(children) + "</"@ + tag_name(tag) + ">"@
        } else {
            seq![]
        },
    }
}

/// A list of nodes as HTML, one after the other.
pub open spec fn trees_html(s: Seq<HtmlTree>) -> Seq<char>
    decreases s,
{
    if s.len() == 0 {
        seq![]
    } else {
        trees_html(s.drop_last()) + tree_html(s.last())
    }
}

/// The escape sequence for a character, where it needs one.
pub fn escape_char(c: char) -> (r: Option<&'static str>)
    ensures
        needs_escape(c) ==> (r matches Some(e) && e@ == escape_of(c)),
        !needs_escape(c) ==> r is None,
{
    match c {
        '&' => Some("&amp;"),
        '\n' => Some("&nbsp;"),
        '"' => Some("&quot;"),
        '\'' => Some("&apos;"),
        '<' => Some("&lt;"),
        '>' => Some("&gt;"),
        _ => None,
    }
}

fn push_str(out: &mut Vec<char>, s: &str)
    ensures
        final(out)@ == old(out)@ + s@,
{
    let mut v = chars_of(s);
    out.append(&mut v);
}

fn write_escaped(out: &mut Vec<char>, s: &str)
    ensures
        final(out)@ == old(out)@ + escape(s@),
{
    let v = chars_of(s);
    let ghost start = out@;
    let mut i: usize = 0;
    while i < v.len()
        invariant
            i <= v@.len(),
            v@ == s@,
            out@ == start + escape(s@.take(i as int)),
        decreases v@.len() - i,
    {
        let c = v[i];
        proof {
            assert(s@.take(i + 1) =~= s@.take(i as int).push(c));
            lemma_escape_push(s@.take(i as int), c);
        }
        match escape_char(c) {
            Some(e) => push_str(out, e),
            None => out.push(c),
        }
        proof {
            assert(out@ =~= start + escape(s@.take(i + 1)));
        }
        i = i + 1;
    }
    proof {
        assert(s@.take(i as int) =~= s@);
    }
}

fn write_attrs(out: &mut Vec<char>, attrs: &Vec<(MdonHtmlAttr, String)>)
    ensures
        final(out)@ == old(out)@ + attrs_html(attrs_view(attrs@)),
{
    let ghost start = out@;
    let mut i: usize = 0;
    while i < attrs.len()
        invariant
            i <= attrs@.len(),
            out@ == start + attrs_html(attrs_view(attrs@).take(i as int)),
        decreases attrs@.len() - i,
    {
        let (a, v) = &attrs[i];
        push_str(out, " ");
        push_str(out, a.scribe());
        push_str(out, "='");
        write_escaped(out, v.as_str());
        push_str(out, "'");
        proof {
            let av = attrs_view(attrs@);
            assert(av.take(i + 1).drop_last() =~= av.take(i as int));
            assert(av.take(i + 1).last() == (*a, v@));
            assert(out@ =~= start + attrs_html(av.take(i + 1)));
        }
        i = i + 1;
    }
    proof {
        assert(attrs_view(attrs@).take(i as int) =~= attrs_view(attrs@));
    }
}

fn write_node(out: &mut Vec<char>, n: &MdonHtmlNode)
    ensures
        final(out)@ == old(out)@ + tree_html(n@),
    decreases n, 0nat,
{
    match n {
        MdonHtmlNode::Text(t) => write_escaped(out, t.as_str()),
        MdonHtmlNode::Element(e) => write_elem(out, e),
    }
}

fn write_elem(out: &mut Vec<char>, e: &MdonHtmlElem)
    ensures
        final(out)@ == old(out)@ + tree_html(e@),
    decreases e, 0nat,
{
    let ghost start = out@;
    push_str(out, "<");
    push_str(out, e.tag.scribe());
    write_attrs(out, &e.attrs);
    push_str(out, ">");
    if e.children.len() > 0 {
        write_nodes(out, &e.children);
        push_str(out, "</");
        push_str(out, e.tag.scribe());
        push_str(out, ">");
    }
    proof {
        assert(nodes_view(e.children@).len() == e.children@.len()) by {
            lemma_nodes_view_len(e.children@);
        }
        assert(out@ =~= start + tree_html(e@));
    }
}

pub proof fn lemma_nodes_view_len(s: Seq<MdonHtmlNode>)
    ensures
        nodes_view(s).len() == s.len(),
    decreases s.len(),
{
    if s.len() > 0 {
        lemma_nodes_view_len(s.drop_last());
    }
}

pub proof fn lemma_nodes_view_index(s: Seq<MdonHtmlNode>, i: int)
    requires
        0 <= i < s.len(),
    ensures
        nodes_view(s)[i] == node_view(s[i]),
    decreases s.len(),
{
    lemma_nodes_view_len(s.drop_last());
    if i < s.len() - 1 {
        lemma_nodes_view_index(s.drop_last(), i);
    }
}

fn write_nodes(out: &mut Vec<char>, ns: &Vec<MdonHtmlNode>)
    ensures
        final(out)@ == old(out)@ + trees_html(nodes_view(ns@)),
    decreases ns, 1nat,
{
    let ghost start = out@;
    let mut i: usize = 0;
    while i < ns.len()
        invariant
            i <= ns@.len(),
            out@ == start + trees_html(nodes_view(ns@.take(i as int))),
        decreases ns@.len() - i,
    {
        proof {
            assert(decreases_to!(ns => ns[i as int]));
        }
        write_node(out, &ns[i]);
        proof {
            let t = ns@.take(i + 1);
            assert(t.drop_last() =~= ns@.take(i as int));
            assert(t.last() == ns@[i as int]);
            let pv = nodes_view(ns@.take(i as int));
            assert(nodes_view(t) == pv.push(node_view(ns@[i as int])));
            assert(pv.push(node_view(ns@[i as int])).drop_last() =~= pv);
            assert(out@ =~= start + trees_html(nodes_view(ns@.take(i + 1))));
        }
        i = i + 1;
    }
    proof {
        assert(ns@.take(i as int) =~= ns@);
    }
}

impl MdonHtmlNode {
    /// The node as HTML.
    pub fn to_html(&self) -> (r: String)
        ensures
            r@ == tree_html(self@),
    {
        let mut out: Vec<char> = Vec::new();
        write_node(&mut out, self);
        string_from_chars(out.as_slice())
    }
}

impl MdonHtmlElem {
    /// The element as HTML: its opening tag with its attributes, then, where
    /// it has children, the children and its closing tag.
    pub fn to_html(&self) -> (r: String)
        ensures
            r@ == tree_html(self@),
    {
        let mut out: Vec<char> = Vec::new();
        write_elem(&mut out, self);
        string_from_chars(out.as_slice())
    }
}

impl MdonHtmlDoc {
    /// The document as HTML: its root nodes one after the other.
    pub fn to_html(&self) -> (r: String)
        ensures
            r@ == trees_html(self@),
    {
        let mut out: Vec<char> = Vec::new();
        write_nodes(&mut out, &self.roots);
        string_from_chars(out.as_slice())
    }
}

/// The attributes of a parsed element whose names denote a known attribute,
/// in order, with that attribute.
pub open spec fn known_attrs(a: Seq<(String, String)>) -> Seq<(MdonHtmlAttr, Seq<char>)>
    decreases a.len(),
{
    if a.len() == 0 {
        seq![]
    } else {
        let rest = known_attrs(a.drop_last());
        match attr_of(a.last().0@) {
            Some(x) => rest.push((x, a.last().1@)),
            None => rest,
        }
    }
}

/// What one parsed node becomes with a depth budget of `d`: nothing where
/// the budget is spent; text stays text; an element of a known tag becomes
/// that element with its valid known attributes and its converted children;
/// an element of another tag gives way to its converted children; the other
/// kinds of node give nothing.
pub open spec fn conv_node(n: DomNode, d: nat) -> Seq<HtmlTree>
    decreases n, 0nat,
{
    if d == 0 {
        seq![]
    } else {
        match n {
            DomNode::Text { contents } => seq![HtmlTree::Text(contents@)],
            DomNode::Element { name, attrs, children } => {
                let kids = merge_texts(conv_list(children@, (d - 1) as nat));
                match tag_of(name@) {
                    None => kids,
                    Some(t) => seq![
                        HtmlTree::Element {
                            tag: t,
                            attrs: valid_attrs(t, known_attrs(attrs@)),
                            children: kids,
                        },
                    ],
                }
            },
            _ => seq![],
        }
    }
}

/// The conversions of a list of parsed nodes, one after the other.
pub open spec fn conv_list(ns: Seq<DomNode>, d: nat) -> Seq<HtmlTree>
    decreases ns, 0nat,
{
    if ns.len() == 0 {
        seq![]
    } else {
        conv_list(ns.drop_last(), d) + conv_node(ns.last(), d)
    }
}

/// A list of parsed nodes sanitised with a depth budget of `d`: each node
/// converted, and adjacent text joined.
pub open spec fn sanitize(ns: Seq<DomNode>, d: nat) -> Seq<HtmlTree> {
    merge_texts(conv_list(ns, d))
}

pub proof fn lemma_nodes_view_push(s: Seq<MdonHtmlNode>, x: MdonHtmlNode)
    ensures
        nodes_view(s.push(x)) == nodes_view(s).push(node_view(x)),
{
    assert(s.push(x).drop_last() =~= s);
}

pub proof fn lemma_nodes_view_concat(a: Seq<MdonHtmlNode>, b: Seq<MdonHtmlNode>)
    ensures
        nodes_view(a + b) == nodes_view(a) + nodes_view(b),
    decreases b.len(),
{
    if b.len() == 0 {
        assert(a + b =~= a);
        assert(nodes_view(a) + nodes_view(b) =~= nodes_view(a));
    } else {
        lemma_nodes_view_concat(a, b.drop_last());
        assert((a + b).drop_last() =~= a + b.drop_last());
        assert((a + b).last() == b.last());
        assert(nodes_view(a) + nodes_view(b) =~= (nodes_view(a) + nodes_view(b.drop_last())).push(
            node_view(b.last()),
        ));
    }
}

pub proof fn lemma_nodes_view_skip(s: Seq<MdonHtmlNode>, i: int)
    requires
        0 <= i <= s.len(),
    ensures
        nodes_view(s.skip(i)) == nodes_view(s).skip(i),
{
    lemma_nodes_view_concat(s.take(i), s.skip(i));
    assert(s.take(i) + s.skip(i) =~= s);
    lemma_nodes_view_len(s.take(i));
    assert(nodes_view(s).skip(i) =~= nodes_view(s.skip(i)));
}

pub proof fn lemma_nodes_view_empty()
    ensures
        nodes_view(seq![]) == Seq::<HtmlTree>::empty(),
{
}

pub proof fn lemma_merge_push(s: Seq<HtmlTree>, x: HtmlTree)
    ensures
        merge_texts(s.push(x)) == push_merge(merge_texts(s), x),
{
    assert(s.push(x).drop_last() =~= s);
}

/// Appends `x`, joining it to a text node that ends `out` where `x` is text.
fn push_merged(out: &mut Vec<MdonHtmlNode>, x: MdonHtmlNode)
    ensures
        nodes_view(final(out)@) == push_merge(nodes_view(old(out)@), node_view(x)),
{
    let ghost v0 = nodes_view(out@);
    proof {
        lemma_nodes_view_len(out@);
        lemma_nodes_view_push(out@, x);
    }
    match x {
        MdonHtmlNode::Text(t) => {
            let ends_in_text = out.len() > 0 && match &out[out.len() - 1] {
                MdonHtmlNode::Text(_) => true,
                MdonHtmlNode::Element(_) => false,
            };
            proof {
                if out@.len() > 0 {
                    lemma_nodes_view_index(out@, out@.len() - 1);
                }
            }
            if ends_in_text {
                let last = out.pop().unwrap();
                proof {
                    assert(nodes_view(out@) == v0.drop_last()) by {
                        assert(old(out)@.drop_last() =~= out@);
                    }
                }
                match last {
                    MdonHtmlNode::Text(mut u) => {
                        u.append(t.as_str());
                        let y = MdonHtmlNode::Text(u);
                        proof {
                            lemma_nodes_view_push(out@, y);
                        }
                        out.push(y);
                    },
                    MdonHtmlNode::Element(e) => {
                        proof {
                            assert(false);
                        }
                        out.push(MdonHtmlNode::Element(e));
                    },
                }
            } else {
                out.push(MdonHtmlNode::Text(t));
            }
        },
        MdonHtmlNode::Element(e) => {
            out.push(MdonHtmlNode::Element(e));
        },
    }
}

fn clone_string(s: &String) -> (r: String)
    ensures
        r@ == s@,
{
    s.clone()
}

/// Converts one parsed node with a depth budget of `max_depth`.
fn conv_dom_node(node: &DomNode, max_depth: usize) -> (r: Vec<MdonHtmlNode>)
    ensures
        nodes_view(r@) == conv_node(*node, max_depth as nat),
    decreases max_depth, 0nat,
{
    let mut out: Vec<MdonHtmlNode> = Vec::new();
    proof {
        lemma_nodes_view_empty();
    }
    if max_depth == 0 {
        return out;
    }
    let d = max_depth - 1;
    match node {
        DomNode::Text { contents } => {
            let x = MdonHtmlNode::Text(clone_string(contents));
            proof {
                lemma_nodes_view_push(out@, x);
            }
            out.push(x);
            proof {
                assert(nodes_view(out@) =~= conv_node(*node, max_depth as nat));
            }
            out
        },
        DomNode::Element { name, attrs, children } => {
            let kids = conv_dom_nodes_all(children, d);
            match MdonHtmlTag::try_unscribe(name.as_str()) {
                None => kids,
                Some(tag) => {
                    let mut known: Vec<(MdonHtmlAttr, String)> = Vec::new();
                    let mut i: usize = 0;
                    while i < attrs.len()
                        invariant
                            i <= attrs@.len(),
                            attrs_view(known@) == known_attrs(attrs@.take(i as int)),
                        decreases attrs@.len() - i,
                    {
                        let (n, v) = &attrs[i];
                        proof {
                            assert(attrs@.take(i + 1).drop_last() =~= attrs@.take(i as int));
                        }
                        match MdonHtmlAttr::try_unscribe(n.as_str()) {
                            Some(a) => {
                                known.push((a, clone_string(v)));
                                proof {
                                    assert(attrs_view(known@) =~= known_attrs(
                                        attrs@.take(i + 1),
                                    ));
                                }
                            },
                            None => {},
                        }
                        i = i + 1;
                    }
                    proof {
                        assert(attrs@.take(i as int) =~= attrs@);
                    }
                    let e = MdonHtmlNode::Element(MdonHtmlElem::new(tag, known, kids));
                    proof {
                        lemma_nodes_view_push(out@, e);
                    }
                    out.push(e);
                    proof {
                        assert(nodes_view(out@) =~= conv_node(*node, max_depth as nat));
                    }
                    out
                },
            }
        },
        _ => out,
    }
}

/// Converts a list of parsed nodes with a depth budget of `max_depth`,
/// joining adjacent text.
fn conv_dom_nodes_all(nodes: &Vec<DomNode>, max_depth: usize) -> (r: Vec<MdonHtmlNode>)
    ensures
        nodes_view(r@) == sanitize(nodes@, max_depth as nat),
    decreases max_depth, 1nat,
{
    let ghost d = max_depth as nat;
    let mut out: Vec<MdonHtmlNode> = Vec::new();
    proof {
        lemma_nodes_view_empty();
    }
    let mut i: usize = 0;
    while i < nodes.len()
        invariant
            i <= nodes@.len(),
            d == max_depth as nat,
            nodes_view(out@) == merge_texts(conv_list(nodes@.take(i as int), d)),
        decreases nodes@.len() - i,
    {
        let mut part = conv_dom_node(&nodes[i], max_depth);
        let ghost orig = part@;
        let ghost pv = nodes_view(orig);
        let ghost a = conv_list(nodes@.take(i as int), d);
        proof {
            lemma_nodes_view_len(orig);
            assert(a + pv.take(0) =~= a);
        }
        let ghost mut j: int = 0;
        while part.len() > 0
            invariant
                0 <= j <= orig.len(),
                part@ == orig.skip(j),
                pv == nodes_view(orig),
                pv.len() == orig.len(),
                nodes_view(out@) == merge_texts(a + pv.take(j)),
            decreases part@.len(),
        {
            let x = part.remove(0);
            proof {
                assert(x == orig[j]);
                lemma_nodes_view_index(orig, j);
                assert(a + pv.take(j + 1) =~= (a + pv.take(j)).push(pv[j]));
                lemma_merge_push(a + pv.take(j), pv[j]);
                assert(part@ =~= orig.skip(j + 1));
            }
            push_merged(&mut out, x);
            proof {
                j = j + 1;
            }
        }
        proof {
            assert(j == orig.len());
            assert(pv.take(j) =~= pv);
            let t = nodes@.take(i + 1);
            assert(t.drop_last() =~= nodes@.take(i as int));
            assert(t.last() == nodes@[i as int]);
        }
        i = i + 1;
    }
    proof {
        assert(nodes@.take(i as int) =~= nodes@);
    }
    out
}

impl MdonHtmlElem {
    /// An element with the attributes of `attrs` that are valid for `tag`.
    pub fn new(tag: MdonHtmlTag, attrs: Vec<(MdonHtmlAttr, String)>, children: Vec<MdonHtmlNode>) -> (r: Self)
        ensures
            r@ == (HtmlTree::Element {
                tag,
                attrs: valid_attrs(tag, attrs_view(attrs@)),
                children: nodes_view(children@),
            }),
    {
        let mut kept: Vec<(MdonHtmlAttr, String)> = Vec::new();
        let mut attrs = attrs;
        let ghost orig = attrs@;
        let ghost mut j: int = 0;
        while attrs.len() > 0
            invariant
                0 <= j <= orig.len(),
                attrs@ == orig.skip(j),
                attrs_view(kept@) == valid_attrs(tag, attrs_view(orig.take(j))),
            decreases attrs@.len(),
        {
            let (a, v) = attrs.remove(0);
            proof {
                assert(orig.take(j + 1).drop_last() =~= orig.take(j));
                assert(attrs_view(orig.take(j + 1)).drop_last() =~= attrs_view(orig.take(j)));
                assert(attrs@ =~= orig.skip(j + 1));
            }
            if tag.is_attr_valid(a) {
                kept.push((a, v));
                proof {
                    assert(attrs_view(kept@) =~= valid_attrs(tag, attrs_view(orig.take(j + 1))));
                }
            }
            proof {
                j = j + 1;
            }
        }
        proof {
            assert(orig.take(j) =~= orig);
        }
        MdonHtmlElem { tag, attrs: kept, children }
    }
}

/// What a node's view is, by its variant.
pub proof fn lemma_node_view(n: MdonHtmlNode)
    ensures
        match n {
            MdonHtmlNode::Text(t) => n@ == HtmlTree::Text(t@),
            MdonHtmlNode::Element(e) => n@ == e@ && e@ is Element,
        },
{
}

impl MdonHtmlNode {
    /// A deep copy of the node.
    pub fn clone_node(&self) -> (r: MdonHtmlNode)
        ensures
            r@ == self@,
        decreases self, 0nat,
    {
        match self {
            MdonHtmlNode::Text(t) => MdonHtmlNode::Text(clone_string(t)),
            MdonHtmlNode::Element(e) => MdonHtmlNode::Element(e.clone_elem()),
        }
    }
}

/// Deep copies of the nodes of `ns`, in order.
pub fn clone_nodes(ns: &[MdonHtmlNode]) -> (r: Vec<MdonHtmlNode>)
    ensures
        nodes_view(r@) == nodes_view(ns@),
{
    let mut out: Vec<MdonHtmlNode> = Vec::new();
    let mut i: usize = 0;
    while i < ns.len()
        invariant
            i <= ns@.len(),
            nodes_view(out@) == nodes_view(ns@.take(i as int)),
        decreases ns@.len() - i,
    {
        let x = ns[i].clone_node();
        proof {
            lemma_nodes_view_push(out@, x);
            lemma_nodes_view_push(ns@.take(i as int), ns@[i as int]);
            assert(ns@.take(i as int).push(ns@[i as int]) =~= ns@.take(i + 1));
        }
        out.push(x);
        i = i + 1;
    }
    proof {
        assert(ns@.take(i as int) =~= ns@);
    }
    out
}

fn clone_child_nodes(ns: &Vec<MdonHtmlNode>) -> (r: Vec<MdonHtmlNode>)
    ensures
        nodes_view(r@) == nodes_view(ns@),
    decreases ns, 1nat,
{
    let mut out: Vec<MdonHtmlNode> = Vec::new();
    let mut i: usize = 0;
    while i < ns.len()
        invariant
            i <= ns@.len(),
            nodes_view(out@) == nodes_view(ns@.take(i as int)),
        decreases ns@.len() - i,
    {
        proof {
            assert(decreases_to!(ns => ns[i as int]));
        }
        let x = ns[i].clone_node();
        proof {
            lemma_nodes_view_push(out@, x);
            lemma_nodes_view_push(ns@.take(i as int), ns@[i as int]);
            assert(ns@.take(i as int).push(ns@[i as int]) =~= ns@.take(i + 1));
        }
        out.push(x);
        i = i + 1;
    }
    proof {
        assert(ns@.take(i as int) =~= ns@);
    }
    out
}

fn clone_attrs(a: &Vec<(MdonHtmlAttr, String)>) -> (r: Vec<(MdonHtmlAttr, String)>)
    ensures
        attrs_view(r@) == attrs_view(a@),
{
    let mut out: Vec<(MdonHtmlAttr, String)> = Vec::new();
    let mut i: usize = 0;
    while i < a.len()
        invariant
            i <= a@.len(),
            out@.len() == i,
            attrs_view(out@) == attrs_view(a@.take(i as int)),
        decreases a@.len() - i,
    {
        let (x, v) = &a[i];
        let ghost before = out@;
        out.push((*x, clone_string(v)));
        proof {
            assert forall|k: int| 0 <= k < i implies (#[trigger] attrs_view(out@)[k] == attrs_view(
                a@.take(i + 1),
            )[k]) by {
                assert(attrs_view(before)[k] == attrs_view(a@.take(i as int))[k]);
                assert(out@[k] == before[k]);
                assert(a@.take(i + 1)[k] == a@.take(i as int)[k]);
            }
            assert(attrs_view(out@) =~= attrs_view(a@.take(i + 1)));
        }
        i = i + 1;
    }
    proof {
        assert(a@.take(i as int) =~= a@);
    }
    out
}

impl MdonHtmlElem {
    /// A deep copy of the element.
    pub fn clone_elem(&self) -> (r: MdonHtmlElem)
        ensures
            r@ == self@,
        decreases self, 0nat,
    {
        MdonHtmlElem {
            tag: self.tag,
            attrs: clone_attrs(&self.attrs),
            children: clone_child_nodes(&self.children),
        }
    }

    /// A copy of the element with `children` in place of its children.
    pub fn clone_replace_children(&self, children: Vec<MdonHtmlNode>) -> (r: Self)
        ensures
            r@ == (HtmlTree::Element {
                tag: self@->tag,
                attrs: self@->attrs,
                children: nodes_view(children@),
            }),
    {
        MdonHtmlElem { tag: self.tag, attrs: clone_attrs(&self.attrs), children }
    }

    pub fn tag(&self) -> (r: MdonHtmlTag)
        ensures
            self@ is Element,
            r == self@->tag,
    {
        self.tag
    }

    pub fn attrs(&self) -> (r: &[(MdonHtmlAttr, String)])
        ensures
            attrs_view(r@) == self@->attrs,
    {
        self.attrs.as_slice()
    }

    pub fn children(&self) -> (r: &[MdonHtmlNode])
        ensures
            nodes_view(r@) == self@->children,
    {
        self.children.as_slice()
    }
}

impl MdonHtmlDoc {
    pub fn from_roots(roots: Vec<MdonHtmlNode>) -> (r: Self)
        ensures
            r@ == nodes_view(roots@),
    {
        MdonHtmlDoc { roots }
    }

    pub fn roots(&self) -> (r: &[MdonHtmlNode])
        ensures
            nodes_view(r@) == self@,
    {
        self.roots.as_slice()
    }

    /// Sanitises a parsed document: its children converted with a depth
    /// budget of `max_depth`. `None` where the node is no document.
    pub fn from_dom_node(node: &DomNode, max_depth: usize) -> (r: Option<Self>)
        ensures
            match node {
                DomNode::Document { children } => r matches Some(doc) && doc@ == sanitize(
                    children@,
                    max_depth as nat,
                ),
                _ => r is None,
            },
    {
        match node {
            DomNode::Document { children } => {
                let roots = conv_dom_nodes_all(children, max_depth);
                Some(MdonHtmlDoc { roots })
            },
            _ => None,
        }
    }
}

} // verus!
