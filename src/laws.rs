//! Properties that hold across the library's functions.

use vstd::prelude::*;

use vstd::utf8::encode_utf8;

use crate::dom::DomNode;
use crate::html::{
    attrs_ok, conv_list, conv_node, escape, escape_of, known_attrs, merge_texts, push_merge,
    sanitize, valid_attrs, HtmlTree,
};
use crate::ident::{ident_chars, ident_name, lemma_fit, utf8_len, IDENT_CAPACITY};
use crate::tags::tag_of;

verus! {

/// Reverses `escape`: each escape sequence, read from the left, turns back
/// into the character it stands for; every other character stays.
pub open spec fn unescape(s: Seq<char>) -> Seq<char>
    decreases s.len(),
{
    if s.len() == 0 {
        seq![]
    } else if s.len() >= 5 && s.take(5) == "&amp;"@ {
        seq!['&'] + unescape(s.skip(5))
    } else if s.len() >= 6 && s.take(6) == "&nbsp;"@ {
        seq!['\n'] + unescape(s.skip(6))
    } else if s.len() >= 6 && s.take(6) == "&quot;"@ {
        seq!['"'] + unescape(s.skip(6))
    } else if s.len() >= 6 && s.take(6) == "&apos;"@ {
        seq!['\''] + unescape(s.skip(6))
    } else if s.len() >= 4 && s.take(4) == "&lt;"@ {
        seq!['<'] + unescape(s.skip(4))
    } else if s.len() >= 4 && s.take(4) == "&gt;"@ {
        seq!['>'] + unescape(s.skip(4))
    } else {
        seq![s[0]] + unescape(s.drop_first())
    }
}

/// Whether an escape sequence starts at position `i` of `s`.
pub open spec fn escape_at(s: Seq<char>, i: int) -> bool {
    ||| i + 5 <= s.len() && s.subrange(i, i + 5) == "&amp;"@
    ||| i + 6 <= s.len() && s.subrange(i, i + 6) == "&nbsp;"@
    ||| i + 6 <= s.len() && s.subrange(i, i + 6) == "&quot;"@
    ||| i + 6 <= s.len() && s.subrange(i, i + 6) == "&apos;"@
    ||| i + 4 <= s.len() && s.subrange(i, i + 4) == "&lt;"@
    ||| i + 4 <= s.len() && s.subrange(i, i + 4) == "&gt;"@
}

/// Characters that never stand bare in escaped text.
pub open spec fn bare_forbidden(c: char) -> bool {
    c == '\n' || c == '"' || c == '\'' || c == '<' || c == '>'
}

/// Unescaping one escaped character, then anything, gives the character back
/// first.
proof fn lemma_unescape_front(c: char, r: Seq<char>)
    ensures
        unescape(escape_of(c) + r) == seq![c] + unescape(r),
{
    reveal_strlit("&amp;");
    reveal_strlit("&nbsp;");
    reveal_strlit("&quot;");
    reveal_strlit("&apos;");
    reveal_strlit("&lt;");
    reveal_strlit("&gt;");
    let s = escape_of(c) + r;
    let e = escape_of(c);
    assert(s.skip(e.len() as int) =~= r);
    if c == '&' {
        assert(s.take(5) =~= "&amp;"@);
    } else if c == '\n' {
        assert(s.take(6) =~= "&nbsp;"@);
        assert(s.take(5) != "&amp;"@) by {
            assert(s.take(5)[1] != "&amp;"@[1]);
        }
    } else if c == '"' {
        assert(s.take(6) =~= "&quot;"@);
        assert(s.take(5) != "&amp;"@) by {
            assert(s.take(5)[1] != "&amp;"@[1]);
        }
        assert(s.take(6) != "&nbsp;"@) by {
            assert(s.take(6)[1] != "&nbsp;"@[1]);
        }
    } else if c == '\'' {
        assert(s.take(6) =~= "&apos;"@);
        assert(s.take(5) != "&amp;"@) by {
            assert(s.take(5)[2] != "&amp;"@[2]);
        }
        assert(s.take(6) != "&nbsp;"@) by {
            assert(s.take(6)[1] != "&nbsp;"@[1]);
        }
        assert(s.take(6) != "&quot;"@) by {
            assert(s.take(6)[1] != "&quot;"@[1]);
        }
    } else if c == '<' {
        assert(s.take(4) =~= "&lt;"@);
        assert(s.len() >= 5 ==> s.take(5) != "&amp;"@) by {
            if s.len() >= 5 {
                assert(s.take(5)[1] != "&amp;"@[1]);
            }
        }
        assert(s.len() >= 6 ==> s.take(6) != "&nbsp;"@ && s.take(6) != "&quot;"@ && s.take(6)
            != "&apos;"@) by {
            if s.len() >= 6 {
                assert(s.take(6)[1] != "&nbsp;"@[1]);
                assert(s.take(6)[1] != "&quot;"@[1]);
                assert(s.take(6)[1] != "&apos;"@[1]);
            }
        }
    } else if c == '>' {
        assert(s.take(4) =~= "&gt;"@);
        assert(s.len() >= 5 ==> s.take(5) != "&amp;"@) by {
            if s.len() >= 5 {
                assert(s.take(5)[1] != "&amp;"@[1]);
            }
        }
        assert(s.len() >= 6 ==> s.take(6) != "&nbsp;"@ && s.take(6) != "&quot;"@ && s.take(6)
            != "&apos;"@) by {
            if s.len() >= 6 {
                assert(s.take(6)[1] != "&nbsp;"@[1]);
                assert(s.take(6)[1] != "&quot;"@[1]);
                assert(s.take(6)[1] != "&apos;"@[1]);
            }
        }
        assert(s.take(4) != "&lt;"@) by {
            assert(s.take(4)[1] != "&lt;"@[1]);
        }
    } else {
        assert(s[0] == c);
        assert(s.len() >= 5 ==> s.take(5) != "&amp;"@) by {
            if s.len() >= 5 {
                assert(s.take(5)[0] != "&amp;"@[0]);
            }
        }
        assert(s.len() >= 6 ==> s.take(6) != "&nbsp;"@ && s.take(6) != "&quot;"@ && s.take(6)
            != "&apos;"@) by {
            if s.len() >= 6 {
                assert(s.take(6)[0] != "&nbsp;"@[0]);
                assert(s.take(6)[0] != "&quot;"@[0]);
                assert(s.take(6)[0] != "&apos;"@[0]);
            }
        }
        assert(s.len() >= 4 ==> s.take(4) != "&lt;"@ && s.take(4) != "&gt;"@) by {
            if s.len() >= 4 {
                assert(s.take(4)[0] != "&lt;"@[0]);
                assert(s.take(4)[0] != "&gt;"@[0]);
            }
        }
        assert(s.drop_first() =~= r);
    }
}

/// Escaping text leaves none of `\n " ' < >` bare, starts an escape
/// sequence at every `&`, and unescaping the result gives the text back.
pub proof fn lemma_escape_reversible(t: Seq<char>)
    ensures
        unescape(escape(t)) == t,
        forall|i: int| 0 <= i < escape(t).len() ==> !bare_forbidden(#[trigger] escape(t)[i]),
        forall|i: int| 0 <= i < escape(t).len() && #[trigger] escape(t)[i] == '&' ==> escape_at(escape(t), i),
    decreases t.len(),
{
    reveal_strlit("&amp;");
    reveal_strlit("&nbsp;");
    reveal_strlit("&quot;");
    reveal_strlit("&apos;");
    reveal_strlit("&lt;");
    reveal_strlit("&gt;");
    if t.len() == 0 {
        assert(unescape(escape(t)) =~= t);
    } else {
        let c = t[0];
        let rest = t.drop_first();
        lemma_escape_reversible(rest);
        let e = escape_of(c);
        let r = escape(rest);
        let s = escape(t);
        assert(s == e + r);
        lemma_unescape_front(c, r);
        assert(seq![c] + rest =~= t);
        assert forall|i: int| 0 <= i < s.len() implies !bare_forbidden(#[trigger] s[i]) by {
            if i >= e.len() {
                assert(s[i] == r[i - e.len()]);
            }
        }
        assert forall|i: int| 0 <= i < s.len() && #[trigger] s[i] == '&' implies escape_at(s, i) by {
            if i >= e.len() {
                assert(s[i] == r[i - e.len()]);
                let j = i - e.len();
                assert(escape_at(r, j));
                if j + 5 <= r.len() && r.subrange(j, j + 5) == "&amp;"@ {
                    assert(s.subrange(i, i + 5) =~= r.subrange(j, j + 5));
                } else if j + 6 <= r.len() && r.subrange(j, j + 6) == "&nbsp;"@ {
                    assert(s.subrange(i, i + 6) =~= r.subrange(j, j + 6));
                } else if j + 6 <= r.len() && r.subrange(j, j + 6) == "&quot;"@ {
                    assert(s.subrange(i, i + 6) =~= r.subrange(j, j + 6));
                } else if j + 6 <= r.len() && r.subrange(j, j + 6) == "&apos;"@ {
                    assert(s.subrange(i, i + 6) =~= r.subrange(j, j + 6));
                } else if j + 4 <= r.len() && r.subrange(j, j + 4) == "&lt;"@ {
                    assert(s.subrange(i, i + 4) =~= r.subrange(j, j + 4));
                } else {
                    assert(s.subrange(i, i + 4) =~= r.subrange(j, j + 4));
                }
            } else {
                assert(i == 0);
                if c == '&' {
                    assert(s.subrange(0, 5) =~= "&amp;"@);
                } else if c == '\n' {
                    assert(s.subrange(0, 6) =~= "&nbsp;"@);
                } else if c == '"' {
                    assert(s.subrange(0, 6) =~= "&quot;"@);
                } else if c == '\'' {
                    assert(s.subrange(0, 6) =~= "&apos;"@);
                } else if c == '<' {
                    assert(s.subrange(0, 4) =~= "&lt;"@);
                } else if c == '>' {
                    assert(s.subrange(0, 4) =~= "&gt;"@);
                }
            }
        }
    }
}

/// The normalised name of any name prefix is made of whole characters: it
/// is a leading run of the prefix's normalised characters, its UTF-8
/// encoding fits in `IDENT_CAPACITY` bytes, and it stops short only where
/// the next character would not fit.
pub proof fn lemma_ident_name_fits(s: Seq<char>)
    ensures
        ident_name(s) == ident_chars(s).take(ident_name(s).len() as int),
        encode_utf8(ident_name(s)).len() <= IDENT_CAPACITY,
        ident_name(s).len() < ident_chars(s).len() ==> encode_utf8(ident_name(s)).len()
            + utf8_len(ident_chars(s)[ident_name(s).len() as int]) > IDENT_CAPACITY,
{
    lemma_fit(ident_chars(s), IDENT_CAPACITY as int);
}

/// The height of a tree: one for text, one more than its tallest child for
/// an element.
pub open spec fn tree_height(t: HtmlTree) -> nat
    decreases t,
{
    match t {
        HtmlTree::Text(_) => 1,
        HtmlTree::Element { children, .. } => 1 + trees_height(children),
    }
}

/// The height of the tallest tree of a list; zero for an empty list.
pub open spec fn trees_height(s: Seq<HtmlTree>) -> nat
    decreases s,
{
    if s.len() == 0 {
        0
    } else {
        let a = trees_height(s.drop_last());
        let b = tree_height(s.last());
        if a > b {
            a
        } else {
            b
        }
    }
}

/// The names and values of a parsed element's attributes.
pub open spec fn attr_texts(a: Seq<(String, String)>) -> Seq<(Seq<char>, Seq<char>)> {
    Seq::new(a.len(), |i: int| (a[i].0@, a[i].1@))
}

/// Two parsed nodes that agree down to depth `d`: the same kind, text and
/// names and attributes, with children that agree down to depth `d - 1`.
/// What lies at depth `d` or below is free.
pub open spec fn dom_agree(a: DomNode, b: DomNode, d: nat) -> bool
    decreases a, 0nat,
{
    d == 0 || match a {
        DomNode::Text { contents: x } => b matches DomNode::Text { contents: y } && x@ == y@,
        DomNode::Element { name: n1, attrs: a1, children: c1 } => b matches DomNode::Element {
            name: n2,
            attrs: a2,
            children: c2,
        } && n1@ == n2@ && attr_texts(a1@) == attr_texts(a2@) && doms_agree(
            c1@,
            c2@,
            (d - 1) as nat,
        ),
        _ => !(b is Text) && !(b is Element),
    }
}

/// Two lists of parsed nodes that agree, node by node, down to depth `d`.
pub open spec fn doms_agree(a: Seq<DomNode>, b: Seq<DomNode>, d: nat) -> bool
    decreases a, 0nat,
{
    d == 0 || (a.len() == b.len() && (a.len() > 0 ==> (doms_agree(a.drop_last(), b.drop_last(), d)
        && dom_agree(a.last(), b.last(), d))))
}

proof fn lemma_height_one(t: HtmlTree)
    ensures
        trees_height(seq![t]) == tree_height(t),
{
    assert(seq![t].drop_last() =~= Seq::<HtmlTree>::empty());
    assert(trees_height(Seq::<HtmlTree>::empty()) == 0);
}

proof fn lemma_height_concat(a: Seq<HtmlTree>, b: Seq<HtmlTree>)
    ensures
        trees_height(a + b) == if trees_height(a) > trees_height(b) {
            trees_height(a)
        } else {
            trees_height(b)
        },
    decreases b.len(),
{
    if b.len() == 0 {
        assert(a + b =~= a);
    } else {
        lemma_height_concat(a, b.drop_last());
        assert((a + b).drop_last() =~= a + b.drop_last());
        assert((a + b).last() == b.last());
    }
}

proof fn lemma_height_push_merge(acc: Seq<HtmlTree>, x: HtmlTree)
    ensures
        trees_height(push_merge(acc, x)) <= if trees_height(acc) > tree_height(x) {
            trees_height(acc)
        } else {
            tree_height(x)
        },
{
    if x is Text && acc.len() > 0 && acc.last() is Text {
        let y = HtmlTree::Text(acc.last()->Text_0 + x->Text_0);
        assert(acc.drop_last().push(y).drop_last() =~= acc.drop_last());
        assert(push_merge(acc, x) == acc.drop_last().push(y));
        assert(tree_height(y) == 1);
        assert(tree_height(x) == 1);
        assert(trees_height(acc) >= trees_height(acc.drop_last()));
        assert(trees_height(acc.drop_last().push(y)) == if trees_height(acc.drop_last()) > 1 {
            trees_height(acc.drop_last())
        } else {
            1
        });
    } else {
        assert(acc.push(x).drop_last() =~= acc);
    }
}

proof fn lemma_height_merge(s: Seq<HtmlTree>)
    ensures
        trees_height(merge_texts(s)) <= trees_height(s),
    decreases s.len(),
{
    if s.len() > 0 {
        lemma_height_merge(s.drop_last());
        lemma_height_push_merge(merge_texts(s.drop_last()), s.last());
    }
}

proof fn lemma_conv_list_zero(ns: Seq<DomNode>)
    ensures
        conv_list(ns, 0) == Seq::<HtmlTree>::empty(),
    decreases ns.len(),
{
    if ns.len() > 0 {
        lemma_conv_list_zero(ns.drop_last());
        assert(conv_node(ns.last(), 0) == Seq::<HtmlTree>::empty());
        assert(conv_list(ns, 0) == conv_list(ns.drop_last(), 0) + conv_node(ns.last(), 0));
        assert(conv_list(ns, 0) =~= Seq::<HtmlTree>::empty());
    }
}

proof fn lemma_conv_node_height(n: DomNode, d: nat)
    ensures
        trees_height(conv_node(n, d)) <= d,
    decreases n, 0nat,
{
    if d > 0 {
        match n {
            DomNode::Text { contents } => {
                lemma_height_one(HtmlTree::Text(contents@));
            },
            DomNode::Element { name, attrs, children } => {
                let kids = merge_texts(conv_list(children@, (d - 1) as nat));
                lemma_conv_list_height(children@, (d - 1) as nat);
                lemma_height_merge(conv_list(children@, (d - 1) as nat));
                match tag_of(name@) {
                    None => {},
                    Some(t) => {
                        lemma_height_one(
                            HtmlTree::Element {
                                tag: t,
                                attrs: valid_attrs(t, known_attrs(attrs@)),
                                children: kids,
                            },
                        );
                    },
                }
            },
            _ => {},
        }
    }
}

proof fn lemma_conv_list_height(ns: Seq<DomNode>, d: nat)
    ensures
        trees_height(conv_list(ns, d)) <= d,
    decreases ns, 0nat,
{
    if ns.len() > 0 {
        lemma_conv_list_height(ns.drop_last(), d);
        lemma_conv_node_height(ns.last(), d);
        lemma_height_concat(conv_list(ns.drop_last(), d), conv_node(ns.last(), d));
    }
}

proof fn lemma_known_attrs_agree(a: Seq<(String, String)>, b: Seq<(String, String)>)
    requires
        attr_texts(a) == attr_texts(b),
    ensures
        known_attrs(a) == known_attrs(b),
    decreases a.len(),
{
    assert(a.len() == attr_texts(a).len());
    assert(b.len() == attr_texts(b).len());
    if a.len() > 0 {
        assert(attr_texts(a.drop_last()) =~= attr_texts(b.drop_last())) by {
            assert forall|i: int| 0 <= i < a.len() - 1 implies #[trigger] attr_texts(a.drop_last())[i]
                == attr_texts(b.drop_last())[i] by {
                assert(attr_texts(a)[i] == attr_texts(b)[i]);
            }
        }
        lemma_known_attrs_agree(a.drop_last(), b.drop_last());
        assert(attr_texts(a)[a.len() - 1] == attr_texts(b)[a.len() - 1]);
    }
}

proof fn lemma_conv_node_agree(a: DomNode, b: DomNode, d: nat)
    requires
        dom_agree(a, b, d),
    ensures
        conv_node(a, d) == conv_node(b, d),
    decreases a, 0nat,
{
    if d > 0 {
        match a {
            DomNode::Element { name: n1, attrs: a1, children: c1 } => {
                match b {
                    DomNode::Element { name: n2, attrs: a2, children: c2 } => {
                        lemma_conv_list_agree(c1@, c2@, (d - 1) as nat);
                        lemma_known_attrs_agree(a1@, a2@);
                    },
                    _ => {},
                }
            },
            _ => {},
        }
    }
}

proof fn lemma_conv_list_agree(a: Seq<DomNode>, b: Seq<DomNode>, d: nat)
    requires
        doms_agree(a, b, d),
    ensures
        conv_list(a, d) == conv_list(b, d),
    decreases a, 0nat,
{
    if d == 0 {
        lemma_conv_list_zero(a);
        lemma_conv_list_zero(b);
    } else if a.len() > 0 {
        lemma_conv_list_agree(a.drop_last(), b.drop_last(), d);
        lemma_conv_node_agree(a.last(), b.last(), d);
    }
}

/// Sanitising with a depth budget of `d` reads nothing at depth `d` or
/// below: two parsed trees that agree down to depth `d` give the same
/// output, and no output tree is taller than `d`.
pub proof fn lemma_depth_bound(a: Seq<DomNode>, b: Seq<DomNode>, d: nat)
    requires
        doms_agree(a, b, d),
    ensures
        sanitize(a, d) == sanitize(b, d),
        trees_height(sanitize(a, d)) <= d,
{
    lemma_conv_list_agree(a, b, d);
    lemma_conv_list_height(a, d);
    lemma_height_merge(conv_list(a, d));
}

/// A sanitised tree: every element's attributes are valid for its tag, and
/// no two text nodes stand side by side at any level.
pub open spec fn clean_tree(t: HtmlTree) -> bool
    decreases t,
{
    match t {
        HtmlTree::Text(_) => true,
        HtmlTree::Element { tag, attrs, children } => attrs_ok(tag, attrs) && clean_trees(children),
    }
}

/// A list of sanitised trees with no two text nodes side by side.
pub open spec fn clean_trees(s: Seq<HtmlTree>) -> bool
    decreases s,
{
    s.len() == 0 || (clean_trees(s.drop_last()) && clean_tree(s.last()) && !(s.len() >= 2 && s[s.len()
        - 2] is Text && s.last() is Text))
}

/// A parsed node that reads as `t`: the same text, or an element whose name
/// denotes `t`'s tag, whose known attributes are `t`'s, and whose children
/// read as `t`'s children.
pub open spec fn mirrors(n: DomNode, t: HtmlTree) -> bool
    decreases n, 0nat,
{
    match n {
        DomNode::Text { contents } => t matches HtmlTree::Text(x) && contents@ == x,
        DomNode::Element { name, attrs, children } => t matches HtmlTree::Element {
            tag,
            attrs: ta,
            children: tc,
        } && tag_of(name@) == Some(tag) && known_attrs(attrs@) == ta && mirrors_all(children@, tc),
        _ => false,
    }
}

/// Parsed nodes that read, one by one, as the trees of `ts`.
pub open spec fn mirrors_all(ns: Seq<DomNode>, ts: Seq<HtmlTree>) -> bool
    decreases ns, 0nat,
{
    ns.len() == ts.len() && (ns.len() > 0 ==> (mirrors_all(ns.drop_last(), ts.drop_last())
        && mirrors(ns.last(), ts.last())))
}

proof fn lemma_valid_attrs_keep(t: crate::tags::MdonHtmlTag, a: Seq<(crate::tags::MdonHtmlAttr, Seq<char>)>)
    requires
        attrs_ok(t, a),
    ensures
        valid_attrs(t, a) == a,
    decreases a.len(),
{
    if a.len() > 0 {
        assert(attrs_ok(t, a.drop_last())) by {
            assert forall|i: int| 0 <= i < a.len() - 1 implies crate::tags::attr_valid(
                t,
                #[trigger] a.drop_last()[i].0,
            ) by {
                assert(a.drop_last()[i] == a[i]);
            }
        }
        lemma_valid_attrs_keep(t, a.drop_last());
        assert(crate::tags::attr_valid(t, a[a.len() - 1].0));
        assert(a.drop_last().push(a.last()) =~= a);
    }
}

proof fn lemma_valid_attrs_ok(t: crate::tags::MdonHtmlTag, a: Seq<(crate::tags::MdonHtmlAttr, Seq<char>)>)
    ensures
        attrs_ok(t, valid_attrs(t, a)),
    decreases a.len(),
{
    if a.len() > 0 {
        lemma_valid_attrs_ok(t, a.drop_last());
        let v = valid_attrs(t, a.drop_last());
        if crate::tags::attr_valid(t, a.last().0) {
            assert forall|i: int| 0 <= i < v.len() + 1 implies crate::tags::attr_valid(
                t,
                #[trigger] v.push(a.last())[i].0,
            ) by {
                if i < v.len() {
                    assert(v.push(a.last())[i] == v[i]);
                }
            }
        }
    }
}

proof fn lemma_merge_clean_keep(s: Seq<HtmlTree>)
    requires
        clean_trees(s),
    ensures
        merge_texts(s) == s,
    decreases s.len(),
{
    if s.len() > 0 {
        lemma_merge_clean_keep(s.drop_last());
        assert(s.drop_last().push(s.last()) =~= s);
    }
}

/// The trees that a list of clean trees merges into are clean.
proof fn lemma_merge_clean(s: Seq<HtmlTree>)
    requires
        forall|i: int| 0 <= i < s.len() ==> clean_tree(#[trigger] s[i]),
    ensures
        clean_trees(merge_texts(s)),
    decreases s.len(),
{
    if s.len() > 0 {
        assert forall|i: int| 0 <= i < s.len() - 1 implies clean_tree(#[trigger] s.drop_last()[i]) by {
            assert(s.drop_last()[i] == s[i]);
        }
        lemma_merge_clean(s.drop_last());
        let acc = merge_texts(s.drop_last());
        let x = s.last();
        assert(clean_tree(s[s.len() - 1]));
        assert(merge_texts(s) == push_merge(acc, x));
        if x is Text && acc.len() > 0 && acc.last() is Text {
            let y = HtmlTree::Text(acc.last()->Text_0 + x->Text_0);
            let r = acc.drop_last().push(y);
            assert(r.drop_last() =~= acc.drop_last());
            assert(clean_trees(acc.drop_last()));
            assert(r.last() == y);
            if acc.len() >= 2 {
                assert(r[r.len() - 2] == acc[acc.len() - 2]);
                assert(!(acc[acc.len() - 2] is Text));
            }
            assert(r.len() > 0);
            assert(clean_trees(r.drop_last()));
            assert(clean_tree(r.last()));
            assert(!(r.len() >= 2 && r[r.len() - 2] is Text && r.last() is Text));
            assert(clean_trees(r));
        } else {
            let r = acc.push(x);
            assert(r.drop_last() =~= acc);
            assert(r.last() == x);
            if acc.len() >= 1 {
                assert(r[r.len() - 2] == acc.last());
            }
            assert(clean_trees(r));
        }
    }
}

proof fn lemma_conv_node_clean(n: DomNode, d: nat)
    ensures
        forall|i: int| 0 <= i < conv_node(n, d).len() ==> clean_tree(#[trigger] conv_node(n, d)[i]),
    decreases n, 0nat,
{
    if d > 0 {
        match n {
            DomNode::Element { name, attrs, children } => {
                lemma_conv_list_clean(children@, (d - 1) as nat);
                lemma_merge_clean(conv_list(children@, (d - 1) as nat));
                match tag_of(name@) {
                    None => {
                        let kids = merge_texts(conv_list(children@, (d - 1) as nat));
                        lemma_clean_trees_each(kids);
                    },
                    Some(t) => {
                        lemma_valid_attrs_ok(t, known_attrs(attrs@));
                    },
                }
            },
            _ => {},
        }
    }
}

proof fn lemma_clean_trees_each(s: Seq<HtmlTree>)
    requires
        clean_trees(s),
    ensures
        forall|i: int| 0 <= i < s.len() ==> clean_tree(#[trigger] s[i]),
    decreases s.len(),
{
    if s.len() > 0 {
        lemma_clean_trees_each(s.drop_last());
        assert forall|i: int| 0 <= i < s.len() implies clean_tree(#[trigger] s[i]) by {
            if i < s.len() - 1 {
                assert(s[i] == s.drop_last()[i]);
            }
        }
    }
}

proof fn lemma_conv_list_clean(ns: Seq<DomNode>, d: nat)
    ensures
        forall|i: int| 0 <= i < conv_list(ns, d).len() ==> clean_tree(#[trigger] conv_list(ns, d)[i]),
    decreases ns, 0nat,
{
    if ns.len() > 0 {
        lemma_conv_list_clean(ns.drop_last(), d);
        lemma_conv_node_clean(ns.last(), d);
        let a = conv_list(ns.drop_last(), d);
        let b = conv_node(ns.last(), d);
        assert forall|i: int| 0 <= i < (a + b).len() implies clean_tree(#[trigger] (a + b)[i]) by {
            if i < a.len() {
                assert((a + b)[i] == a[i]);
            } else {
                assert((a + b)[i] == b[i - a.len()]);
            }
        }
    }
}

/// Sanitised output is clean: attributes valid for their tags, and no two
/// text nodes side by side, at every level.
pub proof fn lemma_sanitize_clean(ns: Seq<DomNode>, d: nat)
    ensures
        clean_trees(sanitize(ns, d)),
{
    lemma_conv_list_clean(ns, d);
    lemma_merge_clean(conv_list(ns, d));
}

proof fn lemma_conv_node_mirror(n: DomNode, t: HtmlTree, d: nat)
    requires
        mirrors(n, t),
        clean_tree(t),
        tree_height(t) <= d,
    ensures
        conv_node(n, d) == seq![t],
    decreases n, 0nat,
{
    match n {
        DomNode::Element { name, attrs, children } => {
            let tc = t->children;
            lemma_sanitize_mirror(children@, tc, (d - 1) as nat);
            lemma_valid_attrs_keep(t->tag, t->attrs);
        },
        _ => {},
    }
}

proof fn lemma_conv_list_mirror(ns: Seq<DomNode>, ts: Seq<HtmlTree>, d: nat)
    requires
        mirrors_all(ns, ts),
        forall|i: int| 0 <= i < ts.len() ==> clean_tree(#[trigger] ts[i]),
        trees_height(ts) <= d,
    ensures
        conv_list(ns, d) == ts,
    decreases ns, 0nat,
{
    if ns.len() > 0 {
        assert forall|i: int| 0 <= i < ts.len() - 1 implies clean_tree(#[trigger] ts.drop_last()[i]) by {
            assert(ts.drop_last()[i] == ts[i]);
        }
        lemma_conv_list_mirror(ns.drop_last(), ts.drop_last(), d);
        assert(clean_tree(ts[ts.len() - 1]));
        lemma_conv_node_mirror(ns.last(), ts.last(), d);
        assert(ts.drop_last() + seq![ts.last()] =~= ts);
    } else {
        assert(ts =~= Seq::<HtmlTree>::empty());
    }
}

proof fn lemma_sanitize_mirror(ns: Seq<DomNode>, ts: Seq<HtmlTree>, d: nat)
    requires
        mirrors_all(ns, ts),
        clean_trees(ts),
        trees_height(ts) <= d,
    ensures
        sanitize(ns, d) == ts,
    decreases ns, 1nat,
{
    lemma_clean_trees_each(ts);
    lemma_conv_list_mirror(ns, ts, d);
    lemma_merge_clean_keep(ts);
}

/// Sanitising is stable: parsed nodes that read as clean sanitised trees of
/// height at most `d` sanitise, with a budget of `d`, to those trees. So
/// re-sanitising sanitised output with the budget that made it, through any
/// parse that reads it back, changes nothing.
pub proof fn lemma_sanitize_stable(ns: Seq<DomNode>, ts: Seq<HtmlTree>, d: nat)
    requires
        mirrors_all(ns, ts),
        clean_trees(ts),
        trees_height(ts) <= d,
    ensures
        sanitize(ns, d) == ts,
{
    lemma_sanitize_mirror(ns, ts, d);
}

} // verus!
