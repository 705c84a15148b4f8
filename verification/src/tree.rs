//! The document model the restructurer works on: a tree of elements, text
//! and opaque nodes, with a ghost deep view and a text flattening used by
//! the contracts.

use vstd::prelude::*;
use crate::layer::Level;

verus! {

/// One attribute of an element: a name and a value, both byte strings.
#[derive(Clone, Debug, PartialEq, Eq)]
pub struct Attr {
    pub name: Vec<u8>,
    pub value: Vec<u8>,
}

/// The ghost shape of an attribute.
#[verifier::ext_equal]
pub struct AttrView {
    pub name: Seq<u8>,
    pub value: Seq<u8>,
}

impl View for Attr {
    type V = AttrView;

    open spec fn view(&self) -> AttrView {
        AttrView { name: self.name@, value: self.value@ }
    }
}

/// A node of the document tree. `Element` carries its tag (lower-case, as
/// the parser hands it out), its attributes and its ordered children; `Text`
/// carries raw text; `Opaque` stands for anything else (a comment, a
/// doctype), identified by a key the surrounding program chooses.
#[derive(Debug, PartialEq, Eq)]
pub enum HtmlNode {
    Element { tag: Vec<u8>, attrs: Vec<Attr>, children: Vec<HtmlNode> },
    Text { text: Vec<u8> },
    Opaque { key: usize },
}

/// The ghost shape of a node.
#[verifier::ext_equal]
pub enum NodeView {
    Element { tag: Seq<u8>, attrs: Seq<AttrView>, children: Seq<NodeView> },
    Text { text: Seq<u8> },
    Opaque { key: int },
}

pub open spec fn map_attr_view(s: Seq<Attr>) -> Seq<AttrView> {
    s.map_values(|a: Attr| a@)
}

pub open spec fn node_view(n: HtmlNode) -> NodeView
    decreases n,
{
    match n {
        HtmlNode::Element { tag, attrs, children } => NodeView::Element {
            tag: tag@,
            attrs: map_attr_view(attrs@),
            children: map_node_view(children@),
        },
        HtmlNode::Text { text } => NodeView::Text { text: text@ },
        HtmlNode::Opaque { key } => NodeView::Opaque { key: key as int },
    }
}

pub open spec fn map_node_view(s: Seq<HtmlNode>) -> Seq<NodeView>
    decreases s,
{
    if s.len() == 0 {
        Seq::empty()
    } else {
        map_node_view(s.drop_last()).push(node_view(s.last()))
    }
}

impl View for HtmlNode {
    type V = NodeView;

    open spec fn view(&self) -> NodeView {
        node_view(*self)
    }
}

/// The deep view of a node list is the pointwise deep view.
pub proof fn lemma_map_node_view(s: Seq<HtmlNode>)
    ensures
        map_node_view(s).len() == s.len(),
        forall|i: int| 0 <= i < s.len() ==> map_node_view(s)[i] == node_view(#[trigger] s[i]),
    decreases s,
{
    if s.len() > 0 {
        lemma_map_node_view(s.drop_last());
        assert forall|i: int| 0 <= i < s.len() implies map_node_view(s)[i] == node_view(s[i]) by {
            if i < s.len() - 1 {
                assert(s.drop_last()[i] == s[i]);
            }
        }
    }
}

pub proof fn lemma_map_node_view_push(s: Seq<HtmlNode>, n: HtmlNode)
    ensures
        map_node_view(s.push(n)) == map_node_view(s).push(node_view(n)),
{
    assert(s.push(n).drop_last() =~= s);
    assert(s.push(n).last() == n);
}

pub proof fn lemma_map_node_view_subrange(s: Seq<HtmlNode>, a: int, b: int)
    requires
        0 <= a <= b <= s.len(),
    ensures
        map_node_view(s.subrange(a, b)) == map_node_view(s).subrange(a, b),
{
    lemma_map_node_view(s);
    lemma_map_node_view(s.subrange(a, b));
    assert forall|i: int| 0 <= i < b - a implies map_node_view(s.subrange(a, b))[i]
        == map_node_view(s).subrange(a, b)[i] by {
        assert(s.subrange(a, b)[i] == s[a + i]);
    }
    assert(map_node_view(s.subrange(a, b)) =~= map_node_view(s).subrange(a, b));
}

/// The heading level a tag denotes: `h1` through `h6`.
pub open spec fn heading_level_of_tag(tag: Seq<u8>) -> Option<Level> {
    if tag.len() == 2 && tag[0] == 104 && 49 <= tag[1] <= 54 {
        Option::Some((tag[1] - 48) as Level)
    } else {
        Option::None
    }
}

/// The heading level of a node, present only on `h1`..`h6` elements.
pub open spec fn heading_level_view(n: NodeView) -> Option<Level> {
    match n {
        NodeView::Element { tag, .. } => heading_level_of_tag(tag),
        _ => Option::None,
    }
}

/// Reads a node's heading level from its tag.
pub fn get_header_level(node: &HtmlNode) -> (r: Option<Level>)
    ensures
        r == heading_level_view(node@),
{
    match node {
        HtmlNode::Element { tag, .. } => {
            if tag.len() == 2 && tag[0] == 104 && 49 <= tag[1] && tag[1] <= 54 {
                Some(tag[1] - 48)
            } else {
                None
            }
        },
        _ => None,
    }
}

/// The text content of a node: its own text, or its children's, in order.
pub open spec fn node_text(n: NodeView) -> Seq<u8>
    decreases n,
{
    match n {
        NodeView::Element { children, .. } => seq_text(children),
        NodeView::Text { text } => text,
        NodeView::Opaque { .. } => Seq::empty(),
    }
}

/// The concatenated text content of a node list, in order.
pub open spec fn seq_text(s: Seq<NodeView>) -> Seq<u8>
    decreases s,
{
    if s.len() == 0 {
        Seq::empty()
    } else {
        seq_text(s.drop_last()) + node_text(s.last())
    }
}

pub proof fn lemma_seq_text_push(s: Seq<NodeView>, n: NodeView)
    ensures
        seq_text(s.push(n)) == seq_text(s) + node_text(n),
{
    assert(s.push(n).drop_last() =~= s);
    assert(s.push(n).last() == n);
}

pub proof fn lemma_seq_text_concat(a: Seq<NodeView>, b: Seq<NodeView>)
    ensures
        seq_text(a + b) == seq_text(a) + seq_text(b),
    decreases b.len(),
{
    if b.len() == 0 {
        assert(a + b =~= a);
        assert(seq_text(a) + seq_text(b) =~= seq_text(a));
    } else {
        lemma_seq_text_concat(a, b.drop_last());
        assert((a + b).drop_last() =~= a + b.drop_last());
        assert((a + b).last() == b.last());
        assert((seq_text(a) + seq_text(b.drop_last())) + node_text(b.last())
            =~= seq_text(a) + (seq_text(b.drop_last()) + node_text(b.last())));
    }
}

/// The text of a single node as a one-element group.
pub proof fn lemma_seq_text_singleton(n: NodeView)
    ensures
        seq_text(seq![n]) == node_text(n),
{
    assert(seq![n].len() == 1);
    assert(seq![n].last() == n);
    assert(seq![n].drop_last() =~= Seq::<NodeView>::empty());
    assert(seq_text(seq![n]) == seq_text(seq![n].drop_last()) + node_text(n));
    assert(Seq::<u8>::empty() + node_text(n) =~= node_text(n));
}

/// The flattened text content of a node, as the contracts state it: the
/// bytes of every text node under it, in document order.
#[verifier::loop_isolation(false)]
pub fn text_content(node: &HtmlNode) -> (r: Vec<u8>)
    ensures
        r@ == node_text(node@),
    decreases *node,
{
    match node {
        HtmlNode::Element { tag, attrs, children } => {
            let ghost cv = map_node_view(children@);
            proof {
                lemma_map_node_view(children@);
                assert(cv.subrange(0, 0) =~= Seq::<NodeView>::empty());
            }
            let mut r: Vec<u8> = Vec::new();
            let mut i: usize = 0;
            while i < children.len()
                invariant
                    i <= children@.len(),
                    r@ == seq_text(cv.subrange(0, i as int)),
                decreases children@.len() - i,
            {
                let mut piece = text_content(&children[i]);
                proof {
                    assert(cv.subrange(0, i + 1).drop_last() =~= cv.subrange(0, i as int));
                    assert(cv.subrange(0, i + 1).last() == cv[i as int]);
                    assert(cv[i as int] == node_view(children@[i as int]));
                }
                r.append(&mut piece);
                i = i + 1;
            }
            proof {
                assert(cv.subrange(0, cv.len() as int) =~= cv);
            }
            r
        },
        HtmlNode::Text { text } => {
            let mut r: Vec<u8> = Vec::new();
            let mut i: usize = 0;
            while i < text.len()
                invariant
                    i <= text@.len(),
                    r@ == text@.subrange(0, i as int),
                decreases text@.len() - i,
            {
                r.push(text[i]);
                proof {
                    assert(text@.subrange(0, i as int).push(text@[i as int]) =~= text@.subrange(
                        0,
                        i + 1,
                    ));
                }
                i = i + 1;
            }
            proof {
                assert(text@.subrange(0, text@.len() as int) =~= text@);
            }
            r
        },
        HtmlNode::Opaque { .. } => Vec::new(),
    }
}

/// ASCII lower-casing of one byte.
pub open spec fn ascii_lower(c: u8) -> u8 {
    if 65 <= c <= 90 {
        (c + 32) as u8
    } else {
        c
    }
}

/// Byte strings equal up to ASCII case.
pub open spec fn bytes_eq_ci(a: Seq<u8>, b: Seq<u8>) -> bool {
    a.len() == b.len() && forall|i: int| 0 <= i < a.len() ==> ascii_lower(a[i]) == ascii_lower(b[i])
}

fn byte_lower(c: u8) -> (r: u8)
    ensures
        r == ascii_lower(c),
{
    if 65 <= c && c <= 90 {
        c + 32
    } else {
        c
    }
}

/// Compares two byte strings up to ASCII case.
pub fn bytes_equal_ci(a: &Vec<u8>, b: &Vec<u8>) -> (r: bool)
    ensures
        r == bytes_eq_ci(a@, b@),
{
    if a.len() != b.len() {
        return false;
    }
    let mut i: usize = 0;
    while i < a.len()
        invariant
            a@.len() == b@.len(),
            i <= a@.len(),
            forall|j: int| 0 <= j < i as int ==> ascii_lower(a@[j]) == ascii_lower(b@[j]),
        decreases a@.len() - i,
    {
        let ca = byte_lower(a[i]);
        let cb = byte_lower(b[i]);
        if ca != cb {
            return false;
        }
        i = i + 1;
    }
    true
}

/// Whether some attribute's name matches `attr` up to ASCII case.
pub open spec fn attrs_have_name_ci(attrs: Seq<AttrView>, attr: Seq<u8>) -> bool {
    exists|i: int| 0 <= i < attrs.len() && bytes_eq_ci((#[trigger] attrs[i]).name, attr)
}

/// Whether the node is an element carrying an attribute whose name matches
/// `attr` up to ASCII case.
pub open spec fn has_marker_view(n: NodeView, attr: Seq<u8>) -> bool {
    n is Element && attrs_have_name_ci(n->Element_attrs, attr)
}

/// Whether an element carries the given attribute, matched by name up to
/// ASCII case.
#[verifier::loop_isolation(false)]
pub fn has_attribute(node: &HtmlNode, attribute: &Vec<u8>) -> (r: bool)
    ensures
        r == has_marker_view(node@, attribute@),
{
    match node {
        HtmlNode::Element { tag, attrs, children } => {
            proof {
                assert(node@ == (NodeView::Element {
                    tag: tag@,
                    attrs: map_attr_view(attrs@),
                    children: map_node_view(children@),
                }));
            }
            let mut i: usize = 0;
            while i < attrs.len()
                invariant
                    i <= attrs@.len(),
                    forall|j: int|
                        0 <= j < i as int ==> !bytes_eq_ci(
                            (#[trigger] map_attr_view(attrs@)[j]).name,
                            attribute@,
                        ),
                decreases attrs@.len() - i,
            {
                if bytes_equal_ci(&attrs[i].name, attribute) {
                    proof {
                        let av = map_attr_view(attrs@);
                        assert(av[i as int].name == attrs@[i as int].name@);
                        assert(bytes_eq_ci(av[i as int].name, attribute@));
                        assert(attrs_have_name_ci(av, attribute@));
                        assert(has_marker_view(node@, attribute@));
                    }
                    return true;
                }
                i = i + 1;
            }
            false
        },
        _ => false,
    }
}

} // verus!
