//! The tree restructurer: regroups each sibling group so that every heading
//! becomes the head of a new wrapper container that absorbs the following
//! siblings up to the next heading of equal or shallower level, applied
//! post-order over the whole tree, optionally gated by a marker attribute.

use vstd::prelude::*;
use crate::layer::Level;
use crate::tree::{
    Attr, AttrView, HtmlNode, NodeView, heading_level_view, has_marker_view, has_attribute,
    get_header_level, map_attr_view, map_node_view, node_view, node_text, lemma_map_node_view,
    lemma_map_node_view_push, lemma_map_node_view_subrange,
};
use crate::laws::{lemma_restructure_preserves_text, lemma_marked_preserves_text};

verus! {

/// The tag of every wrapper container.
pub open spec fn div_tag() -> Seq<u8> {
    seq![100u8, 105u8, 118u8]
}

/// A section still open while one sibling group is regrouped: its heading's
/// level, the attributes moved off its heading, and the children gathered so
/// far (the bare heading first).
#[verifier::ext_equal]
pub struct OpenSection {
    pub level: Level,
    pub attrs: Seq<AttrView>,
    pub children: Seq<NodeView>,
}

/// The wrapper container an open section closes into.
pub open spec fn wrapper_of(w: OpenSection) -> NodeView {
    NodeView::Element { tag: div_tag(), attrs: w.attrs, children: w.children }
}

/// Appends `n` under the innermost open section, or at top level when none
/// is open.
pub open spec fn put_node(out: Seq<NodeView>, stack: Seq<OpenSection>, n: NodeView) -> (
    Seq<NodeView>,
    Seq<OpenSection>,
) {
    if stack.len() == 0 {
        (out.push(n), stack)
    } else {
        let top = stack.last();
        (
            out,
            stack.update(
                stack.len() - 1,
                OpenSection { level: top.level, attrs: top.attrs, children: top.children.push(n) },
            ),
        )
    }
}

/// Closes the innermost open section: its wrapper joins the section below
/// it, or the top level.
pub open spec fn close_top(out: Seq<NodeView>, stack: Seq<OpenSection>) -> (
    Seq<NodeView>,
    Seq<OpenSection>,
) {
    put_node(out, stack.drop_last(), wrapper_of(stack.last()))
}

/// Closes every open section whose level is at `level` or deeper.
pub open spec fn sweep_close(out: Seq<NodeView>, stack: Seq<OpenSection>, level: Level) -> (
    Seq<NodeView>,
    Seq<OpenSection>,
)
    decreases stack.len(),
{
    if stack.len() > 0 && stack.last().level >= level {
        let r = close_top(out, stack);
        sweep_close(r.0, r.1, level)
    } else {
        (out, stack)
    }
}

/// Closes every open section, innermost first.
pub open spec fn close_all(out: Seq<NodeView>, stack: Seq<OpenSection>) -> Seq<NodeView>
    decreases stack.len(),
{
    if stack.len() == 0 {
        out
    } else {
        let r = close_top(out, stack);
        close_all(r.0, r.1)
    }
}

/// The attributes of an element, empty on other nodes.
pub open spec fn attrs_of(n: NodeView) -> Seq<AttrView> {
    match n {
        NodeView::Element { attrs, .. } => attrs,
        _ => Seq::empty(),
    }
}

/// The node with its attributes moved away (a wrapped heading keeps none).
pub open spec fn strip_attrs(n: NodeView) -> NodeView {
    match n {
        NodeView::Element { tag, children, .. } => NodeView::Element {
            tag,
            attrs: Seq::empty(),
            children,
        },
        other => other,
    }
}

/// One sibling group regrouped, processing `s` in order against the open
/// sections in `stack`, with `out` the finished top-level nodes so far.
pub open spec fn regroup_rec(s: Seq<NodeView>, out: Seq<NodeView>, stack: Seq<OpenSection>) -> Seq<
    NodeView,
>
    decreases s.len(),
{
    if s.len() == 0 {
        close_all(out, stack)
    } else {
        let n = s[0];
        let rest = s.subrange(1, s.len() as int);
        match heading_level_view(n) {
            Option::Some(l) => {
                let r = sweep_close(out, stack, l);
                let sec = OpenSection {
                    level: l,
                    attrs: attrs_of(n),
                    children: seq![strip_attrs(n)],
                };
                regroup_rec(rest, r.0, r.1.push(sec))
            },
            Option::None => {
                let r = put_node(out, stack, n);
                regroup_rec(rest, r.0, r.1)
            },
        }
    }
}

/// A sibling group regrouped: every heading becomes the head of a wrapper
/// that absorbs the following siblings up to the next heading of equal or
/// shallower level; other nodes keep their place.
pub open spec fn regroup_spec(s: Seq<NodeView>) -> Seq<NodeView> {
    regroup_rec(s, Seq::empty(), Seq::empty())
}

/// A node with exactly its direct children regrouped.
pub open spec fn regroup_node_spec(n: NodeView) -> NodeView {
    match n {
        NodeView::Element { tag, attrs, children } => NodeView::Element {
            tag,
            attrs,
            children: regroup_spec(children),
        },
        other => other,
    }
}

/// Full restructuring: children first (post-order), then the node's own
/// sibling group.
pub open spec fn restructure_spec(n: NodeView) -> NodeView
    decreases n,
{
    match n {
        NodeView::Element { tag, attrs, children } => NodeView::Element {
            tag,
            attrs,
            children: regroup_spec(map_restructure(children)),
        },
        other => other,
    }
}

/// Full restructuring of each node of a group.
pub open spec fn map_restructure(s: Seq<NodeView>) -> Seq<NodeView>
    decreases s,
{
    if s.len() == 0 {
        Seq::empty()
    } else {
        map_restructure(s.drop_last()).push(restructure_spec(s.last()))
    }
}

/// Marked restructuring: the first node along each path that carries the
/// marker attribute has its whole subtree restructured; every node outside
/// a marked subtree stays as it is.
pub open spec fn marked_spec(n: NodeView, attr: Seq<u8>) -> NodeView
    decreases n,
{
    if has_marker_view(n, attr) {
        restructure_spec(n)
    } else {
        match n {
            NodeView::Element { tag, attrs, children } => NodeView::Element {
                tag,
                attrs,
                children: map_marked(children, attr),
            },
            other => other,
        }
    }
}

/// Marked restructuring of each node of a group.
pub open spec fn map_marked(s: Seq<NodeView>, attr: Seq<u8>) -> Seq<NodeView>
    decreases s,
{
    if s.len() == 0 {
        Seq::empty()
    } else {
        map_marked(s.drop_last(), attr).push(marked_spec(s.last(), attr))
    }
}

/// An open section while a group is rebuilt, the executable counterpart of
/// [`OpenSection`].
struct OpenWrap {
    level: Level,
    attrs: Vec<Attr>,
    children: Vec<HtmlNode>,
}

impl View for OpenWrap {
    type V = OpenSection;

    closed spec fn view(&self) -> OpenSection {
        OpenSection {
            level: self.level,
            attrs: map_attr_view(self.attrs@),
            children: map_node_view(self.children@),
        }
    }
}

spec fn map_wrap_view(s: Seq<OpenWrap>) -> Seq<OpenSection> {
    s.map_values(|w: OpenWrap| w@)
}

fn div_tag_vec() -> (r: Vec<u8>)
    ensures
        r@ == div_tag(),
{
    let mut v: Vec<u8> = Vec::new();
    v.push(100);
    v.push(105);
    v.push(118);
    proof {
        assert(v@ =~= div_tag());
    }
    v
}

/// Moves an element's attributes out, leaving the node bare.
fn take_attrs(n: HtmlNode) -> (r: (Vec<Attr>, HtmlNode))
    ensures
        map_attr_view(r.0@) == attrs_of(n@),
        r.1@ == strip_attrs(n@),
{
    match n {
        HtmlNode::Element { tag, attrs, children } => {
            let no_attrs: Vec<Attr> = Vec::new();
            proof {
                assert(map_attr_view(no_attrs@) =~= Seq::<AttrView>::empty());
            }
            let bare = HtmlNode::Element { tag, attrs: no_attrs, children };
            (attrs, bare)
        },
        other => {
            let no_attrs: Vec<Attr> = Vec::new();
            proof {
                assert(map_attr_view(no_attrs@) =~= Seq::<AttrView>::empty());
            }
            (no_attrs, other)
        },
    }
}

/// Appends `n` under the innermost open wrapper, or at top level.
fn put_exec(out: &mut Vec<HtmlNode>, stack: &mut Vec<OpenWrap>, n: HtmlNode)
    ensures
        map_node_view(final(out)@) == put_node(
            map_node_view(old(out)@),
            map_wrap_view(old(stack)@),
            node_view(n),
        ).0,
        map_wrap_view(final(stack)@) == put_node(
            map_node_view(old(out)@),
            map_wrap_view(old(stack)@),
            node_view(n),
        ).1,
        final(stack)@.len() == old(stack)@.len(),
{
    let ghost n_view = node_view(n);
    match stack.pop() {
        Some(top) => {
            let ghost old_top = top@;
            let OpenWrap { level, attrs, mut children } = top;
            children.push(n);
            proof {
                lemma_map_node_view_push(old(stack)@.last().children@, n);
            }
            stack.push(OpenWrap { level, attrs, children });
            proof {
                let pre = map_wrap_view(old(stack)@);
                let post = map_wrap_view(stack@);
                let target = put_node(map_node_view(old(out)@), pre, n_view).1;
                assert forall|i: int| 0 <= i < post.len() implies post[i] == target[i] by {
                    if i < post.len() - 1 {
                        assert(stack@[i] == old(stack)@[i]);
                    } else {
                        assert(post[i] == stack@[i]@);
                        assert(target[i].children == pre.last().children.push(n_view));
                        assert(pre.last() == old_top);
                    }
                }
                assert(post =~= target);
            }
        },
        None => {
            out.push(n);
            proof {
                lemma_map_node_view_push(old(out)@, n);
                assert(map_wrap_view(stack@) =~= Seq::<OpenSection>::empty());
            }
        },
    }
}

/// Closes the innermost open wrapper into the one below it, or to top level.
fn close_top_exec(out: &mut Vec<HtmlNode>, stack: &mut Vec<OpenWrap>)
    requires
        old(stack)@.len() > 0,
    ensures
        map_node_view(final(out)@) == close_top(
            map_node_view(old(out)@),
            map_wrap_view(old(stack)@),
        ).0,
        map_wrap_view(final(stack)@) == close_top(
            map_node_view(old(out)@),
            map_wrap_view(old(stack)@),
        ).1,
        final(stack)@.len() == old(stack)@.len() - 1,
{
    let top = stack.pop().unwrap();
    let ghost top_view = top@;
    let ghost mid_stack = map_wrap_view(stack@);
    proof {
        assert(map_wrap_view(old(stack)@).last() == top_view);
        assert forall|i: int| 0 <= i < mid_stack.len() implies mid_stack[i]
            == map_wrap_view(old(stack)@).drop_last()[i] by {
            assert(stack@[i] == old(stack)@[i]);
        }
        assert(mid_stack =~= map_wrap_view(old(stack)@).drop_last());
    }
    let OpenWrap { level: _, attrs, children } = top;
    let tag = div_tag_vec();
    let wrapper = HtmlNode::Element { tag, attrs, children };
    proof {
        assert(node_view(wrapper) == wrapper_of(top_view));
    }
    put_exec(out, stack, wrapper);
}

/// Regroups one list of siblings: every heading opens a wrapper container
/// that takes over the heading's attributes and absorbs the following
/// siblings up to the next heading of equal or shallower level.
#[verifier::loop_isolation(false)]
pub fn regroup_children(children: Vec<HtmlNode>) -> (out: Vec<HtmlNode>)
    ensures
        map_node_view(out@) == regroup_spec(map_node_view(children@)),
{
    let ghost orig = map_node_view(children@);
    let mut rest = children;
    let mut out: Vec<HtmlNode> = Vec::new();
    let mut stack: Vec<OpenWrap> = Vec::new();

    proof {
        assert(map_node_view(out@) =~= Seq::<NodeView>::empty());
        assert(map_wrap_view(stack@) =~= Seq::<OpenSection>::empty());
    }

    while rest.len() > 0
        invariant
            regroup_rec(map_node_view(rest@), map_node_view(out@), map_wrap_view(stack@))
                == regroup_spec(orig),
        decreases rest@.len(),
    {
        let ghost pre_vec = rest@;
        let ghost pre_rest = map_node_view(rest@);
        let ghost pre_out = map_node_view(out@);
        let ghost pre_stack = map_wrap_view(stack@);
        let child = rest.remove(0);
        proof {
            lemma_map_node_view(pre_vec);
            assert(rest@ =~= pre_vec.subrange(1, pre_vec.len() as int));
            lemma_map_node_view_subrange(pre_vec, 1, pre_vec.len() as int);
            assert(map_node_view(rest@) == pre_rest.subrange(1, pre_rest.len() as int));
            assert(pre_rest[0] == node_view(child));
        }
        let lv = get_header_level(&child);
        match lv {
            Some(l) => {
                let ghost s_out = map_node_view(out@);
                let ghost s_stack = map_wrap_view(stack@);
                while stack.len() > 0 && stack[stack.len() - 1].level >= l
                    invariant
                        sweep_close(map_node_view(out@), map_wrap_view(stack@), l)
                            == sweep_close(s_out, s_stack, l),
                    decreases stack@.len(),
                {
                    proof {
                        let sv = map_wrap_view(stack@);
                        assert(sv.last() == stack@.last()@);
                        assert(sv.last().level >= l);
                    }
                    close_top_exec(&mut out, &mut stack);
                }
                proof {
                    let sv = map_wrap_view(stack@);
                    if sv.len() > 0 {
                        assert(sv.last() == stack@.last()@);
                        assert(sv.last().level < l);
                    }
                    assert(sweep_close(map_node_view(out@), map_wrap_view(stack@), l)
                        == (map_node_view(out@), map_wrap_view(stack@)));
                }
                let (taken, bare) = take_attrs(child);
                let mut wchildren: Vec<HtmlNode> = Vec::new();
                wchildren.push(bare);
                proof {
                    assert(wchildren@ =~= Seq::<HtmlNode>::empty().push(bare));
                    lemma_map_node_view_push(Seq::<HtmlNode>::empty(), bare);
                    assert(map_node_view(Seq::<HtmlNode>::empty()) =~= Seq::<NodeView>::empty());
                    assert(map_node_view(wchildren@) =~= seq![strip_attrs(node_view(child))]);
                }
                let w = OpenWrap { level: l, attrs: taken, children: wchildren };
                let ghost mid_vec = stack@;
                let ghost mid_stack = map_wrap_view(stack@);
                let ghost mid_out = map_node_view(out@);
                stack.push(w);
                proof {
                    let sec = OpenSection {
                        level: l,
                        attrs: attrs_of(node_view(child)),
                        children: seq![strip_attrs(node_view(child))],
                    };
                    assert(w@ =~= sec);
                    assert forall|i: int| 0 <= i < map_wrap_view(stack@).len() implies
                        map_wrap_view(stack@)[i] == mid_stack.push(sec)[i] by {
                        if i < mid_stack.len() {
                            assert(stack@[i] == mid_vec[i]);
                        } else {
                            assert(stack@[i] == w);
                        }
                    }
                    assert(map_wrap_view(stack@) =~= mid_stack.push(sec));
                    assert(regroup_rec(pre_rest, pre_out, pre_stack)
                        == regroup_rec(map_node_view(rest@), mid_out, mid_stack.push(sec)));
                }
            },
            None => {
                put_exec(&mut out, &mut stack, child);
                proof {
                    assert(regroup_rec(pre_rest, pre_out, pre_stack)
                        == regroup_rec(map_node_view(rest@), map_node_view(out@),
                            map_wrap_view(stack@)));
                }
            },
        }
    }

    proof {
        lemma_map_node_view(rest@);
        assert(map_node_view(rest@) =~= Seq::<NodeView>::empty());
    }
    let ghost target = regroup_spec(orig);
    while stack.len() > 0
        invariant
            close_all(map_node_view(out@), map_wrap_view(stack@)) == target,
        decreases stack@.len(),
    {
        close_top_exec(&mut out, &mut stack);
    }
    out
}

/// Regroups the direct children of one node; the node itself and everything
/// deeper stay as they are.
pub fn ayarify_node(n: HtmlNode) -> (r: HtmlNode)
    ensures
        r@ == regroup_node_spec(n@),
{
    match n {
        HtmlNode::Element { tag, attrs, children } => {
            let grouped = regroup_children(children);
            HtmlNode::Element { tag, attrs, children: grouped }
        },
        other => other,
    }
}

/// Restructures the whole subtree rooted at `n`, innermost sibling groups
/// first, so a child's own headings are wrapped before its parent's group
/// is resolved.
pub fn ayarify_tree(n: HtmlNode) -> (r: HtmlNode)
    ensures
        r@ == restructure_spec(n@),
        node_text(r@) == node_text(n@),
    decreases n,
{
    proof {
        lemma_restructure_preserves_text(n@);
    }
    match n {
        HtmlNode::Element { tag, attrs, children } => {
            let new_children = ayarify_children(children);
            let grouped = regroup_children(new_children);
            HtmlNode::Element { tag, attrs, children: grouped }
        },
        other => other,
    }
}

/// Restructures each node of a sibling list.
fn ayarify_children(v: Vec<HtmlNode>) -> (r: Vec<HtmlNode>)
    ensures
        map_node_view(r@) == map_restructure(map_node_view(v@)),
    decreases v@,
{
    let ghost pre = v@;
    let ghost sv = map_node_view(v@);
    proof {
        lemma_map_node_view(pre);
    }
    let mut v = v;
    if v.len() == 0 {
        proof {
            assert(map_node_view(v@) =~= Seq::<NodeView>::empty());
        }
        v
    } else {
        let last = v.pop().unwrap();
        proof {
            assert(v@ =~= pre.subrange(0, pre.len() - 1));
            lemma_map_node_view_subrange(pre, 0, pre.len() - 1);
            assert(sv.drop_last() =~= sv.subrange(0, sv.len() - 1));
            assert(pre.drop_last() =~= pre.subrange(0, pre.len() - 1));
            assert(node_view(last) == sv.last());
        }
        let last_r = ayarify_tree(last);
        let mut rest = ayarify_children(v);
        let ghost rv = rest@;
        rest.push(last_r);
        proof {
            lemma_map_node_view_push(rv, last_r);
        }
        rest
    }
}

/// Walks the tree looking for the marker attribute; the first node along
/// each path that carries it has its whole subtree restructured, and the
/// walk does not descend into it further. Everything outside stays as it is.
pub fn ayarify_marked_tree(n: HtmlNode, attribute: &Vec<u8>) -> (r: HtmlNode)
    ensures
        r@ == marked_spec(n@, attribute@),
        node_text(r@) == node_text(n@),
    decreases n,
{
    proof {
        lemma_marked_preserves_text(n@, attribute@);
    }
    if has_attribute(&n, attribute) {
        ayarify_tree(n)
    } else {
        match n {
            HtmlNode::Element { tag, attrs, children } => {
                let new_children = marked_children(children, attribute);
                HtmlNode::Element { tag, attrs, children: new_children }
            },
            other => other,
        }
    }
}

/// Marked restructuring of each node of a sibling list.
fn marked_children(v: Vec<HtmlNode>, attribute: &Vec<u8>) -> (r: Vec<HtmlNode>)
    ensures
        map_node_view(r@) == map_marked(map_node_view(v@), attribute@),
    decreases v@,
{
    let ghost pre = v@;
    let ghost sv = map_node_view(v@);
    proof {
        lemma_map_node_view(pre);
    }
    let mut v = v;
    if v.len() == 0 {
        proof {
            assert(map_node_view(v@) =~= Seq::<NodeView>::empty());
        }
        v
    } else {
        let last = v.pop().unwrap();
        proof {
            assert(v@ =~= pre.subrange(0, pre.len() - 1));
            lemma_map_node_view_subrange(pre, 0, pre.len() - 1);
            assert(sv.drop_last() =~= sv.subrange(0, sv.len() - 1));
            assert(pre.drop_last() =~= pre.subrange(0, pre.len() - 1));
            assert(node_view(last) == sv.last());
        }
        let last_r = ayarify_marked_tree(last, attribute);
        let mut rest = marked_children(v, attribute);
        let ghost rv = rest@;
        rest.push(last_r);
        proof {
            lemma_map_node_view_push(rv, last_r);
        }
        rest
    }
}

/// The library's entry point: restructures the whole tree, or, when a marker
/// attribute is given, exactly the subtrees whose roots carry it.
pub fn restructure_document(root: HtmlNode, marker_attribute: &Option<Vec<u8>>) -> (r: HtmlNode)
    ensures
        match marker_attribute {
            Some(attr) => r@ == marked_spec(root@, attr@),
            None => r@ == restructure_spec(root@),
        },
        node_text(r@) == node_text(root@),
{
    match marker_attribute {
        Some(attr) => ayarify_marked_tree(root, attr),
        None => ayarify_tree(root),
    }
}

} // verus!
