//! Laws of the restructurer, proved over its specification: restructuring
//! preserves the document's flattened text content, and the marked walk
//! leaves a subtree without the marker exactly as it found it.

use vstd::prelude::*;
use crate::tree::{
    NodeView, node_text, seq_text, lemma_seq_text_push, lemma_seq_text_concat,
    lemma_seq_text_singleton, has_marker_view, heading_level_view,
};
use crate::restructure::{
    OpenSection, wrapper_of, put_node, close_top, sweep_close, close_all, attrs_of, strip_attrs,
    regroup_rec, regroup_spec, restructure_spec, map_restructure, marked_spec, map_marked,
};

verus! {

/// The text still held by the open sections, outermost first.
pub open spec fn stack_text(st: Seq<OpenSection>) -> Seq<u8>
    decreases st,
{
    if st.len() == 0 {
        Seq::empty()
    } else {
        stack_text(st.drop_last()) + seq_text(st.last().children)
    }
}

proof fn lemma_put_text(out: Seq<NodeView>, stack: Seq<OpenSection>, n: NodeView)
    ensures
        seq_text(put_node(out, stack, n).0) + stack_text(put_node(out, stack, n).1) == seq_text(
            out,
        ) + stack_text(stack) + node_text(n),
{
    if stack.len() == 0 {
        lemma_seq_text_push(out, n);
        assert((seq_text(out) + node_text(n)) + stack_text(stack) =~= (seq_text(out)
            + stack_text(stack)) + node_text(n));
    } else {
        let top = stack.last();
        let st2 = put_node(out, stack, n).1;
        assert(st2.drop_last() =~= stack.drop_last());
        assert(st2.last().children == top.children.push(n));
        lemma_seq_text_push(top.children, n);
        assert(seq_text(out) + (stack_text(stack.drop_last()) + (seq_text(top.children)
            + node_text(n))) =~= (seq_text(out) + (stack_text(stack.drop_last()) + seq_text(
            top.children,
        ))) + node_text(n));
    }
}

proof fn lemma_close_top_text(out: Seq<NodeView>, stack: Seq<OpenSection>)
    requires
        stack.len() > 0,
    ensures
        seq_text(close_top(out, stack).0) + stack_text(close_top(out, stack).1) == seq_text(out)
            + stack_text(stack),
{
    lemma_put_text(out, stack.drop_last(), wrapper_of(stack.last()));
    assert(node_text(wrapper_of(stack.last())) == seq_text(stack.last().children));
}

proof fn lemma_sweep_close_text(out: Seq<NodeView>, stack: Seq<OpenSection>, level: u8)
    ensures
        seq_text(sweep_close(out, stack, level).0) + stack_text(sweep_close(out, stack, level).1)
            == seq_text(out) + stack_text(stack),
    decreases stack.len(),
{
    if stack.len() > 0 && stack.last().level >= level {
        lemma_close_top_text(out, stack);
        let r = close_top(out, stack);
        lemma_sweep_close_text(r.0, r.1, level);
    }
}

proof fn lemma_close_all_text(out: Seq<NodeView>, stack: Seq<OpenSection>)
    ensures
        seq_text(close_all(out, stack)) == seq_text(out) + stack_text(stack),
    decreases stack.len(),
{
    if stack.len() == 0 {
        assert(seq_text(out) + stack_text(stack) =~= seq_text(out));
    } else {
        lemma_close_top_text(out, stack);
        let r = close_top(out, stack);
        lemma_close_all_text(r.0, r.1);
    }
}

proof fn lemma_regroup_rec_text(s: Seq<NodeView>, out: Seq<NodeView>, stack: Seq<OpenSection>)
    ensures
        seq_text(regroup_rec(s, out, stack)) == seq_text(out) + stack_text(stack) + seq_text(s),
    decreases s.len(),
{
    if s.len() == 0 {
        lemma_close_all_text(out, stack);
        assert((seq_text(out) + stack_text(stack)) + seq_text(s) =~= seq_text(out) + stack_text(
            stack,
        ));
    } else {
        let n = s[0];
        let rest = s.subrange(1, s.len() as int);
        assert(s =~= seq![n] + rest);
        lemma_seq_text_concat(seq![n], rest);
        lemma_seq_text_singleton(n);
        match heading_level_view(n) {
            Option::Some(l) => {
                lemma_sweep_close_text(out, stack, l);
                let r = sweep_close(out, stack, l);
                let sec = OpenSection {
                    level: l,
                    attrs: attrs_of(n),
                    children: seq![strip_attrs(n)],
                };
                assert(r.1.push(sec).drop_last() =~= r.1);
                lemma_seq_text_singleton(strip_attrs(n));
                assert(node_text(strip_attrs(n)) == node_text(n));
                assert(stack_text(r.1.push(sec)) == stack_text(r.1) + node_text(n));
                lemma_regroup_rec_text(rest, r.0, r.1.push(sec));
                assert((seq_text(r.0) + (stack_text(r.1) + node_text(n))) + seq_text(rest)
                    =~= (seq_text(r.0) + stack_text(r.1)) + (node_text(n) + seq_text(rest)));
                assert((seq_text(out) + stack_text(stack)) + (node_text(n) + seq_text(rest))
                    =~= (seq_text(out) + stack_text(stack)) + seq_text(s));
            },
            Option::None => {
                lemma_put_text(out, stack, n);
                let r = put_node(out, stack, n);
                lemma_regroup_rec_text(rest, r.0, r.1);
                assert(((seq_text(out) + stack_text(stack)) + node_text(n)) + seq_text(rest)
                    =~= (seq_text(out) + stack_text(stack)) + (node_text(n) + seq_text(rest)));
                assert((seq_text(out) + stack_text(stack)) + (node_text(n) + seq_text(rest))
                    =~= (seq_text(out) + stack_text(stack)) + seq_text(s));
            },
        }
    }
}

/// Regrouping a sibling group preserves its flattened text content.
pub proof fn lemma_regroup_preserves_text(s: Seq<NodeView>)
    ensures
        seq_text(regroup_spec(s)) == seq_text(s),
{
    lemma_regroup_rec_text(s, Seq::empty(), Seq::empty());
    assert((seq_text(Seq::<NodeView>::empty()) + stack_text(Seq::<OpenSection>::empty()))
        + seq_text(s) =~= seq_text(s));
}

/// Content preservation: restructuring never deletes, reorders or rewrites
/// text; the flattened text content of the result equals the input's.
pub proof fn lemma_restructure_preserves_text(n: NodeView)
    ensures
        node_text(restructure_spec(n)) == node_text(n),
    decreases n,
{
    match n {
        NodeView::Element { children, .. } => {
            lemma_map_restructure_text(children);
            lemma_regroup_preserves_text(map_restructure(children));
        },
        _ => {},
    }
}

/// Content preservation over a sibling list.
pub proof fn lemma_map_restructure_text(s: Seq<NodeView>)
    ensures
        seq_text(map_restructure(s)) == seq_text(s),
    decreases s,
{
    if s.len() > 0 {
        lemma_map_restructure_text(s.drop_last());
        lemma_restructure_preserves_text(s.last());
        lemma_seq_text_push(map_restructure(s.drop_last()), restructure_spec(s.last()));
    }
}

/// Content preservation for the marked walk.
pub proof fn lemma_marked_preserves_text(n: NodeView, attr: Seq<u8>)
    ensures
        node_text(marked_spec(n, attr)) == node_text(n),
    decreases n,
{
    if has_marker_view(n, attr) {
        lemma_restructure_preserves_text(n);
    } else {
        match n {
            NodeView::Element { children, .. } => {
                lemma_map_marked_text(children, attr);
            },
            _ => {},
        }
    }
}

/// Content preservation for the marked walk over a sibling list.
pub proof fn lemma_map_marked_text(s: Seq<NodeView>, attr: Seq<u8>)
    ensures
        seq_text(map_marked(s, attr)) == seq_text(s),
    decreases s,
{
    if s.len() > 0 {
        lemma_map_marked_text(s.drop_last(), attr);
        lemma_marked_preserves_text(s.last(), attr);
        lemma_seq_text_push(map_marked(s.drop_last(), attr), marked_spec(s.last(), attr));
    }
}

proof fn lemma_regroup_rec_no_heading(s: Seq<NodeView>, out: Seq<NodeView>)
    requires
        forall|i: int| 0 <= i < s.len() ==> heading_level_view(#[trigger] s[i]) is None,
    ensures
        regroup_rec(s, out, Seq::empty()) == out + s,
    decreases s.len(),
{
    if s.len() == 0 {
        assert(out + s =~= out);
    } else {
        let n = s[0];
        let rest = s.subrange(1, s.len() as int);
        assert forall|i: int| 0 <= i < rest.len() implies heading_level_view(
            #[trigger] rest[i],
        ) is None by {
            assert(rest[i] == s[i + 1]);
        }
        lemma_regroup_rec_no_heading(rest, out.push(n));
        assert(out.push(n) + rest =~= out + s);
    }
}

/// No-wrapping identity: a sibling group without headings comes out of a
/// regrouping pass exactly as it went in.
pub proof fn lemma_regroup_no_heading(s: Seq<NodeView>)
    requires
        forall|i: int| 0 <= i < s.len() ==> heading_level_view(#[trigger] s[i]) is None,
    ensures
        regroup_spec(s) == s,
{
    lemma_regroup_rec_no_heading(s, Seq::empty());
    assert(Seq::<NodeView>::empty() + s =~= s);
}

/// Whether the marker attribute occurs anywhere in the subtree.
pub open spec fn subtree_has_marker(n: NodeView, attr: Seq<u8>) -> bool
    decreases n,
{
    has_marker_view(n, attr) || (match n {
        NodeView::Element { children, .. } => any_has_marker(children, attr),
        _ => false,
    })
}

/// Whether the marker attribute occurs anywhere under a sibling list.
pub open spec fn any_has_marker(s: Seq<NodeView>, attr: Seq<u8>) -> bool
    decreases s,
{
    if s.len() == 0 {
        false
    } else {
        any_has_marker(s.drop_last(), attr) || subtree_has_marker(s.last(), attr)
    }
}

/// Marker gating: a subtree in which no node carries the marker attribute
/// comes out of the marked walk exactly as it went in, its own headings
/// included.
pub proof fn lemma_marker_gating(n: NodeView, attr: Seq<u8>)
    requires
        !subtree_has_marker(n, attr),
    ensures
        marked_spec(n, attr) == n,
    decreases n,
{
    match n {
        NodeView::Element { children, .. } => {
            lemma_map_marked_gating(children, attr);
        },
        _ => {},
    }
}

/// Marker gating over a sibling list.
pub proof fn lemma_map_marked_gating(s: Seq<NodeView>, attr: Seq<u8>)
    requires
        !any_has_marker(s, attr),
    ensures
        map_marked(s, attr) == s,
    decreases s,
{
    if s.len() == 0 {
        assert(map_marked(s, attr) =~= s);
    } else {
        lemma_map_marked_gating(s.drop_last(), attr);
        lemma_marker_gating(s.last(), attr);
        assert(map_marked(s, attr) =~= s);
    }
}

} // verus!
