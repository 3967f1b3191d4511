//! The depth-first, pre-order rendering of a document tree: each element
//! prints its open tag, its children indented two further columns, and its
//! close tag unless the tag is void; each text run prints as it was stored.
//! The rendering is purely observational: it is a function of the tree alone.

use vstd::prelude::*;
use vstd::string::*;
use crate::dom::{DOMNode, Data, NodeView, DataView, node_view, nodes_view, is_void_tag,
    exec_is_void_tag, lemma_nodes_view_len, lemma_nodes_view_index};
use crate::text::push_char;

verus! {

/// What one node renders to when indented by `pad`.
pub open spec fn show_node(n: NodeView, pad: Seq<char>) -> Seq<char>
    decreases n, 0int,
{
    match n.data {
        DataView::Text(t) => pad + t + seq!['\n'],
        DataView::Element(e) => {
            let head = pad + seq!['<'] + e.tag + seq!['>'] + seq!['\n'];
            let body = show_nodes(n.children, pad + seq![' ', ' ']);
            if is_void_tag(e.tag) {
                head + body
            } else {
                head + body + pad + seq!['<', '/'] + e.tag + seq!['>'] + seq!['\n']
            }
        },
    }
}

/// What a sequence of nodes renders to, in order.
pub open spec fn show_nodes(ns: Seq<NodeView>, pad: Seq<char>) -> Seq<char>
    decreases ns, 1int,
{
    if ns.len() == 0 {
        Seq::empty()
    } else {
        show_nodes(ns.drop_last(), pad) + show_node(ns.last(), pad)
    }
}

fn show_exec(node: &DOMNode, pad: &String) -> (r: String)
    ensures
        r@ == show_node(node_view(*node), pad@),
    decreases *node,
{
    let mut out = String::new();
    match &node.data {
        Data::Text(t) => {
            out.append(pad.as_str());
            out.append(t.text.as_str());
            push_char(&mut out, '\n');
            proof {
                assert(out@ =~= show_node(node_view(*node), pad@));
            }
        },
        Data::Element(e) => {
            out.append(pad.as_str());
            push_char(&mut out, '<');
            out.append(e.tag.as_str());
            push_char(&mut out, '>');
            push_char(&mut out, '\n');
            let ghost head = out@;
            proof {
                assert(head =~= pad@ + seq!['<'] + e.tag@ + seq!['>'] + seq!['\n']);
            }
            let mut deeper = pad.clone();
            deeper.append("  ");
            proof {
                reveal_strlit("  ");
                assert(deeper@ =~= pad@ + seq![' ', ' ']);
                lemma_nodes_view_len(node.children@);
            }
            let ghost cs = node_view(*node).children;
            let mut k: usize = 0;
            proof {
                assert(cs.take(0) =~= Seq::<NodeView>::empty());
            }
            while k < node.children.len()
                invariant
                    k <= node.children@.len(),
                    cs == node_view(*node).children,
                    cs.len() == node.children@.len(),
                    deeper@ == pad@ + seq![' ', ' '],
                    out@ == head + show_nodes(cs.take(k as int), deeper@),
                decreases node.children@.len() - k,
            {
                let piece = show_exec(&node.children[k], &deeper);
                out.append(piece.as_str());
                k = k + 1;
                proof {
                    lemma_nodes_view_index(node.children@, k - 1);
                    assert(cs.take(k as int).drop_last() =~= cs.take(k - 1));
                    assert(cs.take(k as int).last() == cs[k - 1]);
                }
            }
            proof {
                assert(cs.take(cs.len() as int) =~= cs);
            }
            if !exec_is_void_tag(e.tag.as_str()) {
                out.append(pad.as_str());
                push_char(&mut out, '<');
                push_char(&mut out, '/');
                out.append(e.tag.as_str());
                push_char(&mut out, '>');
                push_char(&mut out, '\n');
                proof {
                    assert(out@ =~= head + show_nodes(cs, deeper@) + pad@ + seq!['<', '/'] + e.tag@
                        + seq!['>'] + seq!['\n']);
                }
            }
        },
    }
    out
}

/// Renders a document tree to text. The result is a function of the tree
/// alone, and the tree is left untouched, so rendering the same tree again
/// yields the same text.
pub fn dom_to_string(node: &DOMNode) -> (r: String)
    ensures
        r@ == show_node(node@, Seq::empty()),
{
    let pad = String::new();
    show_exec(node, &pad)
}

} // verus!
