//! The layout tree: a block/inline wrapper around document nodes. Visual
//! rendering itself is left to an embedding application; the library's
//! observable rendering of a document is the text form in `show`.

use vstd::prelude::*;
use crate::dom::DOMNode;

verus! {

/// A node of the layout tree: the document node it lays out, whether it is
/// laid out inline, and its child layout nodes.
pub struct LayoutNode {
    pub node: DOMNode,
    pub inline: bool,
    pub children: Vec<LayoutNode>,
}

impl LayoutNode {
    /// A childless layout node over the given document node.
    pub fn new(node: DOMNode, inline: bool) -> (r: LayoutNode)
        ensures
            r.node == node,
            r.inline == inline,
            r.children@ == Seq::<LayoutNode>::empty(),
    {
        let r = LayoutNode { node, inline, children: Vec::new() };
        proof {
            assert(r.children@ =~= Seq::<LayoutNode>::empty());
        }
        r
    }

    /// Appends a child layout node; earlier children keep their places.
    pub fn add_child(&mut self, child: LayoutNode)
        ensures
            final(self).node == old(self).node,
            final(self).inline == old(self).inline,
            final(self).children@ == old(self).children@.push(child),
    {
        self.children.push(child);
    }
}

/// Drawing a laid-out tree on a display is outside this library; the hook
/// takes the tree and leaves every decision to the embedding application.
pub fn render(node: &LayoutNode) {
}

} // verus!
