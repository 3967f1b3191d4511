//! The document tree: a tagged union of text runs and elements, each element
//! owning an ordered sequence of child nodes, together with the mathematical
//! view of a tree and the set of void tags.

use vstd::prelude::*;
use vstd::string::StrSliceExecFns;
use crate::strmap::AttrMap;
use crate::text::all_space;

verus! {

/// The view of an element: a lowercase tag name and an attribute mapping.
pub struct ElemView {
    pub tag: Seq<char>,
    pub attrs: Map<Seq<char>, Seq<char>>,
}

/// The view of a node's payload.
pub enum DataView {
    Text(Seq<char>),
    Element(ElemView),
}

/// The view of a node: its payload and its children, in order.
pub struct NodeView {
    pub data: DataView,
    pub children: Seq<NodeView>,
}

/// A text run found between two tags, kept exactly as it appeared.
#[derive(Debug)]
pub struct Text {
    pub text: String,
}

/// An element: a tag name and its attributes.
#[derive(Debug)]
pub struct Element {
    pub tag: String,
    pub attributes: AttrMap,
}

/// A node's payload: either a text run or an element.
#[derive(Debug)]
pub enum Data {
    Text(Text),
    Element(Element),
}

/// A node of the document tree, owning its children.
#[derive(Debug)]
pub struct DOMNode {
    pub data: Data,
    pub children: Vec<DOMNode>,
}

impl View for Text {
    type V = Seq<char>;

    open spec fn view(&self) -> Seq<char> {
        self.text@
    }
}

impl View for Element {
    type V = ElemView;

    open spec fn view(&self) -> ElemView {
        ElemView { tag: self.tag@, attrs: self.attributes@ }
    }
}

impl View for Data {
    type V = DataView;

    open spec fn view(&self) -> DataView {
        match self {
            Data::Text(t) => DataView::Text(t@),
            Data::Element(e) => DataView::Element(e@),
        }
    }
}

/// The view of a node, defined mutually with the view of a child sequence.
pub open spec fn node_view(n: DOMNode) -> NodeView
    decreases n, 0int,
{
    NodeView { data: n.data@, children: nodes_view(n.children@) }
}

/// The views of a sequence of nodes, in order.
pub open spec fn nodes_view(ns: Seq<DOMNode>) -> Seq<NodeView>
    decreases ns, 1int,
{
    if ns.len() == 0 {
        Seq::empty()
    } else {
        nodes_view(ns.drop_last()).push(node_view(ns.last()))
    }
}

impl View for DOMNode {
    type V = NodeView;

    open spec fn view(&self) -> NodeView {
        node_view(*self)
    }
}

impl Element {
    /// Interprets a raw tag body. Yields `None` exactly for a non-element
    /// construct (a body opening with `!`, such as a doctype or comment
    /// marker); otherwise the split tag name and attribute mapping.
    pub fn new(tag: String) -> (r: Option<Element>)
        ensures
            match r {
                Some(e) => !(tag@.len() > 0 && tag@[0] == '!') && e@.tag == crate::tag::spec_tag_name(
                    tag@,
                ) && e@.attrs == crate::tag::spec_attrs(tag@),
                None => tag@.len() > 0 && tag@[0] == '!',
            },
    {
        if tag.as_str().unicode_len() > 0 && tag.as_str().get_char(0) == '!' {
            return None;
        }
        let (t, attributes) = crate::tag::get_attributes(tag.as_str());
        Some(Element { tag: t, attributes })
    }
}

impl Text {
    /// A text node is materialized only when the run is not empty after
    /// trimming; a whitespace-only run yields `None`.
    pub fn new(text: String) -> (r: Option<Text>)
        ensures
            all_space(text@) ==> r is None,
            !all_space(text@) ==> r == Some(Text { text }),
    {
        if crate::text::is_blank(text.as_str()) {
            None
        } else {
            Some(Text { text })
        }
    }
}

pub proof fn lemma_nodes_view_len(s: Seq<DOMNode>)
    ensures
        nodes_view(s).len() == s.len(),
    decreases s.len(),
{
    if s.len() > 0 {
        lemma_nodes_view_len(s.drop_last());
    }
}

pub proof fn lemma_nodes_view_index(s: Seq<DOMNode>, i: int)
    requires
        0 <= i < s.len(),
    ensures
        nodes_view(s).len() == s.len(),
        nodes_view(s)[i] == node_view(s[i]),
    decreases s.len(),
{
    lemma_nodes_view_len(s);
    if i < s.len() - 1 {
        lemma_nodes_view_index(s.drop_last(), i);
    }
}

pub proof fn lemma_nodes_view_push(s: Seq<DOMNode>, x: DOMNode)
    ensures
        nodes_view(s.push(x)) == nodes_view(s).push(node_view(x)),
{
    assert(s.push(x).drop_last() =~= s);
}

impl DOMNode {
    /// A childless node around the given payload.
    pub fn new(data: Data) -> (r: DOMNode)
        ensures
            r@ == (NodeView { data: data@, children: Seq::<NodeView>::empty() }),
            r.data == data,
    {
        let r = DOMNode { data, children: Vec::new() };
        proof {
            assert(r@.children =~= Seq::<NodeView>::empty());
        }
        r
    }

    /// Appends a child; earlier children keep their places.
    pub fn add_child(&mut self, child: DOMNode)
        ensures
            final(self)@ == (NodeView {
                data: old(self)@.data,
                children: old(self)@.children.push(child@),
            }),
            final(self).data == old(self).data,
    {
        let ghost c = child@;
        self.children.push(child);
        proof {
            assert(self.children@.drop_last() =~= old(self).children@);
            assert(self.children@.last()@ == c);
            assert(self@.children == old(self)@.children.push(c));
        }
    }
}

/// The void tags: elements of these kinds never own children and are never
/// pushed onto the open-element stack.
pub open spec fn is_void_tag(t: Seq<char>) -> bool {
    ||| t == "area"@
    ||| t == "base"@
    ||| t == "br"@
    ||| t == "col"@
    ||| t == "embed"@
    ||| t == "hr"@
    ||| t == "img"@
    ||| t == "input"@
    ||| t == "link"@
    ||| t == "meta"@
    ||| t == "param"@
    ||| t == "source"@
    ||| t == "track"@
    ||| t == "wbr"@
}

/// Whether `t` names a void tag.
pub fn exec_is_void_tag(t: &str) -> (r: bool)
    ensures
        r == is_void_tag(t@),
{
    crate::text::str_eq(t, "area") || crate::text::str_eq(t, "base")
        || crate::text::str_eq(t, "br") || crate::text::str_eq(t, "col")
        || crate::text::str_eq(t, "embed") || crate::text::str_eq(t, "hr")
        || crate::text::str_eq(t, "img") || crate::text::str_eq(t, "input")
        || crate::text::str_eq(t, "link") || crate::text::str_eq(t, "meta")
        || crate::text::str_eq(t, "param") || crate::text::str_eq(t, "source")
        || crate::text::str_eq(t, "track") || crate::text::str_eq(t, "wbr")
}

} // verus!
