//! The tree builder: a single left-to-right scan over the input that keeps an
//! open-element stack and assembles parent/child relationships into the
//! output tree. The scan is specified as a character-driven state machine
//! (`step`, `run`, `finalize`) and the executable parser is proved to return
//! exactly what the machine describes.

use vstd::prelude::*;
use vstd::string::*;
use crate::dom::{
    DOMNode, Data, Element, Text, NodeView, DataView, ElemView, node_view, nodes_view,
    lemma_nodes_view_len, lemma_nodes_view_index, lemma_nodes_view_push, is_void_tag,
    exec_is_void_tag,
};
use crate::strmap::AttrMap;
use crate::tag::{spec_tag_name, spec_attrs};
use crate::text::{
    all_space, find_char, lemma_find_char_bounds, exec_find_char, str_eq, push_char,
};

verus! {

/// A fatal parse condition. Elements still open at the end of the input are
/// not an error; these two conditions are.
#[derive(Debug, PartialEq, Eq)]
pub enum ParseError {
    /// The input ended while still inside a tag body (no closing `>`).
    UnterminatedTag,
    /// A closing tag did not name the currently open element.
    MismatchedCloseTag { expected: String, found: String },
}

/// The view of a parse error.
pub enum ErrView {
    UnterminatedTag,
    MismatchedCloseTag { expected: Seq<char>, found: Seq<char> },
}

impl View for ParseError {
    type V = ErrView;

    open spec fn view(&self) -> ErrView {
        match self {
            ParseError::UnterminatedTag => ErrView::UnterminatedTag,
            ParseError::MismatchedCloseTag { expected, found } => ErrView::MismatchedCloseTag {
                expected: expected@,
                found: found@,
            },
        }
    }
}

/// The scanner state: whether a tag body is being gathered, the current
/// accumulator, and the open-element stack (bottom first; the synthetic root
/// sits at the bottom).
pub struct PState {
    pub in_tag: bool,
    pub acc: Seq<char>,
    pub stack: Seq<NodeView>,
}

/// Appends `child` to the children of the innermost open element. With no
/// open element the child has nowhere to go and is dropped.
pub open spec fn append_child(stack: Seq<NodeView>, child: NodeView) -> Seq<NodeView> {
    if stack.len() == 0 {
        stack
    } else {
        stack.update(
            stack.len() - 1,
            NodeView { data: stack.last().data, children: stack.last().children.push(child) },
        )
    }
}

/// Flushes a gathered text run: a run that is empty after trimming is
/// dropped, any other run becomes a text child of the innermost open element.
pub open spec fn flush_text(stack: Seq<NodeView>, acc: Seq<char>) -> Seq<NodeView> {
    if all_space(acc) {
        stack
    } else {
        append_child(stack, NodeView { data: DataView::Text(acc), children: Seq::empty() })
    }
}

/// The name a closing-tag body carries: the text up to the first space, with
/// the leading `/` dropped.
pub open spec fn close_name(b: Seq<char>) -> Seq<char> {
    if find_char(b, ' ', 0) < 1 {
        Seq::empty()
    } else {
        b.subrange(1, find_char(b, ' ', 0))
    }
}

/// One transition of the scanner.
///
/// `<` flushes the gathered text and opens a tag body; `>` interprets the
/// gathered body as a closing tag (`/...`), a dropped construct (`!...`) or
/// an opening tag; any other character joins the accumulator. A closing tag
/// must name the innermost open element, else the parse fails; the synthetic
/// root is never popped. A void element is attached to its parent but never
/// opened.
pub open spec fn step(st: PState, c: char) -> Result<PState, ErrView> {
    if c == '<' {
        Ok(PState { in_tag: true, acc: Seq::empty(), stack: flush_text(st.stack, st.acc) })
    } else if c == '>' {
        let b = st.acc;
        if b.len() > 0 && b[0] == '/' {
            let name = close_name(b);
            if st.stack.len() == 0 {
                Ok(PState { in_tag: false, acc: Seq::empty(), stack: st.stack })
            } else {
                match st.stack.last().data {
                    DataView::Text(_) => Ok(
                        PState { in_tag: false, acc: Seq::empty(), stack: st.stack.drop_last() },
                    ),
                    DataView::Element(e) => {
                        if e.tag == name {
                            if st.stack.len() == 1 {
                                Ok(PState { in_tag: false, acc: Seq::empty(), stack: st.stack })
                            } else {
                                Ok(
                                    PState {
                                        in_tag: false,
                                        acc: Seq::empty(),
                                        stack: append_child(st.stack.drop_last(), st.stack.last()),
                                    },
                                )
                            }
                        } else {
                            Err(ErrView::MismatchedCloseTag { expected: e.tag, found: name })
                        }
                    },
                }
            }
        } else if b.len() > 0 && b[0] == '!' {
            Ok(PState { in_tag: false, acc: Seq::empty(), stack: st.stack })
        } else {
            let node = NodeView {
                data: DataView::Element(
                    ElemView { tag: spec_tag_name(b), attrs: spec_attrs(b) },
                ),
                children: Seq::empty(),
            };
            if is_void_tag(spec_tag_name(b)) {
                Ok(PState { in_tag: false, acc: Seq::empty(), stack: append_child(st.stack, node) })
            } else {
                Ok(PState { in_tag: false, acc: Seq::empty(), stack: st.stack.push(node) })
            }
        }
    } else {
        Ok(PState { in_tag: st.in_tag, acc: st.acc.push(c), stack: st.stack })
    }
}

/// The scanner run over a whole character sequence.
pub open spec fn run(st: PState, s: Seq<char>) -> Result<PState, ErrView>
    decreases s.len(),
{
    if s.len() == 0 {
        Ok(st)
    } else {
        match step(st, s[0]) {
            Ok(st2) => run(st2, s.drop_first()),
            Err(e) => Err(e),
        }
    }
}

/// A run over `a + b` is the run over `a` continued over `b`.
pub proof fn lemma_run_append(st: PState, a: Seq<char>, b: Seq<char>)
    ensures
        run(st, a + b) == match run(st, a) {
            Ok(m) => run(m, b),
            Err(e) => Err::<PState, ErrView>(e),
        },
    decreases a.len(),
{
    if a.len() == 0 {
        assert(a + b =~= b);
    } else {
        assert((a + b)[0] == a[0]);
        assert((a + b).drop_first() =~= a.drop_first() + b);
        match step(st, a[0]) {
            Ok(st2) => {
                lemma_run_append(st2, a.drop_first(), b);
            },
            Err(_) => {},
        }
    }
}

/// Folds the elements still open at the end of the input into their parents,
/// leaving only the root.
pub open spec fn fold_stack(stack: Seq<NodeView>) -> Seq<NodeView>
    decreases stack.len(),
{
    if stack.len() <= 1 {
        stack
    } else {
        fold_stack(append_child(stack.drop_last(), stack.last()))
    }
}

/// Finishes a run: the input ending inside a tag body is fatal; otherwise any
/// remaining text run is flushed, open elements are folded into their
/// parents, and the root is returned.
pub open spec fn finalize(st: PState) -> Result<NodeView, ErrView> {
    if st.in_tag {
        Err(ErrView::UnterminatedTag)
    } else {
        Ok(fold_stack(flush_text(st.stack, st.acc))[0])
    }
}

/// The view of the synthetic root before any child is attached.
pub open spec fn root_view() -> NodeView {
    NodeView {
        data: DataView::Element(ElemView { tag: "bowser"@, attrs: Map::empty() }),
        children: Seq::empty(),
    }
}

/// The scanner's starting state: outside any tag, with only the synthetic
/// root open.
pub open spec fn init_state() -> PState {
    PState { in_tag: false, acc: Seq::empty(), stack: seq![root_view()] }
}

/// What parsing a document yields: the machine run from the starting state,
/// then finished.
pub open spec fn spec_parse(s: Seq<char>) -> Result<NodeView, ErrView> {
    match run(init_state(), s) {
        Ok(st) => finalize(st),
        Err(e) => Err(e),
    }
}

/// Appends a finished node to the children of the innermost open element of
/// the executable stack, mirroring `append_child`.
fn append_to_top(stack: &mut Vec<DOMNode>, child: DOMNode)
    ensures
        nodes_view(final(stack)@) == append_child(nodes_view(old(stack)@), child@),
        final(stack)@.len() == old(stack)@.len(),
        forall|j: int| 0 <= j < old(stack)@.len() ==> final(stack)@[j].data == old(stack)@[j].data,
{
    proof {
        lemma_nodes_view_len(old(stack)@);
    }
    if stack.len() == 0 {
        return;
    }
    let ghost s0 = stack@;
    let ghost cv = child@;
    let popped = stack.pop();
    let mut top = match popped {
        Some(t) => t,
        None => {
            proof {
                assert(false);
            }
            return;
        },
    };
    top.add_child(child);
    let ghost topv = node_view(top);
    stack.push(top);
    proof {
        let base = nodes_view(s0.drop_last());
        lemma_nodes_view_push(s0.drop_last(), top);
        assert(nodes_view(stack@) == base.push(topv));
        let pre = nodes_view(s0);
        lemma_nodes_view_len(s0);
        assert(pre == base.push(node_view(s0.last())));
        let y = NodeView {
            data: pre.last().data,
            children: pre.last().children.push(cv),
        };
        assert(pre.last() == node_view(s0.last()));
        assert(topv == y);
        assert(append_child(pre, cv) == pre.update(pre.len() - 1, y));
        assert(pre.update(pre.len() - 1, y) =~= base.push(y));
        lemma_nodes_view_index(stack@, s0.len() - 1);
        assert forall|j: int| 0 <= j < s0.len() implies stack@[j].data == s0[j].data by {
            if j < s0.len() - 1 {
                assert(stack@[j] == s0[j]);
            }
        }
    }
}

/// Flushes a gathered text run into the executable stack, mirroring
/// `flush_text`: a whitespace-only run is dropped, any other run becomes a
/// text child of the innermost open element.
fn flush_text_exec(stack: &mut Vec<DOMNode>, text: String)
    ensures
        nodes_view(final(stack)@) == flush_text(nodes_view(old(stack)@), text@),
        final(stack)@.len() == old(stack)@.len(),
        forall|j: int| 0 <= j < old(stack)@.len() ==> final(stack)@[j].data == old(stack)@[j].data,
{
    let ghost tv = text@;
    match Text::new(text) {
        None => {},
        Some(t) => {
            let node = DOMNode::new(Data::Text(t));
            proof {
                assert(node@ == (NodeView { data: DataView::Text(tv), children: Seq::empty() }));
            }
            append_to_top(stack, node);
        },
    }
}

/// Parses a document into its tree, or reports the fatal condition that
/// stopped the scan. The result is exactly what the specification machine
/// yields: `spec_parse` pins down the returned tree for every successful
/// input and the error for every failing one.
pub fn parse(body: &String) -> (r: Result<DOMNode, ParseError>)
    ensures
        match r {
            Ok(node) => spec_parse(body@) == Ok::<NodeView, ErrView>(node@),
            Err(e) => spec_parse(body@) == Err::<NodeView, ErrView>(e@),
        },
{
    let ghost s = body@;
    let root = DOMNode {
        data: Data::Element(
            Element { tag: "bowser".to_owned(), attributes: AttrMap::new() },
        ),
        children: Vec::new(),
    };
    proof {
        assert(node_view(root).children =~= Seq::<NodeView>::empty());
        assert(node_view(root) == root_view());
    }
    let mut stack: Vec<DOMNode> = Vec::new();
    stack.push(root);
    let mut in_tag = false;
    let mut acc = String::new();
    let n = body.as_str().unicode_len();
    let mut i: usize = 0;
    proof {
        assert(nodes_view(stack@) =~= seq![root_view()]) by {
            assert(stack@.drop_last() =~= Seq::<DOMNode>::empty());
        }
        assert(s.take(0) =~= Seq::<char>::empty());
    }
    while i < n
        invariant
            i <= n,
            n == s.len(),
            s == body@,
            stack@.len() >= 1,
            forall|j: int| 0 <= j < stack@.len() ==> #[trigger] stack@[j].data is Element,
            run(init_state(), s.take(i as int)) == Ok::<PState, ErrView>(
                PState { in_tag, acc: acc@, stack: nodes_view(stack@) },
            ),
        decreases n - i,
    {
        let ghost st0 = PState { in_tag, acc: acc@, stack: nodes_view(stack@) };
        let c = body.as_str().get_char(i);
        proof {
            lemma_run_append(init_state(), s.take(i as int), seq![s[i as int]]);
            assert(s.take(i as int) + seq![s[i as int]] =~= s.take(i + 1));
            assert(seq![s[i as int]].drop_first() =~= Seq::<char>::empty());
            reveal_with_fuel(run, 2);
            assert(run(st0, seq![c]) == step(st0, c));
        }
        if c == '<' {
            let taken = acc;
            acc = String::new();
            flush_text_exec(&mut stack, taken);
            in_tag = true;
            proof {
                assert(step(st0, c) == Ok::<PState, ErrView>(
                    PState { in_tag: true, acc: Seq::empty(), stack: flush_text(st0.stack, st0.acc) },
                ));
            }
        } else if c == '>' {
            in_tag = false;
            let taken = acc;
            acc = String::new();
            let ghost b = taken@;
            let bn = taken.as_str().unicode_len();
            if bn > 0 && taken.as_str().get_char(0) == '/' {
                let j = exec_find_char(taken.as_str(), ' ');
                proof {
                    lemma_find_char_bounds(b, ' ', 1);
                    assert(find_char(b, ' ', 0) == find_char(b, ' ', 1));
                    assert(1 <= find_char(b, ' ', 0) <= b.len());
                }
                let name = taken.as_str().substring_char(1, j).to_owned();
                proof {
                    assert(name@ == close_name(b));
                }
                let top_idx = stack.len() - 1;
                proof {
                    lemma_nodes_view_index(stack@, top_idx as int);
                    assert(st0.stack.last() == node_view(stack@[top_idx as int]));
                }
                let tags_equal: bool = match &stack[top_idx].data {
                    Data::Element(e) => str_eq(e.tag.as_str(), name.as_str()),
                    Data::Text(_) => {
                        proof {
                            assert(false);
                        }
                        false
                    },
                };
                if tags_equal {
                    if stack.len() > 1 {
                        let ghost s0 = stack@;
                        let popped = stack.pop();
                        let top = match popped {
                            Some(t) => t,
                            None => {
                                proof {
                                    assert(false);
                                }
                                return Err(ParseError::UnterminatedTag);
                            },
                        };
                        append_to_top(&mut stack, top);
                        proof {
                            assert(nodes_view(s0).drop_last() =~= nodes_view(s0.drop_last()));
                            lemma_nodes_view_len(s0);
                            assert(step(st0, c) == Ok::<PState, ErrView>(
                                PState {
                                    in_tag: false,
                                    acc: Seq::empty(),
                                    stack: append_child(st0.stack.drop_last(), st0.stack.last()),
                                },
                            ));
                        }
                    } else {
                        proof {
                            lemma_nodes_view_len(stack@);
                            assert(step(st0, c) == Ok::<PState, ErrView>(
                                PState { in_tag: false, acc: Seq::empty(), stack: st0.stack },
                            ));
                        }
                    }
                } else {
                    let expected: String = match &stack[top_idx].data {
                        Data::Element(e) => e.tag.clone(),
                        Data::Text(_) => {
                            proof {
                                assert(false);
                            }
                            String::new()
                        },
                    };
                    let err = ParseError::MismatchedCloseTag { expected, found: name };
                    proof {
                        lemma_nodes_view_len(stack@);
                        assert(step(st0, c) == Err::<PState, ErrView>(err@));
                        lemma_run_append(init_state(), s.take(i + 1), s.skip(i + 1));
                        assert(s.take(i + 1) + s.skip(i + 1) =~= s);
                    }
                    return Err(err);
                }
            } else {
                match Element::new(taken) {
                    None => {
                        proof {
                            assert(step(st0, c) == Ok::<PState, ErrView>(
                                PState { in_tag: false, acc: Seq::empty(), stack: st0.stack },
                            ));
                        }
                    },
                    Some(elem) => {
                        let ghost ev = ElemView { tag: spec_tag_name(b), attrs: spec_attrs(b) };
                        let void = exec_is_void_tag(elem.tag.as_str());
                        let node = DOMNode::new(Data::Element(elem));
                        proof {
                            assert(node@ == (NodeView {
                                data: DataView::Element(ev),
                                children: Seq::empty(),
                            }));
                        }
                        if void {
                            append_to_top(&mut stack, node);
                        } else {
                            let ghost s0 = stack@;
                            stack.push(node);
                            proof {
                                lemma_nodes_view_push(s0, node);
                            }
                        }
                    },
                }
            }
        } else {
            push_char(&mut acc, c);
            proof {
                assert(step(st0, c) == Ok::<PState, ErrView>(
                    PState { in_tag: st0.in_tag, acc: st0.acc.push(c), stack: st0.stack },
                ));
            }
        }
        i = i + 1;
    }
    proof {
        assert(s.take(n as int) =~= s);
    }
    let ghost stf = PState { in_tag, acc: acc@, stack: nodes_view(stack@) };
    if in_tag {
        let err = ParseError::UnterminatedTag;
        proof {
            assert(spec_parse(s) == Err::<NodeView, ErrView>(err@));
        }
        return Err(err);
    }
    flush_text_exec(&mut stack, acc);
    let ghost folded = fold_stack(flush_text(stf.stack, stf.acc));
    proof {
        lemma_nodes_view_len(stack@);
    }
    while stack.len() > 1
        invariant
            stack@.len() >= 1,
            fold_stack(nodes_view(stack@)) == folded,
        decreases stack@.len(),
    {
        let ghost s0 = stack@;
        let popped = stack.pop();
        let top = match popped {
            Some(t) => t,
            None => {
                proof {
                    assert(false);
                }
                return Err(ParseError::UnterminatedTag);
            },
        };
        append_to_top(&mut stack, top);
        proof {
            assert(nodes_view(s0).drop_last() =~= nodes_view(s0.drop_last()));
            lemma_nodes_view_len(s0);
            assert(fold_stack(nodes_view(s0)) == fold_stack(
                append_child(nodes_view(s0).drop_last(), nodes_view(s0).last()),
            ));
            assert(nodes_view(s0).last() == node_view(s0.last())) by {
                lemma_nodes_view_index(s0, s0.len() - 1);
            }
        }
    }
    let ghost s1 = stack@;
    let popped = stack.pop();
    let rt = match popped {
        Some(t) => t,
        None => {
            proof {
                assert(false);
            }
            return Err(ParseError::UnterminatedTag);
        },
    };
    proof {
        lemma_nodes_view_len(s1);
        assert(fold_stack(nodes_view(s1)) == nodes_view(s1));
        lemma_nodes_view_index(s1, 0);
        assert(rt@ == nodes_view(s1)[0]);
        assert(spec_parse(s) == Ok::<NodeView, ErrView>(rt@));
    }
    Ok(rt)
}

} // verus!
