//! The library's general guarantees, stated and proved over the parser's
//! specification machine: every returned tree sits under the synthetic root
//! and keeps void elements childless, parsing inverts the text of any
//! well-formed tree (so the tree's nesting structure survives a round trip),
//! and re-rendering a tree yields the same text.

use vstd::prelude::*;
use crate::dom::{NodeView, DataView, ElemView, is_void_tag};
use crate::parser::{
    PState, ErrView, step, run, fold_stack, flush_text, append_child, close_name,
    init_state, root_view, spec_parse, lemma_run_append,
};
use crate::tag::{spec_tag_name, spec_attrs, tokenize, tokenize_from, attrs_of_tokens,
    tag_of_tokens};
use crate::text::{all_space, is_space_char, lower_seq, find_char};
use crate::show::show_node;

verus! {

/// What holds everywhere in a tree the parser built: a text run is never
/// blank (a whitespace-only run is dropped, not materialized) and is a leaf,
/// and a void element owns no children.
pub open spec fn node_ok(n: NodeView) -> bool
    decreases n, 0int,
{
    match n.data {
        DataView::Text(t) => !all_space(t) && n.children.len() == 0,
        DataView::Element(e) => {
            &&& (is_void_tag(e.tag) ==> n.children.len() == 0)
            &&& forest_ok(n.children)
        },
    }
}

pub open spec fn forest_ok(ns: Seq<NodeView>) -> bool
    decreases ns, 1int,
{
    if ns.len() == 0 {
        true
    } else {
        node_ok(ns[0]) && forest_ok(ns.drop_first())
    }
}

proof fn lemma_forest_ok_push(ns: Seq<NodeView>, x: NodeView)
    requires
        forest_ok(ns),
        node_ok(x),
    ensures
        forest_ok(ns.push(x)),
    decreases ns.len(),
{
    if ns.len() == 0 {
        assert(ns.push(x)[0] == x);
        assert(ns.push(x).drop_first() =~= Seq::<NodeView>::empty());
        assert(forest_ok(Seq::<NodeView>::empty()));
        assert(forest_ok(ns.push(x)));
    } else {
        assert(ns.push(x)[0] == ns[0]);
        assert(ns.push(x).drop_first() =~= ns.drop_first().push(x));
        lemma_forest_ok_push(ns.drop_first(), x);
        assert(node_ok(ns.push(x)[0]));
        assert(forest_ok(ns.push(x).drop_first()));
        assert(forest_ok(ns.push(x)));
    }
}

/// What holds of every element on the open-element stack: it is an element,
/// it is not void (void elements are never opened), and the children it has
/// gathered so far are sound. The synthetic root keeps its payload at the
/// bottom.
pub open spec fn open_ok(n: NodeView) -> bool {
    &&& n.data is Element
    &&& !is_void_tag(n.data->Element_0.tag)
    &&& forest_ok(n.children)
}

pub open spec fn stack_ok(stk: Seq<NodeView>) -> bool {
    &&& stk.len() >= 1
    &&& stk[0].data == root_view().data
    &&& forall|i: int| 0 <= i < stk.len() ==> open_ok(#[trigger] stk[i])
}

proof fn lemma_append_child_ok(stk: Seq<NodeView>, c: NodeView)
    requires
        stack_ok(stk),
        node_ok(c),
    ensures
        stack_ok(append_child(stk, c)),
{
    let r = append_child(stk, c);
    assert(r[0].data == stk[0].data);
    assert forall|i: int| 0 <= i < r.len() implies open_ok(#[trigger] r[i]) by {
        if i == stk.len() - 1 {
            lemma_forest_ok_push(stk.last().children, c);
        } else {
            assert(r[i] == stk[i]);
        }
    }
}

proof fn lemma_flush_ok(stk: Seq<NodeView>, acc: Seq<char>)
    requires
        stack_ok(stk),
    ensures
        stack_ok(flush_text(stk, acc)),
{
    if !all_space(acc) {
        let t = NodeView { data: DataView::Text(acc), children: Seq::empty() };
        lemma_append_child_ok(stk, t);
    }
}

proof fn lemma_step_ok(st: PState, c: char)
    requires
        stack_ok(st.stack),
    ensures
        match step(st, c) {
            Ok(st2) => stack_ok(st2.stack),
            Err(_) => true,
        },
{
    if c == '<' {
        lemma_flush_ok(st.stack, st.acc);
    } else if c == '>' {
        let b = st.acc;
        if b.len() > 0 && b[0] == '/' {
            match st.stack.last().data {
                DataView::Text(_) => {
                    assert(open_ok(st.stack[st.stack.len() - 1]));
                },
                DataView::Element(e) => {
                    if e.tag == close_name(b) && st.stack.len() > 1 {
                        let top = st.stack.last();
                        assert(open_ok(st.stack[st.stack.len() - 1]));
                        assert(node_ok(top));
                        let rest = st.stack.drop_last();
                        assert(stack_ok(rest)) by {
                            assert(forall|i: int|
                                0 <= i < rest.len() ==> rest[i] == #[trigger] st.stack[i]);
                        }
                        lemma_append_child_ok(rest, top);
                    }
                },
            }
        } else if b.len() > 0 && b[0] == '!' {
        } else {
            let tag = spec_tag_name(b);
            let node = NodeView {
                data: DataView::Element(ElemView { tag, attrs: spec_attrs(b) }),
                children: Seq::empty(),
            };
            assert(forest_ok(node.children));
            assert(node_ok(node));
            if is_void_tag(tag) {
                lemma_append_child_ok(st.stack, node);
            } else {
                let r = st.stack.push(node);
                assert(open_ok(node));
                assert(r[0] == st.stack[0]);
                assert(forall|i: int|
                    0 <= i < st.stack.len() ==> r[i] == #[trigger] st.stack[i]);
                assert(r[r.len() - 1] == node);
            }
        }
    }
}

proof fn lemma_run_ok(st: PState, s: Seq<char>)
    requires
        stack_ok(st.stack),
    ensures
        match run(st, s) {
            Ok(st2) => stack_ok(st2.stack),
            Err(_) => true,
        },
    decreases s.len(),
{
    if s.len() > 0 {
        lemma_step_ok(st, s[0]);
        match step(st, s[0]) {
            Ok(st2) => {
                lemma_run_ok(st2, s.drop_first());
            },
            Err(_) => {},
        }
    }
}

proof fn lemma_fold_ok(stk: Seq<NodeView>)
    requires
        stack_ok(stk),
    ensures
        stack_ok(fold_stack(stk)),
        fold_stack(stk).len() == 1,
    decreases stk.len(),
{
    if stk.len() > 1 {
        let top = stk.last();
        assert(open_ok(stk[stk.len() - 1]));
        assert(node_ok(top));
        let rest = stk.drop_last();
        assert(stack_ok(rest)) by {
            assert(forall|i: int| 0 <= i < rest.len() ==> rest[i] == #[trigger] stk[i]);
        }
        lemma_append_child_ok(rest, top);
        lemma_fold_ok(append_child(rest, top));
    }
}

proof fn lemma_root_not_void()
    ensures
        stack_ok(init_state().stack),
{
    reveal_strlit("bowser");
    reveal_strlit("area");
    reveal_strlit("base");
    reveal_strlit("br");
    reveal_strlit("col");
    reveal_strlit("embed");
    reveal_strlit("hr");
    reveal_strlit("img");
    reveal_strlit("input");
    reveal_strlit("link");
    reveal_strlit("meta");
    reveal_strlit("param");
    reveal_strlit("source");
    reveal_strlit("track");
    reveal_strlit("wbr");
    assert(!is_void_tag("bowser"@)) by {
        assert("bowser"@.len() == 6);
        assert("bowser"@[0] == 'b');
        assert("source"@[0] == 's');
    }
    assert(init_state().stack[0] == root_view());
    assert(forest_ok(root_view().children));
}

/// Every tree the parser returns sits under the synthetic root element, and
/// everywhere in it void elements own no children and text runs are
/// non-blank leaves.
pub proof fn lemma_parse_void_childless(s: Seq<char>, root: NodeView)
    requires
        spec_parse(s) == Ok::<NodeView, ErrView>(root),
    ensures
        node_ok(root),
        root.data == root_view().data,
{
    lemma_root_not_void();
    lemma_run_ok(init_state(), s);
    match run(init_state(), s) {
        Ok(st) => {
            lemma_flush_ok(st.stack, st.acc);
            let flushed = flush_text(st.stack, st.acc);
            lemma_fold_ok(flushed);
            let folded = fold_stack(flushed);
            assert(open_ok(folded[0]));
            assert(root == folded[0]);
        },
        Err(_) => {
            assert(false);
        },
    }
}

/// A text run that can stand between tags: not whitespace-only and free of
/// tag delimiters.
pub open spec fn wf_text(t: Seq<char>) -> bool {
    &&& !all_space(t)
    &&& forall|i: int| 0 <= i < t.len() ==> (#[trigger] t[i]) != '<' && t[i] != '>'
}

/// A tag name as the parser itself would produce it: nonempty, already
/// lowercase, free of whitespace and of the characters that open or close a
/// tag, and not marking a closing tag or a dropped construct.
pub open spec fn wf_tag(t: Seq<char>) -> bool {
    &&& t.len() > 0
    &&& t[0] != '/'
    &&& t[0] != '!'
    &&& lower_seq(t) == t
    &&& forall|i: int|
        0 <= i < t.len() ==> !is_space_char(#[trigger] t[i]) && t[i] != '<' && t[i] != '>'
}

/// A well-formed tree: text runs are well-formed leaves, elements carry
/// well-formed attribute-free tags, void elements own no children, and no
/// two text runs stand next to each other (the scanner would merge them).
pub open spec fn wf_node(n: NodeView) -> bool
    decreases n, 0int,
{
    match n.data {
        DataView::Text(t) => wf_text(t) && n.children.len() == 0,
        DataView::Element(e) => {
            &&& wf_tag(e.tag)
            &&& e.attrs == Map::<Seq<char>, Seq<char>>::empty()
            &&& (is_void_tag(e.tag) ==> n.children.len() == 0)
            &&& wf_forest(n.children)
        },
    }
}

pub open spec fn wf_forest(ns: Seq<NodeView>) -> bool
    decreases ns, 1int,
{
    if ns.len() == 0 {
        true
    } else {
        &&& wf_node(ns[0])
        &&& !(ns[0].data is Text && ns.len() > 1 && ns[1].data is Text)
        &&& wf_forest(ns.drop_first())
    }
}

proof fn lemma_wf_forest_index(ns: Seq<NodeView>, i: int)
    requires
        wf_forest(ns),
        0 <= i < ns.len(),
    ensures
        wf_node(ns[i]),
    decreases ns.len(),
{
    if i > 0 {
        lemma_wf_forest_index(ns.drop_first(), i - 1);
        assert(ns.drop_first()[i - 1] == ns[i]);
    }
}

/// The text a tree writes: text runs verbatim; elements as their open tag,
/// their children's text, and their close tag unless the tag is void.
pub open spec fn unparse_node(n: NodeView) -> Seq<char>
    decreases n, 0int,
{
    match n.data {
        DataView::Text(t) => t,
        DataView::Element(e) => {
            if is_void_tag(e.tag) {
                seq!['<'] + e.tag + seq!['>']
            } else {
                seq!['<'] + e.tag + seq!['>'] + unparse_forest(n.children) + seq!['<', '/']
                    + e.tag + seq!['>']
            }
        },
    }
}

pub open spec fn unparse_forest(ns: Seq<NodeView>) -> Seq<char>
    decreases ns, 1int,
{
    if ns.len() == 0 {
        Seq::empty()
    } else {
        unparse_node(ns[0]) + unparse_forest(ns.drop_first())
    }
}

/// A trailing text run is still sitting in the accumulator when a forest's
/// text has been scanned; everything before it is already in the tree.
pub open spec fn pend(ns: Seq<NodeView>) -> Seq<char> {
    if ns.len() > 0 && ns.last().data is Text {
        ns.last().data->Text_0
    } else {
        Seq::empty()
    }
}

pub open spec fn body_nodes(ns: Seq<NodeView>) -> Seq<NodeView> {
    if ns.len() > 0 && ns.last().data is Text {
        ns.drop_last()
    } else {
        ns
    }
}

/// The stack with `cs` appended to the children of its innermost element.
pub open spec fn push_children(stk: Seq<NodeView>, cs: Seq<NodeView>) -> Seq<NodeView> {
    stk.update(
        stk.len() - 1,
        NodeView { data: stk.last().data, children: stk.last().children + cs },
    )
}

proof fn lemma_push_children_empty(stk: Seq<NodeView>)
    requires
        stk.len() >= 1,
    ensures
        push_children(stk, Seq::empty()) == stk,
{
    assert(stk.last().children + Seq::<NodeView>::empty() =~= stk.last().children);
    assert(push_children(stk, Seq::empty()) =~= stk);
}

proof fn lemma_push_children_concat(stk: Seq<NodeView>, a: Seq<NodeView>, b: Seq<NodeView>)
    requires
        stk.len() >= 1,
    ensures
        push_children(push_children(stk, a), b) == push_children(stk, a + b),
{
    let s1 = push_children(stk, a);
    assert(s1.last() == (NodeView { data: stk.last().data, children: stk.last().children + a }));
    assert((stk.last().children + a) + b =~= stk.last().children + (a + b));
    assert(push_children(s1, b) =~= push_children(stk, a + b));
}

proof fn lemma_append_push(stk: Seq<NodeView>, x: NodeView)
    requires
        stk.len() >= 1,
    ensures
        append_child(stk, x) == push_children(stk, seq![x]),
{
    assert(stk.last().children.push(x) =~= stk.last().children + seq![x]);
    assert(append_child(stk, x) =~= push_children(stk, seq![x]));
}

proof fn lemma_run_one(st: PState, c: char)
    ensures
        run(st, seq![c]) == (match step(st, c) {
            Ok(m) => Ok::<PState, ErrView>(m),
            Err(e) => Err::<PState, ErrView>(e),
        }),
{
    reveal_with_fuel(run, 2);
    assert(seq![c][0] == c);
    assert(seq![c].drop_first() =~= Seq::<char>::empty());
}

proof fn lemma_run_plain(st: PState, cs: Seq<char>)
    requires
        forall|i: int| 0 <= i < cs.len() ==> (#[trigger] cs[i]) != '<' && cs[i] != '>',
    ensures
        run(st, cs) == Ok::<PState, ErrView>(
            PState { in_tag: st.in_tag, acc: st.acc + cs, stack: st.stack },
        ),
    decreases cs.len(),
{
    if cs.len() == 0 {
        assert(st.acc + cs =~= st.acc);
        assert(PState { in_tag: st.in_tag, acc: st.acc + cs, stack: st.stack } == st);
    } else {
        let c = cs[0];
        let st2 = PState { in_tag: st.in_tag, acc: st.acc.push(c), stack: st.stack };
        assert(step(st, c) == Ok::<PState, ErrView>(st2));
        lemma_run_plain(st2, cs.drop_first());
        assert(st.acc.push(c) + cs.drop_first() =~= st.acc + cs);
    }
}

proof fn lemma_tokenize_single(s: Seq<char>, i: int, q: Option<char>, cur: Seq<char>)
    requires
        0 <= i <= s.len(),
        forall|j: int| i <= j < s.len() ==> !is_space_char(#[trigger] s[j]),
        cur.len() + s.len() - i > 0,
    ensures
        tokenize_from(s, i, q, cur) == seq![cur + s.skip(i)],
    decreases s.len() - i,
{
    if i >= s.len() {
        assert(cur + s.skip(i) =~= cur);
    } else {
        let c = s[i];
        assert(cur.push(c) + s.skip(i + 1) =~= cur + s.skip(i));
        match q {
            Some(q0) => {
                let q2 = if c == q0 {
                    None::<char>
                } else {
                    q
                };
                lemma_tokenize_single(s, i + 1, q2, cur.push(c));
            },
            None => {
                if c == '\'' || c == '"' {
                    lemma_tokenize_single(s, i + 1, Some(c), cur.push(c));
                } else {
                    lemma_tokenize_single(s, i + 1, q, cur.push(c));
                }
            },
        }
    }
}

proof fn lemma_split_wf_tag(t: Seq<char>)
    requires
        t.len() > 0,
        forall|j: int| 0 <= j < t.len() ==> !is_space_char(#[trigger] t[j]),
        lower_seq(t) == t,
    ensures
        spec_tag_name(t) == t,
        spec_attrs(t) == Map::<Seq<char>, Seq<char>>::empty(),
{
    lemma_tokenize_single(t, 0, None::<char>, Seq::empty());
    assert(Seq::<char>::empty() + t.skip(0) =~= t);
    assert(tokenize(t) == seq![t]);
    assert(seq![t].len() == 1);
    assert(seq![t][0] == t);
    assert(tag_of_tokens(seq![t]) == lower_seq(t));
    assert(attrs_of_tokens(seq![t]) == Map::<Seq<char>, Seq<char>>::empty());
}

proof fn lemma_find_char_none(t: Seq<char>, c: char, i: int)
    requires
        0 <= i <= t.len(),
        forall|j: int| i <= j < t.len() ==> (#[trigger] t[j]) != c,
    ensures
        find_char(t, c, i) == t.len(),
    decreases t.len() - i,
{
    if i < t.len() {
        lemma_find_char_none(t, c, i + 1);
    }
}

/// Scanning the text of one well-formed element from outside a tag closes it
/// again: the pending text run is flushed and the element, with exactly its
/// own children, joins the innermost open element.
proof fn lemma_elem(n: NodeView, a: Seq<char>, stk: Seq<NodeView>)
    requires
        wf_node(n),
        n.data is Element,
        stk.len() >= 1,
    ensures
        run(PState { in_tag: false, acc: a, stack: stk }, unparse_node(n)) == Ok::<
            PState,
            ErrView,
        >(PState { in_tag: false, acc: Seq::empty(), stack: append_child(flush_text(stk, a), n) }),
    decreases n, 0int,
{
    let st0 = PState { in_tag: false, acc: a, stack: stk };
    let e = n.data->Element_0;
    let t = e.tag;
    let fl = flush_text(stk, a);
    assert(fl.len() == stk.len());
    let st1 = PState { in_tag: true, acc: Seq::empty(), stack: fl };
    assert(step(st0, '<') == Ok::<PState, ErrView>(st1));
    let st2 = PState { in_tag: true, acc: t, stack: fl };
    lemma_run_plain(st1, t);
    assert(Seq::<char>::empty() + t =~= t);
    lemma_split_wf_tag(t);
    let node0 = NodeView { data: n.data, children: Seq::empty() };
    assert((ElemView { tag: spec_tag_name(t), attrs: spec_attrs(t) }) == e);
    if is_void_tag(t) {
        let st3 = PState { in_tag: false, acc: Seq::empty(), stack: append_child(fl, node0) };
        assert(step(st2, '>') == Ok::<PState, ErrView>(st3));
        assert(n.children =~= Seq::<NodeView>::empty());
        assert(node0 == n);
        let up = unparse_node(n);
        assert(up =~= seq!['<'] + (t + seq!['>']));
        lemma_run_append(st0, seq!['<'], t + seq!['>']);
        lemma_run_one(st0, '<');
        lemma_run_append(st1, t, seq!['>']);
        lemma_run_one(st2, '>');
    } else {
        let st3 = PState { in_tag: false, acc: Seq::empty(), stack: fl.push(node0) };
        assert(step(st2, '>') == Ok::<PState, ErrView>(st3));
        let cs = n.children;
        lemma_forest(cs, fl.push(node0));
        let st4 = PState {
            in_tag: false,
            acc: pend(cs),
            stack: push_children(fl.push(node0), body_nodes(cs)),
        };
        // the pending trailing text joins the element when `<` of the close
        // tag flushes it
        let s5 = push_children(fl.push(node0), cs);
        assert(flush_text(st4.stack, st4.acc) == s5) by {
            if cs.len() > 0 && cs.last().data is Text {
                let tx = cs.last();
                lemma_wf_forest_index(cs, cs.len() - 1);
                assert(wf_node(tx));
                assert(!all_space(pend(cs)));
                assert(tx.children =~= Seq::<NodeView>::empty());
                assert((NodeView { data: DataView::Text(pend(cs)), children: Seq::empty() })
                    == tx);
                lemma_append_push(push_children(fl.push(node0), body_nodes(cs)), tx);
                lemma_push_children_concat(fl.push(node0), body_nodes(cs), seq![tx]);
                assert(body_nodes(cs) + seq![tx] =~= cs);
            } else {
                assert(all_space(pend(cs)));
                assert(body_nodes(cs) == cs);
            }
        }
        let st5 = PState { in_tag: true, acc: Seq::empty(), stack: s5 };
        assert(step(st4, '<') == Ok::<PState, ErrView>(st5));
        lemma_run_plain(st5, seq!['/'] + t);
        let st6 = PState { in_tag: true, acc: Seq::empty() + (seq!['/'] + t), stack: s5 };
        let b = seq!['/'] + t;
        assert(Seq::<char>::empty() + b =~= b);
        assert(b[0] == '/');
        // the close tag names the element: there is no space in `/tag`
        assert forall|j: int| 0 <= j < b.len() implies (#[trigger] b[j]) != ' ' by {
            if j > 0 {
                assert(b[j] == t[j - 1]);
                assert(!is_space_char(t[j - 1]));
            }
        }
        lemma_find_char_none(b, ' ', 0);
        assert(close_name(b) =~= t);
        assert(s5.len() == fl.len() + 1);
        let top = s5.last();
        assert(top == (NodeView { data: node0.data, children: Seq::empty() + cs }));
        assert(Seq::<NodeView>::empty() + cs =~= cs);
        assert(top == n);
        let st7 = PState {
            in_tag: false,
            acc: Seq::empty(),
            stack: append_child(s5.drop_last(), top),
        };
        assert(step(st6, '>') == Ok::<PState, ErrView>(st7));
        assert(s5.drop_last() =~= fl);
        // assemble the runs over open tag, children, close tag
        let up = unparse_node(n);
        let md = unparse_forest(cs);
        let cl = seq!['<'] + ((seq!['/'] + t) + seq!['>']);
        assert(up =~= seq!['<'] + (t + (seq!['>'] + (md + cl))));
        lemma_run_append(st0, seq!['<'], t + (seq!['>'] + (md + cl)));
        lemma_run_one(st0, '<');
        lemma_run_append(st1, t, seq!['>'] + (md + cl));
        lemma_run_append(st2, seq!['>'], md + cl);
        lemma_run_one(st2, '>');
        lemma_run_append(st3, md, cl);
        lemma_run_append(st4, seq!['<'], (seq!['/'] + t) + seq!['>']);
        lemma_run_one(st4, '<');
        lemma_run_append(st5, seq!['/'] + t, seq!['>']);
        lemma_run_one(st6, '>');
    }
}

/// Scanning the text of a well-formed forest from outside a tag, with an
/// empty accumulator, leaves every node but a trailing text run attached to
/// the innermost open element, and that trailing run (if any) pending in the
/// accumulator.
proof fn lemma_forest(ns: Seq<NodeView>, stk: Seq<NodeView>)
    requires
        wf_forest(ns),
        stk.len() >= 1,
    ensures
        run(PState { in_tag: false, acc: Seq::empty(), stack: stk }, unparse_forest(ns)) == Ok::<
            PState,
            ErrView,
        >(PState { in_tag: false, acc: pend(ns), stack: push_children(stk, body_nodes(ns)) }),
    decreases ns, 1int,
{
    let st0 = PState { in_tag: false, acc: Seq::empty(), stack: stk };
    if ns.len() == 0 {
        lemma_push_children_empty(stk);
    } else if ns[0].data is Element {
        let rest = ns.drop_first();
        lemma_run_append(st0, unparse_node(ns[0]), unparse_forest(rest));
        lemma_elem(ns[0], Seq::empty(), stk);
        assert(flush_text(stk, Seq::empty()) == stk);
        let stk1 = append_child(stk, ns[0]);
        lemma_append_push(stk, ns[0]);
        lemma_forest(rest, stk1);
        lemma_push_children_concat(stk, seq![ns[0]], body_nodes(rest));
        assert(seq![ns[0]] + body_nodes(rest) =~= body_nodes(ns)) by {
            if rest.len() > 0 && rest.last().data is Text {
                assert(ns.last() == rest.last());
                assert(body_nodes(ns) =~= ns.drop_last());
                assert(seq![ns[0]] + rest.drop_last() =~= ns.drop_last());
            } else {
                assert(body_nodes(ns) == ns) by {
                    if ns.len() > 1 {
                        assert(ns.last() == rest.last());
                    }
                }
                assert(seq![ns[0]] + rest =~= ns);
            }
        }
        assert(pend(ns) == pend(rest)) by {
            if rest.len() > 0 {
                assert(ns.last() == rest.last());
            }
        }
    } else {
        let t = ns[0].data->Text_0;
        assert(wf_node(ns[0]));
        lemma_run_plain(st0, t);
        let st1 = PState { in_tag: false, acc: Seq::empty() + t, stack: stk };
        assert(Seq::<char>::empty() + t =~= t);
        if ns.len() == 1 {
            assert(unparse_forest(ns) =~= t + unparse_forest(ns.drop_first()));
            assert(unparse_forest(ns.drop_first()) =~= Seq::<char>::empty());
            assert(unparse_forest(ns) =~= t);
            assert(pend(ns) == t);
            assert(body_nodes(ns) =~= Seq::<NodeView>::empty());
            lemma_push_children_empty(stk);
        } else {
            assert(!(ns[1].data is Text));
            let rest = ns.drop_first();
            let rest2 = rest.drop_first();
            assert(rest[0] == ns[1]);
            lemma_run_append(st0, t, unparse_forest(rest));
            lemma_run_append(st1, unparse_node(ns[1]), unparse_forest(rest2));
            assert(unparse_forest(rest) == unparse_node(ns[1]) + unparse_forest(rest2));
            lemma_wf_forest_index(ns, 1);
            lemma_elem(ns[1], t, stk);
            let fl = flush_text(stk, t);
            assert(!all_space(t));
            let tx = NodeView { data: DataView::Text(t), children: Seq::empty() };
            assert(ns[0].children =~= Seq::<NodeView>::empty());
            assert(tx == ns[0]);
            assert(fl == append_child(stk, ns[0]));
            let stk2 = append_child(fl, ns[1]);
            assert(wf_forest(rest2)) by {
                assert(wf_forest(rest));
            }
            lemma_forest(rest2, stk2);
            lemma_append_push(stk, ns[0]);
            lemma_append_push(fl, ns[1]);
            lemma_push_children_concat(stk, seq![ns[0]], seq![ns[1]]);
            assert(seq![ns[0]] + seq![ns[1]] =~= seq![ns[0], ns[1]]);
            lemma_push_children_concat(stk, seq![ns[0], ns[1]], body_nodes(rest2));
            assert(seq![ns[0], ns[1]] + body_nodes(rest2) =~= body_nodes(ns)) by {
                if rest2.len() > 0 && rest2.last().data is Text {
                    assert(ns.last() == rest2.last());
                    assert(body_nodes(ns) =~= ns.drop_last());
                    assert(seq![ns[0], ns[1]] + rest2.drop_last() =~= ns.drop_last());
                } else {
                    assert(body_nodes(ns) == ns) by {
                        if ns.len() > 2 {
                            assert(ns.last() == rest2.last());
                        } else {
                            assert(ns.last() == ns[1]);
                        }
                    }
                    assert(seq![ns[0], ns[1]] + rest2 =~= ns);
                }
            }
            assert(pend(ns) == pend(rest2)) by {
                if rest2.len() > 0 {
                    assert(ns.last() == rest2.last());
                } else {
                    assert(ns.last() == ns[1]);
                }
            }
        }
    }
}

/// Parsing the written text of any well-formed forest yields exactly that
/// forest under the synthetic root: the nesting structure of balanced,
/// well-formed input survives the round trip, and void elements own no
/// children.
pub proof fn lemma_parse_roundtrip(ns: Seq<NodeView>)
    requires
        wf_forest(ns),
    ensures
        spec_parse(unparse_forest(ns)) == Ok::<NodeView, ErrView>(
            NodeView { data: root_view().data, children: ns },
        ),
{
    let stk = seq![root_view()];
    lemma_forest(ns, stk);
    let st = PState { in_tag: false, acc: pend(ns), stack: push_children(stk, body_nodes(ns)) };
    assert(init_state().stack == stk);
    let s2 = push_children(stk, ns);
    assert(flush_text(st.stack, st.acc) == s2) by {
        if ns.len() > 0 && ns.last().data is Text {
            let tx = ns.last();
            lemma_wf_forest_index(ns, ns.len() - 1);
            assert(!all_space(pend(ns)));
            assert(tx.children =~= Seq::<NodeView>::empty());
            assert((NodeView { data: DataView::Text(pend(ns)), children: Seq::empty() }) == tx);
            assert(push_children(stk, body_nodes(ns)).len() == 1);
            lemma_append_push(push_children(stk, body_nodes(ns)), tx);
            lemma_push_children_concat(stk, body_nodes(ns), seq![tx]);
            assert(body_nodes(ns) + seq![tx] =~= ns);
        } else {
            assert(all_space(pend(ns)));
            assert(body_nodes(ns) == ns);
        }
    }
    let rootn = NodeView { data: root_view().data, children: ns };
    assert(s2 =~= seq![rootn]) by {
        assert(root_view().children + ns =~= ns);
    }
    assert(fold_stack(s2) == s2);
    assert(fold_stack(s2)[0] == rootn);
}

/// Rendering has no side effects: the rendered text is a function of the
/// tree alone, so rendering the same tree again yields the same text.
pub proof fn lemma_rerender_same(t: NodeView, pad: Seq<char>, r1: Seq<char>, r2: Seq<char>)
    requires
        r1 == show_node(t, pad),
        r2 == show_node(t, pad),
    ensures
        r1 == r2,
{
}

} // verus!
