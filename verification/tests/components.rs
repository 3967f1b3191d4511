use bowser::dom::{Data, DOMNode, Element, Text};
use bowser::layout::{render, LayoutNode};
use bowser::request::{data, scheme_of, split_scheme, Scheme};
use bowser::strmap::AttrMap;
use bowser::tag::get_attributes;

#[test]
fn splitter_tag_and_attributes() {
    let (tag, attrs) = get_attributes("img src=x.png");
    assert_eq!(tag, "img");
    assert_eq!(attrs.get("src").unwrap(), "x.png");
}

#[test]
fn splitter_lowercases_tag_and_keys() {
    let (tag, attrs) = get_attributes("IMG SRC=X.png");
    assert_eq!(tag, "img");
    assert_eq!(attrs.get("src").unwrap(), "X.png");
}

#[test]
fn splitter_splits_at_first_equals() {
    let (_, attrs) = get_attributes("p a=b=c");
    assert_eq!(attrs.get("a").unwrap(), "b=c");
}

#[test]
fn splitter_keeps_short_quoted_value() {
    // a quoted value of two characters or fewer keeps its quotes
    let (_, attrs) = get_attributes("p a='' b='x'");
    assert_eq!(attrs.get("a").unwrap(), "''");
    assert_eq!(attrs.get("b").unwrap(), "x");
}

#[test]
fn strmap_insert_get_overwrite() {
    let mut m = AttrMap::new();
    assert!(!m.contains_key("k"));
    m.insert(String::from("k"), String::from("1"));
    m.insert(String::from("k"), String::from("2"));
    m.insert(String::from("other"), String::from("3"));
    assert_eq!(m.get("k").unwrap(), "2");
    assert_eq!(m.get("other").unwrap(), "3");
    assert!(m.contains_key("k"));
    assert!(m.get("absent").is_none());
}

#[test]
fn element_new_drops_bang_constructs() {
    assert!(Element::new(String::from("!doctype html")).is_none());
    let e = Element::new(String::from("P class=x")).unwrap();
    assert_eq!(e.tag, "p");
    assert_eq!(e.attributes.get("class").unwrap(), "x");
}

#[test]
fn text_new_drops_blank_runs() {
    assert!(Text::new(String::from("  \n ")).is_none());
    let t = Text::new(String::from(" hi ")).unwrap();
    assert_eq!(t.text, " hi ");
}

#[test]
fn dom_node_children_grow_in_order() {
    let e = Element::new(String::from("div")).unwrap();
    let mut node = DOMNode::new(Data::Element(e));
    let t = Text::new(String::from("x")).unwrap();
    node.add_child(DOMNode::new(Data::Text(t)));
    assert_eq!(node.children.len(), 1);
}

#[test]
fn layout_node_holds_document_node() {
    let e = Element::new(String::from("div")).unwrap();
    let node = DOMNode::new(Data::Element(e));
    let mut l = LayoutNode::new(node, false);
    assert!(!l.inline);
    assert_eq!(l.children.len(), 0);
    let e2 = Element::new(String::from("p")).unwrap();
    let inner = LayoutNode::new(DOMNode::new(Data::Element(e2)), true);
    l.add_child(inner);
    assert_eq!(l.children.len(), 1);
    render(&l);
}

#[test]
fn split_scheme_at_first_separator() {
    let (scheme, rest) = split_scheme("https://example.org/index.html").unwrap();
    assert_eq!(scheme, "https");
    assert_eq!(rest, "example.org/index.html");
    assert!(split_scheme("no separator here").is_none());
}

#[test]
fn scheme_names_recognized() {
    assert_eq!(scheme_of("data"), Some(Scheme::Data));
    assert_eq!(scheme_of("file"), Some(Scheme::File));
    assert_eq!(scheme_of("http"), Some(Scheme::Http));
    assert_eq!(scheme_of("https"), Some(Scheme::Https));
    assert_eq!(scheme_of("view-source"), Some(Scheme::ViewSource));
    assert_eq!(scheme_of("gopher"), None);
}

#[test]
fn data_scheme_response() {
    let (headers, body) = data("<p>hi</p>");
    assert_eq!(headers.get("content-type").unwrap(), "text/html");
    assert_eq!(body, b"<p>hi</p>".to_vec());
}
