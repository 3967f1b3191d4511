use bowser::dom::{Data, DOMNode};
use bowser::parser::{parse, ParseError};
use bowser::show::dom_to_string;

fn tag_of(node: &DOMNode) -> &str {
    match &node.data {
        Data::Element(e) => e.tag.as_str(),
        Data::Text(_) => panic!("expected an element"),
    }
}

fn text_of(node: &DOMNode) -> &str {
    match &node.data {
        Data::Text(t) => t.text.as_str(),
        Data::Element(_) => panic!("expected a text node"),
    }
}

#[test]
fn nested_elements_and_text() {
    let root = parse(&String::from("<a><b>hi</b></a>")).unwrap();
    assert_eq!(tag_of(&root), "bowser");
    assert_eq!(root.children.len(), 1);
    let a = &root.children[0];
    assert_eq!(tag_of(a), "a");
    assert_eq!(a.children.len(), 1);
    let b = &a.children[0];
    assert_eq!(tag_of(b), "b");
    assert_eq!(b.children.len(), 1);
    assert_eq!(text_of(&b.children[0]), "hi");
}

#[test]
fn void_element_then_text() {
    let root = parse(&String::from("<img src=x.png>after")).unwrap();
    assert_eq!(root.children.len(), 2);
    let img = &root.children[0];
    assert_eq!(tag_of(img), "img");
    assert_eq!(img.children.len(), 0);
    match &img.data {
        Data::Element(e) => {
            assert_eq!(e.attributes.get("src").unwrap(), "x.png");
        }
        Data::Text(_) => panic!("expected an element"),
    }
    assert_eq!(text_of(&root.children[1]), "after");
}

#[test]
fn quoted_attribute_value() {
    let root = parse(&String::from("<p class='a b'>text</p>")).unwrap();
    let p = &root.children[0];
    assert_eq!(tag_of(p), "p");
    match &p.data {
        Data::Element(e) => {
            assert_eq!(e.attributes.get("class").unwrap(), "a b");
        }
        Data::Text(_) => panic!("expected an element"),
    }
    assert_eq!(text_of(&p.children[0]), "text");
}

#[test]
fn double_quoted_attribute_value() {
    let root = parse(&String::from("<p class=\"a b\">x</p>")).unwrap();
    match &root.children[0].data {
        Data::Element(e) => {
            assert_eq!(e.attributes.get("class").unwrap(), "a b");
        }
        Data::Text(_) => panic!("expected an element"),
    }
}

#[test]
fn unclosed_element_at_eof_is_tolerated() {
    let root = parse(&String::from("<div>")).unwrap();
    assert_eq!(root.children.len(), 1);
    let div = &root.children[0];
    assert_eq!(tag_of(div), "div");
    assert_eq!(div.children.len(), 0);
}

#[test]
fn mismatched_close_tag_fails() {
    let err = parse(&String::from("<a></b>")).unwrap_err();
    assert_eq!(
        err,
        ParseError::MismatchedCloseTag { expected: String::from("a"), found: String::from("b") }
    );
}

#[test]
fn eof_inside_tag_fails() {
    let err = parse(&String::from("<a")).unwrap_err();
    assert_eq!(err, ParseError::UnterminatedTag);
}

#[test]
fn whitespace_only_text_is_dropped() {
    let root = parse(&String::from("<a>   </a>")).unwrap();
    let a = &root.children[0];
    assert_eq!(tag_of(a), "a");
    assert_eq!(a.children.len(), 0);
}

#[test]
fn empty_input_gives_bare_root() {
    let root = parse(&String::from("")).unwrap();
    assert_eq!(tag_of(&root), "bowser");
    assert_eq!(root.children.len(), 0);
}

#[test]
fn doctype_marker_produces_no_node() {
    let root = parse(&String::from("<!doctype html><p>x</p>")).unwrap();
    assert_eq!(root.children.len(), 1);
    assert_eq!(tag_of(&root.children[0]), "p");
}

#[test]
fn tag_and_keys_lowercased_value_kept() {
    let root = parse(&String::from("<DiV CLASS=Foo></div>")).unwrap();
    let div = &root.children[0];
    assert_eq!(tag_of(div), "div");
    match &div.data {
        Data::Element(e) => {
            assert_eq!(e.attributes.get("class").unwrap(), "Foo");
            assert!(e.attributes.get("CLASS").is_none());
        }
        Data::Text(_) => panic!("expected an element"),
    }
}

#[test]
fn duplicate_attribute_last_wins() {
    let root = parse(&String::from("<p a=1 a=2></p>")).unwrap();
    match &root.children[0].data {
        Data::Element(e) => {
            assert_eq!(e.attributes.get("a").unwrap(), "2");
        }
        Data::Text(_) => panic!("expected an element"),
    }
}

#[test]
fn boolean_attribute_maps_to_empty() {
    let root = parse(&String::from("<input disabled>x")).unwrap();
    let input = &root.children[0];
    assert_eq!(tag_of(input), "input");
    assert_eq!(input.children.len(), 0);
    match &input.data {
        Data::Element(e) => {
            assert_eq!(e.attributes.get("disabled").unwrap(), "");
            assert!(e.attributes.contains_key("disabled"));
        }
        Data::Text(_) => panic!("expected an element"),
    }
}

#[test]
fn close_tag_name_stops_at_space() {
    let root = parse(&String::from("<a></a extra>")).unwrap();
    assert_eq!(root.children.len(), 1);
    assert_eq!(root.children[0].children.len(), 0);
}

#[test]
fn text_around_nested_elements_keeps_order() {
    let root = parse(&String::from("x<a>y</a>z")).unwrap();
    assert_eq!(root.children.len(), 3);
    assert_eq!(text_of(&root.children[0]), "x");
    assert_eq!(tag_of(&root.children[1]), "a");
    assert_eq!(text_of(&root.children[2]), "z");
}

#[test]
fn closing_the_root_is_ignored() {
    let root = parse(&String::from("</bowser>x")).unwrap();
    assert_eq!(root.children.len(), 1);
    assert_eq!(text_of(&root.children[0]), "x");
}

#[test]
fn open_bracket_inside_tag_flushes_body_as_text() {
    // a `<` while gathering a tag body flushes the gathered text and starts over
    let root = parse(&String::from("<a<b>")).unwrap();
    assert_eq!(root.children.len(), 2);
    assert_eq!(text_of(&root.children[0]), "a");
    assert_eq!(tag_of(&root.children[1]), "b");
}

#[test]
fn close_bracket_outside_tag_reads_text_as_tag_body() {
    // a bare `>` interprets the gathered text as a tag body
    let root = parse(&String::from("x>y")).unwrap();
    assert_eq!(root.children.len(), 1);
    let x = &root.children[0];
    assert_eq!(tag_of(x), "x");
    assert_eq!(x.children.len(), 1);
    assert_eq!(text_of(&x.children[0]), "y");
}

#[test]
fn close_tag_at_top_level_mismatches_root() {
    let err = parse(&String::from("</a>")).unwrap_err();
    assert_eq!(
        err,
        ParseError::MismatchedCloseTag {
            expected: String::from("bowser"),
            found: String::from("a")
        }
    );
}

#[test]
fn render_nested_tree() {
    let root = parse(&String::from("<a>x</a>")).unwrap();
    let shown = dom_to_string(&root);
    assert_eq!(shown, "<bowser>\n  <a>\n    x\n  </a>\n</bowser>\n");
}

#[test]
fn render_void_element_without_close_tag() {
    let root = parse(&String::from("<img>")).unwrap();
    let shown = dom_to_string(&root);
    assert_eq!(shown, "<bowser>\n  <img>\n</bowser>\n");
}

#[test]
fn rendering_twice_gives_identical_output() {
    let root = parse(&String::from("<a><b>hi</b><img></a>")).unwrap();
    let first = dom_to_string(&root);
    let second = dom_to_string(&root);
    assert_eq!(first, second);
}

#[test]
fn roundtrip_preserves_structure() {
    let input = String::from("<a><b>hi</b></a><img>tail");
    let root = parse(&input).unwrap();
    let shown = dom_to_string(&root);
    let root2 = parse(&input).unwrap();
    assert_eq!(shown, dom_to_string(&root2));
}
