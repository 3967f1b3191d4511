use bowser::css::parse_declarations;

#[test]
fn malformed_pair_dropped_trailing_pair_kept() {
    let m = parse_declarations("color: red; bogus garbage; size:12");
    assert_eq!(m.get("color").unwrap(), "red");
    assert_eq!(m.get("size").unwrap(), "12");
    assert!(m.get("bogus").is_none());
    assert!(m.get("garbage").is_none());
}

#[test]
fn simple_pairs_with_semicolons() {
    let m = parse_declarations("color:red;size:12;");
    assert_eq!(m.get("color").unwrap(), "red");
    assert_eq!(m.get("size").unwrap(), "12");
}

#[test]
fn empty_input_gives_empty_map() {
    let m = parse_declarations("");
    assert!(m.get("color").is_none());
}

#[test]
fn whitespace_only_input_gives_empty_map() {
    let m = parse_declarations("   \t\n ");
    assert!(m.get("color").is_none());
}

#[test]
fn leading_whitespace_is_skipped() {
    let m = parse_declarations("  color: red;");
    assert_eq!(m.get("color").unwrap(), "red");
}

#[test]
fn property_name_lowercased_value_kept() {
    let m = parse_declarations("COLOR: Red;");
    assert_eq!(m.get("color").unwrap(), "Red");
    assert!(m.get("COLOR").is_none());
}

#[test]
fn duplicate_property_last_wins() {
    let m = parse_declarations("a: 1; a: 2;");
    assert_eq!(m.get("a").unwrap(), "2");
}

#[test]
fn word_characters_in_values() {
    let m = parse_declarations("color: #ff0000; width: 12.5%; font: sans-serif;");
    assert_eq!(m.get("color").unwrap(), "#ff0000");
    assert_eq!(m.get("width").unwrap(), "12.5%");
    assert_eq!(m.get("font").unwrap(), "sans-serif");
}

#[test]
fn missing_value_is_dropped() {
    let m = parse_declarations("a: ; b: c;");
    assert!(m.get("a").is_none());
    assert_eq!(m.get("b").unwrap(), "c");
}

#[test]
fn missing_colon_is_dropped() {
    let m = parse_declarations("a b; c: d;");
    assert!(m.get("a").is_none());
    assert_eq!(m.get("c").unwrap(), "d");
}

#[test]
fn missing_semicolon_mid_list_still_keeps_pair() {
    let m = parse_declarations("a: 1 junk; b: 2");
    assert_eq!(m.get("a").unwrap(), "1");
    assert_eq!(m.get("b").unwrap(), "2");
}
