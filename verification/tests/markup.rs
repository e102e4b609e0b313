use domapi::descent::name_char;
use domapi::dom::{Node, NodeType};
use domapi::parser::{chars_of, parse, parse_children, parse_fragment};
use domapi::writer::render;

fn element(node: &Node) -> (&str, Vec<(String, String)>) {
    match &node.node_type {
        NodeType::Element(e) => (e.tag_name.as_str(), e.attributes.clone()),
        _ => panic!("not an element"),
    }
}

fn text(node: &Node) -> &str {
    match &node.node_type {
        NodeType::Text(t) => t.as_str(),
        _ => panic!("not a text node"),
    }
}

#[test]
fn parses_nested_elements_and_text() {
    let nodes = parse_fragment("<div id=\"r\" class=\"a b\"><p>old</p>tail</div>after").unwrap();
    assert_eq!(nodes.len(), 2);
    let (tag, attrs) = element(&nodes[0]);
    assert_eq!(tag, "div");
    assert_eq!(
        attrs,
        vec![("id".to_string(), "r".to_string()), ("class".to_string(), "a b".to_string())]
    );
    assert_eq!(nodes[0].children.len(), 2);
    assert_eq!(element(&nodes[0].children[0]).0, "p");
    assert_eq!(text(&nodes[0].children[0].children[0]), "old");
    assert_eq!(text(&nodes[0].children[1]), "tail");
    assert_eq!(text(&nodes[1]), "after");
}

#[test]
fn empty_markup_is_the_empty_list() {
    assert_eq!(parse_fragment("").unwrap().len(), 0);
    assert_eq!(parse_children("").len(), 0);
}

#[test]
fn malformed_markup_is_rejected() {
    for bad in [
        "<",
        "<p",
        "<p>",
        "<p></q>",
        "</p>",
        "<p></p",
        "<p ></p>",
        "<p a></p>",
        "<p a=b></p>",
        "<p a=\"b></p>",
        "<p  a=\"b\"></p>",
        "<></>",
        "<p><b></p></b>",
        "text<",
        "<p/>",
    ] {
        assert!(parse_fragment(bad).is_none(), "{}", bad);
        assert_eq!(parse_children(bad).len(), 0, "{}", bad);
    }
}

#[test]
fn rendering_what_was_parsed_gives_the_text_back() {
    for good in [
        "",
        "hello",
        "<p></p>",
        "<p>hello</p>",
        "a<b>c</b>d",
        "<div id=\"result\">\n  <p class=\"inline\">not loaded</p>\n</div>",
        "<a-b _x=\"\" y1=\"=> '\">\u{e9}\u{4e16}</a-b>",
    ] {
        let nodes = parse_fragment(good).unwrap();
        assert_eq!(render(&nodes), good);
    }
}

#[test]
fn parse_wraps_the_nodes_in_a_document() {
    let doc = parse("<p>a</p><p>b</p>");
    assert!(matches!(doc.node_type, NodeType::Document));
    assert_eq!(doc.children.len(), 2);
    let bad = parse("<p>");
    assert!(matches!(bad.node_type, NodeType::Document));
    assert_eq!(bad.children.len(), 0);
}

#[test]
fn name_characters() {
    for c in ['a', 'z', 'A', 'Z', '0', '9', '-', '_', 'm'] {
        assert!(name_char(c), "{}", c);
    }
    for c in [' ', '<', '>', '/', '=', '"', '.', ':', '\u{e9}', '`', '{', '@', '['] {
        assert!(!name_char(c), "{}", c);
    }
}

#[test]
fn chars_of_gives_each_character() {
    assert_eq!(chars_of(""), vec![]);
    assert_eq!(chars_of("h\u{e9}\u{4e16}<"), vec!['h', '\u{e9}', '\u{4e16}', '<']);
}

#[test]
fn tags_and_attributes_are_read_exactly() {
    let nodes = parse_fragment("<a-b _x=\"\" y1=\"=> '\">\u{e9}</a-b>").unwrap();
    let (tag, attrs) = element(&nodes[0]);
    assert_eq!(tag, "a-b");
    assert_eq!(
        attrs,
        vec![("_x".to_string(), "".to_string()), ("y1".to_string(), "=> '".to_string())]
    );
    assert_eq!(text(&nodes[0].children[0]), "\u{e9}");
    let plain = parse_fragment("a > b & \"c\"").unwrap();
    assert_eq!(text(&plain[0]), "a > b & \"c\"");
    assert_eq!(plain.len(), 1);
}

#[test]
fn a_closing_tag_must_repeat_the_opening_name() {
    assert!(parse_fragment("<b></b>").is_some());
    assert!(parse_fragment("<b></bb>").is_none());
    assert!(parse_fragment("<bb></b>").is_none());
    assert!(parse_fragment("<b></B>").is_none());
    assert!(parse_fragment("< b></b>").is_none());
    assert!(parse_fragment("<b></b >").is_none());
    assert!(parse_fragment("<b a=\"1\" ></b>").is_none());
    assert!(parse_fragment("<b a=\"1\"c=\"2\"></b>").is_none());
}
