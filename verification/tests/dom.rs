use domapi::dom::{Element, Node, NodeType};
use domapi::parser::parse;

fn pair(name: &str, value: &str) -> (String, String) {
    (name.to_string(), value.to_string())
}

fn element(tag: &str, attributes: Vec<(String, String)>, children: Vec<Node>) -> Node {
    Node {
        node_type: NodeType::Element(Element { tag_name: tag.to_string(), attributes }),
        children,
    }
}

fn text(content: &str) -> Node {
    Node { node_type: NodeType::Text(content.to_string()), children: vec![] }
}

#[test]
fn inner_html_writes_the_children_only() {
    let node = element(
        "div",
        vec![pair("id", "r")],
        vec![element("p", vec![pair("class", "inline")], vec![text("old")]), text(" tail")],
    );
    assert_eq!(node.inner_html(), "<p class=\"inline\">old</p> tail");
    assert_eq!(text("x").inner_html(), "");
    assert_eq!(parse("<a></a>b").inner_html(), "<a></a>b");
}

#[test]
fn set_inner_html_replaces_the_children() {
    let mut node = element("div", vec![pair("id", "r")], vec![text("old")]);
    node.set_inner_html("<p>new</p><p k=\"v\">er</p>");
    assert_eq!(
        node,
        element(
            "div",
            vec![pair("id", "r")],
            vec![
                element("p", vec![], vec![text("new")]),
                element("p", vec![pair("k", "v")], vec![text("er")]),
            ],
        )
    );
}

#[test]
fn set_inner_html_with_malformed_markup_empties_the_node() {
    let mut node = element("div", vec![], vec![text("old")]);
    node.set_inner_html("<p>unclosed");
    assert_eq!(node, element("div", vec![], vec![]));
    assert_eq!(node.inner_html(), "");
}

#[test]
fn set_inner_html_leaves_a_text_node_alone() {
    let mut node = text("plain");
    node.set_inner_html("<p>new</p>");
    assert_eq!(node, text("plain"));
    assert!(!node.is_container());
    assert!(element("p", vec![], vec![]).is_container());
    assert!(parse("").is_container());
}

#[test]
fn set_inner_html_of_inner_html_keeps_a_parsed_tree() {
    for markup in [
        "",
        "just text",
        "<p>hello</p>",
        "<div id=\"a\" class=\"x y\"><p>one</p>two<span><b>three</b></span></div>tail",
        "<body>\n  <p>hello</p>\n  <style>\n .none { display: none; }\n  </style>\n</body>",
    ] {
        let mut doc = parse(markup);
        let before = parse(markup);
        let written = doc.inner_html();
        assert_eq!(written, markup);
        doc.set_inner_html(&written);
        assert_eq!(doc, before);
    }
}

#[test]
fn attributes_are_those_of_an_element_in_order() {
    let node = element("p", vec![pair("b", "2"), pair("a", "1"), pair("b", "3")], vec![]);
    assert_eq!(node.attributes(), vec![pair("b", "2"), pair("a", "1"), pair("b", "3")]);
    assert_eq!(text("t").attributes(), vec![]);
    assert_eq!(parse("<p a=\"1\"></p>").attributes(), vec![]);
}

#[test]
fn id_is_the_value_of_the_last_id_attribute() {
    assert_eq!(element("p", vec![pair("id", "x")], vec![]).id(), Some("x".to_string()));
    assert_eq!(
        element("p", vec![pair("id", "x"), pair("k", "v"), pair("id", "y")], vec![]).id(),
        Some("y".to_string())
    );
    assert_eq!(element("p", vec![pair("ID", "x"), pair("idx", "y")], vec![]).id(), None);
    assert_eq!(element("p", vec![], vec![]).id(), None);
    assert_eq!(text("id").id(), None);
    assert_eq!(parse("<p id=\"x\"></p>").id(), None);
}

#[test]
fn id_follows_the_attributes_as_they_change() {
    let mut node = element("p", vec![pair("id", "x")], vec![]);
    assert_eq!(node.id(), Some("x".to_string()));
    if let NodeType::Element(e) = &mut node.node_type {
        e.attributes[0].1 = "y".to_string();
    }
    assert_eq!(node.id(), Some("y".to_string()));
    if let NodeType::Element(e) = &mut node.node_type {
        e.attributes.clear();
    }
    assert_eq!(node.id(), None);
}

#[test]
fn element_attribute_lookup() {
    let e = Element {
        tag_name: "p".to_string(),
        attributes: vec![pair("a", "1"), pair("b", "2"), pair("a", "3")],
    };
    assert_eq!(e.attribute("a"), Some("3".to_string()));
    assert_eq!(e.attribute("b"), Some("2".to_string()));
    assert_eq!(e.attribute("c"), None);
    assert_eq!(e.id(), None);
    assert_eq!(e.attributes(), vec![pair("a", "1"), pair("b", "2"), pair("a", "3")]);
}
