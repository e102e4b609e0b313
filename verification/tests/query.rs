use domapi::dom::{Node, NodeType};
use domapi::parser::parse;
use domapi::query::{find_element_by_id, map_tree, node_at_path};

fn label(node: &Node) -> String {
    match &node.node_type {
        NodeType::Document => "#document".to_string(),
        NodeType::Element(e) => e.tag_name.clone(),
        NodeType::Text(t) => format!("#{}", t),
    }
}

#[test]
fn map_tree_walks_children_first_and_the_node_last() {
    let doc = parse("<a><b><c></c>x</b><d></d></a>y");
    assert_eq!(map_tree(&doc, &label), vec!["c", "#x", "b", "d", "a", "#y", "#document"]);
}

#[test]
fn map_tree_of_a_leaf_is_the_leaf() {
    let doc = parse("");
    assert_eq!(map_tree(&doc, &label), vec!["#document"]);
    assert_eq!(map_tree(&doc, &|n: &Node| n.children.len()), vec![0]);
}

#[test]
fn find_gives_the_path_of_the_element() {
    let doc = parse("<a><b></b><c><d id=\"x\"></d></c></a><e id=\"y\"></e>");
    assert_eq!(find_element_by_id(&doc, "x"), Some(vec![0, 1, 0]));
    assert_eq!(find_element_by_id(&doc, "y"), Some(vec![1]));
    assert_eq!(find_element_by_id(&doc, "z"), None);
    assert_eq!(find_element_by_id(&doc, ""), None);
}

#[test]
fn find_prefers_the_descendant_and_the_earlier_child() {
    let nested = parse("<a id=\"dup\"><b id=\"dup\"></b></a>");
    assert_eq!(find_element_by_id(&nested, "dup"), Some(vec![0, 0]));
    let siblings = parse("<a id=\"dup\"></a><b id=\"dup\"></b>");
    assert_eq!(find_element_by_id(&siblings, "dup"), Some(vec![0]));
    let mixed = parse("<a><b id=\"dup\"></b></a><c id=\"dup\"><d id=\"dup\"></d></c>");
    assert_eq!(find_element_by_id(&mixed, "dup"), Some(vec![0, 0]));
    let late = parse("<a></a><c id=\"dup\"><e></e><d id=\"dup\"></d></c>");
    assert_eq!(find_element_by_id(&late, "dup"), Some(vec![1, 1]));
}

#[test]
fn find_agrees_with_the_first_match_of_the_walk() {
    let doc = parse("<a id=\"q\"><b id=\"q\"></b><c id=\"q\"></c></a><d id=\"q\"></d>");
    let hits = map_tree(&doc, &|n: &Node| n.id() == Some("q".to_string()));
    let names = map_tree(&doc, &label);
    let first = hits.iter().position(|hit| *hit).unwrap();
    assert_eq!(names[first], "b");
    let path = find_element_by_id(&doc, "q").unwrap();
    assert_eq!(label(node_at_path(&doc, &path).unwrap()), "b");
}

#[test]
fn node_at_path_follows_child_indices() {
    let doc = parse("<a><b></b><c>t</c></a>");
    assert_eq!(label(node_at_path(&doc, &vec![]).unwrap()), "#document");
    assert_eq!(label(node_at_path(&doc, &vec![0]).unwrap()), "a");
    assert_eq!(label(node_at_path(&doc, &vec![0, 1]).unwrap()), "c");
    assert_eq!(label(node_at_path(&doc, &vec![0, 1, 0]).unwrap()), "#t");
    assert!(node_at_path(&doc, &vec![1]).is_none());
    assert!(node_at_path(&doc, &vec![0, 2]).is_none());
    assert!(node_at_path(&doc, &vec![0, 1, 0, 0]).is_none());
}
