use rustysoup::dom::{Document, NodeId, NodeType};
use rustysoup::matcher::FindCriteria;
use rustysoup::text::{escape_attr, escape_text};

#[test]
fn node_id_round_trips_its_index() {
    assert_eq!(NodeId::new(0).index(), 0);
    assert_eq!(NodeId::new(41).index(), 41);
}

#[test]
fn empty_document_has_only_its_root() {
    let document = Document::empty();
    assert_eq!(document.nodes.len(), 1);
    assert_eq!(document.root.index(), 0);
    assert!(matches!(document.node(document.root).node_type, NodeType::Document));
    assert_eq!(document.child_nodes(document.root), Vec::<NodeId>::new());
}

#[test]
fn append_text_adds_last_child() {
    let mut document = Document::empty();
    let root = document.root;
    let a = document.append_text(root, "a".to_string());
    let b = document.append_text(root, "b".to_string());
    assert_eq!(document.child_nodes(root), vec![a, b]);
    assert_eq!(document.parent_node(b), Some(root));
    assert_eq!(document.text(root, "|", false), "a|b");
}

#[test]
fn with_name_lowercases() {
    let criteria = FindCriteria::with_name(Some("DiV"));
    assert_eq!(criteria.name.as_deref(), Some("div"));
    assert!(FindCriteria::with_name(None).name.is_none());
}

#[test]
fn escaping_text_and_attributes() {
    let mut out = String::new();
    escape_text("a<b>&\"c\"", &mut out);
    assert_eq!(out, "a&lt;b&gt;&amp;\"c\"");
    let mut out = String::new();
    escape_attr("a<b>&\"c\"", &mut out);
    assert_eq!(out, "a&lt;b&gt;&amp;&quot;c&quot;");
}

fn element(name: &str) -> NodeType {
    NodeType::Element(rustysoup::dom::ElementData { local_name: name.to_string(), attrs: Vec::new(), namespace: None })
}

#[test]
fn stepping_back_walks_document_order_in_reverse() {
    let mut document = Document::empty();
    let root = document.root;
    let div = document.append_new(root, element("div"));
    let a = document.append_new(div, element("a"));
    let b = document.append_new(div, element("b"));
    let c = document.append_text(b, "c".to_string());
    let p = document.append_new(root, element("p"));
    assert_eq!(document.previous_element_nodes(p), vec![c, b, a, div]);
    assert_eq!(document.previous_element_nodes(div), Vec::<NodeId>::new());
    assert_eq!(document.next_element_nodes(div), vec![a, b, c, p]);
    for x in [div, a, b, c, p] {
        if let Some(y) = document.previous_element_node(x) {
            assert_eq!(document.next_element_node(y), Some(x));
        }
        if let Some(y) = document.next_element_node(x) {
            assert_eq!(document.previous_element_node(y), Some(x));
        }
    }
    assert_eq!(document.next_element_node(root), Some(div));
    assert_eq!(document.previous_element_node(div), None);
}

#[test]
fn stepping_back_in_a_detached_tree_reaches_its_root() {
    let mut document = Document::empty();
    let lone = document.create_node(element("section"));
    let x = document.append_new(lone, element("x"));
    let y = document.append_new(lone, element("y"));
    assert_eq!(document.previous_element_nodes(y), vec![x, lone]);
    assert_eq!(document.previous_element_node(lone), None);
}
