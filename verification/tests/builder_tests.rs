use rustysoup::dom::{Attr, Document, ElementData, NodeId, NodeType};
use rustysoup::fast_parser::try_parse_fast_fragment;

fn element(name: &str) -> NodeType {
    NodeType::Element(ElementData { local_name: name.to_string(), attrs: Vec::new(), namespace: None })
}

fn text_of(document: &Document, id: NodeId) -> Option<String> {
    match &document.node(id).node_type {
        NodeType::Text(t) => Some(t.clone()),
        _ => None,
    }
}

#[test]
fn parsed_text_merges_into_a_trailing_text_child() {
    let mut document = Document::empty();
    let root = document.root;
    let div = document.append_new(root, element("div"));
    document.append_parsed_text(div, "a");
    document.append_parsed_text(div, "b");
    let kids = document.child_nodes(div);
    assert_eq!(kids.len(), 1);
    assert_eq!(text_of(&document, kids[0]).as_deref(), Some("ab"));
}

#[test]
fn parsed_white_space_collapses_outside_pre() {
    let mut document = Document::empty();
    let root = document.root;
    let div = document.append_new(root, element("div"));
    document.append_parsed_text(div, "  \t ");
    let kids = document.child_nodes(div);
    assert_eq!(text_of(&document, kids[0]).as_deref(), Some(" "));
    let pre = document.append_new(root, element("pre"));
    let span = document.append_new(pre, element("span"));
    assert!(document.preserves_whitespace_context(span));
    assert!(!document.preserves_whitespace_context(div));
    document.append_parsed_text(span, "  \t ");
    let kids = document.child_nodes(span);
    assert_eq!(text_of(&document, kids[0]).as_deref(), Some("  \t "));
}

#[test]
fn parsed_text_before_a_sibling() {
    let mut document = Document::empty();
    let root = document.root;
    let b = document.append_new(root, element("b"));
    document.insert_parsed_text_before(b, "x");
    document.insert_parsed_text_before(b, "y");
    let kids = document.child_nodes(root);
    assert_eq!(kids.len(), 2);
    assert_eq!(text_of(&document, kids[0]).as_deref(), Some("xy"));
    assert_eq!(kids[1], b);
    let lone = document.create_node(element("i"));
    document.insert_parsed_text_before(lone, "z");
    assert_eq!(document.child_nodes(root).len(), 2);
    assert_eq!(document.parent_node(lone), None);
}

#[test]
fn nodes_move_before_siblings_and_to_parents() {
    let mut document = Document::empty();
    let root = document.root;
    let a = document.append_new(root, element("a"));
    let b = document.append_new(root, element("b"));
    let c = document.create_node(element("c"));
    document.insert_node_before(b, c);
    assert_eq!(document.child_nodes(root), vec![a, c, b]);
    document.append_node_to(a, b);
    assert_eq!(document.child_nodes(root), vec![a, c]);
    assert_eq!(document.child_nodes(a), vec![b]);
    document.append_node_to(b, a);
    assert_eq!(document.child_nodes(a), vec![b]);
    assert!(document.is_in_subtree(b, a));
    assert!(!document.is_in_subtree(a, b));
}

#[test]
fn missing_attributes_are_added_once() {
    let mut document = Document::empty();
    let root = document.root;
    let html = document.append_new(
        root,
        NodeType::Element(ElementData {
            local_name: "html".to_string(),
            attrs: vec![Attr::new("lang".to_string(), "en".to_string())],
            namespace: None,
        }),
    );
    document.add_attrs_if_missing(
        html,
        vec![
            Attr::new("lang".to_string(), "fr".to_string()),
            Attr::new("dir".to_string(), "ltr".to_string()),
        ],
    );
    assert_eq!(document.attr(html, "lang"), Some("en"));
    assert_eq!(document.attr(html, "dir"), Some("ltr"));
    assert_eq!(document.element_attrs(html).len(), 2);
}

#[test]
fn children_move_to_a_new_parent_in_order() {
    let mut document = Document::empty();
    let root = document.root;
    let from = document.append_new(root, element("from"));
    let to = document.append_new(root, element("to"));
    let x = document.append_new(from, element("x"));
    let y = document.append_new(from, element("y"));
    document.reparent_children(from, to);
    assert!(document.child_nodes(from).is_empty());
    assert_eq!(document.child_nodes(to), vec![x, y]);
}

#[test]
fn template_contents_are_spliced_and_marked() {
    let mut document = Document::empty();
    let root = document.root;
    let template = document.append_new(root, element("template"));
    let contents = document.create_node(NodeType::Document);
    let p = document.append_new(contents, element("p"));
    let hi = document.append_new(p, NodeType::Text("hi".to_string()));
    let script = document.append_new(contents, element("script"));
    let code = document.append_new(script, NodeType::Text("x".to_string()));
    document.splice_template_contents(template, contents);
    assert_eq!(document.child_nodes(template), vec![p, script]);
    assert!(document.child_nodes(contents).is_empty());
    assert!(matches!(&document.node(hi).node_type, NodeType::TemplateString(t) if t == "hi"));
    assert!(matches!(&document.node(code).node_type, NodeType::Text(t) if t == "x"));
}

#[test]
fn selector_questions_about_elements() {
    let document = try_parse_fast_fragment(
        "<div id=Main class='Box big'><a href=x>l</a><a>m</a><p></p><span> </span><slot></slot></div>",
    )
    .expect("quick parse");
    let div = document.child_nodes(document.root)[0];
    let kids = document.child_nodes(div);
    assert!(document.has_id(div, "Main", false));
    assert!(!document.has_id(div, "main", false));
    assert!(document.has_id(div, "main", true));
    assert!(document.has_class(div, "big", false));
    assert!(document.has_class(div, "box", true));
    assert!(!document.has_class(div, "box", false));
    assert!(document.is_link(kids[0]));
    assert!(!document.is_link(kids[1]));
    assert!(document.is_empty_element(kids[2]));
    assert!(!document.is_empty_element(kids[3]));
    assert!(document.is_html_slot_element(kids[4]));
    assert!(document.is_root_element(div));
    assert!(!document.is_root_element(kids[0]));
    assert!(document.is_same_type(kids[0], kids[1]));
    assert!(!document.is_same_type(kids[0], kids[2]));
    assert!(document.has_local_name(kids[2], "p"));
}

#[test]
fn strings_of_a_subtree() {
    let document = try_parse_fast_fragment("<div> a <style>x</style><p>b </p>\n</div>").expect("quick parse");
    let div = document.child_nodes(document.root)[0];
    let values = document.collect_string_values(div, false);
    assert_eq!(values, vec![" a ".to_string(), "b ".to_string(), "\n".to_string()]);
    let stripped = document.collect_string_values(div, true);
    assert_eq!(stripped, vec!["a".to_string(), "b".to_string()]);
    assert_eq!(document.collect_string_nodes(div).len(), 3);
}

#[test]
fn template_splice_marks_only_the_moved_text() {
    let mut document = Document::empty();
    let root = document.root;
    let template = document.append_new(root, element("template"));
    let kept = document.append_new(template, NodeType::Text("kept".to_string()));
    let outside = document.append_new(root, NodeType::Text("out".to_string()));
    let contents = document.create_node(NodeType::Document);
    let loose = document.append_new(contents, NodeType::Text("loose".to_string()));
    let style = document.append_new(contents, element("style"));
    let inner = document.append_new(style, element("b"));
    let deep = document.append_new(inner, NodeType::Text("deep".to_string()));
    document.splice_template_contents(template, contents);
    assert_eq!(document.child_nodes(template), vec![kept, loose, style]);
    assert!(matches!(&document.node(loose).node_type, NodeType::TemplateString(t) if t == "loose"));
    assert!(matches!(&document.node(kept).node_type, NodeType::Text(t) if t == "kept"));
    assert!(matches!(&document.node(outside).node_type, NodeType::Text(t) if t == "out"));
    assert!(matches!(&document.node(deep).node_type, NodeType::Text(t) if t == "deep"));
}
