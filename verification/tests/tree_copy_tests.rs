use rustysoup::dom::{Attr, Document, ElementData, NodeId, NodeType};

fn element(name: &str) -> NodeType {
    NodeType::Element(ElementData { local_name: name.to_string(), attrs: Vec::new(), namespace: None })
}

fn text_of(document: &Document, id: NodeId) -> Option<String> {
    match &document.node(id).node_type {
        NodeType::Text(t) => Some(t.clone()),
        _ => None,
    }
}

fn name_of(document: &Document, id: NodeId) -> Option<String> {
    match &document.node(id).node_type {
        NodeType::Element(e) => Some(e.local_name.clone()),
        _ => None,
    }
}

/// A source document holding `<p class="x">hi<b>there</b></p>` under its root.
fn source() -> (Document, NodeId) {
    let mut document = Document::empty();
    let root = document.root;
    let p = document.append_new(
        root,
        NodeType::Element(ElementData {
            local_name: "p".to_string(),
            attrs: vec![Attr { name: "class".to_string(), value: Some("x".to_string()) }],
            namespace: None,
        }),
    );
    document.append_text(p, "hi".to_string());
    let b = document.append_new(p, element("b"));
    document.append_text(b, "there".to_string());
    (document, p)
}

#[test]
fn detached_clone_copies_the_whole_subtree() {
    let (src, p) = source();
    let mut target = Document::empty();
    let before = target.nodes.len();
    let copy = target.clone_detached_from(&src, p);
    assert_eq!(copy.index(), before);
    assert_eq!(target.nodes.len(), before + 4);
    assert_eq!(target.parent_node(copy), None);
    assert_eq!(target.outer_html(copy), src.outer_html(p));
    assert_eq!(target.outer_html(copy), "<p class=\"x\">hi<b>there</b></p>");
    assert_eq!(target.child_nodes(target.root), Vec::<NodeId>::new());
}

#[test]
fn clones_land_where_asked() {
    let (src, p) = source();
    let mut target = Document::empty();
    let root = target.root;
    let a = target.append_new(root, element("a"));
    let last = target.append_clone_from(root, &src, p);
    assert_eq!(target.child_nodes(root), vec![a, last]);
    let first = target.insert_clone_from(root, 0, &src, p);
    assert_eq!(target.child_nodes(root), vec![first, a, last]);
    let before_a = target.insert_clone_before_from(a, &src, p);
    assert_eq!(target.child_nodes(root), vec![first, before_a, a, last]);
    let after_a = target.insert_clone_after_from(a, &src, p);
    assert_eq!(target.child_nodes(root), vec![first, before_a, a, after_a, last]);
    assert_eq!(target.outer_html(after_a), "<p class=\"x\">hi<b>there</b></p>");
    assert_eq!(name_of(&target, before_a).as_deref(), Some("p"));
}

#[test]
fn wrapping_with_a_clone_moves_the_target_inside() {
    let (src, p) = source();
    let mut target = Document::empty();
    let root = target.root;
    let a = target.append_new(root, element("a"));
    let z = target.append_new(root, element("z"));
    let wrapper = target.wrap_with_clone_from(a, &src, p);
    assert_eq!(target.child_nodes(root), vec![wrapper, z]);
    assert_eq!(target.parent_node(a), Some(wrapper));
    let kids = target.child_nodes(wrapper);
    assert_eq!(kids.len(), 3);
    assert_eq!(kids[2], a);
    assert_eq!(target.outer_html(wrapper), "<p class=\"x\">hi<b>there</b><a></a></p>");
}

#[test]
fn copied_node_types_keep_their_content() {
    let t = NodeType::Comment("note".to_string());
    assert!(matches!(rustysoup::clone::copy_node_type(&t), NodeType::Comment(s) if s == "note"));
    let e = NodeType::Element(ElementData {
        local_name: "q".to_string(),
        attrs: vec![Attr { name: "a".to_string(), value: None }],
        namespace: Some("svg".to_string()),
    });
    match rustysoup::clone::copy_node_type(&e) {
        NodeType::Element(d) => {
            assert_eq!(d.local_name, "q");
            assert_eq!(d.attrs.len(), 1);
            assert_eq!(d.attrs[0].name, "a");
            assert_eq!(d.attrs[0].value, None);
            assert_eq!(d.namespace.as_deref(), Some("svg"));
        }
        _ => panic!("an element was expected"),
    }
}

#[test]
fn adjacent_text_children_merge_into_the_first() {
    let mut document = Document::empty();
    let root = document.root;
    let div = document.append_new(root, element("div"));
    let t1 = document.append_text(div, "a".to_string());
    let t2 = document.append_text(div, "b".to_string());
    let i = document.append_new(div, element("i"));
    let t3 = document.append_text(div, "c".to_string());
    let t4 = document.append_text(div, "d".to_string());
    let t5 = document.append_text(div, "e".to_string());
    document.merge_adjacent_text_children(div);
    assert_eq!(document.child_nodes(div), vec![t1, i, t3]);
    assert_eq!(text_of(&document, t1).as_deref(), Some("ab"));
    assert_eq!(text_of(&document, t3).as_deref(), Some("cde"));
    assert_eq!(document.parent_node(t2), None);
    assert_eq!(document.parent_node(t4), None);
    assert_eq!(document.parent_node(t5), None);
}

#[test]
fn smoothing_merges_text_at_every_depth() {
    let mut document = Document::empty();
    let root = document.root;
    let div = document.append_new(root, element("div"));
    let t1 = document.append_text(div, "x".to_string());
    document.append_text(div, "y".to_string());
    let span = document.append_new(div, element("span"));
    let s1 = document.append_text(span, "1".to_string());
    document.append_text(span, "2".to_string());
    document.append_text(span, "3".to_string());
    document.smooth_text_nodes(root);
    assert_eq!(document.child_nodes(div), vec![t1, span]);
    assert_eq!(document.child_nodes(span), vec![s1]);
    assert_eq!(text_of(&document, t1).as_deref(), Some("xy"));
    assert_eq!(text_of(&document, s1).as_deref(), Some("123"));
    assert_eq!(document.outer_html(div), "<div>xy<span>123</span></div>");
}
