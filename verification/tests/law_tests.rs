use rustysoup::dom::{Attr, Document, ElementData, NodeId, NodeType};
use rustysoup::fast_parser::try_parse_fast_fragment;
use rustysoup::matcher::{find_first, FindCriteria};

fn element(name: &str) -> NodeType {
    NodeType::Element(ElementData { local_name: name.to_string(), attrs: Vec::new(), namespace: None })
}

#[test]
fn node_ids_round_trip_through_their_index() {
    for i in [0usize, 1, 7, 65_535, (u32::MAX - 1) as usize] {
        let id = NodeId::new(i);
        assert_eq!(id.index(), i);
        assert_eq!(NodeId::new(id.index()), id);
    }
    assert_ne!(NodeId::new(3), NodeId::new(4));
}

#[test]
fn smoothing_keeps_text_and_markup() {
    let mut document = Document::empty();
    let root = document.root;
    let div = document.append_new(root, element("div"));
    document.append_text(div, "a ".to_string());
    document.append_text(div, "b".to_string());
    let b = document.append_new(div, element("b"));
    document.append_text(b, "c".to_string());
    document.append_text(b, "d".to_string());
    document.append_text(div, "e".to_string());
    document.append_text(div, "<f>".to_string());
    let markup = document.outer_html(root);
    let text = document.text(root, "", false);
    document.smooth_text_nodes(root);
    assert_eq!(document.outer_html(root), markup);
    assert_eq!(document.text(root, "", false), text);
    assert_eq!(document.child_nodes(div).len(), 3);
    assert_eq!(document.child_nodes(b).len(), 1);
}

#[test]
fn a_clone_writes_out_as_its_source() {
    let source = try_parse_fast_fragment("<div id=a><p class='x y'>one<br>two</p><!--c--></div>").expect("quick parse");
    let div = source.child_nodes(source.root)[0];
    let mut target = Document::empty();
    let before = target.nodes.len();
    let copy = target.clone_detached_from(&source, div);
    assert_eq!(copy, NodeId::new(before));
    assert_eq!(target.parent_node(copy), None);
    assert_eq!(target.nodes.len(), before + source.descendant_nodes(div, true).len());
    assert_eq!(target.outer_html(copy), source.outer_html(div));
    assert_eq!(target.element_namespace(copy), source.element_namespace(div));
}

#[test]
fn detaching_twice_changes_nothing_more() {
    let mut document = Document::empty();
    let root = document.root;
    let a = document.append_new(root, element("a"));
    let b = document.append_new(root, element("b"));
    let c = document.append_new(root, element("c"));
    let inner = document.append_new(b, element("i"));
    document.detach(b);
    assert_eq!(document.child_nodes(root), vec![a, c]);
    assert_eq!(document.parent_node(b), None);
    assert_eq!(document.child_nodes(b), vec![inner]);
    let markup = document.outer_html(root);
    document.detach(b);
    assert_eq!(document.outer_html(root), markup);
    assert_eq!(document.child_nodes(b), vec![inner]);
}

#[test]
fn setting_an_attribute_updates_the_first_or_appends() {
    let mut document = Document::empty();
    let root = document.root;
    let p = document.append_new(
        root,
        NodeType::Element(ElementData {
            local_name: "p".to_string(),
            attrs: vec![Attr { name: "id".to_string(), value: Some("x".to_string()) }],
            namespace: None,
        }),
    );
    document.set_attr_value(p, "id".to_string(), Some("y".to_string()));
    assert_eq!(document.attr(p, "id"), Some("y"));
    assert_eq!(document.element_attrs(p).len(), 1);
    document.set_attr_value(p, "lang".to_string(), None);
    assert_eq!(document.element_attrs(p).len(), 2);
    assert_eq!(document.attr_value(p, "lang"), Some(None));
    let text = document.append_text(p, "t".to_string());
    document.set_attr_value(text, "id".to_string(), Some("z".to_string()));
    assert!(document.element_attrs(text).is_empty());
}

#[test]
fn finding_nothing_gives_none() {
    let document = try_parse_fast_fragment("<p>Hello <strong>Rust</strong></p>").expect("quick parse");
    let p = document.first_element_child(document.root).expect("a p");
    assert_eq!(document.text(p, " ", true), "Hello Rust");
    assert_eq!(find_first(&document, document.root, false, &FindCriteria::with_name(Some("missing"))), None);
    assert_eq!(find_first(&document, document.root, false, &FindCriteria::with_name(Some("strong"))), document.first_element_child(p));
}

#[test]
fn the_first_match_is_the_first_matching_descendant_element() {
    let document = try_parse_fast_fragment("<div><p>a</p><span><p>b</p></span><p>c</p></div>").expect("quick parse");
    let root = document.root;
    for name in ["p", "span", "div", "b", "missing"] {
        let criteria = FindCriteria::with_name(Some(name));
        for include_root in [false, true] {
            let expected = document
                .descendant_elements(root, include_root)
                .into_iter()
                .find(|x| rustysoup::matcher::matches_find_criteria(&document, *x, &criteria));
            assert_eq!(find_first(&document, root, include_root, &criteria), expected);
        }
    }
    let div = document.first_element_child(root).expect("a div");
    let first_p = document.first_element_child(div);
    assert_eq!(find_first(&document, root, false, &FindCriteria::with_name(Some("p"))), first_p);
}

#[test]
fn smoothing_keeps_raw_text_as_written() {
    let mut document = Document::empty();
    let root = document.root;
    let script = document.append_new(root, element("script"));
    document.append_text(script, "if (a < b) ".to_string());
    document.append_text(script, "{ c(); }".to_string());
    let p = document.append_new(root, element("p"));
    document.append_text(p, "x < y".to_string());
    document.append_text(p, " & z".to_string());
    let markup = document.outer_html(root);
    let text = document.text(root, "", false);
    document.smooth_text_nodes(root);
    assert_eq!(document.outer_html(root), markup);
    assert_eq!(document.text(root, "", false), text);
    assert_eq!(document.child_nodes(script).len(), 1);
    assert_eq!(document.child_nodes(p).len(), 1);
}
