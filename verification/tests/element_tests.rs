use rustysoup::attrs::attrs_to_map;
use rustysoup::dom::{Attr, Document, ElementData, NodeType};
use rustysoup::element::{html_namespace, is_html_namespace, namespace_field, HTML_NAMESPACE_URL};
use rustysoup::matcher::{find_first, FindCriteria};

fn attr(name: &str, value: Option<&str>) -> Attr {
    Attr { name: name.to_string(), value: value.map(|v| v.to_string()) }
}

fn element(name: &str, attrs: Vec<Attr>, namespace: Option<&str>) -> NodeType {
    NodeType::Element(ElementData {
        local_name: name.to_string(),
        attrs,
        namespace: namespace.map(|n| n.to_string()),
    })
}

#[test]
fn attribute_maps_keep_the_last_value_of_each_name() {
    let attrs = vec![attr("a", Some("1")), attr("b", None), attr("a", Some("2"))];
    assert_eq!(
        attrs_to_map(&attrs),
        vec![("b".to_string(), None), ("a".to_string(), Some("2".to_string()))]
    );
    assert_eq!(attrs_to_map(&[]), Vec::<(String, Option<String>)>::new());
    let mut document = Document::empty();
    let root = document.root;
    let div = document.append_new(root, element("div", attrs, None));
    let text = document.append_text(div, "t".to_string());
    assert_eq!(document.attrs_map(div).len(), 2);
    assert!(document.attrs_map(text).is_empty());
}

#[test]
fn namespaces_default_to_html() {
    assert_eq!(html_namespace(), "http://www.w3.org/1999/xhtml");
    assert_eq!(HTML_NAMESPACE_URL, html_namespace());
    assert!(is_html_namespace("http://www.w3.org/1999/xhtml"));
    assert!(!is_html_namespace("http://www.w3.org/2000/svg"));
    assert_eq!(namespace_field("http://www.w3.org/1999/xhtml"), None);
    assert_eq!(namespace_field("http://www.w3.org/2000/svg").as_deref(), Some("http://www.w3.org/2000/svg"));
    let mut document = Document::empty();
    let root = document.root;
    let div = document.append_new(root, element("div", Vec::new(), None));
    let svg = document.append_new(div, element("svg", Vec::new(), Some("http://www.w3.org/2000/svg")));
    let text = document.append_text(svg, "x".to_string());
    assert_eq!(document.element_namespace(div), "http://www.w3.org/1999/xhtml");
    assert_eq!(document.element_namespace(svg), "http://www.w3.org/2000/svg");
    assert_eq!(document.element_namespace(text), "http://www.w3.org/1999/xhtml");
}

#[test]
fn the_first_matching_element_in_document_order_is_found() {
    let mut document = Document::empty();
    let root = document.root;
    let div = document.append_new(root, element("div", Vec::new(), None));
    let span = document.append_new(div, element("span", Vec::new(), None));
    document.append_text(span, "s".to_string());
    let p = document.append_new(root, element("p", Vec::new(), None));
    let second_span = document.append_new(p, element("span", Vec::new(), None));
    assert_eq!(find_first(&document, root, false, &FindCriteria::with_name(Some("SPAN"))), Some(span));
    assert_eq!(find_first(&document, p, false, &FindCriteria::with_name(Some("span"))), Some(second_span));
    assert_eq!(find_first(&document, div, true, &FindCriteria::with_name(None)), Some(div));
    assert_eq!(find_first(&document, div, false, &FindCriteria::with_name(None)), Some(span));
    assert_eq!(find_first(&document, root, false, &FindCriteria::with_name(Some("table"))), None);
    assert_eq!(document.find_descendant_element(root, false, |id| id == p), Some(p));
    assert_eq!(document.find_descendant_element(div, false, |id| id == p), None);
}

#[test]
fn element_mut_changes_only_the_element() {
    let mut document = Document::empty();
    let root = document.root;
    let div = document.append_new(root, element("div", vec![attr("id", Some("x"))], None));
    let text = document.append_text(div, "t".to_string());
    assert!(document.element_mut(text).is_none());
    match document.element_mut(div) {
        Some(e) => {
            e.local_name = "span".to_string();
            e.attrs.push(attr("class", Some("c")));
        },
        None => panic!("div is an element"),
    }
    assert_eq!(document.element(div).map(|e| e.tag_name().to_string()), Some("span".to_string()));
    assert_eq!(document.attr(div, "class"), Some("c"));
    assert_eq!(document.attr(div, "id"), Some("x"));
    assert_eq!(document.child_nodes(div), vec![text]);
}
