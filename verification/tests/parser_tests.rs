use rustysoup::dom::{Document, NodeId, NodeType};
use rustysoup::fast_parser::{
    find_raw_text_end, mark_template_content_strings, source_has_fast_unsupported_tag,
    try_parse_fast_fragment, try_parse_fast_full_document,
};
use rustysoup::html_parse::{finish_full_parse, plan_parse, ParsePlan};
use rustysoup::parse::{inspect_source, preserve_bs4_leading_newlines};

fn name_of(document: &Document, id: NodeId) -> String {
    match &document.node(id).node_type {
        NodeType::Element(e) => e.local_name.clone(),
        _ => String::new(),
    }
}

fn chars(s: &str) -> Vec<char> {
    s.chars().collect()
}

#[test]
fn fragment_builds_nested_elements_and_text() {
    let document = try_parse_fast_fragment("<p>Hello <b>World</b></p>").expect("quick parse");
    let root = document.root;
    let top = document.child_nodes(root);
    assert_eq!(top.len(), 1);
    assert_eq!(name_of(&document, top[0]), "p");
    let inner = document.child_nodes(top[0]);
    assert_eq!(inner.len(), 2);
    assert_eq!(document.node_string(inner[0]), Some("Hello "));
    assert_eq!(name_of(&document, inner[1]), "b");
    assert_eq!(document.text(top[0], "", false), "Hello World");
    assert_eq!(document.outer_html(root), "<p>Hello <b>World</b></p>");
}

#[test]
fn fragment_decodes_entities_in_text() {
    let document = try_parse_fast_fragment("<p>a &amp; b &#65;&#x42;</p>").expect("quick parse");
    let p = document.child_nodes(document.root)[0];
    assert_eq!(document.text(p, "", false), "a & b AB");
}

#[test]
fn fragment_keeps_comments_and_processing_instructions() {
    let document = try_parse_fast_fragment("<!--note--><?php echo 1?><p>x</p>").expect("quick parse");
    let top = document.child_nodes(document.root);
    assert_eq!(top.len(), 3);
    assert!(matches!(&document.node(top[0]).node_type, NodeType::Comment(c) if c == "note"));
    assert!(matches!(&document.node(top[1]).node_type,
        NodeType::ProcessingInstruction(pi) if pi.target == "php echo 1?" && pi.data.is_empty()));
    assert_eq!(name_of(&document, top[2]), "p");
}

#[test]
fn fragment_with_an_open_element_left_to_the_full_parser() {
    assert!(try_parse_fast_fragment("<p>x").is_none());
    assert!(try_parse_fast_fragment("<table><tr><td>x").is_none());
}

#[test]
fn paragraph_closes_an_open_paragraph() {
    let document = try_parse_fast_fragment("<p>a<p>b</p>").expect("quick parse");
    let top = document.child_nodes(document.root);
    assert_eq!(top.len(), 2);
    assert_eq!(name_of(&document, top[0]), "p");
    assert_eq!(name_of(&document, top[1]), "p");
    assert_eq!(document.text(top[1], "", false), "b");
}

#[test]
fn void_and_self_closing_elements_stay_empty() {
    let document = try_parse_fast_fragment("<br><img src=a.png/><span>x</span>").expect("quick parse");
    let top = document.child_nodes(document.root);
    assert_eq!(top.len(), 3);
    assert_eq!(name_of(&document, top[0]), "br");
    assert!(document.child_nodes(top[0]).is_empty());
    assert_eq!(name_of(&document, top[1]), "img");
    assert!(document.child_nodes(top[1]).is_empty());
    assert_eq!(name_of(&document, top[2]), "span");
}

#[test]
fn unsupported_tags_are_left_to_the_full_parser() {
    assert!(try_parse_fast_fragment("<math></math>").is_none());
    assert!(try_parse_fast_fragment("<xmp>x</xmp>").is_none());
    assert!(try_parse_fast_fragment("<!DOCTYPE html><p>x</p>").is_none());
    assert!(try_parse_fast_fragment("<![CDATA[x]]>").is_none());
}

#[test]
fn raw_text_is_read_up_to_its_end_tag() {
    let document = try_parse_fast_fragment("<script>if (a<b) {}</script>").expect("quick parse");
    let script = document.child_nodes(document.root)[0];
    let text = document.child_nodes(script);
    assert_eq!(text.len(), 1);
    assert_eq!(document.node_string(text[0]), Some("if (a<b) {}"));
}

#[test]
fn raw_text_end_finds_the_closing_tag() {
    let s = chars("a</x></SCRIPT >b");
    let name = chars("script");
    assert_eq!(find_raw_text_end(&s, 0, &name), Some(5));
    assert_eq!(find_raw_text_end(&s, 6, &name), None);
}

#[test]
fn template_text_becomes_template_strings() {
    let document = try_parse_fast_fragment("<template><p>hi</p><script>x</script></template>").expect("quick parse");
    let template = document.child_nodes(document.root)[0];
    let kids = document.child_nodes(template);
    let p_text = document.child_nodes(kids[0])[0];
    let script_text = document.child_nodes(kids[1])[0];
    assert!(matches!(&document.node(p_text).node_type, NodeType::TemplateString(t) if t == "hi"));
    assert!(matches!(&document.node(script_text).node_type, NodeType::Text(t) if t == "x"));
}

#[test]
fn marking_leaves_text_outside_templates() {
    let mut document = Document::empty();
    let root = document.root;
    let text = document.append_text(root, "plain".to_string());
    mark_template_content_strings(&mut document);
    assert!(matches!(&document.node(text).node_type, NodeType::Text(t) if t == "plain"));
}

#[test]
fn full_document_is_parsed_with_its_doctype() {
    let html = "\n<!DOCTYPE HTML><html><head><title>T</title></head><body><p>x</p></body></html>";
    let document = try_parse_fast_full_document(html).expect("quick parse");
    let top = document.child_nodes(document.root);
    assert_eq!(top.len(), 2);
    assert!(matches!(&document.node(top[0]).node_type, NodeType::Doctype(d) if d.name == "html"));
    assert_eq!(name_of(&document, top[1]), "html");
}

#[test]
fn full_document_needs_html_and_body() {
    assert!(try_parse_fast_full_document("<p>x</p>").is_none());
    assert!(try_parse_fast_full_document("<html><p>x</p></html>").is_none());
    assert!(try_parse_fast_full_document("<html><body>&amp;<base href=x></body></html>").is_none());
    assert!(try_parse_fast_full_document("<html><body>x</body></html>").is_some());
}

#[test]
fn unsupported_tag_scan() {
    assert!(source_has_fast_unsupported_tag(&chars("<p><BASE href=x></p>")));
    assert!(source_has_fast_unsupported_tag(&chars("<xmp>")));
    assert!(!source_has_fast_unsupported_tag(&chars("<basement>")));
    assert!(!source_has_fast_unsupported_tag(&chars("<p>math</p>")));
}

#[test]
fn source_hints_read_before_parsing() {
    let hints = inspect_source("  <HTML><Head></head><pre>x</pre><?xml version?>");
    assert!(hints.looks_like_full_document);
    assert!(hints.has_head);
    assert!(hints.preserve_newline_candidate);
    assert_eq!(hints.processing_instructions, vec!["xml version?".to_string()]);
    let plain = inspect_source("<p>x</p>");
    assert!(!plain.looks_like_full_document);
    assert!(!plain.has_head);
    assert!(!plain.preserve_newline_candidate);
    assert!(plain.processing_instructions.is_empty());
}

#[test]
fn leading_newline_of_pre_is_doubled() {
    assert_eq!(preserve_bs4_leading_newlines("<pre>\nx</pre>"), "<pre>\n\nx</pre>");
    assert_eq!(preserve_bs4_leading_newlines("<p>\nx</p>"), "<p>\nx</p>");
}

#[test]
fn plan_takes_the_quick_path_when_it_can() {
    assert!(matches!(plan_parse("<p>x</p>", false), ParsePlan::Done(_)));
    match plan_parse("<p>x</p>", true) {
        ParsePlan::Full(f) => {
            assert!(f.whole_document);
            assert_eq!(f.source, "<p>x</p>");
        },
        ParsePlan::Done(_) => panic!("a document is not read from a fragment"),
    }
    match plan_parse("<pre>\nx</pre><p>", false) {
        ParsePlan::Full(f) => {
            assert!(!f.whole_document);
            assert!(!f.has_head);
            assert_eq!(f.source, "<pre>\n\nx</pre><p>");
            assert!(f.instructions.is_empty());
        },
        ParsePlan::Done(_) => panic!("an open element is left to the full parser"),
    }
}

fn element(name: &str) -> NodeType {
    NodeType::Element(rustysoup::dom::ElementData {
        local_name: name.to_string(),
        attrs: Vec::new(),
        namespace: None,
    })
}

#[test]
fn finishing_a_fragment_unwraps_its_html_element() {
    let mut document = Document::empty();
    let root = document.root;
    let html = document.append_new(root, element("html"));
    let p = document.append_new(html, element("p"));
    let comment = document.append_new(p, NodeType::Comment("?target data".to_string()));
    finish_full_parse(&mut document, false, false, &["target data".to_string()]);
    assert_eq!(document.child_nodes(root), vec![p]);
    assert_eq!(document.parent_node(html), None);
    assert!(matches!(&document.node(comment).node_type,
        NodeType::ProcessingInstruction(pi) if pi.target == "target data"));
}

#[test]
fn finishing_a_document_drops_an_empty_head_it_did_not_name() {
    let mut document = Document::empty();
    let root = document.root;
    let html = document.append_new(root, element("html"));
    let head = document.append_new(html, element("head"));
    let body = document.append_new(html, element("body"));
    assert_eq!(first_empty_head_of(&document), Some(head));
    finish_full_parse(&mut document, true, false, &[]);
    assert_eq!(document.child_nodes(html), vec![body]);
    let mut kept = Document::empty();
    let kept_root = kept.root;
    let kept_html = kept.append_new(kept_root, element("html"));
    let kept_head = kept.append_new(kept_html, element("head"));
    finish_full_parse(&mut kept, true, true, &[]);
    assert_eq!(kept.child_nodes(kept_html), vec![kept_head]);
}

fn first_empty_head_of(document: &Document) -> Option<NodeId> {
    let nodes = document.descendant_nodes(document.root, false);
    nodes.into_iter().find(|id| {
        name_of(document, *id) == "head" && document.child_nodes(*id).is_empty()
    })
}
