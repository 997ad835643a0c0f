use rustysoup::pseudo::{classify_inner_selector, split_selector_list, InnerSelector};
use rustysoup::attrs::dedupe_attrs_last_wins;
use rustysoup::dom::{Attr, Document, NodeId, NodeType};
use rustysoup::fast_parser::try_parse_fast_fragment;
use rustysoup::matcher::{select_by_outcomes, select_fast, selection_step, to_ascii_lowercase};
use rustysoup::search::{
    fast_find_all, fast_find_first, is_single_ascii_token, FindFilters, QueryValue,
    SimpleAttrFilter, SimpleNameFilter,
};
use rustysoup::text::{escape_attr, escape_text};

fn sample() -> (Document, Vec<NodeId>) {
    let document = try_parse_fast_fragment("<div class='a b'><p id=x>1</p><p class=a>2</p></div><p>3</p>")
        .expect("quick parse");
    let ids = document.descendant_nodes(document.root, false)
        .into_iter()
        .filter(|id| matches!(document.node(*id).node_type, NodeType::Element(_)))
        .collect();
    (document, ids)
}

fn named(name: &str) -> SimpleNameFilter {
    SimpleNameFilter::from_value(Some(&QueryValue::Text(name.to_string()))).expect("a name")
}

#[test]
fn name_filter_from_values() {
    assert!(matches!(SimpleNameFilter::from_value(None), Some(SimpleNameFilter::Any)));
    assert!(matches!(SimpleNameFilter::from_value(Some(&QueryValue::Null)), Some(SimpleNameFilter::Any)));
    assert!(matches!(named("DiV"), SimpleNameFilter::Name(n) if n == "div"));
    assert!(SimpleNameFilter::from_value(Some(&QueryValue::Flag(true))).is_none());
    assert!(SimpleNameFilter::from_value(Some(&QueryValue::Other)).is_none());
}

#[test]
fn attribute_filters_from_values() {
    let filters = vec![
        ("class".to_string(), QueryValue::Text(" a ".to_string())),
        ("class".to_string(), QueryValue::Text("a b".to_string())),
        ("id".to_string(), QueryValue::Null),
        ("href".to_string(), QueryValue::Flag(true)),
        ("lang".to_string(), QueryValue::Flag(false)),
        ("title".to_string(), QueryValue::Text("a".to_string())),
    ];
    let out = SimpleAttrFilter::from_filters(&filters).expect("simple filters");
    assert_eq!(out.len(), 6);
    assert!(matches!(&out[0], SimpleAttrFilter::ContainsToken(n, v) if n == "class" && v == " a "));
    assert!(matches!(&out[1], SimpleAttrFilter::Exact(n, v) if n == "class" && v == "a b"));
    assert!(matches!(&out[2], SimpleAttrFilter::Missing(n) if n == "id"));
    assert!(matches!(&out[3], SimpleAttrFilter::Exists(n) if n == "href"));
    assert!(matches!(&out[4], SimpleAttrFilter::Missing(n) if n == "lang"));
    assert!(matches!(&out[5], SimpleAttrFilter::Exact(n, v) if n == "title" && v == "a"));
    let other = vec![("id".to_string(), QueryValue::Other)];
    assert!(SimpleAttrFilter::from_filters(&other).is_none());
}

#[test]
fn single_token_check() {
    assert!(is_single_ascii_token("a"));
    assert!(is_single_ascii_token("  a\t"));
    assert!(!is_single_ascii_token("a b"));
    assert!(!is_single_ascii_token(""));
    assert!(!is_single_ascii_token("   "));
}

#[test]
fn attribute_conditions_read_the_last_attribute_of_a_name() {
    let attrs = vec![
        Attr::new("class".to_string(), "a".to_string()),
        Attr::new("class".to_string(), "b c".to_string()),
        Attr::with_optional_dynamic_name("hidden", None),
    ];
    assert!(SimpleAttrFilter::ContainsToken("class".to_string(), "c".to_string()).matches(&attrs));
    assert!(!SimpleAttrFilter::ContainsToken("class".to_string(), "a".to_string()).matches(&attrs));
    assert!(SimpleAttrFilter::Exact("class".to_string(), "b c".to_string()).matches(&attrs));
    assert!(SimpleAttrFilter::Exact("hidden".to_string(), String::new()).matches(&attrs));
    assert!(!SimpleAttrFilter::Exists("hidden".to_string()).matches(&attrs));
    assert!(SimpleAttrFilter::Missing("hidden".to_string()).matches(&attrs));
    assert!(!SimpleAttrFilter::Exact("id".to_string(), String::new()).matches(&attrs));
}

#[test]
fn find_all_walks_in_document_order() {
    let (document, ids) = sample();
    let (div, p1, p2, p3) = (ids[0], ids[1], ids[2], ids[3]);
    let p = FindFilters { name: named("p"), attrs: Vec::new() };
    assert_eq!(fast_find_all(&document, document.root, true, 0, &p), vec![p1, p2, p3]);
    assert_eq!(fast_find_all(&document, document.root, false, 0, &p), vec![p3]);
    assert_eq!(fast_find_all(&document, div, false, 0, &p), vec![p1, p2]);
    let class_a = FindFilters {
        name: SimpleNameFilter::Any,
        attrs: vec![SimpleAttrFilter::ContainsToken("class".to_string(), "a".to_string())],
    };
    assert_eq!(fast_find_all(&document, document.root, true, 0, &class_a), vec![div, p2]);
    let with_id = FindFilters { name: named("p"), attrs: vec![SimpleAttrFilter::Exists("id".to_string())] };
    assert_eq!(fast_find_all(&document, document.root, true, 0, &with_id), vec![p1]);
}

#[test]
fn limit_keeps_the_first_matches() {
    let (document, ids) = sample();
    let p = FindFilters { name: named("p"), attrs: Vec::new() };
    let all = fast_find_all(&document, document.root, true, 0, &p);
    for limit in 1..5 {
        let some = fast_find_all(&document, document.root, true, limit, &p);
        assert_eq!(some, all[..limit.min(all.len())].to_vec());
    }
    assert_eq!(fast_find_first(&document, document.root, true, &p), Some(ids[1]));
    assert_eq!(fast_find_first(&document, document.root, true, &p), all.first().copied());
    let none = FindFilters { name: named("table"), attrs: Vec::new() };
    assert_eq!(fast_find_first(&document, document.root, true, &none), None);
}

#[test]
fn quick_selectors_select_in_document_order() {
    let (document, ids) = sample();
    let found = select_fast(&document, document.root, false, "div p", 0).expect("a quick selector");
    assert_eq!(found, vec![ids[1], ids[2]]);
    let first = select_fast(&document, document.root, false, "p", 1).expect("a quick selector");
    assert_eq!(first, vec![ids[1]]);
}

#[test]
fn escaped_text_holds_no_markup() {
    let mut out = String::new();
    escape_text("<a href=\"x\">&</a>", &mut out);
    assert_eq!(out, "&lt;a href=\"x\"&gt;&amp;&lt;/a&gt;");
    assert!(!out.contains('<') && !out.contains('>'));
    let mut attr = String::new();
    escape_attr("say \"<hi>\"", &mut attr);
    assert_eq!(attr, "say &quot;&lt;hi&gt;&quot;");
    assert!(!attr.contains('"') && !attr.contains('<'));
}

#[test]
fn lowercasing_twice_is_lowercasing_once() {
    let once = to_ascii_lowercase("MiXeD Ünïcode ABC");
    assert_eq!(once, "mixed Ünïcode abc");
    assert_eq!(to_ascii_lowercase(&once), once);
}

#[test]
fn deduplicated_attribute_names_are_unique() {
    let attrs = vec![
        Attr::new("a".to_string(), "1".to_string()),
        Attr::new("b".to_string(), "2".to_string()),
        Attr::new("a".to_string(), "3".to_string()),
    ];
    let out = dedupe_attrs_last_wins(attrs);
    let names: Vec<&str> = out.iter().map(|a| a.name.as_str()).collect();
    assert_eq!(names, vec!["b", "a"]);
    assert_eq!(out[1].value.as_deref(), Some("3"));
}

#[test]
fn inner_selectors_are_classified() {
    assert!(matches!(classify_inner_selector("  >  "), InnerSelector::Nothing));
    assert!(matches!(classify_inner_selector(" > p.x "), InnerSelector::Children(s) if s == "p.x"));
    assert!(matches!(classify_inner_selector(" p > b "), InnerSelector::Descendants(s) if s == " p > b "));
}

fn find_first_named(document: &Document, name: &str, attrs: Vec<(String, QueryValue)>) -> Option<NodeId> {
    let filters = FindFilters {
        name: named(name),
        attrs: SimpleAttrFilter::from_filters(&attrs).expect("simple filters"),
    };
    fast_find_first(document, document.root, true, &filters)
}

#[test]
fn catalog_page_scenario() {
    let html = "\n<html>\n  <head><title>Catalog</title></head>\n  <body>\n    <div class=\"product\" data-id=\"1\">\n      <a href=\"/products/1\">Coffee grinder</a>\n      <span class=\"price\">$39</span>\n    </div>\n  </body>\n</html>\n";
    let document = rustysoup::fast_parser::try_parse_fast_full_document(html).expect("quick parse");
    let title = find_first_named(&document, "title", Vec::new()).expect("a title");
    assert_eq!(document.text(title, "", false), "Catalog");
    let product = find_first_named(
        &document,
        "div",
        vec![("class".to_string(), QueryValue::Text("product".to_string()))],
    )
    .expect("a product");
    assert_eq!(document.attr(product, "data-id"), Some("1"));
    let link = find_first_named(&document, "a", Vec::new()).expect("a link");
    assert_eq!(document.attr(link, "href"), Some("/products/1"));
    let selected = select_fast(&document, document.root, false, "div.product a[href]", 0).expect("a quick selector");
    assert_eq!(selected.len(), 1);
    assert_eq!(document.text(selected[0], "", true), "Coffee grinder");
    assert_eq!(find_first_named(&document, "missing", Vec::new()), None);
}

fn chars(s: &str) -> Vec<char> {
    s.chars().collect()
}

#[test]
fn selector_lists_split_at_top_level_commas() {
    assert_eq!(
        split_selector_list(&chars(" a , b[title='x,y'] , :is(c, d) ")),
        Ok(vec!["a".to_string(), "b[title='x,y']".to_string(), ":is(c, d)".to_string()])
    );
    assert_eq!(split_selector_list(&chars("a")), Ok(vec!["a".to_string()]));
    assert_eq!(split_selector_list(&chars("a,,b")), Err(()));
    assert_eq!(split_selector_list(&chars("a,")), Err(()));
    assert_eq!(split_selector_list(&chars("a[x")), Err(()));
    assert_eq!(split_selector_list(&chars("a(b")), Err(()));
    assert_eq!(split_selector_list(&chars("'a,b")), Err(()));
}

#[test]
fn selection_by_outcomes_keeps_admitted_nodes_in_order_up_to_the_limit() {
    let order: Vec<NodeId> = (0..5).map(NodeId::new).collect();
    let admitted = vec![true, false, true, true, false];
    assert_eq!(select_by_outcomes(&order, &admitted, 0), vec![order[0], order[2], order[3]]);
    assert_eq!(select_by_outcomes(&order, &admitted, 2), vec![order[0], order[2]]);
    assert_eq!(select_by_outcomes(&order, &admitted, 9), vec![order[0], order[2], order[3]]);
    assert_eq!(select_by_outcomes(&order, &[false; 5].to_vec(), 1), Vec::<NodeId>::new());
    let mut found = Vec::new();
    assert!(selection_step(&mut found, order[1], false, 1));
    assert!(!selection_step(&mut found, order[4], true, 1));
    assert_eq!(found, vec![order[4]]);
}
