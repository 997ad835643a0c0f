use rustysoup::input::{
    choose_declared_label, decode_markup_bytes, decode_with_encoding, detect_declared_encoding, encoding_for_label,
    features_supported, is_excluded_encoding, is_supported_html_feature, joined_features, markup_from_attempt,
    markup_from_utf8, normalize_encoding_label, parse_mode_for_features, ParseMode,
};

fn strings(items: &[&str]) -> Vec<String> {
    items.iter().map(|s| s.to_string()).collect()
}

#[test]
fn labels_are_trimmed_unquoted_and_lowercased() {
    assert_eq!(normalize_encoding_label("  \"'UTF-8'\" "), "utf-8");
    assert_eq!(normalize_encoding_label("'\"Latin1\"'"), "\"latin1\"");
    assert_eq!(normalize_encoding_label("\u{a0}Windows-1252\t"), "windows-1252");
    assert_eq!(normalize_encoding_label("\"\"\""), "");
}

#[test]
fn features_choose_the_builder() {
    assert!(is_supported_html_feature("lxml"));
    assert!(!is_supported_html_feature("xml"));
    assert!(features_supported(&Vec::new()));
    assert!(!features_supported(&strings(&["xml"])));
    assert!(features_supported(&strings(&["xml", "html"])));
    assert_eq!(parse_mode_for_features(&strings(&["html"])), ParseMode::FullDocument);
    assert_eq!(parse_mode_for_features(&strings(&["lxml", "strict"])), ParseMode::Fragment);
    assert_eq!(parse_mode_for_features(&strings(&["xml"])), ParseMode::Fragment);
    assert_eq!(parse_mode_for_features(&Vec::new()), ParseMode::Fragment);
    assert_eq!(joined_features(&strings(&["xml", "lxml-xml"])), "xml,lxml-xml");
    assert_eq!(joined_features(&Vec::new()), "");
}

#[test]
fn labels_find_encodings_directly_or_by_alias() {
    assert!(encoding_for_label("UTF-8").is_some());
    assert!(encoding_for_label(" 'latin-1' ").is_some());
    assert!(encoding_for_label("cp1252").is_some());
    assert!(encoding_for_label("no-such-encoding").is_none());
}

#[test]
fn exclusion_goes_by_label_or_by_encoding() {
    assert!(is_excluded_encoding("UTF8", &strings(&["utf-8"])));
    assert!(is_excluded_encoding("latin1", &strings(&["windows-1252"])));
    assert!(is_excluded_encoding("Bogus", &strings(&["bogus"])));
    assert!(!is_excluded_encoding("utf-8", &strings(&["iso-8859-2"])));
    assert!(!is_excluded_encoding("utf-8", &Vec::new()));
}

#[test]
fn decoding_by_label() {
    assert_eq!(decode_with_encoding(&[0x68, 0xE9], "latin1"), Some(("h\u{e9}".to_string(), false)));
    assert_eq!(decode_with_encoding(&[0xE9], "utf-8"), Some(("\u{fffd}".to_string(), true)));
    assert_eq!(decode_with_encoding(b"x", "nothing"), None);
}

#[test]
fn declared_encodings_are_found_in_the_markup() {
    assert_eq!(
        detect_declared_encoding(b"<?xml version='1.0' encoding='ISO-8859-2'?><a/>").as_deref(),
        Some("iso-8859-2")
    );
    assert_eq!(detect_declared_encoding(b"<meta charset=\"UTF-8\">").as_deref(), Some("utf-8"));
    assert_eq!(detect_declared_encoding(b"<p>plain</p>"), None);
    let mut late = vec![b' '; 5000];
    late.extend_from_slice(b"<meta charset=\"UTF-8\">");
    assert_eq!(detect_declared_encoding(&late), None);
}

#[test]
fn declared_label_prefers_the_xml_declaration() {
    assert_eq!(
        choose_declared_label(Some(" UTF-8 ".to_string()), Some("x".to_string())).as_deref(),
        Some("utf-8")
    );
    assert_eq!(choose_declared_label(None, Some("Latin1".to_string())).as_deref(), Some("latin1"));
    assert_eq!(choose_declared_label(None, None), None);
}

#[test]
fn attempts_are_taken_only_when_clean() {
    let declared = Some(" Latin1".to_string());
    let taken = markup_from_attempt("UTF-8", Some(("abc".to_string(), false)), &declared).unwrap();
    assert_eq!(taken.text, "abc");
    assert_eq!(taken.original_encoding.as_deref(), Some("utf-8"));
    assert_eq!(taken.declared_html_encoding.as_deref(), Some("latin1"));
    assert!(!taken.contains_replacement_characters);
    assert!(markup_from_attempt("utf-8", Some(("a\u{fffd}".to_string(), true)), &declared).is_none());
    assert!(markup_from_attempt("utf-8", None, &declared).is_none());
    let last = markup_from_utf8(("a\u{fffd}".to_string(), true), &None);
    assert_eq!(last.text, "a\u{fffd}");
    assert_eq!(last.original_encoding.as_deref(), Some("utf-8"));
    assert_eq!(last.declared_html_encoding, None);
    assert!(last.contains_replacement_characters);
}

#[test]
fn markup_bytes_are_read_in_the_first_clean_encoding() {
    let utf8 = decode_markup_bytes("h\u{e9}llo".as_bytes(), None, &Vec::new());
    assert_eq!(utf8.text, "h\u{e9}llo");
    assert_eq!(utf8.original_encoding.as_deref(), Some("utf-8"));
    assert_eq!(utf8.declared_html_encoding, None);
    assert!(!utf8.contains_replacement_characters);

    let latin = decode_markup_bytes(&[0x68, 0xE9], None, &Vec::new());
    assert_eq!(latin.text, "h\u{e9}");
    assert_eq!(latin.original_encoding.as_deref(), Some("iso-8859-1"));

    let given = decode_markup_bytes(&[0x68, 0xE9], Some("windows-1252".to_string()), &strings(&["windows-1252"]));
    assert_eq!(given.text, "h\u{e9}");
    assert_eq!(given.original_encoding.as_deref(), Some("windows-1252"));

    let declared = decode_markup_bytes(b"<meta charset=latin-1>\xE9", None, &Vec::new());
    assert_eq!(declared.text, "<meta charset=latin-1>\u{e9}");
    assert_eq!(declared.original_encoding.as_deref(), Some("latin-1"));
    assert_eq!(declared.declared_html_encoding.as_deref(), Some("latin-1"));

    let fallback = decode_markup_bytes(&[0xE9], None, &strings(&["utf-8", "iso-8859-1"]));
    assert_eq!(fallback.text, "\u{fffd}");
    assert_eq!(fallback.original_encoding.as_deref(), Some("utf-8"));
    assert!(fallback.contains_replacement_characters);
}
