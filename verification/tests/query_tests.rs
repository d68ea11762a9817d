use kanjisearch::query::{all_readable, args_from_matches, parse_query, QueryArgs};

#[test]
fn query_decodes_percent_escapes() {
    let a = parse_query("input=%E5%8F%A3&reverse").expect("query reads");
    assert_eq!(a.get("input"), Some("口".to_string()));
    assert!(a.contains_key("reverse"));
    assert_eq!(a.get("reverse"), Some("".to_string()));
    assert!(!a.contains_key("simple"));
}

#[test]
fn query_radical_form_decoded() {
    let a = parse_query("input=%E2%BC%9D").expect("query reads");
    assert_eq!(a.get("input"), Some("⼝".to_string()));
}

#[test]
fn query_later_value_wins() {
    let a = parse_query("input=a&input=b").expect("query reads");
    assert_eq!(a.get("input"), Some("b".to_string()));
}

#[test]
fn query_semicolons_and_fragments() {
    let a = parse_query("a=1;b=2&c").expect("query reads");
    assert_eq!(a.get("a"), Some("1".to_string()));
    assert_eq!(a.get("b"), Some("2".to_string()));
    assert_eq!(a.get("c"), Some("".to_string()));
    let f = parse_query("input=x#frag").expect("query reads");
    assert_eq!(f.get("input"), Some("x".to_string()));
    assert!(!f.contains_key("frag"));
}

#[test]
fn query_empty_and_nameless() {
    let e = parse_query("").expect("query reads");
    assert!(e.entries.is_empty());
    let n = parse_query("=5").expect("query reads");
    assert!(n.entries.is_empty());
    let v = parse_query("input=").expect("query reads");
    assert_eq!(v.get("input"), Some("".to_string()));
}

#[test]
fn query_invalid_utf8_replaced() {
    let a = parse_query("input=%FF").expect("query reads");
    assert_eq!(a.get("input"), Some("\u{FFFD}".to_string()));
}

#[test]
fn query_args_by_hand() {
    let mut a = QueryArgs::new();
    assert!(!a.contains_key("input"));
    assert_eq!(a.get("input"), None);
    a.insert("input", "口");
    a.insert("filter_level", "media");
    a.insert("input", "木");
    assert_eq!(a.get("input"), Some("木".to_string()));
    assert_eq!(a.get("filter_level"), Some("media".to_string()));
    assert_eq!(a.get_chars(&"input".chars().collect()), Some(vec!['木']));
}

#[test]
fn matches_read_into_args() {
    let ms = vec!["&input=口".to_string(), ";simple".to_string(), "?x=a=b".to_string()];
    assert!(all_readable(&ms));
    let a = args_from_matches(&ms);
    assert_eq!(a.get("input"), Some("口".to_string()));
    assert_eq!(a.get("simple"), Some("".to_string()));
    assert_eq!(a.get("x"), Some("a=b".to_string()));
    assert!(!all_readable(&vec!["口x".to_string()]));
    assert!(!all_readable(&vec!["".to_string()]));
}
