use std::collections::{HashMap, HashSet};

use kanjisearch::ids::{ids_lines_to_mappings, rewrite_char, try_ids_lines_to_mappings};
use kanjisearch::parse::{
    build_radical_character_conversion, build_stroke_count_mapping, code_line_strings,
    lines_strings, radical_line, stroke_line, try_build_radical_character_conversion,
    try_build_stroke_count_mapping, RadicalLine, StrokeLine,
};

fn lines(ls: &[&str]) -> Vec<String> {
    ls.iter().map(|l| l.to_string()).collect()
}

fn v(s: &str) -> Vec<char> {
    s.chars().collect()
}

fn set(cs: &str) -> HashSet<u32> {
    cs.chars().map(|c| c as u32).collect()
}

#[test]
fn radical_lines_single_range_and_comments() {
    let input = lines(&[
        "# EquivalentUnifiedIdeograph",
        "",
        "2F1D          ; 53E3 #     KANGXI RADICAL MOUTH",
        "2E8C..2E8D    ; 5C0F #     CJK RADICAL SMALL ONE..CJK RADICAL SMALL TWO",
    ]);
    let m = try_build_radical_character_conversion(&input).expect("well-formed lines");
    assert_eq!(m.len(), 4);
    assert_eq!(m.get(&0x2F1D), Some(&'口'));
    assert_eq!(m.get(&0x2E8C), Some(&'小'));
    assert_eq!(m.get(&0x2E8D), Some(&'小'));
    assert_eq!(m.get(&('⻌' as u32)), Some(&'辶'));
    assert_eq!(build_radical_character_conversion(&input), m);
}

#[test]
fn radical_walk_always_maps_to_the_full_form() {
    let m = build_radical_character_conversion(&Vec::new());
    assert_eq!(m.len(), 1);
    assert_eq!(m.get(&0x2ECC), Some(&'辶'));
    let over = build_radical_character_conversion(&lines(&["2ECC ; 8FB5"]));
    assert_eq!(over.get(&0x2ECC), Some(&'辶'));
}

#[test]
fn radical_lines_later_wins() {
    let m = build_radical_character_conversion(&lines(&["2F1D ; 53E3", "2F1D ; 56D7"]));
    assert_eq!(m.get(&0x2F1D), Some(&'囗'));
}

#[test]
fn radical_lines_malformed() {
    assert!(try_build_radical_character_conversion(&lines(&["ZZZZ ; 53E3"])).is_none());
    assert!(try_build_radical_character_conversion(&lines(&["2F1D ; D800"])).is_none());
    assert!(try_build_radical_character_conversion(&lines(&["2F1D ; "])).is_none());
    assert!(try_build_radical_character_conversion(&lines(&["D7FF..D800 ; 4E00"])).is_none());
    assert!(try_build_radical_character_conversion(&lines(&["2F1D..zz ; 4E00"])).is_none());
    assert!(try_build_radical_character_conversion(&lines(&["2F1D", "no semicolon"])).is_some());
}

#[test]
fn one_radical_line() {
    assert!(matches!(radical_line(&v("2F1D ; 53E3 # x")), RadicalLine::Entry(0x2F1D, 0x2F1D, '口')));
    assert!(matches!(radical_line(&v("2E8C..2E8D;5C0F")), RadicalLine::Entry(0x2E8C, 0x2E8D, '小')));
    assert!(matches!(radical_line(&v("# only a comment ; x")), RadicalLine::Skip));
    assert!(matches!(radical_line(&v("xyz ; 53E3")), RadicalLine::Malformed));
}

#[test]
fn stroke_lines_read() {
    let input = lines(&[
        "U+53E3\tkTotalStrokes\t3",
        "U+54C1\tkTotalStrokes\t9 10",
        "U+53E3\tkFourCornerCode\t6000.0",
        "U+6728\tkTotalStrokes\t4",
        "U+20000\tkTotalStrokes\t7",
        "U+6797\tkTotalStrokes",
    ]);
    let m = try_build_stroke_count_mapping(&input).expect("well-formed lines");
    assert_eq!(m.len(), 4);
    assert_eq!(m.get(&0x53E3), Some(&3));
    assert_eq!(m.get(&0x54C1), Some(&9));
    assert_eq!(m.get(&0x6728), Some(&4));
    assert_eq!(m.get(&0x20000), Some(&7));
    assert_eq!(build_stroke_count_mapping(&input), m);
}

#[test]
fn stroke_lines_later_wins() {
    let m = build_stroke_count_mapping(&lines(&["U+53E3\tkTotalStrokes\t3", "U+53E3\tkTotalStrokes\t5"]));
    assert_eq!(m.get(&0x53E3), Some(&5));
}

#[test]
fn stroke_lines_malformed() {
    assert!(try_build_stroke_count_mapping(&lines(&["U+53E3\tkTotalStrokes\tx"])).is_none());
    assert!(try_build_stroke_count_mapping(&lines(&["X+53E3\tkTotalStrokes\t3"])).is_none());
    assert!(try_build_stroke_count_mapping(&lines(&["U+53E\tkTotalStrokes\t3"])).is_none());
    assert!(try_build_stroke_count_mapping(&lines(&["U+D800\tkTotalStrokes\t3"])).is_none());
    assert!(try_build_stroke_count_mapping(&lines(&["U+53E3\tkTotalStrokes\t-3"])).is_none());
    assert!(try_build_stroke_count_mapping(&lines(&["U+53E3\tkOther\tx"])).is_some());
}

#[test]
fn one_stroke_line() {
    assert!(matches!(stroke_line(&v("U+53E3\tkTotalStrokes\t3")), StrokeLine::Entry('口', 3)));
    assert!(matches!(stroke_line(&v("U+53E3\tkFrequency\t3")), StrokeLine::Skip));
    assert!(matches!(stroke_line(&v("U+53E3\tkTotalStrokes\t")), StrokeLine::Malformed));
}

#[test]
fn file_lines() {
    let s = "U+1\nfoo\nU+2\r\n\nU".to_string();
    assert_eq!(lines_strings(&s), lines(&["U+1", "foo", "U+2", "", "U"]));
    assert_eq!(code_line_strings(&s), lines(&["U+1", "U+2"]));
}

const IDS: &[&str] = &[
    "U+53E3\t口\t口",
    "U+54C1\t品\t⿱口⿰口口",
    "U+5340\t區\t⿷匚品",
    "U+6728\t木\t木",
    "U+6797\t林\t⿰木木",
    "U+3400\t㐀\t⿰口木",
];

#[test]
fn ids_mappings_built() {
    let (c2c, c2ch, first, freq) = ids_lines_to_mappings(&lines(IDS), &HashMap::new());
    assert_eq!(c2c.len(), 4);
    assert_eq!(c2c.get(&('品' as u32)), Some(&set("口")));
    assert_eq!(c2c.get(&('區' as u32)), Some(&set("匚品")));
    assert_eq!(c2c.get(&('林' as u32)), Some(&set("木")));
    assert_eq!(c2c.get(&('㐀' as u32)), Some(&set("口木")));
    assert_eq!(c2c.get(&('口' as u32)), None);
    assert_eq!(c2ch.get(&('口' as u32)), Some(&set("品㐀")));
    assert_eq!(c2ch.get(&('品' as u32)), Some(&set("區")));
    assert_eq!(c2ch.get(&('木' as u32)), Some(&set("林㐀")));
    assert_eq!(first.get(&('品' as u32)), Some(&v("口口口")));
    assert_eq!(first.get(&('區' as u32)), Some(&v("匚品")));
    assert_eq!(freq.get(&('口' as u32)), Some(&4));
    assert_eq!(freq.get(&('木' as u32)), Some(&3));
    assert_eq!(freq.get(&('匚' as u32)), Some(&1));
    assert_eq!(freq.len(), 4);
}

#[test]
fn ids_priority_decompositions() {
    let (c2c, _, first, freq) =
        ids_lines_to_mappings(&lines(&["U+5340\t區\t⿷匚品[GTKV]\t⿷匚口[J]"]), &HashMap::new());
    assert_eq!(c2c.get(&('區' as u32)), Some(&set("匚口")));
    assert_eq!(first.get(&('區' as u32)), Some(&v("匚口")));
    assert_eq!(freq.get(&('品' as u32)), None);
    assert_eq!(freq.get(&('口' as u32)), Some(&1));
}

#[test]
fn ids_later_decompositions_add_components_not_frequencies() {
    let (c2c, _, first, freq) =
        ids_lines_to_mappings(&lines(&["U+6797\t林\t⿰木木\t⿰朩木"]), &HashMap::new());
    assert_eq!(c2c.get(&('林' as u32)), Some(&set("木朩")));
    assert_eq!(first.get(&('林' as u32)), Some(&v("木木朩木")));
    assert_eq!(freq.get(&('木' as u32)), Some(&2));
    assert_eq!(freq.get(&('朩' as u32)), None);
}

#[test]
fn ids_rewrites_radical_forms() {
    let mut rw = HashMap::new();
    rw.insert(0x2F1Du32, '口');
    let (c2c, c2ch, _, _) = ids_lines_to_mappings(&lines(&["U+54C1\t品\t⿱⼝⿰⼝⼝"]), &rw);
    assert_eq!(c2c.get(&('品' as u32)), Some(&set("口")));
    assert_eq!(c2ch.get(&0x2F1D), None);
    assert_eq!(rewrite_char(&rw, '⼝'), '口');
    assert_eq!(rewrite_char(&rw, '木'), '木');
}

#[test]
fn ids_short_lines_skipped() {
    let (c2c, c2ch, first, freq) =
        ids_lines_to_mappings(&lines(&["#\tcomment", "U+53E3\t口", ""]), &HashMap::new());
    assert!(c2c.is_empty() && c2ch.is_empty() && first.is_empty() && freq.is_empty());
}

#[test]
fn ids_malformed_lines() {
    assert!(try_ids_lines_to_mappings(&lines(&["U+0000\t口口\t口"]), &HashMap::new()).is_none());
    assert!(try_ids_lines_to_mappings(&lines(&["U+0000\t\t口"]), &HashMap::new()).is_none());
    // A later decomposition for a character with no component list yet.
    assert!(try_ids_lines_to_mappings(&lines(&["U+53E3\t口\t口\t木"]), &HashMap::new()).is_none());
    let ok = try_ids_lines_to_mappings(&lines(&["U+53E3\t口\t⿰木木", "U+53E3\t口\t口\t木"]), &HashMap::new())
        .expect("the list exists");
    assert_eq!(ok.2.get(&('口' as u32)), Some(&v("木木木")));
}

#[test]
fn ids_rewriting_before_reading_gives_the_same_maps() {
    let mut rw = HashMap::new();
    rw.insert(0x2F1Du32, '口');
    rw.insert(0x2F4Au32, '木');
    let raw = lines(&["U+54C1\t品\t⿱⼝⿰⼝口", "U+6797\t林\t⿰⽊⽊[J]\t⿰木木", "U+2F1D\t⼝\t⿰木木"]);
    let pre: Vec<String> = raw
        .iter()
        .map(|l| l.chars().map(|c| *rw.get(&(c as u32)).unwrap_or(&c)).collect::<String>())
        .collect();
    assert_eq!(ids_lines_to_mappings(&raw, &rw), ids_lines_to_mappings(&pre, &HashMap::new()));
}

#[test]
fn ids_stored_sets_are_never_empty() {
    let (c2c, c2ch, first, _) = ids_lines_to_mappings(&lines(IDS), &HashMap::new());
    assert!(c2c.values().all(|s| !s.is_empty()));
    assert!(c2ch.values().all(|s| !s.is_empty()));
    assert!(first.values().all(|v| !v.is_empty()));
    for (k, comps) in &c2c {
        for c in comps {
            assert!(c2ch.get(c).map_or(false, |s| s.contains(k)));
        }
    }
}

#[test]
fn ids_line_order_does_not_matter() {
    let a = lines(&["U+6797\t林\t⿰木木", "U+6797\t林\t⿰朩木", "U+3400\t㐀\t⿰口木", "U+54C1\t品\t⿱口⿰口口"]);
    let b = lines(&["U+54C1\t品\t⿱口⿰口口", "U+6797\t林\t⿰朩木", "U+3400\t㐀\t⿰口木", "U+6797\t林\t⿰木木"]);
    let (a0, a1, a2, a3) = ids_lines_to_mappings(&a, &HashMap::new());
    let (b0, b1, b2, b3) = ids_lines_to_mappings(&b, &HashMap::new());
    assert_eq!(a0, b0);
    assert_eq!(a1, b1);
    assert_eq!(a3, b3);
    assert_eq!(a2.len(), b2.len());
    for (k, v) in &a2 {
        let mut x = v.clone();
        let mut y = b2.get(k).expect("same keys").clone();
        x.sort();
        y.sort();
        assert_eq!(x, y);
    }
    assert_eq!(a2.get(&('林' as u32)), Some(&v("木木朩木")));
    assert_eq!(b2.get(&('林' as u32)), Some(&v("朩木木木")));
}
