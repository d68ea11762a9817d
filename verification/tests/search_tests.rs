use std::collections::HashSet;

use kanjisearch::load::{init, InitError};
use kanjisearch::query::{parse_query, QueryArgs};
use kanjisearch::report::kanji_only_in;
use kanjisearch::server::ServerData;

const TEMPLATE: &str = "[{{{input}}}|{{{reverse_checked}}}|{{{simple_checked}}}|{{{selected_joyoplus}}}|{{{selected_media}}}|{{{selected_kanjidicplus}}}|{{{selected_all}}}]{{{output}}}#{{{radical_search}}}";

const IDS: &str = "U+53E3\t口\t口\nU+54C1\t品\t⿱口⿰口口\nU+5340\t區\t⿷匚品\nU+6728\t木\t木\nU+6797\t林\t⿰木木\nU+3400\t㐀\t⿰口木\n";

const DICT: &str = "# Unihan dictionary-like data\nU+531A\tkTotalStrokes\t2\nU+53E3\tkTotalStrokes\t3\nU+53E3\tkFrequency\t1\nU+54C1\tkTotalStrokes\t9\nU+5340\tkTotalStrokes\t11\nU+6728\tkTotalStrokes\t4\nU+6797\tkTotalStrokes\t8\n";

const RADICALS: &str = "# EquivalentUnifiedIdeograph.txt\n2F1D          ; 53E3 #     KANGXI RADICAL MOUTH\n";

const HEAD: &str = "<span class=resetspacing>Ordered by stroke count:</span><br>";
const FOOT: &str = "<span class=resetspacing>Some stroke counts might be estimates.<br>Some characters might be too obscure for your system to render. Consider installing Hanazono Mincho (both HanaMinA and HanaMinB) if this is the case.</span>";
const RADICAL_TEXT: &str = "\n２：<span class=radical>匚</span><br>\n\n３：<span class=radical>⻌</span><span class=radical>口</span><br>\n\n４：<span class=radical>木</span><br>\n\n９：<span class=radical>品</span>";

fn load_with(ids: &str, dict: &str, radicals: &str) -> Result<ServerData, InitError> {
    init(
        TEMPLATE.to_string(),
        &ids.to_string(),
        &"口品區木林㐀".to_string(),
        &"口品區木林".to_string(),
        &"口品木".to_string(),
        &dict.to_string(),
        &radicals.to_string(),
    )
}

fn data() -> ServerData {
    match load_with(IDS, DICT, RADICALS) {
        Ok(d) => d,
        Err(_) => panic!("the sample data loads"),
    }
}

fn args(pairs: &[(&str, &str)]) -> QueryArgs {
    let mut a = QueryArgs::new();
    for (k, v) in pairs {
        a.insert(k, v);
    }
    a
}

fn group(n: &str, cs: &str) -> String {
    let spans: String = cs.chars().map(|c| format!("<span class=c>{}</span>", c)).collect();
    format!("\n{}：{}<br>\n", n, spans)
}

fn listing(groups: &[String]) -> String {
    format!("{}{}{}", HEAD, groups.concat(), FOOT)
}

#[test]
fn init_loads_sample_data() {
    let d = data();
    assert_eq!(d.template, TEMPLATE);
    assert_eq!(d.char_to_comp.len(), 4);
    assert_eq!(d.radical_to_char.get(&0x2F1D), Some(&'口'));
    assert_eq!(d.radical_to_char.get(&0x2ECC), Some(&'辶'));
    assert_eq!(d.char_to_strokes.get(&0x53E3), Some(&3));
    assert_eq!(d.char_to_strokes.len(), 6);
    let joyo: HashSet<u32> = "口品木".chars().map(|c| c as u32).collect();
    assert_eq!(d.joyoplus, joyo);
    assert_eq!(d.common_comps, vec!['匚', '⻌', '口', '木', '品']);
}

#[test]
fn stroke_counts_from_all_sources() {
    let d = data();
    assert_eq!(d.get_strokes('口'), 3);
    assert_eq!(d.get_strokes('品'), 9);
    assert_eq!(d.get_strokes('㐀'), 7);
    assert_eq!(d.get_strokes('辶'), 4);
    assert_eq!(d.get_strokes('⻌'), 3);
    assert_eq!(d.get_strokes('①'), 1);
    assert_eq!(d.get_strokes('⑳'), 20);
    assert_eq!(d.get_strokes('艹'), 4);
    assert_eq!(d.get_strokes('a'), 0);
}

#[test]
fn radical_picker_text() {
    let d = data();
    assert_eq!(d.radical_text(), RADICAL_TEXT);
}

#[test]
fn default_page() {
    let d = data();
    assert_eq!(d.default(), format!("[||||selected||]#{}", RADICAL_TEXT));
}

#[test]
fn search_lite_recursive_all() {
    let d = data();
    let out = d.search(args(&[("input", "口")]), true);
    assert_eq!(out, listing(&[group("７", "㐀"), group("９", "品"), group("１１", "區")]));
}

#[test]
fn search_lite_simple() {
    let d = data();
    let out = d.search(args(&[("input", "口"), ("simple", "")]), true);
    assert_eq!(out, listing(&[group("７", "㐀"), group("９", "品")]));
}

#[test]
fn search_filter_levels() {
    let d = data();
    let joyo = d.search(args(&[("input", "口"), ("filter_level", "joyoplus")]), true);
    assert_eq!(joyo, listing(&[group("９", "品")]));
    let media = d.search(args(&[("input", "口"), ("filter_level", "media")]), true);
    assert_eq!(media, listing(&[group("９", "品"), group("１１", "區")]));
    let kdp = d.search(args(&[("input", "口"), ("filter_level", "kanjidicplus")]), true);
    assert_eq!(kdp, listing(&[group("７", "㐀"), group("９", "品"), group("１１", "區")]));
    let other = d.search(args(&[("input", "口"), ("filter_level", "bogus")]), true);
    assert_eq!(other, media);
}

#[test]
fn search_reverse_is_not_filtered() {
    let d = data();
    let out = d.search(args(&[("input", "區"), ("reverse", ""), ("filter_level", "joyoplus")]), true);
    assert_eq!(out, listing(&[group("２", "匚"), group("３", "口"), group("９", "品")]));
    let simple = d.search(args(&[("input", "區"), ("reverse", ""), ("simple", "")]), true);
    assert_eq!(simple, listing(&[group("２", "匚"), group("９", "品")]));
}

#[test]
fn search_every_component_required() {
    let d = data();
    let out = d.search(args(&[("input", "口木")]), true);
    assert_eq!(out, listing(&[group("７", "㐀")]));
}

#[test]
fn search_radical_form_input() {
    let d = data();
    let out = d.search(args(&[("input", "⼝")]), true);
    assert_eq!(out, listing(&[group("７", "㐀"), group("９", "品"), group("１１", "區")]));
}

#[test]
fn search_no_matches() {
    let d = data();
    let out = d.search(args(&[("input", "林")]), true);
    assert_eq!(out, format!("{}(no matches)<br>{}", HEAD, FOOT));
    let empty = d.search(args(&[("input", "")]), true);
    assert_eq!(empty, out);
}

#[test]
fn search_lookup_argument() {
    let d = data();
    let out = d.search(args(&[("lookup", "品")]), true);
    assert_eq!(out, listing(&[group("１１", "區")]));
    let both = d.search(args(&[("lookup", "品"), ("input", "木")]), true);
    assert_eq!(both, listing(&[group("７", "㐀"), group("８", "林")]));
}

#[test]
fn search_without_input() {
    let d = data();
    assert_eq!(d.search(args(&[]), true), "");
    let page = d.search(args(&[("reverse", "")]), false);
    assert_eq!(page, format!("[|checked|||||selected]#{}", RADICAL_TEXT));
}

#[test]
fn search_full_page() {
    let d = data();
    let page = d.search(args(&[("input", "口"), ("simple", ""), ("filter_level", "media")]), false);
    let list = listing(&[group("９", "品")]);
    assert_eq!(page, format!("[口||checked||selected||]{}#{}", list, RADICAL_TEXT));
}

#[test]
fn search_from_raw_query() {
    let d = data();
    let a = parse_query("input=%E5%8F%A3&simple&filter_level=joyoplus").expect("query reads");
    assert_eq!(d.search(a, true), listing(&[group("９", "品")]));
}

#[test]
fn most_strokes_of_sample() {
    let d = data();
    assert_eq!(d.most_strokes(), Some((11, vec!['區'])));
}

#[test]
fn lookups_directly() {
    let d = data();
    let mut seen = HashSet::new();
    let start: HashSet<u32> = ['區' as u32].into_iter().collect();
    let comps = d.chars_to_components(&mut seen, &start, true);
    let expected: HashSet<u32> = "匚品口".chars().map(|c| c as u32).collect();
    assert_eq!(comps, expected);
    assert_eq!(seen, expected);
    let mut seen2 = HashSet::new();
    let chars = d.component_to_chars(&mut seen2, '口' as u32, false);
    let direct: HashSet<u32> = "品㐀".chars().map(|c| c as u32).collect();
    assert_eq!(chars, direct);
    let mut seen3: HashSet<u32> = ['品' as u32].into_iter().collect();
    let set: HashSet<u32> = ['口' as u32].into_iter().collect();
    let all = d.components_to_chars(&mut seen3, &set, true);
    let expected_all: HashSet<u32> = "㐀".chars().map(|c| c as u32).collect();
    assert_eq!(all, expected_all);
    assert_eq!(seen3.len(), 1);
}

#[test]
fn init_error_radical_line() {
    assert!(matches!(load_with(IDS, DICT, "ZZ ; 53E3\n"), Err(InitError::RadicalLine)));
}

#[test]
fn init_error_ids_line() {
    assert!(matches!(load_with("U+0000\t口口\t口\n", DICT, RADICALS), Err(InitError::IdsLine)));
}

#[test]
fn init_error_stroke_line() {
    assert!(matches!(load_with(IDS, "U+53E3\tkTotalStrokes\tabc\n", RADICALS), Err(InitError::StrokeLine)));
}

#[test]
fn init_error_stroke_cycle() {
    let ids = "U+4E00\t一\t丁\nU+4E01\t丁\t一\n";
    assert!(matches!(load_with(ids, "", RADICALS), Err(InitError::StrokeCount)));
}

#[test]
fn init_error_stroke_overflow() {
    let dict = "U+6728\tkTotalStrokes\t18446744073709551615\n";
    let ids = "U+6797\t林\t⿰木木\nU+68EE\t森\t⿱木林\n";
    assert!(matches!(load_with(ids, dict, RADICALS), Err(InitError::StrokeCount)));
    match load_with("U+6797\t林\t⿰木木\n", dict, RADICALS) {
        Ok(d) => assert!(!d.check_strokes()),
        Err(_) => panic!("the picker components all have stroke counts"),
    }
}

#[test]
fn compare_lists() {
    assert_eq!(kanji_only_in(&"林口木口".to_string(), &"木".to_string()), vec!['口', '林']);
    assert_eq!(kanji_only_in(&"".to_string(), &"木".to_string()), Vec::<char>::new());
    assert_eq!(kanji_only_in(&"木".to_string(), &"木".to_string()), Vec::<char>::new());
}

#[test]
fn stroke_cycle_outside_picker_loads() {
    let mut ids = String::new();
    for i in 0..300u32 {
        let k = char::from_u32(0x6000 + i).unwrap();
        let c = char::from_u32(0x5000 + i).unwrap();
        ids.push_str(&format!("U+{:X}\t{}\t⿰{}{}\n", 0x6000 + i, k, c, c));
    }
    ids.push_str("U+4E01\t丁\t丂\nU+4E02\t丂\t丁\n");
    let d = match load_with(&ids, "", RADICALS) {
        Ok(d) => d,
        Err(_) => panic!("the picker components all have stroke counts"),
    };
    assert_eq!(d.common_comps.len(), 301);
    assert!(!d.common_comps.contains(&'丁'));
    assert!(!d.check_strokes());
}

#[test]
fn stroke_check_passes_on_sample() {
    assert!(data().check_strokes());
}

#[test]
fn characters_without_stroke_counts() {
    let d = data();
    assert!(d.has_no_stroke_count('a'));
    assert!(d.has_no_stroke_count('丁'));
    assert!(!d.has_no_stroke_count('口'));
    assert!(!d.has_no_stroke_count('①'));
    assert!(!d.has_no_stroke_count('辶'));
    assert!(!d.has_no_stroke_count('㐀'));
    assert_eq!(d.missing_stroke_counts(&vec!['口', 'a', '丁', '①', 'b']), vec!['a', '丁', 'b']);
    assert_eq!(d.missing_stroke_counts(&d.common_comps), Vec::<char>::new());
}

#[test]
fn missing_counts_inside_components() {
    let d = match load_with("U+4E01\t丁\t⿰xy丂z\n", "", RADICALS) {
        Ok(d) => d,
        Err(_) => panic!("loads"),
    };
    assert_eq!(d.get_strokes('丁'), 0);
    assert_eq!(d.missing_stroke_counts(&vec!['丁', '丂']), vec!['丂', '丂']);
}

#[test]
fn search_hits_in_reply_order() {
    let d = data();
    assert_eq!(d.search_hits(&args(&[("input", "口")])), Some(vec!['㐀', '品', '區']));
    assert_eq!(d.search_hits(&args(&[("input", "口"), ("filter_level", "media")])), Some(vec!['品', '區']));
    assert_eq!(d.search_hits(&args(&[("lookup", "區"), ("reverse", "")])), Some(vec!['匚', '口', '品']));
    assert_eq!(d.search_hits(&args(&[("input", "林")])), Some(vec![]));
    assert_eq!(d.search_hits(&args(&[("simple", "")])), None);
}

#[test]
fn start_page_is_empty_media_search() {
    let d = data();
    assert_eq!(d.default(), d.search(args(&[("filter_level", "media")]), false));
}

#[test]
fn counts_away_from_a_cycle_still_work() {
    let mut d = data();
    d.char_to_first_comp.insert('丁' as u32, vec!['丂']);
    d.char_to_first_comp.insert('丂' as u32, vec!['丁']);
    assert!(!d.check_strokes());
    assert_eq!(d.get_strokes('㐀'), 7);
    assert_eq!(d.get_strokes('區'), 11);
    let out = d.search(args(&[("input", "口")]), true);
    assert_eq!(out, listing(&[group("７", "㐀"), group("９", "品"), group("１１", "區")]));
    assert_eq!(d.search_hits(&args(&[("input", "木")])), Some(vec!['㐀', '林']));
}
