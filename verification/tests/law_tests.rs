use std::collections::{HashMap, HashSet};

use kanjisearch::charset::{add_all, copy_set, map_entries, map_keys, set_difference, set_intersection, set_to_vec};
use kanjisearch::load::init;
use kanjisearch::order::{comes_before, sort_pairs};
use kanjisearch::server::ServerData;

const IDS: &str = "U+54C1\t品\t⿱口⿰口口\nU+5340\t區\t⿷匚品\nU+6797\t林\t⿰木木\nU+3400\t㐀\t⿰口木\nU+4E00\t一\t一\n";
const DICT: &str = "U+531A\tkTotalStrokes\t2\nU+53E3\tkTotalStrokes\t3\nU+5340\tkTotalStrokes\t11\nU+6728\tkTotalStrokes\t4\n";

fn data() -> ServerData {
    match init("".to_string(), &IDS.to_string(), &"".to_string(), &"".to_string(), &"".to_string(), &DICT.to_string(), &"".to_string()) {
        Ok(d) => d,
        Err(_) => panic!("the sample data loads"),
    }
}

fn codes(s: &str) -> HashSet<u32> {
    s.chars().map(|c| c as u32).collect()
}

fn chars_holding(d: &ServerData, c: char, recursive: bool) -> HashSet<u32> {
    d.component_to_chars(&mut HashSet::new(), c as u32, recursive)
}

fn components_of(d: &ServerData, c: char, recursive: bool) -> HashSet<u32> {
    d.chars_to_components(&mut HashSet::new(), &codes(&c.to_string()), recursive)
}

#[test]
fn lookup_directions_agree_on_sample() {
    let d = data();
    for recursive in [false, true] {
        for x in "口品區木林㐀匚一".chars() {
            for y in "口品區木林㐀匚一".chars() {
                let forward = chars_holding(&d, x, recursive).contains(&(y as u32));
                let backward = components_of(&d, y, recursive).contains(&(x as u32));
                assert_eq!(forward, backward, "{} {} {}", x, y, recursive);
            }
        }
    }
    assert!(chars_holding(&d, '口', true).contains(&('區' as u32)));
    assert!(!chars_holding(&d, '口', false).contains(&('區' as u32)));
}

#[test]
fn simple_search_within_recursive_on_sample() {
    let d = data();
    for c in "口品木匚".chars() {
        let simple = chars_holding(&d, c, false);
        let deep = chars_holding(&d, c, true);
        assert!(simple.is_subset(&deep));
    }
}

#[test]
fn more_components_fewer_chars_on_sample() {
    let d = data();
    let one = d.components_to_chars(&mut HashSet::new(), &codes("口"), true);
    let two = d.components_to_chars(&mut HashSet::new(), &codes("口木"), true);
    assert_eq!(one, codes("品區㐀"));
    assert_eq!(two, codes("㐀"));
    assert!(two.is_subset(&one));
    let none = d.components_to_chars(&mut HashSet::new(), &HashSet::new(), true);
    assert!(none.is_empty());
}

#[test]
fn strokes_add_up_on_sample() {
    let d = data();
    assert_eq!(d.get_strokes('品'), 3 * d.get_strokes('口'));
    assert_eq!(d.get_strokes('㐀'), d.get_strokes('口') + d.get_strokes('木'));
    assert_eq!(d.get_strokes('林'), 8);
    assert_eq!(d.get_strokes('區'), 11);
    assert_eq!(d.get_strokes('一'), 0);
    assert_eq!(d.strokes_checked('品', 0), None);
    assert_eq!(d.strokes_checked('品', 1), Some(9));
    assert_eq!(d.strokes_checked('口', 0), Some(3));
    assert!(d.check_strokes());
}

#[test]
fn pairs_sorted_by_count_then_code() {
    let v = vec![(30u32, 2u64), (10, 5), (20, 2), (5, 9)];
    assert_eq!(sort_pairs(&v, false), vec![(20, 2), (30, 2), (10, 5), (5, 9)]);
    assert_eq!(sort_pairs(&v, true), vec![(5, 9), (10, 5), (20, 2), (30, 2)]);
    assert!(comes_before((1, 2), (2, 2), false));
    assert!(!comes_before((1, 3), (2, 2), false));
    assert!(comes_before((1, 3), (2, 2), true));
    assert_eq!(sort_pairs(&Vec::new(), false), Vec::new());
}

#[test]
fn set_helpers() {
    let a = codes("口品木");
    let b = codes("木林");
    assert_eq!(set_difference(&a, &b), codes("口品"));
    assert_eq!(set_intersection(&a, &b), codes("木"));
    assert_eq!(copy_set(&a), a);
    let mut c = a.clone();
    add_all(&mut c, &b);
    assert_eq!(c, codes("口品木林"));
    let mut v = set_to_vec(&a);
    v.sort();
    let mut w: Vec<u32> = a.iter().cloned().collect();
    w.sort();
    assert_eq!(v, w);
    let mut m: HashMap<u32, u64> = HashMap::new();
    m.insert(1, 10);
    m.insert(2, 20);
    let mut keys = map_keys(&m);
    keys.sort();
    assert_eq!(keys, vec![1, 2]);
    let mut entries = map_entries(&m);
    entries.sort();
    assert_eq!(entries, vec![(1, 10), (2, 20)]);
}
