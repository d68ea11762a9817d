use kanjisearch::classify::{is_ascii, is_descriptor, is_hanzi, is_non_radical_search_component};
use kanjisearch::text::{
    chars_of, decimal_chars, fill_slot, find_chars, first_two_pieces_chars, full_width_digits,
    full_width_of, has_char, lines_chars, matches_at, parse_unsigned_chars, push_chars,
    replace_chars, same_chars, slice_chars, split_chars, starts_with_chars, string_of, trim_chars,
};

fn v(s: &str) -> Vec<char> {
    s.chars().collect()
}

#[test]
fn hanzi_ranges() {
    assert!(is_hanzi(0x4E00));
    assert!(is_hanzi(0x9FFF));
    assert!(is_hanzi(0x3400));
    assert!(is_hanzi(0x4DBF));
    assert!(is_hanzi(0x20000));
    assert!(is_hanzi(0x2A6DF));
    assert!(!is_hanzi(0x2A6E0));
    assert!(is_hanzi(0x2A700));
    assert!(is_hanzi(0x2EBEF));
    assert!(!is_hanzi(0x2EBF0));
    assert!(is_hanzi(0xF900));
    assert!(is_hanzi(0xFAFF));
    assert!(!is_hanzi(0x41));
    assert!(!is_hanzi(0x33FF));
}

#[test]
fn descriptors_and_ascii() {
    assert!(is_descriptor('⿰'));
    assert!(is_descriptor('⿻'));
    assert!(!is_descriptor('\u{2FFC}'));
    assert!(!is_descriptor('口'));
    assert!(is_ascii('a'));
    assert!(is_ascii('\u{FF}'));
    assert!(!is_ascii('\u{100}'));
    assert!(!is_ascii('口'));
}

#[test]
fn non_radical_search_components() {
    assert!(is_non_radical_search_component(&'①'));
    assert!(is_non_radical_search_component(&'⑳'));
    assert!(is_non_radical_search_component(&'纟'));
    assert!(is_non_radical_search_component(&'讠'));
    assert!(!is_non_radical_search_component(&'口'));
    assert!(!is_non_radical_search_component(&'a'));
}

#[test]
fn full_width_digits_converts_every_digit() {
    assert_eq!(full_width_digits(&"abc123".to_string()), "abc１２３");
    assert_eq!(full_width_digits(&"0987654".to_string()), "０９８７６５４");
    assert_eq!(full_width_digits(&"".to_string()), "");
    assert_eq!(full_width_digits(&"\n12：".to_string()), "\n１２：");
    assert_eq!(full_width_of('5'), '５');
    assert_eq!(full_width_of('x'), 'x');
}

#[test]
fn decimal_digits() {
    assert_eq!(decimal_chars(0), v("0"));
    assert_eq!(decimal_chars(120), v("120"));
    assert_eq!(decimal_chars(u64::MAX), v("18446744073709551615"));
}

#[test]
fn unsigned_numbers_read_like_from_str_radix() {
    assert_eq!(parse_unsigned_chars(&v("ff"), 16, u32::MAX as u64), Some(255));
    assert_eq!(parse_unsigned_chars(&v("FF"), 16, u32::MAX as u64), Some(255));
    assert_eq!(parse_unsigned_chars(&v("53E3"), 16, u32::MAX as u64), Some(0x53E3));
    assert_eq!(parse_unsigned_chars(&v("+12"), 10, u64::MAX), Some(12));
    assert_eq!(parse_unsigned_chars(&v(""), 10, u64::MAX), None);
    assert_eq!(parse_unsigned_chars(&v("+"), 10, u64::MAX), None);
    assert_eq!(parse_unsigned_chars(&v("-1"), 10, u64::MAX), None);
    assert_eq!(parse_unsigned_chars(&v("1g"), 16, u32::MAX as u64), None);
    assert_eq!(parse_unsigned_chars(&v(" 1"), 10, u64::MAX), None);
    assert_eq!(parse_unsigned_chars(&v("4294967295"), 10, u32::MAX as u64), Some(4294967295));
    assert_eq!(parse_unsigned_chars(&v("4294967296"), 10, u32::MAX as u64), None);
    assert_eq!(parse_unsigned_chars(&v("18446744073709551615"), 10, u64::MAX), Some(u64::MAX));
    assert_eq!(parse_unsigned_chars(&v("18446744073709551616"), 10, u64::MAX), None);
}

#[test]
fn lines_like_str_lines() {
    assert_eq!(lines_chars(&v("a\nb\r\nc\n")), vec![v("a"), v("b"), v("c")]);
    assert_eq!(lines_chars(&v("")), Vec::<Vec<char>>::new());
    assert_eq!(lines_chars(&v("\n")), vec![v("")]);
    assert_eq!(lines_chars(&v("a\n\nb")), vec![v("a"), v(""), v("b")]);
    assert_eq!(lines_chars(&v("a\r")), vec![v("a\r")]);
}

#[test]
fn trimming_whitespace() {
    assert_eq!(trim_chars(&v("  a b \t")), v("a b"));
    assert_eq!(trim_chars(&v("\u{3000}口\u{3000}")), v("口"));
    assert_eq!(trim_chars(&v("   ")), v(""));
    assert_eq!(trim_chars(&v("x")), v("x"));
}

#[test]
fn splitting_and_pieces() {
    assert_eq!(split_chars(&v("a;b;;c"), ';'), vec![v("a"), v("b"), v(""), v("c")]);
    assert_eq!(split_chars(&v(""), ';'), vec![v("")]);
    assert_eq!(first_two_pieces_chars(&v("2E8C..2E8D"), &v("..")), (v("2E8C"), v("2E8D")));
    assert_eq!(first_two_pieces_chars(&v("abc"), &v("..")), (v("abc"), v("")));
    assert_eq!(first_two_pieces_chars(&v("1..2..3"), &v("..")), (v("1"), v("2")));
}

#[test]
fn replacing_and_slots() {
    assert_eq!(replace_chars(&v("aXbXc"), &v("X"), &v("yy")), v("ayybyyc"));
    assert_eq!(replace_chars(&v("aaa"), &v("aa"), &v("b")), v("ba"));
    assert_eq!(replace_chars(&v("abc"), &v("z"), &v("q")), v("abc"));
    assert_eq!(fill_slot(&v("<{{{input}}}>{{{input}}}"), "input", &v("口")), v("<口>口"));
    assert_eq!(fill_slot(&v("{{{other}}}"), "input", &v("口")), v("{{{other}}}"));
}

#[test]
fn searching_text() {
    assert!(has_char(&v("abc"), 'b'));
    assert!(!has_char(&v("abc"), 'd'));
    assert_eq!(find_chars(&v("abcabc"), &v("ca"), 0), Some(2));
    assert_eq!(find_chars(&v("abcabc"), &v("bc"), 2), Some(4));
    assert_eq!(find_chars(&v("abc"), &v("x"), 0), None);
    assert!(matches_at(&v("abcd"), 1, &v("bc")));
    assert!(!matches_at(&v("abcd"), 3, &v("de")));
    assert!(starts_with_chars(&v("U+53E3"), &v("U+")));
    assert!(!starts_with_chars(&v("U"), &v("U+")));
    assert!(same_chars(&v("口"), &v("口")));
    assert!(!same_chars(&v("口"), &v("口口")));
    assert_eq!(slice_chars(&v("U+53E3"), 2, 6), v("53E3"));
}

#[test]
fn characters_and_strings() {
    assert_eq!(chars_of("口a"), v("口a"));
    assert_eq!(string_of(&v("品b")), "品b");
    let mut s = "a".to_string();
    push_chars(&mut s, &v("口品"));
    assert_eq!(s, "a口品");
}
