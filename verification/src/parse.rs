//! Reading the Unihan radical equivalences and stroke counts.
use vstd::prelude::*;
use std::collections::HashMap;
use crate::text::{
    chars_of, contains_seq, find_chars, first_two_pieces, first_two_pieces_chars, is_char_code,
    char_from_u32, lemma_find_from, parse_unsigned, parse_unsigned_chars, same_chars, split_chars,
    split_on, starts_with_chars, trim, trim_chars, lemma_split_nonempty,
};

verus! {

broadcast use vstd::std_specs::hash::group_hash_axioms;

/// The characters of each line.
pub open spec fn line_views(lines: Seq<String>) -> Seq<Seq<char>> {
    lines.map_values(|l: String| l@)
}

/// A hexadecimal number as `u32::from_str_radix(_, 16)` reads it.
pub open spec fn hex_u32(s: Seq<char>) -> Option<nat> {
    parse_unsigned(s, 16, u32::MAX as nat)
}

/// A decimal number as `str::parse::<u64>` reads it.
pub open spec fn dec_u64(s: Seq<char>) -> Option<nat> {
    parse_unsigned(s, 10, u64::MAX as nat)
}

/// `s` denotes in hexadecimal the code point of a character.
pub open spec fn hex_char(s: Seq<char>) -> bool {
    hex_u32(s) matches Some(v) && is_char_code(v as u32)
}

// ---------------------------------------------------------------------
// Radical equivalences: "SOURCE ; DEST # comment", SOURCE a code point or
// a range "LO..HI" of them, each standing for the character DEST.

/// The fields of a radical line: the part before any `#`, split at `;`,
/// each field trimmed.
pub open spec fn radical_fields(l: Seq<char>) -> Seq<Seq<char>> {
    split_on(split_on(l, '#')[0], ';').map_values(|t: Seq<char>| trim(t))
}

/// The separator of a range of code points.
pub open spec fn range_sep() -> Seq<char> {
    seq!['.', '.']
}

/// The code points named by a radical line's source field: `(lo, hi)`.
pub open spec fn radical_source_range(src: Seq<char>) -> (nat, nat) {
    if !contains_seq(src, range_sep()) {
        (hex_u32(src)->0, hex_u32(src)->0)
    } else {
        let (a, b) = first_two_pieces(src, range_sep());
        (hex_u32(a)->0, hex_u32(b)->0)
    }
}

/// Every number from `lo` to `hi` is a character's code point.
pub open spec fn all_char_codes(lo: nat, hi: nat) -> bool {
    forall|k: u32| lo <= k <= hi ==> #[trigger] is_char_code(k)
}

/// A radical line is read without failing: it has fewer than two fields,
/// or its fields are code points in hexadecimal (a range holding only
/// code points of characters).
pub open spec fn radical_line_ok(l: Seq<char>) -> bool {
    let f = radical_fields(l);
    f.len() < 2 || {
        &&& hex_char(f[1])
        &&& if !contains_seq(f[0], range_sep()) {
            hex_char(f[0])
        } else {
            let (a, b) = first_two_pieces(f[0], range_sep());
            &&& hex_u32(a) is Some
            &&& hex_u32(b) is Some
            &&& all_char_codes(hex_u32(a)->0, hex_u32(b)->0)
        }
    }
}

/// The mapping after reading one more radical line: each code point of
/// the source stands for the destination character.
pub open spec fn apply_radical_line(m: Map<u32, char>, l: Seq<char>) -> Map<u32, char> {
    let f = radical_fields(l);
    if f.len() < 2 {
        m
    } else {
        let dest = (hex_u32(f[1])->0 as u32) as char;
        let (lo, hi) = radical_source_range(f[0]);
        m.union_prefer_right(Map::new(|k: u32| lo <= k <= hi, |k: u32| dest))
    }
}

/// The mapping from radical forms read from `lines`, later lines winning.
pub open spec fn radical_map(lines: Seq<Seq<char>>) -> Map<u32, char>
    decreases lines.len(),
{
    if lines.len() == 0 {
        Map::empty()
    } else {
        apply_radical_line(radical_map(lines.drop_last()), lines.last())
    }
}

/// The mapping from radical forms, with U+2ECC standing for 辶 as well.
pub open spec fn radical_conversion(lines: Seq<Seq<char>>) -> Map<u32, char> {
    radical_map(lines).insert('⻌' as u32, '辶')
}

/// What one radical line says.
pub enum RadicalLine {
    /// A line with fewer than two fields.
    Skip,
    /// A line that cannot be read.
    Malformed,
    /// The code points `lo` to `hi` stand for the character.
    Entry(u32, u32, char),
}

/// Whether every number from `lo` to `hi` is a character's code point.
fn range_all_chars(lo: u32, hi: u32) -> (b: bool)
    ensures
        b == all_char_codes(lo as nat, hi as nat),
{
    if lo > hi {
        return true;
    }
    let b = hi <= 0x10FFFF && (hi < 0xD800 || lo > 0xDFFF);
    proof {
        if b {
            assert forall|k: u32| lo <= k <= hi implies #[trigger] is_char_code(k) by {}
        } else {
            if hi > 0x10FFFF {
                assert(!is_char_code(hi));
            } else {
                let w: u32 = if lo > 0xD800 { lo } else { 0xD800 };
                assert(lo <= w <= hi && !is_char_code(w));
            }
        }
    }
    b
}

/// The hexadecimal code point in `s`, as a character.
fn hex_char_of(s: &Vec<char>) -> (r: Option<char>)
    ensures
        r is Some <==> hex_char(s@),
        r matches Some(c) ==> c as u32 == hex_u32(s@)->0,
{
    match parse_unsigned_chars(s, 16, 0xFFFF_FFFF) {
        Some(v) => char_from_u32(v as u32),
        None => None,
    }
}

/// Reads one radical line.
pub fn radical_line(l: &Vec<char>) -> (r: RadicalLine)
    ensures
        match r {
            RadicalLine::Skip => radical_fields(l@).len() < 2,
            RadicalLine::Malformed => !radical_line_ok(l@),
            RadicalLine::Entry(lo, hi, c) => {
                &&& radical_fields(l@).len() >= 2
                &&& radical_line_ok(l@)
                &&& (lo as nat, hi as nat) == radical_source_range(radical_fields(l@)[0])
                &&& c as u32 == hex_u32(radical_fields(l@)[1])->0
            },
        },
{
    let pieces = split_chars(l, '#');
    proof {
        lemma_split_nonempty(l@, '#');
    }
    let before = &pieces[0];
    let raw = split_chars(before, ';');
    let mut fields: Vec<Vec<char>> = Vec::new();
    let mut i: usize = 0;
    while i < raw.len()
        invariant
            0 <= i <= raw@.len(),
            raw@.map_values(|p: Vec<char>| p@) == split_on(before@, ';'),
            fields@.map_values(|p: Vec<char>| p@) == split_on(before@, ';').take(i as int).map_values(|t: Seq<char>| trim(t)),
        decreases raw@.len() - i,
    {
        assert(raw@[i as int]@ == split_on(before@, ';')[i as int]);
        let t = trim_chars(&raw[i]);
        fields.push(t);
        let ghost sp = split_on(before@, ';');
        assert(sp.take(i as int + 1).map_values(|t: Seq<char>| trim(t)) =~= sp.take(i as int).map_values(|t: Seq<char>| trim(t)).push(trim(sp[i as int])));
        assert(fields@.map_values(|p: Vec<char>| p@) =~= sp.take(i as int).map_values(|t: Seq<char>| trim(t)).push(trim(sp[i as int])));
        i = i + 1;
    }
    assert(split_on(before@, ';').take(i as int) =~= split_on(before@, ';'));
    assert(fields@.map_values(|p: Vec<char>| p@) == radical_fields(l@));
    if fields.len() < 2 {
        return RadicalLine::Skip;
    }
    assert(fields@[0]@ == radical_fields(l@)[0]);
    assert(fields@[1]@ == radical_fields(l@)[1]);
    let dest = match hex_char_of(&fields[1]) {
        Some(c) => c,
        None => {
            return RadicalLine::Malformed;
        },
    };
    let sep: Vec<char> = vec!['.', '.'];
    assert(sep@ =~= range_sep());
    match find_chars(&fields[0], &sep, 0) {
        None => {
            match hex_char_of(&fields[0]) {
                Some(c) => RadicalLine::Entry(c as u32, c as u32, dest),
                None => RadicalLine::Malformed,
            }
        },
        Some(_) => {
            let (a, b) = first_two_pieces_chars(&fields[0], &sep);
            let lo = match parse_unsigned_chars(&a, 16, 0xFFFF_FFFF) {
                Some(v) => v as u32,
                None => {
                    return RadicalLine::Malformed;
                },
            };
            let hi = match parse_unsigned_chars(&b, 16, 0xFFFF_FFFF) {
                Some(v) => v as u32,
                None => {
                    return RadicalLine::Malformed;
                },
            };
            if range_all_chars(lo, hi) {
                RadicalLine::Entry(lo, hi, dest)
            } else {
                RadicalLine::Malformed
            }
        },
    }
}

/// Reads the radical equivalence lines into a mapping from radical forms
/// to the characters they stand for (later lines winning, and U+2ECC
/// standing for 辶); `None` when a line cannot be read.
pub fn try_build_radical_character_conversion(lines: &Vec<String>) -> (r: Option<HashMap<u32, char>>)
    ensures
        match r {
            Some(m) => (forall|i: int| 0 <= i < lines@.len() ==> radical_line_ok(#[trigger] lines@[i]@))
                && m@ == radical_conversion(line_views(lines@)),
            None => exists|i: int| 0 <= i < lines@.len() && !radical_line_ok(#[trigger] lines@[i]@),
        },
{
    let mut mapping: HashMap<u32, char> = HashMap::new();
    let mut i: usize = 0;
    while i < lines.len()
        invariant
            0 <= i <= lines@.len(),
            forall|j: int| 0 <= j < i ==> radical_line_ok(#[trigger] lines@[j]@),
            mapping@ == radical_map(line_views(lines@).take(i as int)),
        decreases lines@.len() - i,
    {
        let line = chars_of(lines[i].as_str());
        let ghost prefix = line_views(lines@).take(i as int + 1);
        proof {
            assert(prefix.drop_last() =~= line_views(lines@).take(i as int));
            assert(prefix.last() == lines@[i as int]@);
        }
        match radical_line(&line) {
            RadicalLine::Skip => {},
            RadicalLine::Malformed => {
                return None;
            },
            RadicalLine::Entry(lo, hi, kanji) => {
                let ghost base = mapping@;
                if lo <= hi {
                    let mut k: u32 = lo;
                    while k < hi
                        invariant
                            lo <= k <= hi,
                            mapping@ == base.union_prefer_right(
                                Map::new(|j: u32| lo <= j < k, |j: u32| kanji),
                            ),
                        decreases hi - k,
                    {
                        mapping.insert(k, kanji);
                        assert(mapping@ =~= base.union_prefer_right(
                            Map::new(|j: u32| lo <= j < k + 1, |j: u32| kanji),
                        ));
                        k = k + 1;
                    }
                    mapping.insert(hi, kanji);
                }
                proof {
                    let f = radical_fields(line@);
                    let dest = (hex_u32(f[1])->0 as u32) as char;
                    assert(dest == kanji);
                    if lo > hi {
                        assert(Map::new(|j: u32| lo <= j <= hi, |j: u32| kanji) =~= Map::<u32, char>::empty());
                    }
                    assert(mapping@ =~= base.union_prefer_right(
                        Map::new(|j: u32| lo <= j <= hi, |j: u32| kanji),
                    ));
                }
            },
        }
        i = i + 1;
    }
    assert(line_views(lines@).take(i as int) =~= line_views(lines@));
    mapping.insert('⻌' as u32, '辶');
    Some(mapping)
}

/// Reads the radical equivalence lines into a mapping from radical forms
/// to the characters they stand for, later lines winning, with U+2ECC
/// standing for 辶.
pub fn build_radical_character_conversion(lines: &Vec<String>) -> (mapping: HashMap<u32, char>)
    requires
        forall|i: int| 0 <= i < lines@.len() ==> radical_line_ok(#[trigger] lines@[i]@),
    ensures
        mapping@ == radical_conversion(line_views(lines@)),
{
    match try_build_radical_character_conversion(lines) {
        Some(m) => m,
        None => HashMap::new(),
    }
}

// ---------------------------------------------------------------------
// Stroke counts: "U+XXXX <tab> kTotalStrokes <tab> N ..." lines.

/// The name of the stroke-count field.
pub open spec fn total_strokes_tag() -> Seq<char> {
    seq!['k', 'T', 'o', 't', 'a', 'l', 'S', 't', 'r', 'o', 'k', 'e', 's']
}

/// The prefix of a code point.
pub open spec fn code_prefix() -> Seq<char> {
    seq!['U', '+']
}

/// The tab-separated fields of a line.
pub open spec fn tab_fields(l: Seq<char>) -> Seq<Seq<char>> {
    split_on(l, '\t')
}

/// Whether a line gives a stroke count (three or more fields, the second
/// being the stroke-count tag).
pub open spec fn is_stroke_line(l: Seq<char>) -> bool {
    tab_fields(l).len() >= 3 && tab_fields(l)[1] == total_strokes_tag()
}

/// The code point of a stroke line's character.
pub open spec fn stroke_line_code(l: Seq<char>) -> nat {
    hex_u32(tab_fields(l)[0].skip(2))->0
}

/// The stroke count of a stroke line: the first space-separated piece of
/// its third field.
pub open spec fn stroke_line_count(l: Seq<char>) -> nat {
    dec_u64(split_on(tab_fields(l)[2], ' ')[0])->0
}

/// A stroke line is read without failing: it is no stroke line, or its
/// first field is `U+` and four or five hexadecimal digits naming a
/// character, and its count is a number.
pub open spec fn stroke_line_ok(l: Seq<char>) -> bool {
    !is_stroke_line(l) || {
        let cp = tab_fields(l)[0];
        &&& cp.len() >= 2
        &&& cp.take(2) == code_prefix()
        &&& (cp.len() == 6 || cp.len() == 7)
        &&& hex_char(cp.skip(2))
        &&& dec_u64(split_on(tab_fields(l)[2], ' ')[0]) is Some
    }
}

/// The stroke counts read from `lines`, later lines winning.
pub open spec fn stroke_map(lines: Seq<Seq<char>>) -> Map<u32, u64>
    decreases lines.len(),
{
    if lines.len() == 0 {
        Map::empty()
    } else {
        let m = stroke_map(lines.drop_last());
        let l = lines.last();
        if is_stroke_line(l) {
            m.insert(stroke_line_code(l) as u32, stroke_line_count(l) as u64)
        } else {
            m
        }
    }
}

/// What one stroke line says.
pub enum StrokeLine {
    /// Not a stroke line.
    Skip,
    /// A stroke line that cannot be read.
    Malformed,
    /// The character has the count.
    Entry(char, u64),
}

/// Reads one stroke line.
pub fn stroke_line(l: &Vec<char>) -> (r: StrokeLine)
    ensures
        match r {
            StrokeLine::Skip => !is_stroke_line(l@),
            StrokeLine::Malformed => !stroke_line_ok(l@),
            StrokeLine::Entry(c, n) => is_stroke_line(l@) && stroke_line_ok(l@) && c as u32
                == stroke_line_code(l@) && n == stroke_line_count(l@),
        },
{
    let tokens = split_chars(l, '\t');
    if tokens.len() < 3 {
        return StrokeLine::Skip;
    }
    assert(tokens@[1]@ == tab_fields(l@)[1]);
    assert(tokens@[0]@ == tab_fields(l@)[0]);
    assert(tokens@[2]@ == tab_fields(l@)[2]);
    let tag = chars_of("kTotalStrokes");
    proof {
        reveal_strlit("kTotalStrokes");
        assert(tag@ =~= total_strokes_tag());
    }
    if !same_chars(&tokens[1], &tag) {
        return StrokeLine::Skip;
    }
    let cp = &tokens[0];
    let prefix: Vec<char> = vec!['U', '+'];
    assert(prefix@ =~= code_prefix());
    if !starts_with_chars(cp, &prefix) {
        return StrokeLine::Malformed;
    }
    if cp.len() != 6 && cp.len() != 7 {
        return StrokeLine::Malformed;
    }
    let digits = crate::text::slice_chars(cp, 2, cp.len());
    assert(digits@ =~= cp@.skip(2));
    let kanji = match hex_char_of(&digits) {
        Some(c) => c,
        None => {
            return StrokeLine::Malformed;
        },
    };
    let words = split_chars(&tokens[2], ' ');
    proof {
        lemma_split_nonempty(tokens@[2]@, ' ');
    }
    match parse_unsigned_chars(&words[0], 10, 0xFFFF_FFFF_FFFF_FFFF) {
        Some(n) => StrokeLine::Entry(kanji, n),
        None => StrokeLine::Malformed,
    }
}

/// Reads the dictionary lines into stroke counts, later lines winning;
/// `None` when a stroke line cannot be read.
pub fn try_build_stroke_count_mapping(lines: &Vec<String>) -> (r: Option<HashMap<u32, u64>>)
    ensures
        match r {
            Some(m) => (forall|i: int| 0 <= i < lines@.len() ==> stroke_line_ok(#[trigger] lines@[i]@))
                && m@ == stroke_map(line_views(lines@)),
            None => exists|i: int| 0 <= i < lines@.len() && !stroke_line_ok(#[trigger] lines@[i]@),
        },
{
    let mut counts: HashMap<u32, u64> = HashMap::new();
    let mut i: usize = 0;
    while i < lines.len()
        invariant
            0 <= i <= lines@.len(),
            forall|j: int| 0 <= j < i ==> stroke_line_ok(#[trigger] lines@[j]@),
            counts@ == stroke_map(line_views(lines@).take(i as int)),
        decreases lines@.len() - i,
    {
        let line = chars_of(lines[i].as_str());
        proof {
            let prefix = line_views(lines@).take(i as int + 1);
            assert(prefix.drop_last() =~= line_views(lines@).take(i as int));
            assert(prefix.last() == lines@[i as int]@);
        }
        match stroke_line(&line) {
            StrokeLine::Skip => {},
            StrokeLine::Malformed => {
                return None;
            },
            StrokeLine::Entry(kanji, n) => {
                counts.insert(kanji as u32, n);
            },
        }
        i = i + 1;
    }
    assert(line_views(lines@).take(i as int) =~= line_views(lines@));
    Some(counts)
}

/// Reads the dictionary lines into stroke counts, later lines winning.
pub fn build_stroke_count_mapping(lines: &Vec<String>) -> (counts: HashMap<u32, u64>)
    requires
        forall|i: int| 0 <= i < lines@.len() ==> stroke_line_ok(#[trigger] lines@[i]@),
    ensures
        counts@ == stroke_map(line_views(lines@)),
{
    match try_build_stroke_count_mapping(lines) {
        Some(m) => m,
        None => HashMap::new(),
    }
}

/// The lines of `s`, as `str::lines` gives them.
pub fn lines_strings(s: &String) -> (lines: Vec<String>)
    ensures
        line_views(lines@) == crate::text::lines_of(s@),
{
    let v = chars_of(s.as_str());
    let ls = crate::text::lines_chars(&v);
    let ghost target = crate::text::lines_of(s@);
    let mut out: Vec<String> = Vec::new();
    let mut i: usize = 0;
    while i < ls.len()
        invariant
            0 <= i <= ls@.len(),
            ls@.map_values(|l: Vec<char>| l@) == target,
            line_views(out@) == target.take(i as int),
        decreases ls@.len() - i,
    {
        let line = crate::text::string_of(&ls[i]);
        let ghost before = out@;
        out.push(line);
        assert(ls@.map_values(|l: Vec<char>| l@)[i as int] == ls@[i as int]@);
        assert(line_views(out@) =~= line_views(before).push(line@));
        assert(line_views(out@) =~= target.take(i as int + 1));
        i = i + 1;
    }
    assert(target.take(i as int) =~= target);
    out
}

/// Whether a line starts with `U+`.
pub open spec fn is_code_line(l: Seq<char>) -> bool {
    l.len() >= 2 && l.take(2) == code_prefix()
}

/// The lines that start with `U+`, in order.
pub open spec fn code_lines(ls: Seq<Seq<char>>) -> Seq<Seq<char>>
    decreases ls.len(),
{
    if ls.len() == 0 {
        Seq::empty()
    } else if is_code_line(ls.last()) {
        code_lines(ls.drop_last()).push(ls.last())
    } else {
        code_lines(ls.drop_last())
    }
}

/// The lines of `s` that start with `U+`.
pub fn code_line_strings(s: &String) -> (lines: Vec<String>)
    ensures
        line_views(lines@) == code_lines(crate::text::lines_of(s@)),
{
    let all = lines_strings(s);
    let ghost views = line_views(all@);
    let prefix: Vec<char> = vec!['U', '+'];
    assert(prefix@ =~= code_prefix());
    let mut out: Vec<String> = Vec::new();
    let mut i: usize = 0;
    while i < all.len()
        invariant
            0 <= i <= all@.len(),
            views == line_views(all@),
            prefix@ == code_prefix(),
            line_views(out@) == code_lines(views.take(i as int)),
        decreases all@.len() - i,
    {
        let line = chars_of(all[i].as_str());
        assert(views.take(i as int + 1).drop_last() =~= views.take(i as int));
        assert(views.take(i as int + 1).last() == line@);
        if starts_with_chars(&line, &prefix) {
            out.push(all[i].clone());
            assert(line_views(out@) =~= line_views(out@).drop_last().push(line@));
        }
        i = i + 1;
    }
    assert(views.take(i as int) =~= views);
    out
}

} // verus!
