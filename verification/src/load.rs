//! Building the searchable data from the contents of the data files.
use vstd::prelude::*;
use std::collections::{HashMap, HashSet};
use crate::charset::{lemma_push_to_set, map_entries, set_to_vec};
use crate::classify::{is_non_radical_search_component, non_radical_components};
use crate::graph::graph_view;
use crate::ids::{
    ids_all, ids_invariant, lemma_ids_all_invariant, mappings_view, rewrite, rewrite_char,
    try_ids_lines_to_mappings, Mappings,
};
use crate::order::{distinct_codes, pair_before, sort_pairs, sorted_pairs};
use crate::parse::{
    code_line_strings, code_lines, line_views, lines_strings, radical_conversion, radical_line_ok,
    stroke_line_ok, stroke_map, try_build_radical_character_conversion,
    try_build_stroke_count_mapping,
};
use crate::search::{in_stroke_order, lemma_order_of_sorted};
use crate::server::ServerData;
use crate::pages::strokes_of;
use crate::strokes::{stroke_count_ok, stroke_depth, stroke_dict, stroke_parts};
use crate::text::{char_from_u32, chars_of, is_char_code, lemma_char_of_code, lines_of};

verus! {

broadcast use vstd::std_specs::hash::group_hash_axioms;

/// Why the data files could not be read.
pub enum InitError {
    /// A radical equivalence line is malformed.
    RadicalLine,
    /// An IDS line is malformed.
    IdsLine,
    /// A stroke-count line is malformed.
    StrokeLine,
    /// Some character's stroke count cannot be worked out (its components
    /// go round in a cycle) or does not fit in a `u64`.
    StrokeCount,
}

/// The code point of the `i`-th character of `s`.
pub open spec fn code_at(s: Seq<char>, i: int) -> u32 {
    s[i] as u32
}

/// The code points of the characters of `s`.
pub open spec fn char_codes(s: Seq<char>) -> Set<u32> {
    Set::new(|u: u32| exists|i: int| 0 <= i < s.len() && u == #[trigger] code_at(s, i))
}

/// The code points of the characters of `s`.
pub fn char_code_set(s: &String) -> (set: HashSet<u32>)
    ensures
        set@ == char_codes(s@),
{
    let v = chars_of(s.as_str());
    let mut set: HashSet<u32> = HashSet::new();
    let mut i: usize = 0;
    while i < v.len()
        invariant
            0 <= i <= v@.len(),
            v@ == s@,
            set@ == Set::new(|u: u32| exists|j: int| 0 <= j < i && u == #[trigger] code_at(s@, j)),
        decreases v@.len() - i,
    {
        set.insert(v[i] as u32);
        proof {
            assert(set@ =~= Set::new(|u: u32| exists|j: int| 0 <= j < i + 1 && u == #[trigger] code_at(s@, j))) by {
                assert forall|u: u32| set@.contains(u) implies exists|j: int| 0 <= j < i + 1 && u == #[trigger] code_at(s@, j) by {
                    if u == v@[i as int] as u32 {
                        assert(u == code_at(s@, i as int));
                    }
                }
            }
        }
        i = i + 1;
    }
    assert(set@ =~= char_codes(s@));
    set
}

/// The components always offered for picking (when they occur as
/// components at all).
pub open spec fn picker_radicals() -> Seq<char> {
    "一｜丶ノ乙亅二亠人⺅𠆢儿入ハ丷冂冖冫几凵刀⺉力勹匕匚十卜卩厂厶又マ九ユ乃𠂉⻌口囗土士夂夕大女子宀寸小⺌尢尸屮山川巛工已巾干幺广廴廾弋弓ヨ彑彡彳⺖⺘⺡⺨⺾⻏⻖也亡及久⺹心戈戸手支攵文斗斤方无日曰月木欠止歹殳比毛氏气水火⺣爪父爻爿片牛犬⺭王元井勿尤五屯巴毋玄瓦甘生用田疋疒癶白皮皿目矛矢石示禸禾穴立⻂世巨冊母⺲牙瓜竹米糸缶羊羽而耒耳聿肉自至臼舌舟艮色虍虫血行衣西臣見角言谷豆豕豸貝赤走足身車辛辰酉釆里舛麦金長門隶隹雨青非奄岡免斉面革韭音頁風飛食首香品馬骨高髟鬥鬯鬲鬼竜韋魚鳥鹵鹿麻亀啇黄黒黍黹無歯黽鼎鼓鼠鼻齊龠"@
}

/// The components counted by how often they open a decomposition, each
/// with its count, leaving out those never offered.
pub open spec fn frequency_pairs(freq: Map<u32, u64>) -> Set<(u32, u64)> {
    Set::new(
        |p: (u32, u64)|
            freq.contains_key(p.0) && freq[p.0] == p.1 && !non_radical_components().contains(
                p.0 as char,
            ),
    )
}

/// `ranked` lists the counted components, most frequent first, equally
/// frequent ones by code point.
pub open spec fn by_frequency(freq: Map<u32, u64>, ranked: Seq<(u32, u64)>) -> bool {
    sorted_pairs(ranked, true) && ranked.to_set() == frequency_pairs(freq) && distinct_codes(ranked)
}

/// How many of the most frequent components are offered.
pub open spec fn picker_size() -> nat {
    300
}

/// The most frequent components of `ranked`.
pub open spec fn most_frequent(ranked: Seq<(u32, u64)>) -> Set<u32> {
    let n = if ranked.len() < picker_size() {
        ranked.len()
    } else {
        picker_size()
    };
    ranked.take(n as int).map_values(|p: (u32, u64)| p.0).to_set()
}

/// The position of a picker radical, after its radical form is replaced.
pub open spec fn picker_code(rw: Map<u32, char>, i: int) -> u32 {
    rewrite(rw, picker_radicals()[i]) as u32
}

/// The picker radicals (radical forms replaced) that have components
/// themselves, and U+2ECC.
pub open spec fn picker_extras(rw: Map<u32, char>, c2c: Map<u32, Set<u32>>) -> Set<u32> {
    Set::new(
        |u: u32|
            exists|i: int|
                0 <= i < picker_radicals().len() && u == #[trigger] picker_code(rw, i)
                    && c2c.contains_key(u),
    ).insert('⻌' as u32)
}

/// Everything read from the files, when every reading succeeds.
pub open spec fn files_read(
    ids: Seq<char>,
    unihan_dict_data: Seq<char>,
    unihan_rad_data: Seq<char>,
) -> bool {
    let rad_lines = lines_of(unihan_rad_data);
    let rad = radical_conversion(rad_lines);
    &&& forall|i: int| 0 <= i < rad_lines.len() ==> radical_line_ok(#[trigger] rad_lines[i])
    &&& ids_all(rad, lines_of(ids)) is Some
    &&& forall|i: int|
        0 <= i < code_lines(lines_of(unihan_dict_data)).len() ==> stroke_line_ok(
            #[trigger] code_lines(lines_of(unihan_dict_data))[i],
        )
}

/// The components offered for picking: the most frequent ones of
/// `ranked`, the picker radicals that have components themselves, and
/// U+2ECC.
pub open spec fn picker_components(rw: Map<u32, char>, c2c: Map<u32, Set<u32>>, ranked: Seq<(u32, u64)>) -> Set<u32> {
    most_frequent(ranked) + picker_extras(rw, c2c)
}

/// Every character of `set` has a stroke count within `depth` levels,
/// and it fits in a `u64`.
pub open spec fn counts_defined(dict: Map<u32, u64>, parts: Map<u32, Seq<char>>, depth: nat, set: Set<u32>) -> bool {
    forall|u: u32| #[trigger] set.contains(u) ==> stroke_count_ok(dict, parts, u as char, depth)
}

/// Every character of `set` has a stroke count in `d`.
pub open spec fn picker_counts_ok(d: &ServerData, set: Set<u32>) -> bool {
    counts_defined(stroke_dict(d), stroke_parts(d), stroke_depth(d), set)
}

/// The component picker of `d` is right for the counts `freq`: the
/// components to offer all have stroke counts, and are listed by stroke
/// count, then by code point.
pub open spec fn picker_ordered(d: &ServerData, freq: Map<u32, u64>) -> bool {
    exists|ranked: Seq<(u32, u64)>|
        #[trigger] by_frequency(freq, ranked) && picker_counts_ok(
            d,
            picker_components(d.radical_to_char@, d.comp_graph(), ranked),
        ) && in_stroke_order(
            d,
            picker_components(d.radical_to_char@, d.comp_graph(), ranked),
            d.common_comps@.map_values(|c: char| c as u32),
        )
}

/// The components are ranked by frequency in exactly one way.
pub proof fn law_ranking_unique(freq: Map<u32, u64>, r1: Seq<(u32, u64)>, r2: Seq<(u32, u64)>)
    requires
        by_frequency(freq, r1),
        by_frequency(freq, r2),
    ensures
        r1 == r2,
{
    crate::order::lemma_sorted_unique(r1, r2, true);
}

/// The entries of `freq` left after leaving out the components never
/// offered are its frequency pairs.
proof fn lemma_frequency_pairs(freq: Map<u32, u64>, entries: Seq<(u32, u64)>, kept: Seq<(u32, u64)>)
    requires
        forall|i: int| 0 <= i < entries.len() ==> freq.contains_key((#[trigger] entries[i]).0) && freq[entries[i].0] == entries[i].1,
        forall|k: u32| #[trigger] freq.contains_key(k) ==> entries.contains((k, freq[k])),
        kept.to_set() == entries.to_set().filter(|p: (u32, u64)| !non_radical_components().contains(p.0 as char)),
    ensures
        kept.to_set() == frequency_pairs(freq),
{
    assert forall|p: (u32, u64)| #[trigger] kept.to_set().contains(p) implies frequency_pairs(freq).contains(p) by {
        let i = choose|i: int| 0 <= i < entries.len() && entries[i] == p;
    }
    assert forall|p: (u32, u64)| #[trigger] frequency_pairs(freq).contains(p) implies kept.to_set().contains(p) by {
        assert(entries.contains((p.0, freq[p.0])));
    }
    assert(kept.to_set() =~= frequency_pairs(freq));
}

/// The components counted by `freq`, most frequent first, equally
/// frequent ones by code point.
fn ranked_components(freq: &HashMap<u32, u64>) -> (ranked: Vec<(u32, u64)>)
    requires
        forall|k: u32| #[trigger] freq@.contains_key(k) ==> is_char_code(k),
    ensures
        by_frequency(freq@, ranked@),
{
    let entries = map_entries(freq);
    let mut kept: Vec<(u32, u64)> = Vec::new();
    let mut i: usize = 0;
    while i < entries.len()
        invariant
            0 <= i <= entries@.len(),
            forall|k: u32| #[trigger] freq@.contains_key(k) ==> is_char_code(k),
            forall|j: int| 0 <= j < entries@.len() ==> freq@.contains_key((#[trigger] entries@[j]).0) && freq@[entries@[j].0] == entries@[j].1,
            distinct_codes(entries@),
            kept@.to_set() == entries@.take(i as int).to_set().filter(|p: (u32, u64)| !non_radical_components().contains(p.0 as char)),
            forall|a: int| 0 <= a < kept@.len() ==> exists|j: int| 0 <= j < i && #[trigger] kept@[a] == entries@[j],
            distinct_codes(kept@),
        decreases entries@.len() - i,
    {
        let e = entries[i];
        assert(freq@.contains_key(e.0));
        let c = match char_from_u32(e.0) {
            Some(c) => c,
            None => ' ',
        };
        proof {
            lemma_char_of_code(c, e.0);
            lemma_push_to_set_pairs(entries@.take(i as int), e);
            assert(entries@.take(i as int + 1) =~= entries@.take(i as int).push(e));
        }
        let ghost before = kept@;
        if !is_non_radical_search_component(&c) {
            kept.push(e);
            proof {
                lemma_push_to_set_pairs(before, e);
                assert forall|a: int, b: int| 0 <= a < b < kept@.len() implies kept@[a].0 != kept@[b].0 by {
                    if b == kept@.len() - 1 {
                        let j = choose|j: int| 0 <= j < i && #[trigger] before[a] == entries@[j];
                        assert(entries@[j].0 != entries@[i as int].0);
                    } else {
                        assert(before[a].0 != before[b].0);
                    }
                }
            }
        }
        proof {
            assert(kept@.to_set() =~= entries@.take(i as int + 1).to_set().filter(|p: (u32, u64)| !non_radical_components().contains(p.0 as char)));
            assert forall|a: int| 0 <= a < kept@.len() implies exists|j: int| 0 <= j < i + 1 && #[trigger] kept@[a] == entries@[j] by {
                if a < before.len() {
                    let j = choose|j: int| 0 <= j < i && #[trigger] before[a] == entries@[j];
                    assert(kept@[a] == entries@[j]);
                } else {
                    assert(kept@[a] == entries@[i as int]);
                }
            }
        }
        i = i + 1;
    }
    proof {
        assert(entries@.take(i as int) =~= entries@);
        lemma_frequency_pairs(freq@, entries@, kept@);
    }
    let ranked = sort_pairs(&kept, true);
    proof {
        assert forall|a: int, b: int| 0 <= a < b < ranked@.len() implies ranked@[a].0 != ranked@[b].0 by {
            assert(pair_before(ranked@[a], ranked@[b], true));
            assert(ranked@.to_set().contains(ranked@[a]));
            assert(ranked@.to_set().contains(ranked@[b]));
            let ia = choose|ia: int| 0 <= ia < kept@.len() && kept@[ia] == ranked@[a];
            let ib = choose|ib: int| 0 <= ib < kept@.len() && kept@[ib] == ranked@[b];
            if ranked@[a].0 == ranked@[b].0 {
                if ia < ib {
                    assert(kept@[ia].0 != kept@[ib].0);
                } else if ib < ia {
                    assert(kept@[ib].0 != kept@[ia].0);
                }
            }
        }
    }
    ranked
}

/// Pushing a pair adds it to the set of pairs.
proof fn lemma_push_to_set_pairs(s: Seq<(u32, u64)>, x: (u32, u64))
    ensures
        s.push(x).to_set() == s.to_set().insert(x),
{
    assert(s.push(x) =~= s + seq![x]);
    Seq::lemma_to_set_insert_commutes(s, x);
}

impl ServerData {
    /// The components to offer: the most frequent ones in `ranked`, the
    /// picker radicals that have components themselves, and U+2ECC.
    fn picker_set(&self, ranked: &Vec<(u32, u64)>) -> (set: HashSet<u32>)
        ensures
            set@ == most_frequent(ranked@) + picker_extras(self.radical_to_char@, self.comp_graph()),
    {
        let n: usize = if ranked.len() < 300 { ranked.len() } else { 300 };
        let mut set: HashSet<u32> = HashSet::new();
        let mut i: usize = 0;
        let ghost codes = ranked@.take(n as int).map_values(|p: (u32, u64)| p.0);
        while i < n
            invariant
                0 <= i <= n <= ranked@.len(),
                n == (if ranked@.len() < picker_size() { ranked@.len() } else { picker_size() }),
                codes == ranked@.take(n as int).map_values(|p: (u32, u64)| p.0),
                set@ == codes.take(i as int).to_set(),
            decreases n - i,
        {
            set.insert(ranked[i].0);
            proof {
                assert(codes[i as int] == ranked@[i as int].0);
                assert(codes.take(i as int + 1) =~= codes.take(i as int).push(codes[i as int]));
                lemma_push_to_set(codes.take(i as int), codes[i as int]);
            }
            i = i + 1;
        }
        assert(codes.take(i as int) =~= codes);
        let ghost top = set@;
        let radicals = chars_of("一｜丶ノ乙亅二亠人⺅𠆢儿入ハ丷冂冖冫几凵刀⺉力勹匕匚十卜卩厂厶又マ九ユ乃𠂉⻌口囗土士夂夕大女子宀寸小⺌尢尸屮山川巛工已巾干幺广廴廾弋弓ヨ彑彡彳⺖⺘⺡⺨⺾⻏⻖也亡及久⺹心戈戸手支攵文斗斤方无日曰月木欠止歹殳比毛氏气水火⺣爪父爻爿片牛犬⺭王元井勿尤五屯巴毋玄瓦甘生用田疋疒癶白皮皿目矛矢石示禸禾穴立⻂世巨冊母⺲牙瓜竹米糸缶羊羽而耒耳聿肉自至臼舌舟艮色虍虫血行衣西臣見角言谷豆豕豸貝赤走足身車辛辰酉釆里舛麦金長門隶隹雨青非奄岡免斉面革韭音頁風飛食首香品馬骨高髟鬥鬯鬲鬼竜韋魚鳥鹵鹿麻亀啇黄黒黍黹無歯黽鼎鼓鼠鼻齊龠");
        let ghost rw = self.radical_to_char@;
        let ghost g = self.comp_graph();
        let mut j: usize = 0;
        while j < radicals.len()
            invariant
                0 <= j <= radicals@.len(),
                radicals@ == picker_radicals(),
                rw == self.radical_to_char@,
                g == self.comp_graph(),
                set@ == top + Set::new(|u: u32| exists|k: int| 0 <= k < j && u == #[trigger] picker_code(rw, k) && g.contains_key(u)),
            decreases radicals@.len() - j,
        {
            let c = rewrite_char(&self.radical_to_char, radicals[j]);
            let ghost before = set@;
            if self.char_to_comp.contains_key(&(c as u32)) {
                set.insert(c as u32);
            }
            proof {
                assert(c as u32 == picker_code(rw, j as int));
                assert(set@ =~= top + Set::new(|u: u32| exists|k: int| 0 <= k < j + 1 && u == #[trigger] picker_code(rw, k) && g.contains_key(u))) by {
                    assert forall|u: u32| set@.contains(u) implies (top + Set::new(|u: u32| exists|k: int| 0 <= k < j + 1 && u == #[trigger] picker_code(rw, k) && g.contains_key(u))).contains(u) by {
                        if u == c as u32 && !before.contains(u) {
                            assert(u == picker_code(rw, j as int) && g.contains_key(u));
                        }
                    }
                }
            }
            j = j + 1;
        }
        set.insert('⻌' as u32);
        assert(set@ =~= most_frequent(ranked@) + picker_extras(self.radical_to_char@, self.comp_graph()));
        set
    }

    /// The characters of `set` by stroke count, then by code point; `None`
    /// when some of them has no stroke count (its components go round in
    /// a cycle, or the count does not fit in a `u64`).
    fn picker_order(&self, set: &HashSet<u32>) -> (r: Option<Vec<char>>)
        requires
            self.well_shaped(),
            forall|u: u32| #[trigger] set@.contains(u) ==> is_char_code(u),
        ensures
            match r {
                Some(v) => picker_counts_ok(self, set@) && in_stroke_order(
                    self,
                    set@,
                    v@.map_values(|c: char| c as u32),
                ),
                None => !picker_counts_ok(self, set@),
            },
    {
        let items = set_to_vec(set);
        let depth = self.char_to_first_comp.len();
        assert(depth == stroke_depth(self));
        let mut pairs: Vec<(u32, u64)> = Vec::new();
        let mut i: usize = 0;
        while i < items.len()
            invariant
                0 <= i <= items@.len(),
                depth == stroke_depth(self),
                items@.to_set() == set@,
                items@.no_duplicates(),
                forall|u: u32| #[trigger] set@.contains(u) ==> is_char_code(u),
                pairs@.len() == i,
                forall|k: int| 0 <= k < i ==> (#[trigger] pairs@[k]).0 == items@[k],
                forall|k: int| 0 <= k < i ==> (#[trigger] pairs@[k]).1 == strokes_of(self, pairs@[k].0 as char),
                forall|k: int| 0 <= k < i ==> #[trigger] stroke_count_ok(stroke_dict(self), stroke_parts(self), items@[k] as char, stroke_depth(self)),
            decreases items@.len() - i,
        {
            let u = items[i];
            assert(items@.to_set().contains(u));
            let c = match char_from_u32(u) {
                Some(c) => c,
                None => ' ',
            };
            proof {
                lemma_char_of_code(c, u);
            }
            match self.strokes_checked(c, depth) {
                Some(n) => {
                    pairs.push((u, n));
                },
                None => {
                    proof {
                        assert(set@.contains(u) && !stroke_count_ok(stroke_dict(self), stroke_parts(self), u as char, stroke_depth(self)));
                    }
                    return None;
                },
            }
            i = i + 1;
        }
        proof {
            assert forall|u: u32| #[trigger] set@.contains(u) implies stroke_count_ok(stroke_dict(self), stroke_parts(self), u as char, stroke_depth(self)) by {
                assert(items@.to_set().contains(u));
                let k = choose|k: int| 0 <= k < items@.len() && items@[k] == u;
            }
            assert(pairs@.map_values(|p: (u32, u64)| p.0) =~= items@);
            assert forall|a: int, b: int| 0 <= a < b < pairs@.len() implies pairs@[a].0 != pairs@[b].0 by {
                assert(items@[a] != items@[b]);
            }
        }
        let sorted = sort_pairs(&pairs, false);
        proof {
            assert forall|i: int| 0 <= i < sorted@.len() implies (#[trigger] sorted@[i]).1 == crate::pages::strokes_of(self, sorted@[i].0 as char) && is_char_code(sorted@[i].0) by {
                assert(sorted@.to_set().contains(sorted@[i]));
                let k = choose|k: int| 0 <= k < pairs@.len() && pairs@[k] == sorted@[i];
                assert(items@.to_set().contains(items@[k]));
            }
            lemma_order_of_sorted(self, pairs@, sorted@, set@);
        }
        let ghost codes = sorted@.map_values(|p: (u32, u64)| p.0);
        let mut v: Vec<char> = Vec::new();
        let mut i: usize = 0;
        while i < sorted.len()
            invariant
                0 <= i <= sorted@.len(),
                codes == sorted@.map_values(|p: (u32, u64)| p.0),
                forall|k: int| 0 <= k < sorted@.len() ==> is_char_code(#[trigger] sorted@[k].0),
                v@.map_values(|c: char| c as u32) == codes.take(i as int),
            decreases sorted@.len() - i,
        {
            let u = sorted[i].0;
            assert(is_char_code(sorted@[i as int].0));
            let c = match char_from_u32(u) {
                Some(c) => c,
                None => ' ',
            };
            let ghost before = v@;
            v.push(c);
            assert(v@.map_values(|c: char| c as u32) =~= before.map_values(|c: char| c as u32).push(u));
            assert(codes.take(i as int + 1) =~= codes.take(i as int).push(u));
            i = i + 1;
        }
        assert(codes.take(i as int) =~= codes);
        Some(v)
    }
}

/// Builds the searchable data from the contents of the data files: the
/// page template, the IDS file, the three character lists of the filter
/// levels, the Unihan dictionary data and the Unihan radical
/// equivalences. Fails when a file holds a line that cannot be read, or
/// when the stroke count of some component to offer for picking cannot be
/// worked out. Whether every other character has a stroke count is left
/// to `ServerData::check_strokes`.
pub fn init(
    template: String,
    ids: &String,
    kanjidicplus_kanji: &String,
    media_kanji: &String,
    joyoplus_kanji: &String,
    unihan_dict_data: &String,
    unihan_rad_data: &String,
) -> (r: Result<ServerData, InitError>)
    ensures
        match r {
            Ok(d) => {
                let rad = radical_conversion(lines_of(unihan_rad_data@));
                let st = ids_all(rad, lines_of(ids@))->0;
                &&& files_read(ids@, unihan_dict_data@, unihan_rad_data@)
                &&& d.template@ == template@
                &&& d.radical_to_char@ == rad
                &&& d.comp_graph() == st.0
                &&& d.char_graph() == st.1
                &&& stroke_parts(&d) == st.2
                &&& d.char_to_strokes@ == stroke_map(code_lines(lines_of(unihan_dict_data@)))
                &&& d.kanjidicplus@ == char_codes(kanjidicplus_kanji@)
                &&& d.media@ == char_codes(media_kanji@)
                &&& d.joyoplus@ == char_codes(joyoplus_kanji@)
                &&& d.well_shaped()
                &&& crate::ids::inverse_graphs(d.comp_graph(), d.char_graph())
                &&& picker_ordered(&d, st.3)
                &&& crate::strokes::picker_counted(&d)
            },
            Err(InitError::RadicalLine) => exists|i: int|
                0 <= i < lines_of(unihan_rad_data@).len() && !radical_line_ok(
                    #[trigger] lines_of(unihan_rad_data@)[i],
                ),
            Err(InitError::IdsLine) => {
                &&& forall|i: int|
                    0 <= i < lines_of(unihan_rad_data@).len() ==> radical_line_ok(
                        #[trigger] lines_of(unihan_rad_data@)[i],
                    )
                &&& ids_all(radical_conversion(lines_of(unihan_rad_data@)), lines_of(ids@)) is None
            },
            Err(InitError::StrokeLine) => {
                &&& forall|i: int|
                    0 <= i < lines_of(unihan_rad_data@).len() ==> radical_line_ok(
                        #[trigger] lines_of(unihan_rad_data@)[i],
                    )
                &&& ids_all(radical_conversion(lines_of(unihan_rad_data@)), lines_of(ids@)) is Some
                &&& exists|i: int|
                    0 <= i < code_lines(lines_of(unihan_dict_data@)).len() && !stroke_line_ok(
                        #[trigger] code_lines(lines_of(unihan_dict_data@))[i],
                    )
            },
            Err(InitError::StrokeCount) => {
                let st = ids_all(radical_conversion(lines_of(unihan_rad_data@)), lines_of(ids@))->0;
                let rad = radical_conversion(lines_of(unihan_rad_data@));
                &&& files_read(ids@, unihan_dict_data@, unihan_rad_data@)
                &&& exists|ranked: Seq<(u32, u64)>|
                    #[trigger] by_frequency(st.3, ranked) && !counts_defined(
                        stroke_map(code_lines(lines_of(unihan_dict_data@))),
                        st.2,
                        st.2.dom().len(),
                        picker_components(rad, st.0, ranked),
                    )
            },
        },
{
    let rad_lines = lines_strings(unihan_rad_data);
    let radical_to_char = match try_build_radical_character_conversion(&rad_lines) {
        Some(m) => m,
        None => {
            proof {
                let i = choose|i: int| 0 <= i < rad_lines@.len() && !radical_line_ok(#[trigger] rad_lines@[i]@);
                assert(line_views(rad_lines@)[i] == rad_lines@[i]@);
            }
            return Err(InitError::RadicalLine);
        },
    };
    let ids_lines = lines_strings(ids);
    proof {
        assert forall|i: int| 0 <= i < lines_of(unihan_rad_data@).len() implies radical_line_ok(#[trigger] lines_of(unihan_rad_data@)[i]) by {
            assert(line_views(rad_lines@)[i] == rad_lines@[i]@);
        }
    }
    let maps = match try_ids_lines_to_mappings(&ids_lines, &radical_to_char) {
        Some(t) => t,
        None => {
            return Err(InitError::IdsLine);
        },
    };
    let stroke_lines = code_line_strings(unihan_dict_data);
    let char_to_strokes = match try_build_stroke_count_mapping(&stroke_lines) {
        Some(m) => m,
        None => {
            proof {
                let i = choose|i: int| 0 <= i < stroke_lines@.len() && !stroke_line_ok(#[trigger] stroke_lines@[i]@);
                assert(line_views(stroke_lines@)[i] == stroke_lines@[i]@);
            }
            return Err(InitError::StrokeLine);
        },
    };
    let ghost st = mappings_view(maps);
    proof {
        lemma_ids_all_invariant(radical_to_char@, line_views(ids_lines@));
        assert(ids_invariant(st));
        assert forall|i: int| 0 <= i < code_lines(lines_of(unihan_dict_data@)).len() implies stroke_line_ok(#[trigger] code_lines(lines_of(unihan_dict_data@))[i]) by {
            assert(line_views(stroke_lines@)[i] == stroke_lines@[i]@);
        }
        assert(files_read(ids@, unihan_dict_data@, unihan_rad_data@));
    }
    let (char_to_comp, comp_to_char, char_to_first_comp, comp_frequencies) = maps;
    let mut data = ServerData {
        template,
        char_to_comp,
        comp_to_char,
        char_to_first_comp,
        kanjidicplus: char_code_set(kanjidicplus_kanji),
        media: char_code_set(media_kanji),
        joyoplus: char_code_set(joyoplus_kanji),
        char_to_strokes,
        radical_to_char,
        common_comps: Vec::new(),
    };
    proof {
        assert(stroke_parts(&data) == st.2);
        assert(data.char_to_first_comp@.dom() == st.2.dom());
        assert forall|k: u32| #[trigger] data.char_to_first_comp@.contains_key(k) implies is_char_code(k) by {
            assert(st.2.contains_key(k));
        }
    }
    proof {
        assert(data.comp_graph() == st.0);
        assert(data.char_graph() == st.1);
        assert forall|k: u32| #[trigger] data.char_to_comp@.contains_key(k) implies is_char_code(k) by {
            assert(graph_view(data.char_to_comp).contains_key(k));
            assert(st.0.contains_key(k));
        }
        assert(data.well_shaped());
    }
    proof {
        assert forall|k: u32| #[trigger] comp_frequencies@.contains_key(k) implies is_char_code(k) by {
            assert(st.3.contains_key(k));
        }
    }
    let ranked = ranked_components(&comp_frequencies);
    let set = data.picker_set(&ranked);
    proof {
        assert forall|u: u32| #[trigger] set@.contains(u) implies is_char_code(u) by {
            if most_frequent(ranked@).contains(u) {
                let n = if ranked@.len() < picker_size() { ranked@.len() } else { picker_size() };
                let codes = ranked@.take(n as int).map_values(|p: (u32, u64)| p.0);
                let k = choose|k: int| 0 <= k < codes.len() && codes[k] == u;
                assert(ranked@.to_set().contains(ranked@[k]));
                assert(frequency_pairs(st.3).contains(ranked@[k]));
            } else if u != '⻌' as u32 {
                let k = choose|k: int| 0 <= k < picker_radicals().len() && u == #[trigger] picker_code(data.radical_to_char@, k) && data.comp_graph().contains_key(u);
                crate::ids::lemma_char_code(rewrite(data.radical_to_char@, picker_radicals()[k]));
            }
        }
    }
    proof {
        assert(set@ == picker_components(data.radical_to_char@, data.comp_graph(), ranked@));
        assert(stroke_depth(&data) == st.2.dom().len());
    }
    let common = match data.picker_order(&set) {
        Some(v) => v,
        None => {
            proof {
                assert(by_frequency(st.3, ranked@));
            }
            return Err(InitError::StrokeCount);
        },
    };
    data.common_comps = common;
    proof {
        assert(by_frequency(st.3, ranked@));
        let codes = data.common_comps@.map_values(|c: char| c as u32);
        assert forall|i: int| 0 <= i < data.common_comps@.len() implies crate::strokes::count_ok(&data, #[trigger] data.common_comps@[i]) by {
            let c = data.common_comps@[i];
            assert(codes[i] == c as u32);
            assert(codes.to_set().contains(c as u32));
            assert(set@.contains(c as u32));
            lemma_char_of_code(c, c as u32);
        }
    }
    Ok(data)
}

} // verus!
