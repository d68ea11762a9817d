//! Searching: characters by their components, or components of characters.
use vstd::prelude::*;
use std::collections::HashSet;
use crate::charset::{lemma_set_view_finite, set_to_vec};
use crate::graph::{lemma_reach_in_targets, lemma_step_in_targets, reach, step, targets};
use crate::ids::{rewrite, rewrite_char};
use crate::order::{pair_before, sort_pairs, sorted_pairs};
use crate::pages::{radical_html, stroke_heading, stroke_heading_chars, strokes_of};
use crate::query::QueryArgs;
use crate::server::{found, found_from_all, ServerData};
use crate::strokes::{count_ok, counts_ok, picker_counted};
use crate::text::{char_from_u32, chars_of, extend_chars, fill, fill_slot, is_char_code, same_chars, string_of};

verus! {

broadcast use vstd::std_specs::hash::group_hash_axioms;

/// The value of argument `name`, if given.
pub open spec fn arg(args: Map<Seq<char>, Seq<char>>, name: Seq<char>) -> Option<Seq<char>> {
    if args.contains_key(name) {
        Some(args[name])
    } else {
        None
    }
}

/// The filter level asked for: 0 for `joyoplus`, 1 for `media`, 2 for
/// `kanjidicplus`, 3 for `all`; 1 for anything else, 3 when not given.
pub open spec fn filter_level(args: Map<Seq<char>, Seq<char>>) -> nat {
    match arg(args, "filter_level"@) {
        Some(x) => if x == "joyoplus"@ {
            0
        } else if x == "media"@ {
            1
        } else if x == "kanjidicplus"@ {
            2
        } else if x == "all"@ {
            3
        } else {
            1
        },
        None => 3,
    }
}

/// What to search for: the `input` argument, else the `lookup` argument.
pub open spec fn search_input(args: Map<Seq<char>, Seq<char>>) -> Option<Seq<char>> {
    match arg(args, "input"@) {
        Some(x) => Some(x),
        None => arg(args, "lookup"@),
    }
}

/// The code point that the `i`-th character of `input` is looked up by,
/// a radical form replaced by the character it stands for.
pub open spec fn input_code(d: &ServerData, input: Seq<char>, i: int) -> u32 {
    rewrite(d.radical_to_char@, input[i]) as u32
}

/// The code points that `input` is looked up by.
pub open spec fn input_codes(d: &ServerData, input: Seq<char>) -> Set<u32> {
    Set::new(|u: u32| exists|i: int| 0 <= i < input.len() && u == #[trigger] input_code(d, input, i))
}

/// Whether the character `u` belongs to filter level `level`.
pub open spec fn in_level(d: &ServerData, level: nat, u: u32) -> bool {
    if level == 0 {
        d.joyoplus@.contains(u)
    } else if level == 1 {
        d.media@.contains(u)
    } else if level == 2 {
        d.kanjidicplus@.contains(u)
    } else {
        true
    }
}

/// What a search for `input` finds: the components of its characters
/// when `reverse`, else the characters holding all of its characters as
/// components that are in the filter level; through any depth of nesting
/// unless `simple`.
pub open spec fn search_results(
    d: &ServerData,
    input: Seq<char>,
    reverse: bool,
    simple: bool,
    level: nat,
) -> Set<u32> {
    let codes = input_codes(d, input);
    if reverse {
        found(d.comp_graph(), Set::empty(), codes, !simple)
    } else {
        found_from_all(d.char_graph(), Set::empty(), codes, !simple).filter(
            |u: u32| in_level(d, level, u),
        )
    }
}

/// Everything a request with `args` finds has a stroke count.
pub open spec fn search_counted(d: &ServerData, args: Map<Seq<char>, Seq<char>>) -> bool {
    match search_input(args) {
        Some(input) => counts_ok(
            d,
            search_results(d, input, args.contains_key("reverse"@), args.contains_key("simple"@), filter_level(args)),
        ),
        None => true,
    }
}

/// `s` lists `r`, each once, by stroke count and then by code point.
pub open spec fn in_stroke_order(d: &ServerData, r: Set<u32>, s: Seq<u32>) -> bool {
    &&& s.no_duplicates()
    &&& s.to_set() == r
    &&& forall|i: int, j: int|
        0 <= i < j < s.len() ==> pair_before(
            (s[i], strokes_of(d, s[i] as char) as u64),
            (s[j], strokes_of(d, s[j] as char) as u64),
            false,
        )
}

/// A character found.
pub open spec fn result_span(u: u32) -> Seq<char> {
    "<span class=c>"@ + seq![u as char] + "</span>"@
}

/// The found characters `s` in groups of equal stroke count, each group
/// after its heading, groups separated by line breaks.
pub open spec fn groups_body(d: &ServerData, s: Seq<u32>) -> Seq<char>
    decreases s.len(),
{
    if s.len() == 0 {
        Seq::empty()
    } else {
        let u = s.last();
        let n = strokes_of(d, u as char);
        let opening = if s.len() == 1 {
            stroke_heading(n)
        } else if strokes_of(d, s[s.len() - 2] as char) != n {
            "<br>\n"@ + stroke_heading(n)
        } else {
            Seq::empty()
        };
        groups_body(d, s.drop_last()) + opening + result_span(u)
    }
}

/// The results section for the found characters `s`.
pub open spec fn results_html(d: &ServerData, s: Seq<u32>) -> Seq<char> {
    "<span class=resetspacing>Ordered by stroke count:</span><br>"@ + (if s.len() > 0 {
        groups_body(d, s) + "<br>\n"@
    } else {
        "(no matches)<br>"@
    }) + "<span class=resetspacing>Some stroke counts might be estimates.<br>Some characters might be too obscure for your system to render. Consider installing Hanazono Mincho (both HanaMinA and HanaMinB) if this is the case.</span>"@
}

/// `yes` when `b`, else nothing.
pub open spec fn when(b: bool, yes: Seq<char>) -> Seq<char> {
    if b {
        yes
    } else {
        ""@
    }
}

/// The form state filled in, and the component picker.
pub open spec fn page_tail(
    d: &ServerData,
    text: Seq<char>,
    reverse: bool,
    simple: bool,
    level: nat,
) -> Seq<char> {
    let t1 = fill(text, "reverse_checked"@, when(reverse, "checked"@));
    let t2 = fill(t1, "simple_checked"@, when(simple, "checked"@));
    let t3 = fill(t2, "selected_joyoplus"@, when(level == 0, "selected"@));
    let t4 = fill(t3, "selected_media"@, when(level == 1, "selected"@));
    let t5 = fill(t4, "selected_kanjidicplus"@, when(level == 2, "selected"@));
    let t6 = fill(t5, "selected_all"@, when(level == 3, "selected"@));
    fill(t6, "radical_search"@, radical_html(d))
}

/// The reply to a request with the arguments `args`, the found characters
/// being `s` (when something was searched for): the results section alone
/// when `lite`, else the whole page.
pub open spec fn search_page(
    d: &ServerData,
    args: Map<Seq<char>, Seq<char>>,
    lite: bool,
    s: Seq<u32>,
) -> Seq<char> {
    let reverse = args.contains_key("reverse"@);
    let simple = args.contains_key("simple"@);
    let level = filter_level(args);
    match search_input(args) {
        Some(input) => if lite {
            results_html(d, s)
        } else {
            page_tail(
                d,
                fill(fill(d.template@, "input"@, input), "output"@, results_html(d, s)),
                reverse,
                simple,
                level,
            )
        },
        None => if lite {
            ""@
        } else {
            page_tail(
                d,
                fill(fill(d.template@, "input"@, ""@), "output"@, ""@),
                reverse,
                simple,
                level,
            )
        },
    }
}

/// What a search finds lies among the targets of the graph searched.
proof fn lemma_results_in_targets(
    d: &ServerData,
    input: Seq<char>,
    reverse: bool,
    simple: bool,
    level: nat,
)
    ensures
        reverse ==> search_results(d, input, reverse, simple, level) <= targets(d.comp_graph()),
        !reverse ==> search_results(d, input, reverse, simple, level) <= targets(d.char_graph()),
{
    let codes = input_codes(d, input);
    if reverse {
        lemma_reach_in_targets(d.comp_graph(), Set::empty(), codes);
        lemma_step_in_targets(d.comp_graph(), codes);
    } else {
        let g = d.char_graph();
        assert forall|y: u32| #[trigger] search_results(d, input, reverse, simple, level).contains(
            y,
        ) implies targets(g).contains(y) by {
            let c = choose|c: u32| codes.contains(c);
            assert(found(g, Set::empty(), set![c], !simple).contains(y));
            lemma_reach_in_targets(g, Set::empty(), set![c]);
            lemma_step_in_targets(g, set![c]);
        }
    }
}

impl ServerData {
    /// The code points that `input` is looked up by.
    pub fn input_code_set(&self, input: &Vec<char>) -> (set: HashSet<u32>)
        ensures
            set@ == input_codes(self, input@),
    {
        let mut set: HashSet<u32> = HashSet::new();
        let mut i: usize = 0;
        while i < input.len()
            invariant
                0 <= i <= input@.len(),
                set@ == Set::new(|u: u32| exists|j: int| 0 <= j < i && u == #[trigger] input_code(self, input@, j)),
            decreases input@.len() - i,
        {
            let c = rewrite_char(&self.radical_to_char, input[i]);
            set.insert(c as u32);
            proof {
                assert(c as u32 == input_code(self, input@, i as int));
                assert(set@ =~= Set::new(|u: u32| exists|j: int| 0 <= j < i + 1 && u == #[trigger] input_code(self, input@, j))) by {
                    assert forall|u: u32| set@.contains(u) implies exists|j: int| 0 <= j < i + 1 && u == #[trigger] input_code(self, input@, j) by {
                        if u == c as u32 {
                            assert(u == input_code(self, input@, i as int));
                        }
                    }
                }
            }
            i = i + 1;
        }
        assert(set@ =~= input_codes(self, input@));
        set
    }

    /// Whether the character `u` belongs to filter level `level`.
    pub fn in_filter_level(&self, level: u64, u: u32) -> (b: bool)
        ensures
            b == in_level(self, level as nat, u),
    {
        if level == 0 {
            self.joyoplus.contains(&u)
        } else if level == 1 {
            self.media.contains(&u)
        } else if level == 2 {
            self.kanjidicplus.contains(&u)
        } else {
            true
        }
    }

    /// The found characters that pass the filter (all of them when
    /// `reverse`), each with its stroke count.
    fn counted_results(&self, found: &HashSet<u32>, reverse: bool, level: u64) -> (pairs: Vec<(u32, u64)>)
        requires
            counts_ok(self, found@.filter(|u: u32| reverse || in_level(self, level as nat, u))),
            forall|y: u32| #[trigger] found@.contains(y) ==> is_char_code(y),
        ensures
            crate::order::distinct_codes(pairs@),
            forall|i: int| 0 <= i < pairs@.len() ==> (#[trigger] pairs@[i]).1 == strokes_of(self, pairs@[i].0 as char),
            pairs@.map_values(|p: (u32, u64)| p.0).to_set() == found@.filter(|u: u32| reverse || in_level(self, level as nat, u)),
            reverse ==> pairs@.map_values(|p: (u32, u64)| p.0).to_set() == found@,
    {
        let items = set_to_vec(found);
        let mut pairs: Vec<(u32, u64)> = Vec::new();
        let mut i: usize = 0;
        while i < items.len()
            invariant
                0 <= i <= items@.len(),
                counts_ok(self, found@.filter(|u: u32| reverse || in_level(self, level as nat, u))),
                items@.to_set() == found@,
                items@.no_duplicates(),
                forall|y: u32| #[trigger] found@.contains(y) ==> is_char_code(y),
                forall|k: int| 0 <= k < pairs@.len() ==> (#[trigger] pairs@[k]).1 == strokes_of(self, pairs@[k].0 as char),
                forall|k: int| 0 <= k < pairs@.len() ==> items@.take(i as int).contains(#[trigger] pairs@[k].0),
                crate::order::distinct_codes(pairs@),
                pairs@.map_values(|p: (u32, u64)| p.0).to_set() == items@.take(i as int).to_set().filter(|u: u32| reverse || in_level(self, level as nat, u)),
            decreases items@.len() - i,
        {
            let u = items[i];
            proof {
                assert(items@.to_set().contains(u));
                crate::charset::lemma_push_to_set(items@.take(i as int), u);
                assert(items@.take(i as int + 1) =~= items@.take(i as int).push(u));
                assert(!items@.take(i as int).contains(u)) by {
                    if items@.take(i as int).contains(u) {
                        let k = choose|k: int| 0 <= k < i && items@.take(i as int)[k] == u;
                        assert(items@[k] == items@[i as int]);
                    }
                }
            }
            let keep = reverse || self.in_filter_level(level, u);
            let ghost before = pairs@;
            if keep {
                match char_from_u32(u) {
                    Some(c) => {
                        proof {
                            crate::text::lemma_char_of_code(c, u);
                            assert(found@.filter(|u: u32| reverse || in_level(self, level as nat, u)).contains(u));
                        }
                        let n = self.get_strokes(c);
                        pairs.push((u, n));
                        proof {
                            crate::text::lemma_char_of_code(c, u);
                            assert(pairs@.map_values(|p: (u32, u64)| p.0) =~= before.map_values(|p: (u32, u64)| p.0).push(u));
                            crate::charset::lemma_push_to_set(before.map_values(|p: (u32, u64)| p.0), u);
                        }
                    },
                    None => {},
                }
            }
            proof {
                assert(pairs@.map_values(|p: (u32, u64)| p.0).to_set() =~= items@.take(i as int + 1).to_set().filter(|u: u32| reverse || in_level(self, level as nat, u)));
                assert forall|k: int| 0 <= k < pairs@.len() implies items@.take(i as int + 1).contains(#[trigger] pairs@[k].0) by {
                    if k < before.len() {
                        assert(items@.take(i as int).contains(before[k].0));
                        let j = choose|j: int| 0 <= j < i && items@.take(i as int)[j] == before[k].0;
                        assert(items@.take(i as int + 1)[j] == before[k].0);
                    } else {
                        assert(items@.take(i as int + 1)[i as int] == u);
                    }
                }
            }
            i = i + 1;
        }
        assert(items@.take(i as int) =~= items@);
        assert(reverse ==> found@.filter(|u: u32| reverse || in_level(self, level as nat, u)) =~= found@);
        pairs
    }

    /// The results section for the found characters, in order.
    fn results_chars(&self, sorted: &Vec<(u32, u64)>) -> (html: Vec<char>)
        requires
            forall|i: int| 0 <= i < sorted@.len() ==> (#[trigger] sorted@[i]).1 == strokes_of(self, sorted@[i].0 as char),
            forall|i: int| 0 <= i < sorted@.len() ==> is_char_code(#[trigger] sorted@[i].0),
        ensures
            html@ == results_html(self, sorted@.map_values(|p: (u32, u64)| p.0)),
    {
        let ghost s = sorted@.map_values(|p: (u32, u64)| p.0);
        let mut html = chars_of("<span class=resetspacing>Ordered by stroke count:</span><br>");
        let ghost head = html@;
        let br = chars_of("<br>\n");
        let open = chars_of("<span class=c>");
        let close = chars_of("</span>");
        if sorted.len() > 0 {
            let mut i: usize = 0;
            proof {
                assert(s.take(0) =~= Seq::<u32>::empty());
            }
            while i < sorted.len()
                invariant
                    0 <= i <= sorted@.len(),
                    s == sorted@.map_values(|p: (u32, u64)| p.0),
                    forall|k: int| 0 <= k < sorted@.len() ==> (#[trigger] sorted@[k]).1 == strokes_of(self, sorted@[k].0 as char),
                    forall|k: int| 0 <= k < sorted@.len() ==> is_char_code(#[trigger] sorted@[k].0),
                    br@ == "<br>\n"@,
                    open@ == "<span class=c>"@,
                    close@ == "</span>"@,
                    html@ == head + groups_body(self, s.take(i as int)),
                decreases sorted@.len() - i,
            {
                let (u, n) = sorted[i];
                let ghost prefix = s.take(i as int + 1);
                proof {
                    assert(prefix.drop_last() =~= s.take(i as int));
                    assert(prefix.last() == u);
                    assert(sorted@[i as int].1 == strokes_of(self, u as char));
                    if i > 0 {
                        assert(prefix[prefix.len() - 2] == sorted@[i - 1].0);
                        assert(sorted@[i - 1].1 == strokes_of(self, sorted@[i - 1].0 as char));
                    }
                }
                let ghost before = html@;
                if i == 0 || sorted[i - 1].1 != n {
                    if i > 0 {
                        extend_chars(&mut html, &br);
                    }
                    let heading = stroke_heading_chars(n);
                    extend_chars(&mut html, &heading);
                }
                let c = match char_from_u32(u) {
                    Some(c) => c,
                    None => ' ',
                };
                proof {
                    assert(is_char_code(sorted@[i as int].0));
                    assert(is_char_code(u));
                    crate::text::lemma_char_of_code(c, u);
                }
                extend_chars(&mut html, &open);
                html.push(c);
                extend_chars(&mut html, &close);
                proof {
                    assert(html@ =~= head + groups_body(self, prefix));
                }
                i = i + 1;
            }
            extend_chars(&mut html, &br);
            proof {
                assert(s.take(i as int) =~= s);
            }
        } else {
            let none = chars_of("(no matches)<br>");
            extend_chars(&mut html, &none);
        }
        let tail = chars_of("<span class=resetspacing>Some stroke counts might be estimates.<br>Some characters might be too obscure for your system to render. Consider installing Hanazono Mincho (both HanaMinA and HanaMinB) if this is the case.</span>");
        extend_chars(&mut html, &tail);
        html
    }

    /// Fills the form state and the component picker into `text`.
    fn fill_tail(&self, text: &Vec<char>, reverse: bool, simple: bool, level: u64) -> (r: Vec<char>)
        requires
            picker_counted(self),
        ensures
            r@ == page_tail(self, text@, reverse, simple, level as nat),
    {
        let checked = chars_of("checked");
        let selected = chars_of("selected");
        let empty: Vec<char> = Vec::new();
        assert(empty@ =~= ""@) by {
            reveal_strlit("");
        }
        let mut output = fill_slot(text, "reverse_checked", if reverse { &checked } else { &empty });
        output = fill_slot(&output, "simple_checked", if simple { &checked } else { &empty });
        output = fill_slot(&output, "selected_joyoplus", if level == 0 { &selected } else { &empty });
        output = fill_slot(&output, "selected_media", if level == 1 { &selected } else { &empty });
        output = fill_slot(&output, "selected_kanjidicplus", if level == 2 { &selected } else { &empty });
        output = fill_slot(&output, "selected_all", if level == 3 { &selected } else { &empty });
        let radicals = self.radical_text();
        let radical_chars = chars_of(radicals.as_str());
        fill_slot(&output, "radical_search", &radical_chars)
    }

    /// Answers a request: with an `input` (or `lookup`) argument, the
    /// characters holding all of its characters as components (or, with
    /// `reverse`, the components of its characters), searched through any
    /// depth of nesting unless `simple`, filtered by `filter_level`, listed
    /// by stroke count. With `lite` only the results section, else the
    /// whole page.
    pub fn search(&self, args: QueryArgs, lite: bool) -> (page: String)
        requires
            self.well_shaped(),
            search_counted(self, args@),
            !lite ==> picker_counted(self),
        ensures
            match search_input(args@) {
                None => page@ == search_page(self, args@, lite, Seq::empty()),
                Some(input) => exists|s: Seq<u32>|
                    in_stroke_order(
                        self,
                        search_results(self, input, args@.contains_key("reverse"@), args@.contains_key("simple"@), filter_level(args@)),
                        s,
                    ) && page@ == search_page(self, args@, lite, s),
            },
    {
        let reverse = args.contains_key("reverse");
        let simple = args.contains_key("simple");
        let level = read_filter_level(&args);
        let input = read_input(&args);
        let mut output = chars_of(self.template.as_str());
        let empty: Vec<char> = Vec::new();
        assert(empty@ =~= ""@) by {
            reveal_strlit("");
        }
        match input {
            Some(inp) => {
                assert(search_input(args@) == Some(inp@));
                output = fill_slot(&output, "input", &inp);
                let sorted = self.sorted_results(&inp, reverse, simple, level);
                let ghost s = sorted@.map_values(|p: (u32, u64)| p.0);
                let ghost results = search_results(self, inp@, reverse, simple, level as nat);
                let html = self.results_chars(&sorted);
                if lite {
                    let page = string_of(&html);
                    assert(in_stroke_order(self, results, s) && page@ == search_page(self, args@, lite, s));
                    return page;
                }
                output = fill_slot(&output, "output", &html);
                let page = self.fill_tail(&output, reverse, simple, level);
                let page = string_of(&page);
                assert(in_stroke_order(self, results, s) && page@ == search_page(self, args@, lite, s));
                page
            },
            None => {
                if lite {
                    let r = String::new();
                    proof {
                        reveal_strlit("");
                    }
                    return r;
                }
                output = fill_slot(&output, "input", &empty);
                output = fill_slot(&output, "output", &empty);
                let page = self.fill_tail(&output, reverse, simple, level);
                string_of(&page)
            },
        }
    }
}

/// The filter level asked for by `args`.
fn read_filter_level(args: &QueryArgs) -> (level: u64)
    ensures
        level == filter_level(args@),
{
    match args.get_chars(&chars_of("filter_level")) {
        Some(x) => {
            if same_chars(&x, &chars_of("joyoplus")) {
                0
            } else if same_chars(&x, &chars_of("media")) {
                1
            } else if same_chars(&x, &chars_of("kanjidicplus")) {
                2
            } else if same_chars(&x, &chars_of("all")) {
                3
            } else {
                1
            }
        },
        None => 3,
    }
}

/// What `args` asks to search for.
fn read_input(args: &QueryArgs) -> (input: Option<Vec<char>>)
    ensures
        match search_input(args@) {
            Some(x) => input matches Some(v) && v@ == x,
            None => input is None,
        },
{
    match args.get_chars(&chars_of("input")) {
        Some(x) => Some(x),
        None => args.get_chars(&chars_of("lookup")),
    }
}

impl ServerData {
    /// What a search for `inp` finds, each with its stroke count, by
    /// stroke count and then by code point.
    fn sorted_results(&self, inp: &Vec<char>, reverse: bool, simple: bool, level: u64) -> (sorted: Vec<(u32, u64)>)
        requires
            self.well_shaped(),
            counts_ok(self, search_results(self, inp@, reverse, simple, level as nat)),
        ensures
            forall|i: int| 0 <= i < sorted@.len() ==> (#[trigger] sorted@[i]).1 == strokes_of(self, sorted@[i].0 as char) && is_char_code(sorted@[i].0),
            in_stroke_order(self, search_results(self, inp@, reverse, simple, level as nat), sorted@.map_values(|p: (u32, u64)| p.0)),
    {
        let set = self.input_code_set(inp);
        let mut seen: HashSet<u32> = HashSet::new();
        let lookup = if reverse {
            self.chars_to_components(&mut seen, &set, !simple)
        } else {
            self.components_to_chars(&mut seen, &set, !simple)
        };
        let ghost results = search_results(self, inp@, reverse, simple, level as nat);
        proof {
            lemma_results_in_targets(self, inp@, reverse, simple, level as nat);
            if !reverse {
                lemma_results_in_targets(self, inp@, false, simple, 3);
                assert(lookup@ =~= search_results(self, inp@, false, simple, 3));
            }
            assert(lookup@.filter(|u: u32| reverse || in_level(self, level as nat, u)) =~= results);
        }
        let pairs = self.counted_results(&lookup, reverse, level);
        let sorted = sort_pairs(&pairs, false);
        proof {
            assert forall|i: int| 0 <= i < sorted@.len() implies (#[trigger] sorted@[i]).1 == strokes_of(self, sorted@[i].0 as char) && is_char_code(sorted@[i].0) by {
                assert(sorted@.to_set().contains(sorted@[i]));
                let k = choose|k: int| 0 <= k < pairs@.len() && pairs@[k] == sorted@[i];
                assert(pairs@.map_values(|p: (u32, u64)| p.0)[k] == pairs@[k].0);
                assert(pairs@.map_values(|p: (u32, u64)| p.0).to_set().contains(pairs@[k].0));
            }
            lemma_order_of_sorted(self, pairs@, sorted@, results);
        }
        sorted
    }

    /// The characters a request with `args` finds, in the order the reply
    /// lists them; `None` when it asks for nothing.
    pub fn search_hits(&self, args: &QueryArgs) -> (r: Option<Vec<char>>)
        requires
            self.well_shaped(),
            search_counted(self, args@),
        ensures
            match search_input(args@) {
                None => r is None,
                Some(input) => r matches Some(v) && in_stroke_order(
                    self,
                    search_results(self, input, args@.contains_key("reverse"@), args@.contains_key("simple"@), filter_level(args@)),
                    v@.map_values(|c: char| c as u32),
                ),
            },
    {
        let reverse = args.contains_key("reverse");
        let simple = args.contains_key("simple");
        let level = read_filter_level(args);
        match read_input(args) {
            None => None,
            Some(inp) => {
                let sorted = self.sorted_results(&inp, reverse, simple, level);
                let ghost codes = sorted@.map_values(|p: (u32, u64)| p.0);
                let mut v: Vec<char> = Vec::new();
                let mut i: usize = 0;
                while i < sorted.len()
                    invariant
                        0 <= i <= sorted@.len(),
                        codes == sorted@.map_values(|p: (u32, u64)| p.0),
                        forall|k: int| 0 <= k < sorted@.len() ==> is_char_code(#[trigger] sorted@[k].0),
                        v@.map_values(|c: char| c as u32) == codes.take(i as int),
                    decreases sorted@.len() - i,
                {
                    let u = sorted[i].0;
                    assert(is_char_code(sorted@[i as int].0));
                    let c = match char_from_u32(u) {
                        Some(c) => c,
                        None => ' ',
                    };
                    let ghost before = v@;
                    v.push(c);
                    assert(v@.map_values(|c: char| c as u32) =~= before.map_values(|c: char| c as u32).push(u));
                    assert(codes.take(i as int + 1) =~= codes.take(i as int).push(u));
                    i = i + 1;
                }
                assert(codes.take(i as int) =~= codes);
                Some(v)
            },
        }
    }
}

/// Sorting the counted results puts the found characters in stroke order.
pub(crate) proof fn lemma_order_of_sorted(
    d: &ServerData,
    pairs: Seq<(u32, u64)>,
    sorted: Seq<(u32, u64)>,
    results: Set<u32>,
)
    requires
        crate::order::distinct_codes(pairs),
        sorted_pairs(sorted, false),
        sorted.to_set() == pairs.to_set(),
        sorted.len() == pairs.len(),
        pairs.map_values(|p: (u32, u64)| p.0).to_set() == results,
        forall|i: int| 0 <= i < sorted.len() ==> (#[trigger] sorted[i]).1 == strokes_of(d, sorted[i].0 as char),
    ensures
        in_stroke_order(d, results, sorted.map_values(|p: (u32, u64)| p.0)),
{
    let s = sorted.map_values(|p: (u32, u64)| p.0);
    assert forall|i: int, j: int| 0 <= i < j < s.len() implies pair_before(
        (s[i], strokes_of(d, s[i] as char) as u64),
        (s[j], strokes_of(d, s[j] as char) as u64),
        false,
    ) by {
        assert(pair_before(sorted[i], sorted[j], false));
        assert(sorted[i] == (s[i], strokes_of(d, s[i] as char) as u64));
        assert(sorted[j] == (s[j], strokes_of(d, s[j] as char) as u64));
    }
    assert forall|i: int, j: int| 0 <= i < s.len() && 0 <= j < s.len() && i != j implies s[i] != s[j] by {
        if i < j {
            assert(pair_before(sorted[i], sorted[j], false));
        } else {
            assert(pair_before(sorted[j], sorted[i], false));
        }
    }
    assert(s.to_set() =~= results) by {
        let ps = pairs.map_values(|p: (u32, u64)| p.0);
        assert forall|u: u32| s.to_set().contains(u) implies results.contains(u) by {
            let i = choose|i: int| 0 <= i < s.len() && s[i] == u;
            assert(sorted.to_set().contains(sorted[i]));
            let k = choose|k: int| 0 <= k < pairs.len() && pairs[k] == sorted[i];
            assert(ps[k] == u);
            assert(ps.to_set().contains(u));
        }
        assert forall|u: u32| results.contains(u) implies s.to_set().contains(u) by {
            assert(ps.to_set().contains(u));
            let k = choose|k: int| 0 <= k < ps.len() && ps[k] == u;
            assert(pairs.to_set().contains(pairs[k]));
            let i = choose|i: int| 0 <= i < sorted.len() && sorted[i] == pairs[k];
            assert(s[i] == u);
        }
    }
}

} // verus!
