//! What searches, filter levels, result pages and stroke counts promise,
//! stated over their inputs and results.
use vstd::prelude::*;
use crate::graph::{edge, lemma_reach_avoid_mono, lemma_reach_start_mono, lemma_reach_union, lemma_step_reached, reach, step};
use crate::pages::{radical_render, radical_span};
use crate::search::{filter_level, input_code, input_codes, result_span, results_html, search_results, groups_body};
use crate::server::{found, found_from_all, ServerData};
use crate::strokes::spec_strokes;
use crate::text::occurs_at;

verus! {

/// A character that the dictionary gives a count for (other than 辶, which
/// always has 4 strokes) has exactly the dictionary's count, whether or
/// not it also has a component list.
pub proof fn law_dictionary_count_wins(d: &ServerData, c: char)
    requires
        d.char_to_strokes@.contains_key(c as u32),
    ensures
        c == '辶' ==> spec_strokes(d, c) == Some(4nat),
        c != '辶' ==> spec_strokes(d, c) == Some(d.char_to_strokes@[c as u32] as nat),
{
}

/// Everything a non-reverse search for `input` finds before filtering.
pub open spec fn unfiltered(d: &ServerData, input: Seq<char>, simple: bool) -> Set<u32> {
    found_from_all(d.char_graph(), Set::empty(), input_codes(d, input), !simple)
}

/// Filter level 0 keeps the characters of the `joyoplus` list, 1 those of
/// the `media` list, 2 those of the `kanjidicplus` list, and 3 (or more)
/// keeps everything.
pub proof fn law_filter_levels(d: &ServerData, input: Seq<char>, simple: bool, level: nat)
    ensures
        search_results(d, input, false, simple, 0) == unfiltered(d, input, simple).intersect(d.joyoplus@),
        search_results(d, input, false, simple, 1) == unfiltered(d, input, simple).intersect(d.media@),
        search_results(d, input, false, simple, 2) == unfiltered(d, input, simple).intersect(d.kanjidicplus@),
        level >= 3 ==> search_results(d, input, false, simple, level) == unfiltered(d, input, simple),
{
    assert(search_results(d, input, false, simple, 0) =~= unfiltered(d, input, simple).intersect(d.joyoplus@));
    assert(search_results(d, input, false, simple, 1) =~= unfiltered(d, input, simple).intersect(d.media@));
    assert(search_results(d, input, false, simple, 2) =~= unfiltered(d, input, simple).intersect(d.kanjidicplus@));
    assert(level >= 3 ==> search_results(d, input, false, simple, level) =~= unfiltered(d, input, simple));
}

/// The `filter_level` argument: `all` or no argument keeps everything
/// found, `kanjidicplus`, `media` and `joyoplus` keep the characters of
/// their lists, and anything else keeps those of the `media` list.
pub proof fn law_filter_argument(d: &ServerData, args: Map<Seq<char>, Seq<char>>, input: Seq<char>, simple: bool)
    ensures
        ({
            let r = search_results(d, input, false, simple, filter_level(args));
            let all = unfiltered(d, input, simple);
            &&& !args.contains_key("filter_level"@) ==> r == all
            &&& args.contains_key("filter_level"@) && args["filter_level"@] == "all"@ ==> r == all
            &&& args.contains_key("filter_level"@) && args["filter_level"@] == "kanjidicplus"@ ==> r == all.intersect(d.kanjidicplus@)
            &&& args.contains_key("filter_level"@) && args["filter_level"@] == "media"@ ==> r == all.intersect(d.media@)
            &&& args.contains_key("filter_level"@) && args["filter_level"@] == "joyoplus"@ ==> r == all.intersect(d.joyoplus@)
            &&& args.contains_key("filter_level"@) && args["filter_level"@] != "all"@
                && args["filter_level"@] != "kanjidicplus"@ && args["filter_level"@] != "joyoplus"@
                ==> r == all.intersect(d.media@)
        }),
{
    reveal_strlit("all");
    reveal_strlit("media");
    reveal_strlit("joyoplus");
    reveal_strlit("kanjidicplus");
    assert("all"@.len() == 3);
    assert("media"@.len() == 5);
    assert("joyoplus"@.len() == 8);
    assert("kanjidicplus"@.len() == 12);
    law_filter_levels(d, input, simple, filter_level(args));
}

/// The code points looked up for `a + b` are those of `a` and those of `b`.
proof fn lemma_input_codes_concat(d: &ServerData, a: Seq<char>, b: Seq<char>)
    ensures
        input_codes(d, a + b) == input_codes(d, a) + input_codes(d, b),
{
    assert forall|u: u32| input_codes(d, a + b).contains(u) implies (input_codes(d, a) + input_codes(d, b)).contains(u) by {
        let i = choose|i: int| 0 <= i < (a + b).len() && u == #[trigger] input_code(d, a + b, i);
        if i < a.len() {
            assert(input_code(d, a, i) == u);
        } else {
            assert(input_code(d, b, i - a.len()) == u);
        }
    }
    assert forall|u: u32| (input_codes(d, a) + input_codes(d, b)).contains(u) implies input_codes(d, a + b).contains(u) by {
        if input_codes(d, a).contains(u) {
            let i = choose|i: int| 0 <= i < a.len() && u == #[trigger] input_code(d, a, i);
            assert(input_code(d, a + b, i) == u);
        } else {
            let i = choose|i: int| 0 <= i < b.len() && u == #[trigger] input_code(d, b, i);
            assert(input_code(d, a + b, i + a.len()) == u);
        }
    }
    assert(input_codes(d, a + b) =~= input_codes(d, a) + input_codes(d, b));
}

/// Reaching from two sets of starts with nothing to avoid reaches what
/// each reaches.
proof fn lemma_reach_union_plain(g: Map<u32, Set<u32>>, s: Set<u32>, t: Set<u32>)
    ensures
        reach(g, Set::empty(), s + t) == reach(g, Set::empty(), s) + reach(g, Set::empty(), t),
{
    let e = Set::<u32>::empty();
    lemma_reach_union(g, e, s, t);
    lemma_reach_avoid_mono(g, e, e + reach(g, e, s), t);
    lemma_reach_start_mono(g, e, s, s + t);
    lemma_reach_start_mono(g, e, t, s + t);
    assert(reach(g, e, s + t) =~= reach(g, e, s) + reach(g, e, t));
}

/// A reverse search of several characters finds the components of any of
/// them: searching `a + b` finds what searching `a` and searching `b`
/// find together.
pub proof fn law_reverse_search_union(d: &ServerData, a: Seq<char>, b: Seq<char>, simple: bool, level: nat)
    ensures
        search_results(d, a + b, true, simple, level) == search_results(d, a, true, simple, level)
            + search_results(d, b, true, simple, level),
{
    let g = d.comp_graph();
    lemma_input_codes_concat(d, a, b);
    let s = input_codes(d, a);
    let t = input_codes(d, b);
    if simple {
        assert(step(g, s + t) - Set::<u32>::empty() =~= (step(g, s) - Set::<u32>::empty()) + (step(g, t)
            - Set::<u32>::empty())) by {
            assert forall|y: u32| step(g, s + t).contains(y) implies (step(g, s) + step(g, t)).contains(y) by {
                let x = choose|x: u32| (s + t).contains(x) && #[trigger] edge(g, x, y);
                if s.contains(x) {
                    assert(step(g, s).contains(y));
                } else {
                    assert(step(g, t).contains(y));
                }
            }
            assert forall|y: u32| (step(g, s) + step(g, t)).contains(y) implies step(g, s + t).contains(y) by {
                if step(g, s).contains(y) {
                    let x = choose|x: u32| s.contains(x) && #[trigger] edge(g, x, y);
                    assert((s + t).contains(x));
                } else {
                    let x = choose|x: u32| t.contains(x) && #[trigger] edge(g, x, y);
                    assert((s + t).contains(x));
                }
            }
        }
    } else {
        lemma_reach_union_plain(g, s, t);
    }
}

/// A reverse search finds every direct component of every character
/// searched for, simple or not.
pub proof fn law_reverse_finds_components(d: &ServerData, input: Seq<char>, simple: bool, level: nat, i: int, y: u32)
    requires
        0 <= i < input.len(),
        edge(d.comp_graph(), input_code(d, input, i), y),
    ensures
        search_results(d, input, true, simple, level).contains(y),
{
    let g = d.comp_graph();
    let codes = input_codes(d, input);
    assert(codes.contains(input_code(d, input, i)));
    assert(step(g, codes).contains(y));
    lemma_step_reached(g, Set::empty(), codes);
}

/// A non-reverse search for several characters finds what holds every one
/// of them: searching `a + b` (both non-empty) finds what searching `a`
/// and searching `b` both find.
pub proof fn law_search_intersection(d: &ServerData, a: Seq<char>, b: Seq<char>, simple: bool, level: nat)
    requires
        a.len() > 0,
        b.len() > 0,
    ensures
        search_results(d, a + b, false, simple, level) == search_results(d, a, false, simple, level).intersect(
            search_results(d, b, false, simple, level),
        ),
{
    let g = d.char_graph();
    lemma_input_codes_concat(d, a, b);
    let s = input_codes(d, a);
    let t = input_codes(d, b);
    assert(s.contains(input_code(d, a, 0)));
    assert(t.contains(input_code(d, b, 0)));
    let e = Set::<u32>::empty();
    let r = !simple;
    assert forall|y: u32| found_from_all(g, e, s + t, r).contains(y) implies found_from_all(g, e, s, r).intersect(
        found_from_all(g, e, t, r),
    ).contains(y) by {
        assert forall|c: u32| #[trigger] s.contains(c) implies found(g, e, set![c], r).contains(y) by {
            assert((s + t).contains(c));
        }
        assert forall|c: u32| #[trigger] t.contains(c) implies found(g, e, set![c], r).contains(y) by {
            assert((s + t).contains(c));
        }
    }
    assert forall|y: u32| found_from_all(g, e, s, r).intersect(found_from_all(g, e, t, r)).contains(y)
        implies found_from_all(g, e, s + t, r).contains(y) by {
        assert((s + t).contains(input_code(d, a, 0)));
        assert forall|c: u32| #[trigger] (s + t).contains(c) implies found(g, e, set![c], r).contains(y) by {
            if s.contains(c) {
            } else {
                assert(t.contains(c));
            }
        }
    }
    assert(found_from_all(g, e, s + t, r) =~= found_from_all(g, e, s, r).intersect(found_from_all(g, e, t, r)));
    assert(search_results(d, a + b, false, simple, level) =~= search_results(d, a, false, simple, level).intersect(
        search_results(d, b, false, simple, level),
    ));
}

/// What occurs in `x` occurs in `x + y` at the same place, and in `y + x`
/// shifted by the length of `y`.
proof fn lemma_occurs_extend(x: Seq<char>, y: Seq<char>, pat: Seq<char>, p: int)
    requires
        occurs_at(x, pat, p),
    ensures
        occurs_at(x + y, pat, p),
        occurs_at(y + x, pat, p + y.len()),
{
    assert((x + y).subrange(p, p + pat.len()) =~= x.subrange(p, p + pat.len()));
    assert((y + x).subrange(p + y.len(), p + y.len() + pat.len()) =~= x.subrange(p, p + pat.len()));
}

/// Every character listed in `s` has its span in the groups of `s`.
proof fn lemma_groups_hold_spans(d: &ServerData, s: Seq<u32>, i: int)
    requires
        0 <= i < s.len(),
    ensures
        exists|p: int| occurs_at(groups_body(d, s), result_span(s[i]), p),
    decreases s.len(),
{
    let pre = groups_body(d, s.drop_last());
    let u = s.last();
    let n = crate::pages::strokes_of(d, u as char);
    let opening = if s.len() == 1 {
        crate::pages::stroke_heading(n)
    } else if crate::pages::strokes_of(d, s[s.len() - 2] as char) != n {
        "<br>\n"@ + crate::pages::stroke_heading(n)
    } else {
        Seq::empty()
    };
    assert(groups_body(d, s) == pre + opening + result_span(u));
    if i == s.len() - 1 {
        let head = pre + opening;
        let sp = result_span(u);
        assert(sp.subrange(0, sp.len() as int) =~= sp);
        assert(occurs_at(sp, sp, 0));
        lemma_occurs_extend(sp, head, sp, 0);
        assert(head + sp == groups_body(d, s));
    } else {
        lemma_groups_hold_spans(d, s.drop_last(), i);
        assert(s.drop_last()[i] == s[i]);
        let p = choose|p: int| occurs_at(pre, result_span(s[i]), p);
        lemma_occurs_extend(pre, opening + result_span(u), result_span(s[i]), p);
        assert(pre + (opening + result_span(u)) =~= groups_body(d, s));
    }
}

/// The results section lists every character found: the span of each
/// occurs in it.
pub proof fn law_results_list_every_character(d: &ServerData, s: Seq<u32>, i: int)
    requires
        0 <= i < s.len(),
    ensures
        exists|p: int| occurs_at(results_html(d, s), result_span(s[i]), p),
{
    lemma_groups_hold_spans(d, s, i);
    let body = groups_body(d, s);
    let p = choose|p: int| occurs_at(body, result_span(s[i]), p);
    let head = "<span class=resetspacing>Ordered by stroke count:</span><br>"@;
    let tail = "<br>\n"@ + "<span class=resetspacing>Some stroke counts might be estimates.<br>Some characters might be too obscure for your system to render. Consider installing Hanazono Mincho (both HanaMinA and HanaMinB) if this is the case.</span>"@;
    lemma_occurs_extend(body, tail, result_span(s[i]), p);
    lemma_occurs_extend(body + tail, head, result_span(s[i]), p);
    assert(results_html(d, s) =~= head + (body + tail));
}

/// The spans of the characters listed in `s` come in the order of `s`.
proof fn lemma_groups_in_order(d: &ServerData, s: Seq<u32>, i: int, j: int)
    requires
        0 <= i < j < s.len(),
    ensures
        exists|p: int, q: int|
            p < q && occurs_at(groups_body(d, s), result_span(s[i]), p) && occurs_at(
                groups_body(d, s),
                result_span(s[j]),
                q,
            ),
    decreases s.len(),
{
    let pre = groups_body(d, s.drop_last());
    let u = s.last();
    let n = crate::pages::strokes_of(d, u as char);
    let opening = if s.len() == 1 {
        crate::pages::stroke_heading(n)
    } else if crate::pages::strokes_of(d, s[s.len() - 2] as char) != n {
        "<br>\n"@ + crate::pages::stroke_heading(n)
    } else {
        Seq::empty()
    };
    let rest = opening + result_span(u);
    assert(groups_body(d, s) =~= pre + rest);
    assert(s.drop_last()[i] == s[i]);
    if j == s.len() - 1 {
        lemma_groups_hold_spans(d, s.drop_last(), i);
        let p = choose|p: int| occurs_at(pre, result_span(s[i]), p);
        lemma_occurs_extend(pre, rest, result_span(s[i]), p);
        let sp = result_span(u);
        assert(sp.subrange(0, sp.len() as int) =~= sp);
        lemma_occurs_extend(sp, pre + opening, sp, 0);
        assert((pre + opening) + sp =~= pre + rest);
        let q = (pre + opening).len() as int;
        assert(p + sp.len() <= pre.len());
        assert(p < q);
        assert(occurs_at(groups_body(d, s), result_span(s[j]), q));
    } else {
        lemma_groups_in_order(d, s.drop_last(), i, j);
        assert(s.drop_last()[j] == s[j]);
        let (p, q) = choose|p: int, q: int|
            p < q && occurs_at(pre, result_span(s[i]), p) && occurs_at(pre, result_span(s[j]), q);
        lemma_occurs_extend(pre, rest, result_span(s[i]), p);
        lemma_occurs_extend(pre, rest, result_span(s[j]), q);
    }
}

/// The results section lists the characters found in the order given:
/// the span of an earlier one comes before the span of a later one.
pub proof fn law_results_in_given_order(d: &ServerData, s: Seq<u32>, i: int, j: int)
    requires
        0 <= i < j < s.len(),
    ensures
        exists|p: int, q: int|
            p < q && occurs_at(results_html(d, s), result_span(s[i]), p) && occurs_at(
                results_html(d, s),
                result_span(s[j]),
                q,
            ),
{
    lemma_groups_in_order(d, s, i, j);
    let body = groups_body(d, s);
    let (p, q) = choose|p: int, q: int|
        p < q && occurs_at(body, result_span(s[i]), p) && occurs_at(body, result_span(s[j]), q);
    let head = "<span class=resetspacing>Ordered by stroke count:</span><br>"@;
    let tail = "<br>\n"@ + "<span class=resetspacing>Some stroke counts might be estimates.<br>Some characters might be too obscure for your system to render. Consider installing Hanazono Mincho (both HanaMinA and HanaMinB) if this is the case.</span>"@;
    lemma_occurs_extend(body, tail, result_span(s[i]), p);
    lemma_occurs_extend(body, tail, result_span(s[j]), q);
    lemma_occurs_extend(body + tail, head, result_span(s[i]), p);
    lemma_occurs_extend(body + tail, head, result_span(s[j]), q);
    assert(results_html(d, s) =~= head + (body + tail));
}

/// Every component offered for picking has its span in the picker, in
/// the order of the components.
pub proof fn law_picker_lists_every_component(d: &ServerData, comps: Seq<char>, i: int)
    requires
        0 <= i < comps.len(),
    ensures
        exists|p: int| occurs_at(radical_render(d, comps).0, radical_span(comps[i]), p),
    decreases comps.len(),
{
    let (h, last) = radical_render(d, comps.drop_last());
    let c = comps.last();
    let sp = radical_span(c);
    assert(sp.subrange(0, sp.len() as int) =~= sp);
    assert(occurs_at(sp, sp, 0));
    let out = radical_render(d, comps).0;
    let n = crate::pages::strokes_of(d, c);
    let before = if n != last {
        (if last != 0 { h + "<br>\n"@ } else { h }) + crate::pages::stroke_heading(n)
    } else {
        h
    };
    assert(out == before + sp);
    if i == comps.len() - 1 {
        lemma_occurs_extend(sp, before, sp, 0);
    } else {
        law_picker_lists_every_component(d, comps.drop_last(), i);
        assert(comps.drop_last()[i] == comps[i]);
        let p = choose|p: int| occurs_at(h, radical_span(comps[i]), p);
        let mid = before.subrange(h.len() as int, before.len() as int);
        assert(before =~= h + mid);
        lemma_occurs_extend(h, mid + sp, radical_span(comps[i]), p);
        assert(h + (mid + sp) =~= out);
    }
}

/// A request searches for its `input` argument, and only when there is
/// none for its `lookup` argument; with neither it searches for nothing.
pub proof fn law_input_before_lookup(args: Map<Seq<char>, Seq<char>>)
    ensures
        args.contains_key("input"@) ==> crate::search::search_input(args) == Some(args["input"@]),
        !args.contains_key("input"@) && args.contains_key("lookup"@) ==> crate::search::search_input(args)
            == Some(args["lookup"@]),
        !args.contains_key("input"@) && !args.contains_key("lookup"@) ==> crate::search::search_input(args) is None,
{
}

} // verus!
