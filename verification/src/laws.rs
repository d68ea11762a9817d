//! Properties that hold across the searches and the stroke counts.
use vstd::prelude::*;
use crate::graph::{edge, lemma_step_reached, linked, clear_of, reach, step, walk, walk_to};
use crate::ids::{ids_all, inverse_graphs, lemma_ids_all_invariant, sets_nonempty};
use crate::server::{found, found_from_all, ServerData};
use crate::pages::{default_page, strokes_of};
use crate::search::{filter_level, search_page};
use crate::template::{brace_free, fill_pieces, lemma_fill_step, pieces_ok, render};
use crate::strokes::{
    spec_strokes, stroke_count_ok, stroke_depth, stroke_dict, stroke_parts, strokes_defined,
    strokes_within, sum_strokes_within,
};

verus! {

/// A walk read backwards is a walk of the reversed graph.
proof fn lemma_reverse_walk(g: Map<u32, Set<u32>>, h: Map<u32, Set<u32>>, p: Seq<u32>)
    requires
        inverse_graphs(g, h),
        walk(g, Set::empty(), p),
    ensures
        walk(h, Set::empty(), p.reverse()),
        p.reverse()[0] == p.last(),
        p.reverse().last() == p[0],
{
    let q = p.reverse();
    assert forall|i: int| 0 <= i < q.len() - 1 implies #[trigger] linked(h, q, i) by {
        let j = p.len() - 2 - i;
        assert(linked(g, p, j));
        assert(edge(g, p[j], p[j + 1]));
        assert(q[i] == p[j + 1] && q[i + 1] == p[j]);
    }
    assert forall|i: int| 1 <= i < q.len() implies #[trigger] clear_of(Set::empty(), q, i) by {}
}

/// Looking up the characters that hold `x` finds `y` exactly when looking
/// up the components of `y` finds `x`, in both the simple and the
/// recursive search, as long as the two graphs are each other's reverse.
pub proof fn law_lookup_directions_agree(d: &ServerData, x: u32, y: u32, recursive: bool)
    requires
        inverse_graphs(d.comp_graph(), d.char_graph()),
    ensures
        found(d.char_graph(), Set::empty(), set![x], recursive).contains(y) <==> found(
            d.comp_graph(),
            Set::empty(),
            set![y],
            recursive,
        ).contains(x),
{
    let g = d.char_graph();
    let h = d.comp_graph();
    assert(inverse_graphs(g, h)) by {
        assert forall|a: u32, b: u32| #[trigger] edge(g, a, b) <==> #[trigger] edge(h, b, a) by {
            assert(edge(h, b, a) <==> edge(g, a, b));
        }
    }
    if recursive {
        if reach(g, Set::empty(), set![x]).contains(y) {
            let p = choose|p: Seq<u32>| #[trigger] walk_to(g, Set::empty(), set![x], y, p);
            lemma_reverse_walk(g, h, p);
            assert(walk_to(h, Set::empty(), set![y], x, p.reverse()));
        }
        if reach(h, Set::empty(), set![y]).contains(x) {
            let p = choose|p: Seq<u32>| #[trigger] walk_to(h, Set::empty(), set![y], x, p);
            lemma_reverse_walk(h, g, p);
            assert(walk_to(g, Set::empty(), set![x], y, p.reverse()));
        }
    } else {
        if step(g, set![x]).contains(y) {
            let a = choose|a: u32| set![x].contains(a) && #[trigger] edge(g, a, y);
            assert(edge(h, y, x));
            assert(set![y].contains(y));
        }
        if step(h, set![y]).contains(x) {
            let a = choose|a: u32| set![y].contains(a) && #[trigger] edge(h, a, x);
            assert(edge(g, x, y));
            assert(set![x].contains(x));
        }
    }
}

/// A simple search finds nothing that a recursive search misses.
pub proof fn law_simple_within_recursive(
    g: Map<u32, Set<u32>>,
    seen: Set<u32>,
    start: Set<u32>,
)
    ensures
        found(g, seen, start, false) <= found(g, seen, start, true),
{
    lemma_step_reached(g, seen, start);
}

/// Asking for more components never finds more characters.
pub proof fn law_more_components_fewer_chars(
    g: Map<u32, Set<u32>>,
    seen: Set<u32>,
    fewer: Set<u32>,
    more: Set<u32>,
    recursive: bool,
)
    requires
        fewer <= more,
        fewer != Set::<u32>::empty(),
    ensures
        found_from_all(g, seen, more, recursive) <= found_from_all(g, seen, fewer, recursive),
{
    if forall|c: u32| !fewer.contains(c) {
        assert(fewer =~= Set::<u32>::empty());
    }
    let c0 = choose|c: u32| fewer.contains(c);
    assert forall|y: u32| #[trigger] found_from_all(g, seen, more, recursive).contains(y) implies found_from_all(
        g,
        seen,
        fewer,
        recursive,
    ).contains(y) by {
        assert(fewer.contains(c0));
        assert forall|c: u32| #[trigger] fewer.contains(c) implies found(g, seen, set![c], recursive).contains(y) by {
            assert(more.contains(c));
        }
    }
}

/// Following components deeper changes no stroke count already found.
proof fn lemma_strokes_deeper(dict: Map<u32, u64>, parts: Map<u32, Seq<char>>, c: char, fuel: nat)
    requires
        strokes_within(dict, parts, c, fuel) is Some,
    ensures
        strokes_within(dict, parts, c, fuel + 1) == strokes_within(dict, parts, c, fuel),
    decreases fuel, 0nat,
{
    if c != '辶' && !dict.contains_key(c as u32) && parts.contains_key(c as u32) {
        lemma_sum_deeper(dict, parts, parts[c as u32], (fuel - 1) as nat);
    }
}

/// Following components deeper changes no sum of stroke counts already found.
proof fn lemma_sum_deeper(
    dict: Map<u32, u64>,
    parts: Map<u32, Seq<char>>,
    list: Seq<char>,
    fuel: nat,
)
    requires
        sum_strokes_within(dict, parts, list, fuel) is Some,
    ensures
        sum_strokes_within(dict, parts, list, fuel + 1) == sum_strokes_within(dict, parts, list, fuel),
    decreases fuel, list.len(),
{
    if list.len() > 0 {
        lemma_sum_deeper(dict, parts, list.drop_last(), fuel);
        lemma_strokes_deeper(dict, parts, list.last(), fuel);
    }
}

/// The stroke counts of the characters of `list` added up.
pub open spec fn component_strokes(d: &ServerData, list: Seq<char>) -> nat
    decreases list.len(),
{
    if list.len() == 0 {
        0
    } else {
        component_strokes(d, list.drop_last()) + strokes_of(d, list.last())
    }
}

/// With every stroke count defined, adding up a list within the full
/// depth gives the sum of the characters' stroke counts.
proof fn lemma_sum_is_component_strokes(d: &ServerData, list: Seq<char>)
    requires
        strokes_defined(d),
    ensures
        sum_strokes_within(stroke_dict(d), stroke_parts(d), list, stroke_depth(d)) == Some(
            component_strokes(d, list),
        ),
    decreases list.len(),
{
    if list.len() > 0 {
        lemma_sum_is_component_strokes(d, list.drop_last());
        assert(stroke_count_ok(stroke_dict(d), stroke_parts(d), list.last(), stroke_depth(d)));
    }
}

/// A character that the dictionary gives no count for, and that has a
/// component list, has as many strokes as its components together.
pub proof fn law_strokes_add_up(d: &ServerData, c: char)
    requires
        strokes_defined(d),
        c != '辶',
        !d.char_to_strokes@.contains_key(c as u32),
        d.char_to_first_comp@.contains_key(c as u32),
    ensures
        spec_strokes(d, c) == Some(component_strokes(d, d.char_to_first_comp@[c as u32]@)),
{
    let dict = stroke_dict(d);
    let parts = stroke_parts(d);
    let n = stroke_depth(d);
    assert(stroke_count_ok(dict, parts, c, n));
    assert(parts.contains_key(c as u32));
    assert(n > 0) by {
        assert(d.char_to_first_comp@.dom().contains(c as u32));
        vstd::set_lib::lemma_set_empty_equivalency_len(d.char_to_first_comp@.dom());
    }
    lemma_sum_deeper(dict, parts, parts[c as u32], (n - 1) as nat);
    lemma_sum_is_component_strokes(d, parts[c as u32]);
}

/// Reading IDS lines, when it succeeds, gives a graph from components to
/// characters that is exactly the reverse of the graph from characters to
/// components, stores no empty set of components or of characters, and no
/// empty component list.
pub proof fn law_ids_maps_consistent(rw: Map<u32, char>, lines: Seq<Seq<char>>)
    requires
        ids_all(rw, lines) is Some,
    ensures
        inverse_graphs(ids_all(rw, lines).unwrap().0, ids_all(rw, lines).unwrap().1),
        sets_nonempty(ids_all(rw, lines).unwrap().0),
        sets_nonempty(ids_all(rw, lines).unwrap().1),
        forall|k: u32| #[trigger] ids_all(rw, lines).unwrap().2.contains_key(k) ==> ids_all(rw, lines).unwrap().2[k].len() > 0,
{
    lemma_ids_all_invariant(rw, lines);
}

/// The start page is the page answering a request that asks for nothing
/// with the `media` filter level, as long as the template's own text holds
/// no braces outside its slots.
pub proof fn law_start_page_is_empty_media_search(d: &ServerData, pieces: Seq<(bool, Seq<char>)>)
    requires
        d.template@ == render(pieces),
        pieces_ok(pieces),
    ensures
        default_page(d) == search_page(
            d,
            Map::<Seq<char>, Seq<char>>::empty().insert("filter_level"@, "media"@),
            false,
            Seq::empty(),
        ),
{
    broadcast use vstd::seq_lib::group_seq_properties;
    reveal_strlit("input");
    reveal_strlit("reverse_checked");
    reveal_strlit("simple_checked");
    reveal_strlit("selected_joyoplus");
    reveal_strlit("selected_media");
    reveal_strlit("selected_kanjidicplus");
    reveal_strlit("selected_all");
    reveal_strlit("output");
    reveal_strlit("filter_level");
    reveal_strlit("media");
    reveal_strlit("joyoplus");
    reveal_strlit("reverse");
    reveal_strlit("simple");
    reveal_strlit("lookup");
    reveal_strlit("selected");
    reveal_strlit("");
    let e = ""@;
    let sel = "selected"@;
    assert(e =~= Seq::<char>::empty());
    assert(sel =~= seq!['s', 'e', 'l', 'e', 'c', 't', 'e', 'd']);
    assert("input"@ =~= seq!['i', 'n', 'p', 'u', 't']);
    assert("output"@ =~= seq!['o', 'u', 't', 'p', 'u', 't']);
    assert("reverse_checked"@ =~= seq!['r', 'e', 'v', 'e', 'r', 's', 'e', '_', 'c', 'h', 'e', 'c', 'k', 'e', 'd']);
    assert("simple_checked"@ =~= seq!['s', 'i', 'm', 'p', 'l', 'e', '_', 'c', 'h', 'e', 'c', 'k', 'e', 'd']);
    assert("selected_joyoplus"@ =~= seq!['s', 'e', 'l', 'e', 'c', 't', 'e', 'd', '_', 'j', 'o', 'y', 'o', 'p', 'l', 'u', 's']);
    assert("selected_media"@ =~= seq!['s', 'e', 'l', 'e', 'c', 't', 'e', 'd', '_', 'm', 'e', 'd', 'i', 'a']);
    assert("selected_kanjidicplus"@ =~= seq!['s', 'e', 'l', 'e', 'c', 't', 'e', 'd', '_', 'k', 'a', 'n', 'j', 'i', 'd', 'i', 'c', 'p', 'l', 'u', 's']);
    assert("selected_all"@ =~= seq!['s', 'e', 'l', 'e', 'c', 't', 'e', 'd', '_', 'a', 'l', 'l']);
    assert(brace_free(e));
    assert(brace_free(sel));
    assert(brace_free("input"@));
    assert(brace_free("output"@));
    assert(brace_free("reverse_checked"@));
    assert(brace_free("simple_checked"@));
    assert(brace_free("selected_joyoplus"@));
    assert(brace_free("selected_media"@));
    assert(brace_free("selected_kanjidicplus"@));
    assert(brace_free("selected_all"@));
    let args = Map::<Seq<char>, Seq<char>>::empty().insert("filter_level"@, "media"@);
    assert("reverse"@.len() == 7);
    assert("simple"@.len() == 6);
    assert("filter_level"@.len() == 12);
    assert(!args.contains_key("reverse"@));
    assert(!args.contains_key("simple"@));
    assert(!args.contains_key("input"@));
    assert(!args.contains_key("lookup"@));
    assert("media"@.len() == 5);
    assert("joyoplus"@.len() == 8);
    assert(filter_level(args) == 1);
    // The start page, slot by slot.
    let d1 = fill_pieces(pieces, "input"@, e);
    lemma_fill_step(pieces, "input"@, e);
    let d2 = fill_pieces(d1, "reverse_checked"@, e);
    lemma_fill_step(d1, "reverse_checked"@, e);
    let d3 = fill_pieces(d2, "simple_checked"@, e);
    lemma_fill_step(d2, "simple_checked"@, e);
    let d4 = fill_pieces(d3, "selected_joyoplus"@, e);
    lemma_fill_step(d3, "selected_joyoplus"@, e);
    let d5 = fill_pieces(d4, "selected_media"@, sel);
    lemma_fill_step(d4, "selected_media"@, sel);
    let d6 = fill_pieces(d5, "selected_kanjidicplus"@, e);
    lemma_fill_step(d5, "selected_kanjidicplus"@, e);
    let d7 = fill_pieces(d6, "selected_all"@, e);
    lemma_fill_step(d6, "selected_all"@, e);
    let d8 = fill_pieces(d7, "output"@, e);
    lemma_fill_step(d7, "output"@, e);
    // The empty search, slot by slot.
    let s2 = fill_pieces(d1, "output"@, e);
    lemma_fill_step(d1, "output"@, e);
    let s3 = fill_pieces(s2, "reverse_checked"@, e);
    lemma_fill_step(s2, "reverse_checked"@, e);
    let s4 = fill_pieces(s3, "simple_checked"@, e);
    lemma_fill_step(s3, "simple_checked"@, e);
    let s5 = fill_pieces(s4, "selected_joyoplus"@, e);
    lemma_fill_step(s4, "selected_joyoplus"@, e);
    let s6 = fill_pieces(s5, "selected_media"@, sel);
    lemma_fill_step(s5, "selected_media"@, sel);
    let s7 = fill_pieces(s6, "selected_kanjidicplus"@, e);
    lemma_fill_step(s6, "selected_kanjidicplus"@, e);
    let s8 = fill_pieces(s7, "selected_all"@, e);
    lemma_fill_step(s7, "selected_all"@, e);
    assert(d8 =~= s8);
}

} // verus!
