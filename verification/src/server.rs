//! The loaded character data and the searches over it.
use vstd::prelude::*;
use std::collections::{HashMap, HashSet};
use crate::charset::{add_all, copy_set, lemma_push_to_set, lemma_set_view_finite, set_difference, set_intersection, set_to_vec};
use crate::text::is_char_code;
use crate::graph::{edge, graph_view, lemma_graph_view_finite, lemma_reach_from_nothing, lemma_reach_union, lemma_reach_unfold, lemma_step_in_targets, lemma_targets_finite, reach, step, targets};

verus! {

broadcast use vstd::std_specs::hash::group_hash_axioms;

/// Everything the search needs, loaded once. Characters are held by their
/// code points.
pub struct ServerData {
    /// The page, with `{{{name}}}` slots to fill.
    pub template: String,
    /// Each character to the components in its decompositions.
    pub char_to_comp: HashMap<u32, HashSet<u32>>,
    /// Each component to the characters whose decompositions hold it.
    pub comp_to_char: HashMap<u32, HashSet<u32>>,
    /// Each character to the components of its decompositions, in order;
    /// the stroke counts of these add up to the character's.
    pub char_to_first_comp: HashMap<u32, Vec<char>>,
    /// The characters of the widest filter level short of "all".
    pub kanjidicplus: HashSet<u32>,
    /// The characters of the default filter level.
    pub media: HashSet<u32>,
    /// The characters of the narrowest filter level.
    pub joyoplus: HashSet<u32>,
    /// Stroke counts taken from the dictionary data.
    pub char_to_strokes: HashMap<u32, u64>,
    /// Radical forms to the ordinary character they stand for.
    pub radical_to_char: HashMap<u32, char>,
    /// The components offered for picking, in display order.
    pub common_comps: Vec<char>,
}

/// What one lookup from `start` finds: everything reached through the
/// graph when searching recursively, else the direct neighbours; never
/// anything in `seen`.
pub open spec fn found(g: Map<u32, Set<u32>>, seen: Set<u32>, start: Set<u32>, recursive: bool) -> Set<u32> {
    if recursive {
        reach(g, seen, start)
    } else {
        step(g, start) - seen
    }
}

/// The characters found from every one of the components in `set`
/// (nothing when `set` is empty).
pub open spec fn found_from_all(
    g: Map<u32, Set<u32>>,
    seen: Set<u32>,
    set: Set<u32>,
    recursive: bool,
) -> Set<u32> {
    Set::new(
        |y: u32|
            (exists|c: u32| set.contains(c)) && forall|c: u32| #[trigger]
                set.contains(c) ==> found(g, seen, set![c], recursive).contains(y),
    )
}

/// A finite set is empty exactly when its length is zero.
proof fn lemma_len_zero(s: Set<u32>)
    requires
        s.finite(),
    ensures
        (s.len() == 0) == (s == Set::<u32>::empty()),
{
    if s.len() == 0 {
        s.lemma_len0_is_empty();
    }
}

/// Taking nonempty `n`, outside `seen`, among the targets, into `seen` shrinks
/// what is left of the targets.
proof fn lemma_progress(t: Set<u32>, seen: Set<u32>, n: Set<u32>)
    requires
        t.finite(),
        n <= t,
        n.disjoint(seen),
        n != Set::<u32>::empty(),
    ensures
        (t - (seen + n)).len() < (t - seen).len(),
{
    if forall|y: u32| !n.contains(y) {
        assert(n =~= Set::<u32>::empty());
    }
    let x = n.choose();
    assert(n.contains(x));
    assert((t - (seen + n)) <= (t - seen).remove(x));
    vstd::set_lib::lemma_len_subset(t - (seen + n), (t - seen).remove(x));
}

/// A lookup avoiding more of the targets still avoids at least as much.
proof fn lemma_left_shrinks(t: Set<u32>, a: Set<u32>, b: Set<u32>)
    requires
        t.finite(),
        a <= b,
    ensures
        (t - b).len() <= (t - a).len(),
{
    vstd::set_lib::lemma_len_subset(t - b, t - a);
}

impl ServerData {
    /// The graph from characters to their components.
    pub open spec fn comp_graph(&self) -> Map<u32, Set<u32>> {
        graph_view(self.char_to_comp)
    }

    /// The graph from components to the characters that hold them.
    pub open spec fn char_graph(&self) -> Map<u32, Set<u32>> {
        graph_view(self.comp_to_char)
    }

    /// Only characters are recorded: everything a search can find, and
    /// every character with components or a component list, is a
    /// character's code point.
    pub open spec fn well_shaped(&self) -> bool {
        &&& forall|y: u32| #[trigger] targets(self.comp_graph()).contains(y) ==> is_char_code(y)
        &&& forall|y: u32| #[trigger] targets(self.char_graph()).contains(y) ==> is_char_code(y)
        &&& forall|k: u32| #[trigger] self.char_to_comp@.contains_key(k) ==> is_char_code(k)
        &&& forall|k: u32| #[trigger] self.char_to_first_comp@.contains_key(k) ==> is_char_code(k)
    }

    /// The data can be searched and shown: it is well shaped, and every
    /// character has a stroke count.
    pub open spec fn wf(&self) -> bool {
        &&& crate::strokes::strokes_defined(self)
        &&& self.well_shaped()
    }

    /// Finds the components of the characters in `set` that are not in
    /// `seen`; with `isrecursive`, also the components of those, and so on.
    /// Everything found is added to `seen`.
    pub fn chars_to_components(
        &self,
        seen: &mut HashSet<u32>,
        set: &HashSet<u32>,
        isrecursive: bool,
    ) -> (new: HashSet<u32>)
        ensures
            new@ == found(self.comp_graph(), old(seen)@, set@, isrecursive),
            final(seen)@ == old(seen)@ + new@,
        decreases (targets(self.comp_graph()) - old(seen)@).len(),
    {
        let ghost g = self.comp_graph();
        let ghost seen0 = seen@;
        let items = set_to_vec(set);
        let mut direct: HashSet<u32> = HashSet::new();
        let mut i: usize = 0;
        while i < items.len()
            invariant
                0 <= i <= items@.len(),
                items@.to_set() == set@,
                g == self.comp_graph(),
                direct@ == step(g, items@.take(i as int).to_set()),
            decreases items@.len() - i,
        {
            let c = items[i];
            let ghost before = items@.take(i as int).to_set();
            match self.char_to_comp.get(&c) {
                Some(comps) => {
                    add_all(&mut direct, comps);
                },
                None => {},
            }
            proof {
                lemma_push_to_set(items@.take(i as int), c);
                assert(items@.take(i as int + 1) =~= items@.take(i as int).push(c));
                let extra = if g.contains_key(c) { g[c] } else { Set::<u32>::empty() };
                assert(step(g, before.insert(c)) =~= step(g, before) + extra) by {
                    assert forall|y: u32| #[trigger] step(g, before.insert(c)).contains(y) implies (
                    step(g, before) + extra).contains(y) by {
                        let x = choose|x: u32| before.insert(c).contains(x) && #[trigger] edge(
                            g,
                            x,
                            y,
                        );
                        if x != c {
                            assert(before.contains(x) && edge(g, x, y));
                        }
                    }
                    assert forall|y: u32| #[trigger] (step(g, before) + extra).contains(y) implies step(
                        g,
                        before.insert(c),
                    ).contains(y) by {
                        if step(g, before).contains(y) {
                            let x = choose|x: u32| before.contains(x) && #[trigger] edge(g, x, y);
                            assert(before.insert(c).contains(x) && edge(g, x, y));
                        } else {
                            assert(before.insert(c).contains(c) && edge(g, c, y));
                        }
                    }
                }
            }
            i = i + 1;
        }
        proof {
            assert(items@.take(i as int) =~= items@);
        }
        let mut new = set_difference(&direct, seen);
        add_all(seen, &new);
        proof {
            lemma_set_view_finite(&new);
            lemma_len_zero(new@);
        }
        if isrecursive && new.len() > 0 {
            proof {
                lemma_graph_view_finite(self.char_to_comp);
                lemma_targets_finite(g);
                lemma_step_in_targets(g, set@);
                lemma_progress(targets(g), seen0, new@);
            }
            let more = self.chars_to_components(seen, &new, isrecursive);
            add_all(&mut new, &more);
            proof {
                lemma_reach_unfold(g, seen0, set@);
            }
        } else if isrecursive {
            proof {
                lemma_reach_unfold(g, seen0, set@);
                lemma_reach_from_nothing(g, seen0 + new@);
            }
        }
        new
    }

    /// Finds the characters that hold the component `in_c` and are not in
    /// `seen`; with `isrecursive`, also the characters that hold those, and
    /// so on. Everything found is added to `seen`.
    pub fn component_to_chars(
        &self,
        seen: &mut HashSet<u32>,
        in_c: u32,
        isrecursive: bool,
    ) -> (new: HashSet<u32>)
        ensures
            new@ == found(self.char_graph(), old(seen)@, set![in_c], isrecursive),
            final(seen)@ == old(seen)@ + new@,
        decreases (targets(self.char_graph()) - old(seen)@).len(),
    {
        let ghost g = self.char_graph();
        let ghost seen0 = seen@;
        let mut direct: HashSet<u32> = HashSet::new();
        match self.comp_to_char.get(&in_c) {
            Some(chars) => {
                direct = copy_set(chars);
            },
            None => {},
        }
        proof {
            assert(step(g, set![in_c]) =~= direct@) by {
                assert forall|y: u32| #[trigger] step(g, set![in_c]).contains(y) implies direct@.contains(y) by {
                    let x = choose|x: u32| set![in_c].contains(x) && #[trigger] edge(g, x, y);
                    assert(x == in_c);
                }
                assert forall|y: u32| #[trigger] direct@.contains(y) implies step(g, set![in_c]).contains(y) by {
                    assert(set![in_c].contains(in_c) && edge(g, in_c, y));
                }
            }
        }
        let mut new = set_difference(&direct, seen);
        add_all(seen, &new);
        let ghost n = new@;
        let ghost seen1 = seen@;
        proof {
            lemma_set_view_finite(&new);
            lemma_len_zero(new@);
            lemma_reach_unfold(g, seen0, set![in_c]);
        }
        if isrecursive && new.len() > 0 {
            proof {
                lemma_graph_view_finite(self.comp_to_char);
                lemma_targets_finite(g);
                lemma_step_in_targets(g, set![in_c]);
                lemma_progress(targets(g), seen0, n);
                lemma_reach_from_nothing(g, seen1);
                assert(Seq::<u32>::empty().to_set() =~= Set::<u32>::empty());
            }
            let items = set_to_vec(&new);
            let mut i: usize = 0;
            while i < items.len()
                invariant
                    0 <= i <= items@.len(),
                    items@.to_set() == n,
                    g == self.char_graph(),
                    seen1 == seen0 + n,
                    targets(g).finite(),
                    (targets(g) - seen1).len() < (targets(g) - seen0).len(),
                    seen0 == old(seen)@,
                    isrecursive,
                    seen@ == seen1 + reach(g, seen1, items@.take(i as int).to_set()),
                    new@ == n + reach(g, seen1, items@.take(i as int).to_set()),
                decreases items@.len() - i,
            {
                let c = items[i];
                let ghost p = items@.take(i as int).to_set();
                proof {
                    assert(seen1 <= seen@);
                    lemma_left_shrinks(targets(g), seen1, seen@);
                }
                let ghost seen_before = seen@;
                let more = self.component_to_chars(seen, c, isrecursive);
                add_all(&mut new, &more);
                proof {
                    lemma_reach_union(g, seen1, p, set![c]);
                    assert(seen_before == seen1 + reach(g, seen1, p));
                    assert(seen@ == seen_before + more@);
                    assert(more@ == reach(g, seen1 + reach(g, seen1, p), set![c]));
                    assert(seen@ =~= seen1 + reach(g, seen1, p + set![c]));
                    assert(new@ =~= n + reach(g, seen1, p + set![c]));
                    lemma_push_to_set(items@.take(i as int), c);
                    assert(items@.take(i as int + 1) =~= items@.take(i as int).push(c));
                    assert(p.insert(c) =~= p + set![c]);
                }
                i = i + 1;
            }
            proof {
                assert(items@.take(i as int) =~= items@);
            }
        } else if isrecursive {
            proof {
                lemma_reach_from_nothing(g, seen0 + n);
            }
        }
        new
    }

    /// Finds the characters that hold every component in `set` (directly,
    /// or with `isrecursive` through any depth of nesting), leaving out the
    /// characters in `seen`. An empty `set` finds nothing.
    pub fn components_to_chars(
        &self,
        seen: &mut HashSet<u32>,
        set: &HashSet<u32>,
        isrecursive: bool,
    ) -> (new: HashSet<u32>)
        ensures
            new@ == found_from_all(self.char_graph(), old(seen)@, set@, isrecursive),
            final(seen)@ == old(seen)@,
    {
        let ghost g = self.char_graph();
        let items = set_to_vec(set);
        let mut new: HashSet<u32> = HashSet::new();
        let mut first = true;
        let mut i: usize = 0;
        while i < items.len()
            invariant
                0 <= i <= items@.len(),
                items@.to_set() == set@,
                g == self.char_graph(),
                seen@ == old(seen)@,
                first == (i == 0),
                i == 0 ==> new@ == Set::<u32>::empty(),
                i > 0 ==> new@ == found_from_all(g, seen@, items@.take(i as int).to_set(), isrecursive),
            decreases items@.len() - i,
        {
            let c = items[i];
            let ghost p = items@.take(i as int).to_set();
            let mut seen_copy = copy_set(seen);
            let more = self.component_to_chars(&mut seen_copy, c, isrecursive);
            proof {
                lemma_push_to_set(items@.take(i as int), c);
                assert(items@.take(i as int + 1) =~= items@.take(i as int).push(c));
            }
            if first {
                new = more;
                proof {
                    assert(items@.take(0) =~= Seq::<u32>::empty());
                    assert(p =~= Set::<u32>::empty());
                    assert(new@ =~= found_from_all(g, seen@, p.insert(c), isrecursive)) by {
                        assert forall|y: u32| new@.contains(y) implies #[trigger] found_from_all(g, seen@, p.insert(c), isrecursive).contains(y) by {
                            assert(p.insert(c).contains(c));
                            assert forall|d: u32| #[trigger] p.insert(c).contains(d) implies found(g, seen@, set![d], isrecursive).contains(y) by {
                                assert(d == c);
                            }
                        }
                    }
                }
            } else {
                new = set_intersection(&new, &more);
                proof {
                    assert(new@ =~= found_from_all(g, seen@, p.insert(c), isrecursive)) by {
                        assert forall|y: u32| new@.contains(y) implies #[trigger] found_from_all(g, seen@, p.insert(c), isrecursive).contains(y) by {
                            assert(p.insert(c).contains(c));
                            assert(found_from_all(g, seen@, p, isrecursive).contains(y));
                        }
                        assert forall|y: u32| #[trigger] found_from_all(g, seen@, p.insert(c), isrecursive).contains(y) implies new@.contains(y) by {
                            assert(p.insert(c).contains(c));
                            assert(found(g, seen@, set![c], isrecursive).contains(y));
                            let d = items@[0];
                            assert(items@.take(i as int)[0] == d);
                            assert(p.contains(d));
                            assert(p.insert(c).contains(d));
                            assert forall|e: u32| #[trigger] p.contains(e) implies found(g, seen@, set![e], isrecursive).contains(y) by {
                                assert(p.insert(c).contains(e));
                            }
                        }
                    }
                }
            }
            first = false;
            i = i + 1;
        }
        proof {
            assert(items@.take(i as int) =~= items@);
            if i == 0 {
                assert(new@ =~= found_from_all(g, seen@, set@, isrecursive)) by {
                    assert forall|y: u32| !#[trigger] found_from_all(g, seen@, set@, isrecursive).contains(y) by {
                        if found_from_all(g, seen@, set@, isrecursive).contains(y) {
                            let c = choose|c: u32| set@.contains(c);
                            assert(items@.to_set().contains(c));
                            assert(items@.contains(c));
                        }
                    }
                }
            }
        }
        new
    }
}

} // verus!
