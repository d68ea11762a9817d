//! Summaries of character lists and of the loaded data.
use vstd::prelude::*;
use std::collections::HashSet;
use crate::charset::{map_keys, set_difference, set_to_vec};
use crate::graph::graph_view;
use crate::load::{char_code_set, char_codes};
use crate::order::{sort_pairs, sorted_pairs};
use crate::pages::strokes_of;
use crate::server::ServerData;
use crate::strokes::counts_ok;
use crate::text::{char_from_u32, is_char_code, lemma_char_of_code};

verus! {

broadcast use vstd::std_specs::hash::group_hash_axioms;

/// The code points of `s` rise strictly.
pub open spec fn rising(s: Seq<u32>) -> bool {
    forall|i: int, j: int| 0 <= i < j < s.len() ==> s[i] < s[j]
}

/// The code points of the characters of `v`.
pub open spec fn codes_of(v: Seq<char>) -> Seq<u32> {
    v.map_values(|c: char| c as u32)
}

/// The characters with code points in `set`, in rising order.
fn in_code_order(set: &HashSet<u32>) -> (v: Vec<char>)
    requires
        forall|u: u32| #[trigger] set@.contains(u) ==> is_char_code(u),
    ensures
        rising(codes_of(v@)),
        codes_of(v@).to_set() == set@,
{
    let items = set_to_vec(set);
    let mut pairs: Vec<(u32, u64)> = Vec::new();
    let mut i: usize = 0;
    while i < items.len()
        invariant
            0 <= i <= items@.len(),
            items@.no_duplicates(),
            pairs@.len() == i,
            forall|k: int| 0 <= k < i ==> #[trigger] pairs@[k] == (items@[k], 0u64),
        decreases items@.len() - i,
    {
        pairs.push((items[i], 0));
        i = i + 1;
    }
    assert(pairs@.map_values(|p: (u32, u64)| p.0) =~= items@);
    let sorted = sort_pairs(&pairs, false);
    let ghost codes = sorted@.map_values(|p: (u32, u64)| p.0);
    proof {
        assert forall|k: int| 0 <= k < sorted@.len() implies (#[trigger] sorted@[k]).1 == 0 && set@.contains(sorted@[k].0) by {
            assert(sorted@.to_set().contains(sorted@[k]));
            let j = choose|j: int| 0 <= j < pairs@.len() && pairs@[j] == sorted@[k];
            assert(items@.to_set().contains(items@[j]));
        }
    }
    let mut v: Vec<char> = Vec::new();
    let mut k: usize = 0;
    while k < sorted.len()
        invariant
            0 <= k <= sorted@.len(),
            codes == sorted@.map_values(|p: (u32, u64)| p.0),
            forall|j: int| 0 <= j < sorted@.len() ==> set@.contains((#[trigger] sorted@[j]).0),
            forall|u: u32| #[trigger] set@.contains(u) ==> is_char_code(u),
            codes_of(v@) == codes.take(k as int),
        decreases sorted@.len() - k,
    {
        let u = sorted[k].0;
        assert(set@.contains(sorted@[k as int].0));
        let c = match char_from_u32(u) {
            Some(c) => c,
            None => ' ',
        };
        let ghost before = v@;
        v.push(c);
        assert(codes_of(v@) =~= codes_of(before).push(u));
        assert(codes.take(k as int + 1) =~= codes.take(k as int).push(u));
        k = k + 1;
    }
    proof {
        assert(codes.take(k as int) =~= codes);
        assert forall|a: int, b: int| 0 <= a < b < codes.len() implies codes[a] < codes[b] by {
            assert(crate::order::pair_before(sorted@[a], sorted@[b], false));
        }
        assert(codes.to_set() =~= set@) by {
            assert forall|u: u32| codes.to_set().contains(u) implies set@.contains(u) by {
                let j = choose|j: int| 0 <= j < codes.len() && codes[j] == u;
                assert(set@.contains(sorted@[j].0));
            }
            assert forall|u: u32| set@.contains(u) implies codes.to_set().contains(u) by {
                assert(items@.to_set().contains(u));
                let j = choose|j: int| 0 <= j < items@.len() && items@[j] == u;
                assert(pairs@[j] == (u, 0u64));
                assert(pairs@.to_set().contains(pairs@[j]));
                let k2 = choose|k2: int| 0 <= k2 < sorted@.len() && sorted@[k2] == pairs@[j];
                assert(codes[k2] == u);
            }
        }
    }
    v
}

/// The characters of `a` that are not in `b`, each once, in rising order
/// of code point.
pub fn kanji_only_in(a: &String, b: &String) -> (v: Vec<char>)
    ensures
        rising(codes_of(v@)),
        codes_of(v@).to_set() == char_codes(a@) - char_codes(b@),
{
    let set_a = char_code_set(a);
    let set_b = char_code_set(b);
    let only = set_difference(&set_a, &set_b);
    proof {
        assert forall|u: u32| #[trigger] only@.contains(u) implies is_char_code(u) by {
            let i = choose|i: int| 0 <= i < a@.len() && u == #[trigger] crate::load::code_at(a@, i);
            crate::ids::lemma_char_code(a@[i]);
        }
    }
    in_code_order(&only)
}

/// The largest stroke count among the characters with components, with
/// those characters in rising order of code point; `None` when no
/// character has components.
pub open spec fn is_most_strokes(d: &ServerData, m: nat, v: Seq<char>) -> bool {
    let keys = graph_view(d.char_to_comp).dom();
    &&& exists|k: u32| keys.contains(k) && strokes_of(d, k as char) == m
    &&& forall|k: u32| #[trigger] keys.contains(k) ==> strokes_of(d, k as char) <= m
    &&& rising(codes_of(v))
    &&& codes_of(v).to_set() == keys.filter(|k: u32| strokes_of(d, k as char) == m)
}

impl ServerData {
    /// The characters with components that have the most strokes, and how
    /// many strokes that is; `None` when no character has components.
    pub fn most_strokes(&self) -> (r: Option<(u64, Vec<char>)>)
        requires
            self.well_shaped(),
            counts_ok(self, self.char_to_comp@.dom()),
        ensures
            match r {
                None => self.char_to_comp@.dom() == Set::<u32>::empty(),
                Some((m, v)) => is_most_strokes(self, m as nat, v@),
            },
    {
        let keys = map_keys(&self.char_to_comp);
        if keys.len() == 0 {
            assert(self.char_to_comp@.dom() =~= Set::<u32>::empty()) by {
                assert forall|k: u32| !self.char_to_comp@.contains_key(k) by {
                    if self.char_to_comp@.contains_key(k) {
                        assert(keys@.to_set().contains(k));
                    }
                }
            }
            return None;
        }
        let mut counts: Vec<u64> = Vec::new();
        let mut i: usize = 0;
        while i < keys.len()
            invariant
                0 <= i <= keys@.len(),
                counts_ok(self, self.char_to_comp@.dom()),
                keys@.to_set() == self.char_to_comp@.dom(),
                forall|k: u32| #[trigger] self.char_to_comp@.contains_key(k) ==> is_char_code(k),
                counts@.len() == i,
                forall|j: int| 0 <= j < i ==> #[trigger] counts@[j] == strokes_of(self, keys@[j] as char),
            decreases keys@.len() - i,
        {
            let k = keys[i];
            assert(keys@.to_set().contains(k));
            let c = match char_from_u32(k) {
                Some(c) => c,
                None => ' ',
            };
            proof {
                lemma_char_of_code(c, k);
            }
            counts.push(self.get_strokes(c));
            i = i + 1;
        }
        let mut m: u64 = counts[0];
        let mut at: usize = 0;
        let mut j: usize = 1;
        while j < counts.len()
            invariant
                1 <= j <= counts@.len(),
                counts@.len() == keys@.len(),
                at < j,
                m == counts@[at as int],
                forall|t: int| 0 <= t < j ==> counts@[t] <= m,
            decreases counts@.len() - j,
        {
            if counts[j] > m {
                m = counts[j];
                at = j;
            }
            j = j + 1;
        }
        let mut chosen: HashSet<u32> = HashSet::new();
        let mut t: usize = 0;
        let ghost g = graph_view(self.char_to_comp);
        while t < keys.len()
            invariant
                0 <= t <= keys@.len(),
                counts@.len() == keys@.len(),
                forall|q: int| 0 <= q < keys@.len() ==> #[trigger] counts@[q] == strokes_of(self, keys@[q] as char),
                chosen@ == keys@.take(t as int).to_set().filter(|k: u32| strokes_of(self, k as char) == m),
            decreases keys@.len() - t,
        {
            if counts[t] == m {
                chosen.insert(keys[t]);
            }
            proof {
                crate::charset::lemma_push_to_set(keys@.take(t as int), keys@[t as int]);
                assert(keys@.take(t as int + 1) =~= keys@.take(t as int).push(keys@[t as int]));
                assert(chosen@ =~= keys@.take(t as int + 1).to_set().filter(|k: u32| strokes_of(self, k as char) == m));
            }
            t = t + 1;
        }
        proof {
            assert(keys@.take(t as int) =~= keys@);
            assert(g.dom() == self.char_to_comp@.dom());
            assert forall|u: u32| #[trigger] chosen@.contains(u) implies is_char_code(u) by {
                assert(keys@.to_set().contains(u));
            }
        }
        let v = in_code_order(&chosen);
        proof {
            assert(keys@.to_set().contains(keys@[at as int]));
            assert(g.dom().contains(keys@[at as int]) && strokes_of(self, keys@[at as int] as char) == m);
            assert forall|k: u32| #[trigger] g.dom().contains(k) implies strokes_of(self, k as char) <= m by {
                assert(keys@.to_set().contains(k));
                let q = choose|q: int| 0 <= q < keys@.len() && keys@[q] == k;
                assert(counts@[q] <= m);
            }
            assert(codes_of(v@).to_set() == g.dom().filter(|k: u32| strokes_of(self, k as char) == m));
        }
        Some((m, v))
    }
}

} // verus!
