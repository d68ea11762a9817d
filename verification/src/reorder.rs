//! What reading IDS lines records depends only on which lines there are,
//! not on their order (component lists only up to the order of their
//! components).
use vstd::prelude::*;
use vstd::multiset::Multiset;
use crate::graph::edge;
use crate::ids::{
    add_edge, ids_all, ids_char, ids_line, ids_token, ids_tokens, inverse_graphs, kept, lemma_ids_all_invariant,
    rewrite, sets_nonempty, token_used, used_count, bump, IdsState,
};
use crate::parse::tab_fields;

verus! {

/// Decomposition `t`, when used, gives `k` the component `y`.
pub open spec fn token_gives(rw: Map<u32, char>, k: char, t: Seq<char>, priority: bool, y: u32) -> bool {
    token_used(t, priority) && exists|j: int| 0 <= j < kept(rw, k, t).len() && #[trigger] kept(rw, k, t)[j] as u32 == y
}

/// One of the decompositions `toks` of `k` gives it the component `y`.
pub open spec fn tokens_give(rw: Map<u32, char>, k: char, toks: Seq<Seq<char>>, priority: bool, y: u32) -> bool {
    exists|i: int| 0 <= i < toks.len() && #[trigger] token_gives(rw, k, toks[i], priority, y)
}

/// The IDS line `l` records that character `x` has the component `y`.
pub open spec fn line_gives(rw: Map<u32, char>, l: Seq<char>, x: u32, y: u32) -> bool {
    let f = tab_fields(l);
    &&& f.len() >= 3
    &&& f[1].len() == 1
    &&& x == rewrite(rw, f[1][0]) as u32
    &&& tokens_give(rw, rewrite(rw, f[1][0]), f.skip(2), l.contains('J'), y)
}

/// Adding an edge adds exactly that edge.
proof fn lemma_add_edge(g: Map<u32, Set<u32>>, a: u32, b: u32)
    ensures
        forall|x: u32, y: u32| #[trigger] edge(add_edge(g, a, b), x, y) <==> (edge(g, x, y) || (x == a && y == b)),
{
}

proof fn lemma_token_edges(st: Option<IdsState>, k: char, cs: Seq<char>, first: bool)
    ensures
        st matches Some(s) ==> (ids_token(st, k, cs, first) matches Some(s2) ==> forall|x: u32, y: u32|
            #[trigger] edge(s2.0, x, y) <==> (edge(s.0, x, y) || (x == k as u32 && exists|j: int|
                0 <= j < cs.len() && #[trigger] cs[j] as u32 == y))),
    decreases cs.len(),
{
    if cs.len() > 0 {
        lemma_token_edges(st, k, cs.drop_last(), first);
        if let Some(s) = st {
            if let Some(s2) = ids_token(st, k, cs, first) {
                let mid = ids_token(st, k, cs.drop_last(), first)->0;
                assert(s2 == ids_char(mid, k, cs.last(), first)->0);
                lemma_add_edge(mid.0, k as u32, cs.last() as u32);
                assert(s2.0 == add_edge(mid.0, k as u32, cs.last() as u32));
                assert forall|x: u32, y: u32| #[trigger] edge(s2.0, x, y) <==> (edge(s.0, x, y) || (x == k as u32
                    && exists|j: int| 0 <= j < cs.len() && #[trigger] cs[j] as u32 == y)) by {
                    if x == k as u32 && exists|j: int| 0 <= j < cs.len() && #[trigger] cs[j] as u32 == y {
                        let j = choose|j: int| 0 <= j < cs.len() && #[trigger] cs[j] as u32 == y;
                        if j < cs.len() - 1 {
                            assert(cs.drop_last()[j] as u32 == y);
                        }
                    }
                    if x == k as u32 && exists|j: int| 0 <= j < cs.len() - 1 && #[trigger] cs.drop_last()[j] as u32 == y {
                        let j = choose|j: int| 0 <= j < cs.len() - 1 && #[trigger] cs.drop_last()[j] as u32 == y;
                        assert(cs[j] as u32 == y);
                    }
                    if x == k as u32 && y == cs.last() as u32 {
                        assert(cs[cs.len() - 1] as u32 == y);
                    }
                }
            }
        }
    }
}

proof fn lemma_tokens_edges(st: Option<IdsState>, rw: Map<u32, char>, k: char, toks: Seq<Seq<char>>, priority: bool)
    ensures
        st matches Some(s) ==> (ids_tokens(st, rw, k, toks, priority) matches Some(s2) ==> forall|x: u32, y: u32|
            #[trigger] edge(s2.0, x, y) <==> (edge(s.0, x, y) || (x == k as u32 && tokens_give(rw, k, toks, priority, y)))),
    decreases toks.len(),
{
    if toks.len() > 0 {
        let prev = toks.drop_last();
        lemma_tokens_edges(st, rw, k, prev, priority);
        let t = toks.last();
        let mid = ids_tokens(st, rw, k, prev, priority);
        lemma_token_edges(mid, k, kept(rw, k, t), crate::ids::used_count(prev, priority) == 0);
        if let Some(s) = st {
            if let Some(s2) = ids_tokens(st, rw, k, toks, priority) {
                if token_used(t, priority) {
                    assert(mid is Some) by {
                        if mid is None {
                            crate::ids::lemma_token_none(k, kept(rw, k, t), crate::ids::used_count(prev, priority) == 0);
                        }
                    }
                }
                assert forall|y: u32| tokens_give(rw, k, toks, priority, y) <==> (tokens_give(rw, k, prev, priority, y)
                    || token_gives(rw, k, t, priority, y)) by {
                    if tokens_give(rw, k, toks, priority, y) {
                        let i = choose|i: int| 0 <= i < toks.len() && #[trigger] token_gives(rw, k, toks[i], priority, y);
                        if i < toks.len() - 1 {
                            assert(prev[i] == toks[i]);
                        }
                    }
                    if tokens_give(rw, k, prev, priority, y) {
                        let i = choose|i: int| 0 <= i < prev.len() && #[trigger] token_gives(rw, k, prev[i], priority, y);
                        assert(toks[i] == prev[i]);
                    }
                    if token_gives(rw, k, t, priority, y) {
                        assert(toks[toks.len() - 1] == t);
                    }
                }
            }
        }
    }
}

/// Which edges the graph from characters to components has after reading
/// `lines`: exactly those some line records.
proof fn lemma_all_edges(rw: Map<u32, char>, lines: Seq<Seq<char>>)
    ensures
        ids_all(rw, lines) matches Some(s) ==> forall|x: u32, y: u32| #[trigger] edge(s.0, x, y) <==> exists|i: int|
            0 <= i < lines.len() && #[trigger] line_gives(rw, lines[i], x, y),
    decreases lines.len(),
{
    if lines.len() > 0 {
        let prev = lines.drop_last();
        let l = lines.last();
        lemma_all_edges(rw, prev);
        if let Some(s) = ids_all(rw, lines) {
            let mid = ids_all(rw, prev);
            let f = tab_fields(l);
            assert(mid is Some) by {
                if mid is None && f.len() >= 3 && f[1].len() == 1 {
                    crate::ids::lemma_tokens_none(rw, rewrite(rw, f[1][0]), f.skip(2), l.contains('J'));
                }
            }
            if f.len() >= 3 && f[1].len() == 1 {
                lemma_tokens_edges(mid, rw, rewrite(rw, f[1][0]), f.skip(2), l.contains('J'));
            }
            assert(lines[lines.len() - 1] == l);
            assert forall|x: u32, y: u32| #[trigger] edge(s.0, x, y) <==> exists|i: int|
                0 <= i < lines.len() && #[trigger] line_gives(rw, lines[i], x, y) by {
                if f.len() >= 3 && f[1].len() == 1 {
                    assert(edge(s.0, x, y) <==> (edge(mid.unwrap().0, x, y) || line_gives(rw, l, x, y)));
                } else {
                    assert(s == mid.unwrap());
                    assert(!line_gives(rw, l, x, y));
                }
                if exists|i: int| 0 <= i < lines.len() && #[trigger] line_gives(rw, lines[i], x, y) {
                    let i = choose|i: int| 0 <= i < lines.len() && #[trigger] line_gives(rw, lines[i], x, y);
                    if i < lines.len() - 1 {
                        assert(prev[i] == lines[i]);
                        assert(line_gives(rw, prev[i], x, y));
                    }
                }
                if exists|i: int| 0 <= i < prev.len() && #[trigger] line_gives(rw, prev[i], x, y) {
                    let i = choose|i: int| 0 <= i < prev.len() && #[trigger] line_gives(rw, prev[i], x, y);
                    assert(lines[i] == prev[i]);
                }
            }
        }
    }
}

/// Two graphs with no empty sets and the same edges are the same.
proof fn lemma_same_edges(g: Map<u32, Set<u32>>, h: Map<u32, Set<u32>>)
    requires
        sets_nonempty(g),
        sets_nonempty(h),
        forall|x: u32, y: u32| #![trigger edge(g, x, y)] #![trigger edge(h, x, y)] edge(g, x, y) <==> edge(h, x, y),
    ensures
        g == h,
{
    assert forall|x: u32| g.contains_key(x) implies h.contains_key(x) by {
        assert(g[x] != Set::<u32>::empty());
        if forall|y: u32| !g[x].contains(y) {
            assert(g[x] =~= Set::<u32>::empty());
        }
        let y = choose|y: u32| g[x].contains(y);
        assert(edge(g, x, y));
    }
    assert forall|x: u32| h.contains_key(x) implies g.contains_key(x) by {
        assert(h[x] != Set::<u32>::empty());
        if forall|y: u32| !h[x].contains(y) {
            assert(h[x] =~= Set::<u32>::empty());
        }
        let y = choose|y: u32| h[x].contains(y);
        assert(edge(h, x, y));
    }
    assert forall|x: u32| g.contains_key(x) implies g[x] =~= h[x] by {
        assert forall|y: u32| g[x].contains(y) == h[x].contains(y) by {
            assert(edge(g, x, y) == edge(h, x, y));
        }
    }
    assert(g =~= h);
}

/// Reading the same IDS lines in any order, when both readings succeed,
/// gives the same graph from characters to components and the same graph
/// from components to characters.
pub proof fn law_line_order_keeps_graphs(rw: Map<u32, char>, lines: Seq<Seq<char>>, other: Seq<Seq<char>>)
    requires
        lines.to_multiset() == other.to_multiset(),
        ids_all(rw, lines) is Some,
        ids_all(rw, other) is Some,
    ensures
        ids_all(rw, lines).unwrap().0 == ids_all(rw, other).unwrap().0,
        ids_all(rw, lines).unwrap().1 == ids_all(rw, other).unwrap().1,
{
    broadcast use vstd::multiset::group_multiset_axioms;
    let a = ids_all(rw, lines).unwrap();
    let b = ids_all(rw, other).unwrap();
    lemma_all_edges(rw, lines);
    lemma_all_edges(rw, other);
    lemma_ids_all_invariant(rw, lines);
    lemma_ids_all_invariant(rw, other);
    assert forall|l: Seq<char>| lines.contains(l) == other.contains(l) by {
        vstd::seq_lib::to_multiset_contains(lines, l);
        vstd::seq_lib::to_multiset_contains(other, l);
        assert(lines.to_multiset().contains(l) == other.to_multiset().contains(l));
    }
    assert forall|x: u32, y: u32| #![trigger edge(a.0, x, y)] #![trigger edge(b.0, x, y)] edge(a.0, x, y) <==> edge(b.0, x, y) by {
        if edge(a.0, x, y) {
            let i = choose|i: int| 0 <= i < lines.len() && #[trigger] line_gives(rw, lines[i], x, y);
            assert(lines.contains(lines[i]));
            let j = choose|j: int| 0 <= j < other.len() && other[j] == lines[i];
            assert(line_gives(rw, other[j], x, y));
        }
        if edge(b.0, x, y) {
            let i = choose|i: int| 0 <= i < other.len() && #[trigger] line_gives(rw, other[i], x, y);
            assert(other.contains(other[i]));
            let j = choose|j: int| 0 <= j < lines.len() && lines[j] == other[i];
            assert(line_gives(rw, lines[j], x, y));
        }
    }
    lemma_same_edges(a.0, b.0);
    assert forall|x: u32, y: u32| #![trigger edge(a.1, x, y)] #![trigger edge(b.1, x, y)] edge(a.1, x, y) <==> edge(b.1, x, y) by {
        assert(edge(a.1, x, y) <==> edge(a.0, y, x));
        assert(edge(b.1, x, y) <==> edge(b.0, y, x));
    }
    lemma_same_edges(a.1, b.1);
}


/// The components recorded for the character with code point `k`, as a
/// multiset.
pub open spec fn list_ms(st: IdsState, k: u32) -> Multiset<char> {
    if st.2.contains_key(k) {
        st.2[k].to_multiset()
    } else {
        Multiset::empty()
    }
}

/// How often `c` has opened a decomposition (0 when never).
pub open spec fn freq_of(st: IdsState, c: u32) -> nat {
    if st.3.contains_key(c) {
        st.3[c] as nat
    } else {
        0
    }
}

/// `n`, or the largest `u64` when `n` is larger.
pub open spec fn sat(n: nat) -> nat {
    if n > u64::MAX {
        u64::MAX as nat
    } else {
        n
    }
}

/// Every recorded count is at least 1.
pub open spec fn counts_positive(st: IdsState) -> bool {
    forall|c: u32| #[trigger] st.3.contains_key(c) ==> st.3[c] >= 1
}

/// The code points of `cs`, as a multiset.
pub open spec fn codes_ms(cs: Seq<char>) -> Multiset<u32> {
    cs.map_values(|ch: char| ch as u32).to_multiset()
}

/// The components that the used decompositions `toks` give `k`.
pub open spec fn tokens_comps(rw: Map<u32, char>, k: char, toks: Seq<Seq<char>>, priority: bool) -> Multiset<char>
    decreases toks.len(),
{
    if toks.len() == 0 {
        Multiset::empty()
    } else {
        tokens_comps(rw, k, toks.drop_last(), priority).add(
            if token_used(toks.last(), priority) {
                kept(rw, k, toks.last()).to_multiset()
            } else {
                Multiset::empty()
            },
        )
    }
}

/// The components of the first used decomposition of `toks`.
pub open spec fn tokens_firsts(rw: Map<u32, char>, k: char, toks: Seq<Seq<char>>, priority: bool) -> Multiset<u32>
    decreases toks.len(),
{
    if toks.len() == 0 {
        Multiset::empty()
    } else {
        tokens_firsts(rw, k, toks.drop_last(), priority).add(
            if token_used(toks.last(), priority) && used_count(toks.drop_last(), priority) == 0 {
                codes_ms(kept(rw, k, toks.last()))
            } else {
                Multiset::empty()
            },
        )
    }
}

/// The components that line `l` records for the character with code `k`.
pub open spec fn line_comps(rw: Map<u32, char>, l: Seq<char>, k: u32) -> Multiset<char> {
    let f = tab_fields(l);
    if f.len() >= 3 && f[1].len() == 1 && rewrite(rw, f[1][0]) as u32 == k {
        tokens_comps(rw, rewrite(rw, f[1][0]), f.skip(2), l.contains('J'))
    } else {
        Multiset::empty()
    }
}

/// The components that open the first decomposition used on line `l`.
pub open spec fn line_firsts(rw: Map<u32, char>, l: Seq<char>) -> Multiset<u32> {
    let f = tab_fields(l);
    if f.len() >= 3 && f[1].len() == 1 {
        tokens_firsts(rw, rewrite(rw, f[1][0]), f.skip(2), l.contains('J'))
    } else {
        Multiset::empty()
    }
}

/// The multisets `f` gives the lines, added up.
pub open spec fn ms_sum<X>(lines: Seq<Seq<char>>, f: spec_fn(Seq<char>) -> Multiset<X>) -> Multiset<X>
    decreases lines.len(),
{
    if lines.len() == 0 {
        Multiset::empty()
    } else {
        ms_sum(lines.drop_last(), f).add(f(lines.last()))
    }
}

proof fn lemma_ms_sum_remove<X>(s: Seq<Seq<char>>, f: spec_fn(Seq<char>) -> Multiset<X>, j: int)
    requires
        0 <= j < s.len(),
    ensures
        ms_sum(s, f) == ms_sum(s.remove(j), f).add(f(s[j])),
    decreases s.len(),
{
    broadcast use vstd::multiset::group_multiset_axioms;
    if j == s.len() - 1 {
        assert(s.remove(j) =~= s.drop_last());
    } else {
        let d = s.drop_last();
        assert(d.remove(j) =~= s.remove(j).drop_last());
        assert(s.remove(j).last() == s.last());
        assert(d[j] == s[j]);
        lemma_ms_sum_remove(d, f, j);
        assert(ms_sum(s, f) =~= ms_sum(s.remove(j), f).add(f(s[j])));
    }
}

proof fn lemma_ms_sum_perm<X>(a: Seq<Seq<char>>, b: Seq<Seq<char>>, f: spec_fn(Seq<char>) -> Multiset<X>)
    requires
        a.to_multiset() == b.to_multiset(),
    ensures
        ms_sum(a, f) == ms_sum(b, f),
    decreases a.len(),
{
    broadcast use vstd::multiset::group_multiset_axioms;
    vstd::seq_lib::to_multiset_len(a);
    vstd::seq_lib::to_multiset_len(b);
    if a.len() == 0 {
        assert(b.len() == 0);
        assert(a =~= b);
    } else {
        let x = a.last();
        let d = a.drop_last();
        assert(d.push(x) =~= a);
        vstd::seq_lib::to_multiset_build(d, x);
        vstd::seq_lib::to_multiset_contains(b, x);
        assert(a.to_multiset().contains(x));
        let j = choose|j: int| 0 <= j < b.len() && b[j] == x;
        vstd::seq_lib::to_multiset_remove(b, j);
        assert(b.remove(j).to_multiset() =~= d.to_multiset());
        lemma_ms_sum_perm(d, b.remove(j), f);
        lemma_ms_sum_remove(b, f, j);
    }
}

proof fn lemma_char_counts(st: IdsState, k: char, c: char, first: bool)
    requires
        counts_positive(st),
        ids_char(st, k, c, first) is Some,
    ensures
        counts_positive(ids_char(st, k, c, first)->0),
        forall|k2: u32| #[trigger] list_ms(ids_char(st, k, c, first)->0, k2) == list_ms(st, k2).add(
            if k2 == k as u32 { Multiset::singleton(c) } else { Multiset::empty() },
        ),
        forall|c2: u32| #[trigger] freq_of(ids_char(st, k, c, first)->0, c2) == if first && c2 == c as u32 {
            sat(freq_of(st, c2) + 1)
        } else {
            freq_of(st, c2)
        },
{
    broadcast use vstd::multiset::group_multiset_axioms;
    let s2 = ids_char(st, k, c, first)->0;
    assert forall|k2: u32| #[trigger] list_ms(s2, k2) == list_ms(st, k2).add(
        if k2 == k as u32 { Multiset::singleton(c) } else { Multiset::empty() },
    ) by {
        if k2 == k as u32 {
            if st.2.contains_key(k2) {
                vstd::seq_lib::to_multiset_build(st.2[k2], c);
            } else {
                vstd::seq_lib::to_multiset_build(Seq::<char>::empty(), c);
                assert(Seq::<char>::empty().push(c) =~= seq![c]);
                assert(Seq::<char>::empty().to_multiset() =~= Multiset::<char>::empty()) by {
                    vstd::seq_lib::to_multiset_len(Seq::<char>::empty());
                }
            }
        }
        assert(list_ms(s2, k2) =~= list_ms(st, k2).add(
            if k2 == k as u32 { Multiset::singleton(c) } else { Multiset::empty() },
        ));
    }
}

proof fn lemma_token_counts(st: IdsState, k: char, cs: Seq<char>, first: bool)
    requires
        counts_positive(st),
        ids_token(Some(st), k, cs, first) is Some,
    ensures
        counts_positive(ids_token(Some(st), k, cs, first)->0),
        forall|k2: u32| #[trigger] list_ms(ids_token(Some(st), k, cs, first)->0, k2) == list_ms(st, k2).add(
            if k2 == k as u32 { cs.to_multiset() } else { Multiset::empty() },
        ),
        forall|c2: u32| #[trigger] freq_of(ids_token(Some(st), k, cs, first)->0, c2) == if first {
            sat(freq_of(st, c2) + codes_ms(cs).count(c2))
        } else {
            freq_of(st, c2)
        },
    decreases cs.len(),
{
    broadcast use vstd::multiset::group_multiset_axioms;
    if cs.len() == 0 {
        vstd::seq_lib::to_multiset_len(cs);
        assert(cs.to_multiset() =~= Multiset::<char>::empty());
        assert(cs.map_values(|ch: char| ch as u32) =~= Seq::<u32>::empty());
        vstd::seq_lib::to_multiset_len(Seq::<u32>::empty());
        assert(codes_ms(cs) =~= Multiset::<u32>::empty());
        assert forall|k2: u32| #[trigger] list_ms(st, k2) == list_ms(st, k2).add(
            if k2 == k as u32 { cs.to_multiset() } else { Multiset::empty() },
        ) by {
            assert(list_ms(st, k2) =~= list_ms(st, k2).add(Multiset::empty()));
        }
    } else {
        let d = cs.drop_last();
        let c = cs.last();
        let mid = ids_token(Some(st), k, d, first);
        assert(mid is Some) by {
            if mid is None {
                crate::ids::lemma_token_none(k, Seq::<char>::empty().push(c), first);
            }
        }
        lemma_token_counts(st, k, d, first);
        let m = mid->0;
        lemma_char_counts(m, k, c, first);
        assert(d.push(c) =~= cs);
        vstd::seq_lib::to_multiset_build(d, c);
        assert(cs.map_values(|ch: char| ch as u32) =~= d.map_values(|ch: char| ch as u32).push(c as u32));
        vstd::seq_lib::to_multiset_build(d.map_values(|ch: char| ch as u32), c as u32);
        let s2 = ids_token(Some(st), k, cs, first)->0;
        assert forall|k2: u32| #[trigger] list_ms(s2, k2) == list_ms(st, k2).add(
            if k2 == k as u32 { cs.to_multiset() } else { Multiset::empty() },
        ) by {
            assert(list_ms(s2, k2) == list_ms(m, k2).add(
                if k2 == k as u32 { Multiset::singleton(c) } else { Multiset::empty() },
            ));
            assert(list_ms(s2, k2) =~= list_ms(st, k2).add(
                if k2 == k as u32 { cs.to_multiset() } else { Multiset::empty() },
            ));
        }
        assert forall|c2: u32| #[trigger] freq_of(s2, c2) == if first {
            sat(freq_of(st, c2) + codes_ms(cs).count(c2))
        } else {
            freq_of(st, c2)
        } by {
            assert(freq_of(m, c2) == if first { sat(freq_of(st, c2) + codes_ms(d).count(c2)) } else { freq_of(st, c2) });
            assert(codes_ms(cs).count(c2) == codes_ms(d).count(c2) + if c2 == c as u32 { 1nat } else { 0nat });
        }
    }
}

proof fn lemma_tokens_counts(st: IdsState, rw: Map<u32, char>, k: char, toks: Seq<Seq<char>>, priority: bool)
    requires
        counts_positive(st),
        ids_tokens(Some(st), rw, k, toks, priority) is Some,
    ensures
        counts_positive(ids_tokens(Some(st), rw, k, toks, priority)->0),
        forall|k2: u32| #[trigger] list_ms(ids_tokens(Some(st), rw, k, toks, priority)->0, k2) == list_ms(st, k2).add(
            if k2 == k as u32 { tokens_comps(rw, k, toks, priority) } else { Multiset::empty() },
        ),
        forall|c2: u32| #[trigger] freq_of(ids_tokens(Some(st), rw, k, toks, priority)->0, c2) == sat(
            freq_of(st, c2) + tokens_firsts(rw, k, toks, priority).count(c2),
        ),
    decreases toks.len(),
{
    broadcast use vstd::multiset::group_multiset_axioms;
    let s2 = ids_tokens(Some(st), rw, k, toks, priority)->0;
    if toks.len() == 0 {
        assert forall|k2: u32| #[trigger] list_ms(s2, k2) == list_ms(st, k2).add(
            if k2 == k as u32 { tokens_comps(rw, k, toks, priority) } else { Multiset::empty() },
        ) by {
            assert(list_ms(st, k2) =~= list_ms(st, k2).add(Multiset::empty()));
        }
        assert forall|c2: u32| #[trigger] freq_of(s2, c2) == sat(freq_of(st, c2) + tokens_firsts(rw, k, toks, priority).count(c2)) by {
            assert(freq_of(st, c2) <= u64::MAX);
        }
    } else {
        let d = toks.drop_last();
        let t = toks.last();
        let mid = ids_tokens(Some(st), rw, k, d, priority);
        let first = used_count(d, priority) == 0;
        assert(mid is Some) by {
            if mid is None {
                crate::ids::lemma_token_none(k, kept(rw, k, t), first);
            }
        }
        lemma_tokens_counts(st, rw, k, d, priority);
        let m = mid->0;
        if token_used(t, priority) {
            lemma_token_counts(m, k, kept(rw, k, t), first);
        }
        assert forall|k2: u32| #[trigger] list_ms(s2, k2) == list_ms(st, k2).add(
            if k2 == k as u32 { tokens_comps(rw, k, toks, priority) } else { Multiset::empty() },
        ) by {
            assert(list_ms(m, k2) == list_ms(st, k2).add(
                if k2 == k as u32 { tokens_comps(rw, k, d, priority) } else { Multiset::empty() },
            ));
            assert(list_ms(s2, k2) =~= list_ms(st, k2).add(
                if k2 == k as u32 { tokens_comps(rw, k, toks, priority) } else { Multiset::empty() },
            ));
        }
        assert forall|c2: u32| #[trigger] freq_of(s2, c2) == sat(freq_of(st, c2) + tokens_firsts(rw, k, toks, priority).count(c2)) by {
            assert(freq_of(m, c2) == sat(freq_of(st, c2) + tokens_firsts(rw, k, d, priority).count(c2)));
        }
    }
}

proof fn lemma_all_counts(rw: Map<u32, char>, lines: Seq<Seq<char>>)
    requires
        ids_all(rw, lines) is Some,
    ensures
        counts_positive(ids_all(rw, lines)->0),
        forall|k: u32| #[trigger] list_ms(ids_all(rw, lines)->0, k) == ms_sum(lines, |l: Seq<char>| line_comps(rw, l, k)),
        forall|c: u32| #[trigger] freq_of(ids_all(rw, lines)->0, c) == sat(ms_sum(lines, |l: Seq<char>| line_firsts(rw, l)).count(c)),
    decreases lines.len(),
{
    broadcast use vstd::multiset::group_multiset_axioms;
    let s = ids_all(rw, lines)->0;
    if lines.len() == 0 {
        assert forall|k: u32| #[trigger] list_ms(s, k) == ms_sum(lines, |l: Seq<char>| line_comps(rw, l, k)) by {
            assert(list_ms(s, k) =~= Multiset::<char>::empty());
        }
    } else {
        let d = lines.drop_last();
        let l = lines.last();
        let mid = ids_all(rw, d);
        let f = tab_fields(l);
        assert(mid is Some) by {
            if mid is None && f.len() >= 3 && f[1].len() == 1 {
                crate::ids::lemma_tokens_none(rw, rewrite(rw, f[1][0]), f.skip(2), l.contains('J'));
            }
        }
        lemma_all_counts(rw, d);
        let m = mid->0;
        if f.len() >= 3 && f[1].len() == 1 {
            lemma_tokens_counts(m, rw, rewrite(rw, f[1][0]), f.skip(2), l.contains('J'));
        }
        assert forall|k: u32| #[trigger] list_ms(s, k) == ms_sum(lines, |l: Seq<char>| line_comps(rw, l, k)) by {
            assert(list_ms(m, k) == ms_sum(d, |l: Seq<char>| line_comps(rw, l, k)));
            assert(ms_sum(lines, |l: Seq<char>| line_comps(rw, l, k)) == ms_sum(d, |l: Seq<char>| line_comps(rw, l, k)).add(line_comps(rw, l, k)));
            assert(list_ms(s, k) =~= ms_sum(lines, |l: Seq<char>| line_comps(rw, l, k)));
        }
        assert forall|c: u32| #[trigger] freq_of(s, c) == sat(ms_sum(lines, |l: Seq<char>| line_firsts(rw, l)).count(c)) by {
            assert(freq_of(m, c) == sat(ms_sum(d, |l: Seq<char>| line_firsts(rw, l)).count(c)));
            assert(ms_sum(lines, |l: Seq<char>| line_firsts(rw, l)) == ms_sum(d, |l: Seq<char>| line_firsts(rw, l)).add(line_firsts(rw, l)));
        }
    }
}

/// Reading the same IDS lines in any order, when both readings succeed,
/// gives the same frequency counts, component lists for the same
/// characters, and each character's component list with the same
/// components (in some order).
pub proof fn law_line_order_keeps_counts(rw: Map<u32, char>, lines: Seq<Seq<char>>, other: Seq<Seq<char>>)
    requires
        lines.to_multiset() == other.to_multiset(),
        ids_all(rw, lines) is Some,
        ids_all(rw, other) is Some,
    ensures
        ids_all(rw, lines).unwrap().3 == ids_all(rw, other).unwrap().3,
        ids_all(rw, lines).unwrap().2.dom() == ids_all(rw, other).unwrap().2.dom(),
        forall|k: u32| #[trigger] ids_all(rw, lines).unwrap().2.contains_key(k) ==> ids_all(rw, lines).unwrap().2[k].to_multiset()
            == ids_all(rw, other).unwrap().2[k].to_multiset(),
{
    broadcast use vstd::multiset::group_multiset_axioms;
    let a = ids_all(rw, lines).unwrap();
    let b = ids_all(rw, other).unwrap();
    lemma_all_counts(rw, lines);
    lemma_all_counts(rw, other);
    lemma_ids_all_invariant(rw, lines);
    lemma_ids_all_invariant(rw, other);
    assert forall|k: u32| #[trigger] list_ms(a, k) == list_ms(b, k) by {
        lemma_ms_sum_perm(lines, other, |l: Seq<char>| line_comps(rw, l, k));
    }
    lemma_ms_sum_perm(lines, other, |l: Seq<char>| line_firsts(rw, l));
    assert forall|c: u32| #[trigger] freq_of(a, c) == freq_of(b, c) by {}
    assert forall|c: u32| a.3.contains_key(c) == b.3.contains_key(c) by {
        assert(freq_of(a, c) == freq_of(b, c));
    }
    assert forall|c: u32| a.3.contains_key(c) implies a.3[c] == b.3[c] by {
        assert(freq_of(a, c) == freq_of(b, c));
    }
    assert(a.3 =~= b.3);
    assert forall|k: u32| a.2.contains_key(k) == b.2.contains_key(k) by {
        assert(list_ms(a, k) == list_ms(b, k));
        if a.2.contains_key(k) {
            vstd::seq_lib::to_multiset_len(a.2[k]);
        }
        if b.2.contains_key(k) {
            vstd::seq_lib::to_multiset_len(b.2[k]);
        }
    }
    assert(a.2.dom() =~= b.2.dom());
    assert forall|k: u32| #[trigger] a.2.contains_key(k) implies a.2[k].to_multiset() == b.2[k].to_multiset() by {
        assert(list_ms(a, k) == list_ms(b, k));
    }
}

} // verus!
