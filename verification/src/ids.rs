//! Reading ideographic description sequences ("IDS" lines:
//! "CODE <tab> CHARACTER <tab> DECOMPOSITION [<tab> DECOMPOSITION ...]")
//! into the component graphs.
use vstd::prelude::*;
use std::collections::{HashMap, HashSet};
use crate::classify::{is_ascii, is_descriptor, spec_is_ascii, spec_is_descriptor};
use crate::graph::{edge, graph_view, targets};
use crate::parse::{line_views, tab_fields};
use crate::text::{chars_of, has_char, split_chars, split_on};

verus! {

broadcast use vstd::std_specs::hash::group_hash_axioms;

/// What reading IDS lines builds: characters to components, components to
/// characters, characters to their components in order, and how often each
/// component opens a decomposition.
pub type IdsState = (Map<u32, Set<u32>>, Map<u32, Set<u32>>, Map<u32, Seq<char>>, Map<u32, u64>);

/// The four maps read from IDS lines.
pub type Mappings = (
    HashMap<u32, HashSet<u32>>,
    HashMap<u32, HashSet<u32>>,
    HashMap<u32, Vec<char>>,
    HashMap<u32, u64>,
);

/// The mathematical value of the four maps.
pub open spec fn mappings_view(t: Mappings) -> IdsState {
    (graph_view(t.0), graph_view(t.1), t.2@.map_values(|v: Vec<char>| v@), t.3@)
}

/// `c` with a radical form replaced by the character it stands for.
pub open spec fn rewrite(rw: Map<u32, char>, c: char) -> char {
    if rw.contains_key(c as u32) {
        rw[c as u32]
    } else {
        c
    }
}

/// Whether `c` counts as a component of `k`: not `k` itself, not a layout
/// character, not ASCII or Latin-1.
pub open spec fn is_component_of(k: char, c: char) -> bool {
    c != k && !spec_is_descriptor(c) && !spec_is_ascii(c)
}

/// The components of `k` in a decomposition `t`, rewritten, in order.
pub open spec fn kept(rw: Map<u32, char>, k: char, t: Seq<char>) -> Seq<char>
    decreases t.len(),
{
    if t.len() == 0 {
        Seq::empty()
    } else {
        let p = kept(rw, k, t.drop_last());
        let c = rewrite(rw, t.last());
        if is_component_of(k, c) {
            p.push(c)
        } else {
            p
        }
    }
}

/// `g` with an edge from `x` to `y` added.
pub open spec fn add_edge(g: Map<u32, Set<u32>>, x: u32, y: u32) -> Map<u32, Set<u32>> {
    g.insert(
        x,
        if g.contains_key(x) {
            g[x].insert(y)
        } else {
            set![y]
        },
    )
}

/// The count of `c` one higher (staying at the largest `u64`).
pub open spec fn bump(m: Map<u32, u64>, c: u32) -> Map<u32, u64> {
    m.insert(
        c,
        if m.contains_key(c) {
            if m[c] == u64::MAX {
                u64::MAX
            } else {
                (m[c] + 1) as u64
            }
        } else {
            1
        },
    )
}

/// Recording `c` as a component of `k`; `first` when it is in the first
/// decomposition used for `k` on its line. `None` when `k` has no
/// component list to add to yet outside a first decomposition.
pub open spec fn ids_char(st: IdsState, k: char, c: char, first: bool) -> Option<IdsState> {
    if !first && !st.2.contains_key(k as u32) {
        None
    } else {
        Some(
            (
                add_edge(st.0, k as u32, c as u32),
                add_edge(st.1, c as u32, k as u32),
                st.2.insert(
                    k as u32,
                    if st.2.contains_key(k as u32) {
                        st.2[k as u32].push(c)
                    } else {
                        seq![c]
                    },
                ),
                if first {
                    bump(st.3, c as u32)
                } else {
                    st.3
                },
            ),
        )
    }
}

/// Recording the components `cs` of `k`, in order.
pub open spec fn ids_token(st: Option<IdsState>, k: char, cs: Seq<char>, first: bool) -> Option<
    IdsState,
>
    decreases cs.len(),
{
    if cs.len() == 0 {
        st
    } else {
        match ids_token(st, k, cs.drop_last(), first) {
            Some(s) => ids_char(s, k, cs.last(), first),
            None => None,
        }
    }
}

/// Whether a decomposition is used: on a line marked `J` only the
/// decompositions marked `J` are.
pub open spec fn token_used(t: Seq<char>, priority: bool) -> bool {
    !priority || t.contains('J')
}

/// How many of the decompositions `toks` are used.
pub open spec fn used_count(toks: Seq<Seq<char>>, priority: bool) -> nat
    decreases toks.len(),
{
    if toks.len() == 0 {
        0
    } else {
        used_count(toks.drop_last(), priority) + if token_used(toks.last(), priority) {
            1nat
        } else {
            0nat
        }
    }
}

/// Recording the decompositions `toks` of `k`.
pub open spec fn ids_tokens(
    st: Option<IdsState>,
    rw: Map<u32, char>,
    k: char,
    toks: Seq<Seq<char>>,
    priority: bool,
) -> Option<IdsState>
    decreases toks.len(),
{
    if toks.len() == 0 {
        st
    } else {
        let prev = ids_tokens(st, rw, k, toks.drop_last(), priority);
        let t = toks.last();
        if token_used(t, priority) {
            ids_token(prev, k, kept(rw, k, t), used_count(toks.drop_last(), priority) == 0)
        } else {
            prev
        }
    }
}

/// Recording one IDS line: lines with fewer than three fields are passed
/// over; the second field must be one character.
pub open spec fn ids_line(st: Option<IdsState>, rw: Map<u32, char>, l: Seq<char>) -> Option<
    IdsState,
> {
    let f = tab_fields(l);
    if f.len() < 3 {
        st
    } else if f[1].len() != 1 {
        None
    } else {
        ids_tokens(st, rw, rewrite(rw, f[1][0]), f.skip(2), l.contains('J'))
    }
}

/// Everything read from the IDS lines, or `None` when reading fails.
pub open spec fn ids_all(rw: Map<u32, char>, lines: Seq<Seq<char>>) -> Option<IdsState>
    decreases lines.len(),
{
    if lines.len() == 0 {
        Some((Map::empty(), Map::empty(), Map::empty(), Map::empty()))
    } else {
        ids_line(ids_all(rw, lines.drop_last()), rw, lines.last())
    }
}

pub proof fn lemma_token_none(k: char, cs: Seq<char>, first: bool)
    ensures
        ids_token(None, k, cs, first) is None,
    decreases cs.len(),
{
    if cs.len() > 0 {
        lemma_token_none(k, cs.drop_last(), first);
    }
}

pub proof fn lemma_tokens_none(rw: Map<u32, char>, k: char, toks: Seq<Seq<char>>, priority: bool)
    ensures
        ids_tokens(None, rw, k, toks, priority) is None,
    decreases toks.len(),
{
    if toks.len() > 0 {
        lemma_tokens_none(rw, k, toks.drop_last(), priority);
        lemma_token_none(k, kept(rw, k, toks.last()), used_count(toks.drop_last(), priority) == 0);
    }
}

/// Once reading fails, it stays failed for the rest of the lines.
proof fn lemma_all_none(rw: Map<u32, char>, lines: Seq<Seq<char>>, i: int)
    requires
        0 <= i <= lines.len(),
        ids_all(rw, lines.take(i)) is None,
    ensures
        ids_all(rw, lines) is None,
    decreases lines.len() - i,
{
    if i == lines.len() {
        assert(lines.take(i) =~= lines);
    } else {
        let next = lines.take(i + 1);
        assert(next.drop_last() =~= lines.take(i));
        let f = tab_fields(lines[i]);
        if f.len() >= 3 && f[1].len() == 1 {
            lemma_tokens_none(rw, rewrite(rw, f[1][0]), f.skip(2), lines[i].contains('J'));
        }
        lemma_all_none(rw, lines, i + 1);
    }
}

/// A failure among a decomposition's first components is a failure for
/// the whole decomposition.
proof fn lemma_token_prefix_none(
    st: Option<IdsState>,
    rw: Map<u32, char>,
    k: char,
    t: Seq<char>,
    m: int,
    first: bool,
)
    requires
        0 <= m <= t.len(),
        ids_token(st, k, kept(rw, k, t.take(m)), first) is None,
    ensures
        ids_token(st, k, kept(rw, k, t), first) is None,
    decreases t.len() - m,
{
    if m == t.len() {
        assert(t.take(m) =~= t);
    } else {
        assert(t.take(m + 1).drop_last() =~= t.take(m));
        let cs = kept(rw, k, t.take(m + 1));
        if cs != kept(rw, k, t.take(m)) {
            assert(cs.drop_last() =~= kept(rw, k, t.take(m)));
        }
        lemma_token_prefix_none(st, rw, k, t, m + 1, first);
    }
}

/// A failure among a line's first decompositions is a failure for the
/// whole line.
proof fn lemma_tokens_prefix_none(
    st: Option<IdsState>,
    rw: Map<u32, char>,
    k: char,
    toks: Seq<Seq<char>>,
    j: int,
    priority: bool,
)
    requires
        0 <= j <= toks.len(),
        ids_tokens(st, rw, k, toks.take(j), priority) is None,
    ensures
        ids_tokens(st, rw, k, toks, priority) is None,
    decreases toks.len() - j,
{
    if j == toks.len() {
        assert(toks.take(j) =~= toks);
    } else {
        let next = toks.take(j + 1);
        assert(next.drop_last() =~= toks.take(j));
        lemma_token_none(k, kept(rw, k, toks[j]), used_count(toks.take(j), priority) == 0);
        lemma_tokens_prefix_none(st, rw, k, toks, j + 1, priority);
    }
}

/// `c` with a radical form replaced by the character it stands for.
pub fn rewrite_char(rw: &HashMap<u32, char>, c: char) -> (r: char)
    ensures
        r == rewrite(rw@, c),
{
    match rw.get(&(c as u32)) {
        Some(d) => *d,
        None => c,
    }
}

/// Adds an edge from `x` to `y`.
pub fn add_edge_to(m: &mut HashMap<u32, HashSet<u32>>, x: u32, y: u32)
    ensures
        graph_view(*final(m)) == add_edge(graph_view(*old(m)), x, y),
{
    let ghost g = graph_view(*m);
    match m.remove(&x) {
        Some(s) => {
            let mut s = s;
            s.insert(y);
            m.insert(x, s);
        },
        None => {
            let mut s: HashSet<u32> = HashSet::new();
            s.insert(y);
            m.insert(x, s);
            assert(s@ =~= set![y]);
        },
    }
    assert(graph_view(*m) =~= add_edge(g, x, y));
}

/// Appends `c` to the component list of `k`.
fn push_part(m: &mut HashMap<u32, Vec<char>>, k: u32, c: char)
    ensures
        final(m)@.map_values(|v: Vec<char>| v@) == old(m)@.map_values(|v: Vec<char>| v@).insert(
            k,
            if old(m)@.contains_key(k) {
                old(m)@[k]@.push(c)
            } else {
                seq![c]
            },
        ),
{
    let ghost before = m@.map_values(|v: Vec<char>| v@);
    let ghost had = m@.contains_key(k);
    let ghost old_list = if had { m@[k]@ } else { Seq::<char>::empty() };
    match m.remove(&k) {
        Some(v) => {
            let mut v = v;
            v.push(c);
            m.insert(k, v);
        },
        None => {
            let mut v: Vec<char> = Vec::new();
            v.push(c);
            assert(v@ =~= seq![c]);
            m.insert(k, v);
        },
    }
    assert(m@.map_values(|v: Vec<char>| v@) =~= before.insert(
        k,
        if had {
            old_list.push(c)
        } else {
            seq![c]
        },
    ));
}

/// Counts one more opening of a decomposition by `c`.
fn bump_count(m: &mut HashMap<u32, u64>, c: u32)
    ensures
        final(m)@ == bump(old(m)@, c),
{
    let n: u64 = match m.get(&c) {
        Some(n) => if *n == u64::MAX {
            u64::MAX
        } else {
            *n + 1
        },
        None => 1,
    };
    m.insert(c, n);
}

/// Records `c` as a component of `k`; false when that fails.
fn record_char(maps: &mut Mappings, k: char, c: char, first: bool) -> (ok: bool)
    ensures
        ok ==> ids_char(mappings_view(*old(maps)), k, c, first) == Some(mappings_view(*final(maps))),
        !ok ==> ids_char(mappings_view(*old(maps)), k, c, first) is None,
{
    if !first && !maps.2.contains_key(&(k as u32)) {
        return false;
    }
    add_edge_to(&mut maps.0, k as u32, c as u32);
    add_edge_to(&mut maps.1, c as u32, k as u32);
    push_part(&mut maps.2, k as u32, c);
    if first {
        bump_count(&mut maps.3, c as u32);
    }
    true
}

/// Reads IDS lines into: each character to its components, each component
/// to the characters holding it, each character to its components in order,
/// and how often each component opens a decomposition. Radical forms are
/// replaced through `rewrites`. `None` when a line cannot be read.
pub fn try_ids_lines_to_mappings(lines: &Vec<String>, rewrites: &HashMap<u32, char>) -> (r:
    Option<Mappings>)
    ensures
        match r {
            Some(t) => ids_all(rewrites@, line_views(lines@)) == Some(mappings_view(t)),
            None => ids_all(rewrites@, line_views(lines@)) is None,
        },
{
    let ghost rw = rewrites@;
    let ghost views = line_views(lines@);
    let mut maps: Mappings = (HashMap::new(), HashMap::new(), HashMap::new(), HashMap::new());
    proof {
        assert(mappings_view(maps) =~= (
            Map::<u32, Set<u32>>::empty(),
            Map::<u32, Set<u32>>::empty(),
            Map::<u32, Seq<char>>::empty(),
            Map::<u32, u64>::empty(),
        ));
        assert(views.take(0) =~= Seq::<Seq<char>>::empty());
    }
    let mut i: usize = 0;
    while i < lines.len()
        invariant
            0 <= i <= lines@.len(),
            rw == rewrites@,
            views == line_views(lines@),
            ids_all(rw, views.take(i as int)) == Some(mappings_view(maps)),
        decreases lines@.len() - i,
    {
        let line = chars_of(lines[i].as_str());
        let ghost l = line@;
        proof {
            assert(views.take(i as int + 1).drop_last() =~= views.take(i as int));
            assert(views.take(i as int + 1).last() == l);
        }
        let ghost before = mappings_view(maps);
        let tokens = split_chars(&line, '\t');
        let ghost f = tab_fields(l);
        if tokens.len() >= 3 {
            assert(tokens@[1]@ == f[1]);
            if tokens[1].len() != 1 {
                proof {
                    lemma_all_none(rw, views, i + 1);
                }
                return None;
            }
            let kanji = rewrite_char(rewrites, tokens[1][0]);
            let priority = has_char(&line, 'J');
            let ghost toks = f.skip(2);
            let mut first = true;
            let mut j: usize = 2;
            proof {
                assert(toks.take(0) =~= Seq::<Seq<char>>::empty());
            }
            while j < tokens.len()
                invariant
                    2 <= j <= tokens@.len(),
                    tokens@.map_values(|p: Vec<char>| p@) == f,
                    toks == f.skip(2),
                    rw == rewrites@,
                    views == line_views(lines@),
                    0 <= i < lines@.len(),
                    ids_all(rw, views.take(i as int)) == Some(before),
                    ids_tokens(Some(before), rw, kanji, toks.take(j - 2), priority) == Some(
                        mappings_view(maps),
                    ),
                    first == (used_count(toks.take(j - 2), priority) == 0),
                    f == tab_fields(l),
                    l == views[i as int],
                    f.len() >= 3,
                    f[1].len() == 1,
                    kanji == rewrite(rw, f[1][0]),
                    priority == l.contains('J'),
                decreases tokens@.len() - j,
            {
                let token = &tokens[j];
                let ghost t = token@;
                proof {
                    assert(t == toks[j - 2]);
                    assert(toks.take(j - 1).drop_last() =~= toks.take(j - 2));
                    assert(toks.take(j - 1).last() == t);
                }
                let used = !priority || has_char(token, 'J');
                assert(used == token_used(t, priority));
                if used {
                    let ghost start = mappings_view(maps);
                    let mut m: usize = 0;
                    proof {
                        assert(t.take(0) =~= Seq::<char>::empty());
                    }
                    while m < token.len()
                        invariant
                            0 <= m <= t.len(),
                            t == token@,
                            rw == rewrites@,
                            views == line_views(lines@),
                            0 <= i < lines@.len(),
                            ids_token(Some(start), kanji, kept(rw, kanji, t.take(m as int)), first)
                                == Some(mappings_view(maps)),
                            2 <= j < tokens@.len(),
                            tokens@.map_values(|p: Vec<char>| p@) == f,
                            toks == f.skip(2),
                            t == toks[j - 2],
                            ids_all(rw, views.take(i as int)) == Some(before),
                            ids_tokens(Some(before), rw, kanji, toks.take(j - 2), priority) == Some(start),
                            first == (used_count(toks.take(j - 2), priority) == 0),
                            token_used(t, priority),
                            f == tab_fields(l),
                            l == views[i as int],
                            f.len() >= 3,
                            f[1].len() == 1,
                            kanji == rewrite(rw, f[1][0]),
                            priority == l.contains('J'),
                        decreases t.len() - m,
                    {
                        let c = rewrite_char(rewrites, token[m]);
                        proof {
                            assert(t.take(m as int + 1).drop_last() =~= t.take(m as int));
                        }
                        if c != kanji && !is_descriptor(c) && !is_ascii(c) {
                            let ghost cs = kept(rw, kanji, t.take(m as int + 1));
                            proof {
                                assert(cs.drop_last() =~= kept(rw, kanji, t.take(m as int)));
                            }
                            if !record_char(&mut maps, kanji, c, first) {
                                proof {
                                    lemma_token_prefix_none(Some(start), rw, kanji, t, m + 1, first);
                                    assert(toks.take(j - 1).drop_last() =~= toks.take(j - 2));
                                    assert(toks.take(j - 1).last() == t);
                                    assert(ids_tokens(Some(before), rw, kanji, toks.take(j - 1), priority) is None);
                                    lemma_tokens_prefix_none(Some(before), rw, kanji, toks, j - 1, priority);
                                    assert(ids_line(Some(before), rw, l) is None);
                                    assert(views.take(i as int + 1).drop_last() =~= views.take(i as int));
                                    assert(views.take(i as int + 1).last() == l);
                                    lemma_all_none(rw, views, i + 1);
                                }
                                return None;
                            }
                        }
                        m = m + 1;
                    }
                    proof {
                        assert(t.take(m as int) =~= t);
                    }
                    first = false;
                }
                j = j + 1;
            }
            proof {
                assert(toks.take(j - 2) =~= toks);
            }
        }
        i = i + 1;
    }
    proof {
        assert(views.take(i as int) =~= views);
    }
    Some(maps)
}

/// Reads IDS lines into: each character to its components, each component
/// to the characters holding it, each character to its components in order,
/// and how often each component opens a decomposition.
pub fn ids_lines_to_mappings(lines: &Vec<String>, rewrites: &HashMap<u32, char>) -> (maps: Mappings)
    requires
        ids_all(rewrites@, line_views(lines@)) is Some,
    ensures
        ids_all(rewrites@, line_views(lines@)) == Some(mappings_view(maps)),
{
    match try_ids_lines_to_mappings(lines, rewrites) {
        Some(t) => t,
        None => (HashMap::new(), HashMap::new(), HashMap::new(), HashMap::new()),
    }
}

/// `h` holds exactly the edges of `g`, reversed.
pub open spec fn inverse_graphs(g: Map<u32, Set<u32>>, h: Map<u32, Set<u32>>) -> bool {
    forall|x: u32, y: u32| #[trigger] crate::graph::edge(g, x, y) <==> #[trigger] crate::graph::edge(h, y, x)
}

/// Every node that `g` points to is a character's code point.
pub open spec fn targets_are_chars(g: Map<u32, Set<u32>>) -> bool {
    forall|y: u32| #[trigger] crate::graph::targets(g).contains(y) ==> crate::text::is_char_code(y)
}

/// Every set stored in `g` holds something.
pub open spec fn sets_nonempty(g: Map<u32, Set<u32>>) -> bool {
    forall|k: u32| #[trigger] g.contains_key(k) ==> g[k] != Set::<u32>::empty()
}

/// What reading IDS lines keeps true: the two graphs are each other's
/// reverse, no stored set or component list is empty, and only characters
/// are recorded.
pub open spec fn ids_invariant(st: IdsState) -> bool {
    &&& inverse_graphs(st.0, st.1)
    &&& sets_nonempty(st.0)
    &&& sets_nonempty(st.1)
    &&& forall|k: u32| #[trigger] st.2.contains_key(k) ==> st.2[k].len() > 0
    &&& targets_are_chars(st.0)
    &&& targets_are_chars(st.1)
    &&& forall|k: u32| #[trigger] st.0.contains_key(k) ==> crate::text::is_char_code(k)
    &&& forall|k: u32| #[trigger] st.2.contains_key(k) ==> crate::text::is_char_code(k)
    &&& forall|k: u32| #[trigger] st.3.contains_key(k) ==> crate::text::is_char_code(k)
}

/// A character's code point is a character's code point.
pub proof fn lemma_char_code(c: char)
    ensures
        crate::text::is_char_code(c as u32),
{
}

proof fn lemma_ids_char_invariant(st: IdsState, k: char, c: char, first: bool)
    requires
        ids_invariant(st),
    ensures
        ids_char(st, k, c, first) matches Some(s2) ==> ids_invariant(s2),
{
    if let Some(s2) = ids_char(st, k, c, first) {
        lemma_char_code(c);
        lemma_char_code(k);
        assert forall|x: u32, y: u32| #[trigger] edge(s2.0, x, y) <==> #[trigger] edge(s2.1, y, x) by {
            assert(edge(st.0, x, y) <==> edge(st.1, y, x));
        }
        assert(s2.0[k as u32].contains(c as u32));
        assert(s2.1[c as u32].contains(k as u32));
        assert forall|x: u32| #[trigger] s2.0.contains_key(x) implies s2.0[x] != Set::<u32>::empty() by {
            if x == k as u32 {
                assert(!Set::<u32>::empty().contains(c as u32));
            }
        }
        assert forall|x: u32| #[trigger] s2.1.contains_key(x) implies s2.1[x] != Set::<u32>::empty() by {
            if x == c as u32 {
                assert(!Set::<u32>::empty().contains(k as u32));
            }
        }
        assert forall|y: u32| #[trigger] targets(s2.0).contains(y) implies crate::text::is_char_code(y) by {
            let x = choose|x: u32| #[trigger] edge(s2.0, x, y);
            if !(x == k as u32 && y == c as u32) {
                assert(edge(st.0, x, y));
                assert(targets(st.0).contains(y));
            }
        }
        assert forall|y: u32| #[trigger] targets(s2.1).contains(y) implies crate::text::is_char_code(y) by {
            let x = choose|x: u32| #[trigger] edge(s2.1, x, y);
            if !(x == c as u32 && y == k as u32) {
                assert(edge(st.1, x, y));
                assert(targets(st.1).contains(y));
            }
        }
    }
}

proof fn lemma_ids_token_invariant(st: Option<IdsState>, k: char, cs: Seq<char>, first: bool)
    requires
        st matches Some(s) ==> ids_invariant(s),
    ensures
        ids_token(st, k, cs, first) matches Some(s2) ==> ids_invariant(s2),
    decreases cs.len(),
{
    if cs.len() > 0 {
        lemma_ids_token_invariant(st, k, cs.drop_last(), first);
        if let Some(s) = ids_token(st, k, cs.drop_last(), first) {
            lemma_ids_char_invariant(s, k, cs.last(), first);
        }
    }
}

proof fn lemma_ids_tokens_invariant(
    st: Option<IdsState>,
    rw: Map<u32, char>,
    k: char,
    toks: Seq<Seq<char>>,
    priority: bool,
)
    requires
        st matches Some(s) ==> ids_invariant(s),
    ensures
        ids_tokens(st, rw, k, toks, priority) matches Some(s2) ==> ids_invariant(s2),
    decreases toks.len(),
{
    if toks.len() > 0 {
        lemma_ids_tokens_invariant(st, rw, k, toks.drop_last(), priority);
        lemma_ids_token_invariant(
            ids_tokens(st, rw, k, toks.drop_last(), priority),
            k,
            kept(rw, k, toks.last()),
            used_count(toks.drop_last(), priority) == 0,
        );
    }
}

/// Reading IDS lines records only characters, and the graph from
/// components to characters is exactly the reverse of the graph from
/// characters to components.
pub proof fn lemma_ids_all_invariant(rw: Map<u32, char>, lines: Seq<Seq<char>>)
    ensures
        ids_all(rw, lines) matches Some(s) ==> ids_invariant(s),
    decreases lines.len(),
{
    if lines.len() == 0 {
        let s = ids_all(rw, lines)->0;
        assert(crate::graph::targets(s.0) =~= Set::<u32>::empty());
        assert(crate::graph::targets(s.1) =~= Set::<u32>::empty());
    } else {
        lemma_ids_all_invariant(rw, lines.drop_last());
        let prev = ids_all(rw, lines.drop_last());
        let l = lines.last();
        let f = tab_fields(l);
        if f.len() >= 3 && f[1].len() == 1 {
            lemma_ids_tokens_invariant(prev, rw, rewrite(rw, f[1][0]), f.skip(2), l.contains('J'));
        }
    }
}

/// No radical form, and no character one stands for, is ASCII or
/// Latin-1 (so tabs and the `J` mark are never rewritten).
pub open spec fn rewrites_beyond_latin1(rw: Map<u32, char>) -> bool {
    forall|k: u32| #[trigger] rw.contains_key(k) ==> k > 0xFF && (rw[k] as u32) > 0xFF
}

/// `s` with every radical form replaced by the character it stands for.
pub open spec fn rewrite_seq(rw: Map<u32, char>, s: Seq<char>) -> Seq<char> {
    s.map_values(|c: char| rewrite(rw, c))
}

/// Rewriting turns a character into an ASCII or Latin-1 character `d`
/// only when it is `d` already.
proof fn lemma_rewrite_low(rw: Map<u32, char>, c: char, d: char)
    requires
        rewrites_beyond_latin1(rw),
        (d as u32) <= 0xFF,
    ensures
        (rewrite(rw, c) == d) == (c == d),
{
    if rw.contains_key(c as u32) {
        assert((c as u32) > 0xFF);
        assert((rw[c as u32] as u32) > 0xFF);
    }
}

/// Rewriting and splitting at an ASCII separator can be done in either order.
proof fn lemma_split_rewrite(rw: Map<u32, char>, s: Seq<char>, sep: char)
    requires
        rewrites_beyond_latin1(rw),
        (sep as u32) <= 0xFF,
    ensures
        split_on(rewrite_seq(rw, s), sep) == split_on(s, sep).map_values(|p: Seq<char>| rewrite_seq(rw, p)),
    decreases s.len(),
{
    let r = rewrite_seq(rw, s);
    if s.len() == 0 {
        assert(r =~= Seq::<char>::empty());
        assert(rewrite_seq(rw, Seq::<char>::empty()) =~= Seq::<char>::empty());
        assert(split_on(s, sep).map_values(|p: Seq<char>| rewrite_seq(rw, p)) =~= seq![Seq::<char>::empty()]);
    } else {
        assert(r.drop_last() =~= rewrite_seq(rw, s.drop_last()));
        lemma_split_rewrite(rw, s.drop_last(), sep);
        lemma_rewrite_low(rw, s.last(), sep);
        crate::text::lemma_split_nonempty(s.drop_last(), sep);
        let p = split_on(s.drop_last(), sep);
        let m = p.map_values(|q: Seq<char>| rewrite_seq(rw, q));
        if s.last() == sep {
            assert(rewrite_seq(rw, Seq::<char>::empty()) =~= Seq::<char>::empty());
            assert(split_on(s, sep).map_values(|q: Seq<char>| rewrite_seq(rw, q)) =~= m.push(Seq::<char>::empty()));
        } else {
            assert(rewrite_seq(rw, p.last().push(s.last())) =~= m.last().push(rewrite(rw, s.last())));
            assert(split_on(s, sep).map_values(|q: Seq<char>| rewrite_seq(rw, q)) =~= m.update(
                m.len() - 1,
                m.last().push(rewrite(rw, s.last())),
            ));
        }
    }
}

/// Rewriting keeps whether an ASCII character occurs.
proof fn lemma_contains_rewrite(rw: Map<u32, char>, s: Seq<char>, d: char)
    requires
        rewrites_beyond_latin1(rw),
        (d as u32) <= 0xFF,
    ensures
        rewrite_seq(rw, s).contains(d) == s.contains(d),
{
    if s.contains(d) {
        let i = choose|i: int| 0 <= i < s.len() && s[i] == d;
        lemma_rewrite_low(rw, s[i], d);
        assert(rewrite_seq(rw, s)[i] == d);
    }
    if rewrite_seq(rw, s).contains(d) {
        let i = choose|i: int| 0 <= i < s.len() && rewrite_seq(rw, s)[i] == d;
        lemma_rewrite_low(rw, s[i], d);
    }
}

/// Nothing is rewritten by no rewrites.
proof fn lemma_rewrite_none(c: char)
    ensures
        rewrite(Map::<u32, char>::empty(), c) == c,
{
}

/// The components kept from a decomposition are the same whether it is
/// rewritten while reading or before.
proof fn lemma_kept_rewrite(rw: Map<u32, char>, k: char, t: Seq<char>)
    ensures
        kept(rw, k, t) == kept(Map::<u32, char>::empty(), k, rewrite_seq(rw, t)),
    decreases t.len(),
{
    let r = rewrite_seq(rw, t);
    if t.len() > 0 {
        assert(r.drop_last() =~= rewrite_seq(rw, t.drop_last()));
        lemma_kept_rewrite(rw, k, t.drop_last());
        lemma_rewrite_none(r.last());
    }
}

/// Rewriting the decompositions first keeps how many are used.
proof fn lemma_used_count_rewrite(rw: Map<u32, char>, toks: Seq<Seq<char>>, priority: bool)
    requires
        rewrites_beyond_latin1(rw),
    ensures
        used_count(toks.map_values(|t: Seq<char>| rewrite_seq(rw, t)), priority) == used_count(toks, priority),
    decreases toks.len(),
{
    if toks.len() > 0 {
        let m = toks.map_values(|t: Seq<char>| rewrite_seq(rw, t));
        assert(m.drop_last() =~= toks.drop_last().map_values(|t: Seq<char>| rewrite_seq(rw, t)));
        lemma_used_count_rewrite(rw, toks.drop_last(), priority);
        lemma_contains_rewrite(rw, toks.last(), 'J');
    }
}

/// Recording decompositions gives the same result whether they are
/// rewritten while reading or before.
proof fn lemma_tokens_rewrite(
    st: Option<IdsState>,
    rw: Map<u32, char>,
    k: char,
    toks: Seq<Seq<char>>,
    priority: bool,
)
    requires
        rewrites_beyond_latin1(rw),
    ensures
        ids_tokens(st, rw, k, toks, priority) == ids_tokens(
            st,
            Map::<u32, char>::empty(),
            k,
            toks.map_values(|t: Seq<char>| rewrite_seq(rw, t)),
            priority,
        ),
    decreases toks.len(),
{
    if toks.len() > 0 {
        let m = toks.map_values(|t: Seq<char>| rewrite_seq(rw, t));
        assert(m.drop_last() =~= toks.drop_last().map_values(|t: Seq<char>| rewrite_seq(rw, t)));
        lemma_tokens_rewrite(st, rw, k, toks.drop_last(), priority);
        lemma_contains_rewrite(rw, toks.last(), 'J');
        lemma_used_count_rewrite(rw, toks.drop_last(), priority);
        lemma_kept_rewrite(rw, k, toks.last());
    }
}

/// Reading one line gives the same result whether its radical forms are
/// rewritten while reading or before.
proof fn lemma_line_rewrite(st: Option<IdsState>, rw: Map<u32, char>, l: Seq<char>)
    requires
        rewrites_beyond_latin1(rw),
    ensures
        ids_line(st, rw, l) == ids_line(st, Map::<u32, char>::empty(), rewrite_seq(rw, l)),
{
    let f = tab_fields(l);
    let g = tab_fields(rewrite_seq(rw, l));
    lemma_split_rewrite(rw, l, '\t');
    assert(g == f.map_values(|p: Seq<char>| rewrite_seq(rw, p)));
    lemma_contains_rewrite(rw, l, 'J');
    if f.len() >= 3 {
        assert(g[1] == rewrite_seq(rw, f[1]));
        if f[1].len() == 1 {
            lemma_rewrite_none(g[1][0]);
            assert(g.skip(2) =~= f.skip(2).map_values(|p: Seq<char>| rewrite_seq(rw, p)));
            lemma_tokens_rewrite(st, rw, rewrite(rw, f[1][0]), f.skip(2), l.contains('J'));
        }
    }
}

/// Reading IDS lines with radical forms rewritten gives the same result as
/// rewriting the lines first and reading them with no rewrites, as long as
/// no rewrite touches ASCII or Latin-1 characters.
pub proof fn law_rewrite_before_reading(rw: Map<u32, char>, lines: Seq<Seq<char>>)
    requires
        rewrites_beyond_latin1(rw),
    ensures
        ids_all(rw, lines) == ids_all(
            Map::<u32, char>::empty(),
            lines.map_values(|l: Seq<char>| rewrite_seq(rw, l)),
        ),
    decreases lines.len(),
{
    if lines.len() > 0 {
        let m = lines.map_values(|l: Seq<char>| rewrite_seq(rw, l));
        assert(m.drop_last() =~= lines.drop_last().map_values(|l: Seq<char>| rewrite_seq(rw, l)));
        law_rewrite_before_reading(rw, lines.drop_last());
        lemma_line_rewrite(ids_all(rw, lines.drop_last()), rw, lines.last());
    }
}

} // verus!
