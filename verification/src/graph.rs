//! Reachability in a component graph: the relation "has as a component"
//! (or its inverse), each character mapped to the set of characters it
//! points to.
use vstd::prelude::*;
use std::collections::{HashMap, HashSet};

verus! {

/// The mathematical graph held by a map from character codes to sets of codes.
pub open spec fn graph_view(m: HashMap<u32, HashSet<u32>>) -> Map<u32, Set<u32>> {
    m@.map_values(|s: HashSet<u32>| s@)
}

/// `x` points to `y` in `g`.
pub open spec fn edge(g: Map<u32, Set<u32>>, x: u32, y: u32) -> bool {
    g.contains_key(x) && g[x].contains(y)
}

/// Everything that some member of `s` points to.
pub open spec fn step(g: Map<u32, Set<u32>>, s: Set<u32>) -> Set<u32> {
    Set::new(|y: u32| exists|x: u32| s.contains(x) && #[trigger] edge(g, x, y))
}

/// Position `i` of `p` points to position `i + 1`.
pub open spec fn linked(g: Map<u32, Set<u32>>, p: Seq<u32>, i: int) -> bool {
    edge(g, p[i], p[i + 1])
}

/// Position `i` of `p` lies outside `avoid`.
pub open spec fn clear_of(avoid: Set<u32>, p: Seq<u32>, i: int) -> bool {
    !avoid.contains(p[i])
}

/// `p` is a walk of at least one edge whose nodes after the first lie outside `avoid`.
pub open spec fn walk(g: Map<u32, Set<u32>>, avoid: Set<u32>, p: Seq<u32>) -> bool {
    &&& p.len() >= 2
    &&& forall|i: int| 0 <= i < p.len() - 1 ==> #[trigger] linked(g, p, i)
    &&& forall|i: int| 1 <= i < p.len() ==> #[trigger] clear_of(avoid, p, i)
}

/// `p` is a walk from a member of `start` to `y`, avoiding `avoid` after its start.
pub open spec fn walk_to(
    g: Map<u32, Set<u32>>,
    avoid: Set<u32>,
    start: Set<u32>,
    y: u32,
    p: Seq<u32>,
) -> bool {
    walk(g, avoid, p) && start.contains(p[0]) && p.last() == y
}

/// The nodes reached from `start` by one or more edges, through nodes outside `avoid`.
pub open spec fn reach(g: Map<u32, Set<u32>>, avoid: Set<u32>, start: Set<u32>) -> Set<u32> {
    Set::new(|y: u32| exists|p: Seq<u32>| #[trigger] walk_to(g, avoid, start, y, p))
}

/// Every node that some node points to.
pub open spec fn targets(g: Map<u32, Set<u32>>) -> Set<u32> {
    Set::new(|y: u32| exists|x: u32| #[trigger] edge(g, x, y))
}

/// A graph with finitely many nodes, each pointing to finitely many nodes.
pub open spec fn finite_graph(g: Map<u32, Set<u32>>) -> bool {
    g.dom().finite() && forall|x: u32| #[trigger] g.contains_key(x) ==> g[x].finite()
}

/// The graph held by a hash map is finite.
pub proof fn lemma_graph_view_finite(m: HashMap<u32, HashSet<u32>>)
    ensures
        finite_graph(graph_view(m)),
{
    assert(graph_view(m).dom() == m@.dom());
    assert forall|x: u32| #[trigger] graph_view(m).contains_key(x) implies graph_view(
        m,
    )[x].finite() by {
        crate::charset::lemma_set_view_finite(&m@[x]);
    }
}

/// A finite graph points to finitely many nodes.
pub proof fn lemma_targets_finite(g: Map<u32, Set<u32>>)
    requires
        finite_graph(g),
    ensures
        targets(g).finite(),
    decreases g.dom().len(),
{
    if g.dom().len() == 0 {
        assert(targets(g) =~= Set::empty()) by {
            assert forall|y: u32| !targets(g).contains(y) by {
                if targets(g).contains(y) {
                    let x = choose|x: u32| #[trigger] edge(g, x, y);
                    assert(g.dom().contains(x));
                }
            }
        }
    } else {
        let k = g.dom().choose();
        let h = g.remove(k);
        assert(h.dom() =~= g.dom().remove(k));
        lemma_targets_finite(h);
        assert(targets(g) =~= targets(h) + g[k]) by {
            assert forall|y: u32| #[trigger] targets(g).contains(y) implies (targets(h)
                + g[k]).contains(y) by {
                let x = choose|x: u32| #[trigger] edge(g, x, y);
                if x != k {
                    assert(edge(h, x, y));
                }
            }
            assert forall|y: u32| #[trigger] (targets(h) + g[k]).contains(y) implies targets(
                g,
            ).contains(y) by {
                if targets(h).contains(y) {
                    let x = choose|x: u32| #[trigger] edge(h, x, y);
                    assert(edge(g, x, y));
                } else {
                    assert(edge(g, k, y));
                }
            }
        }
    }
}

/// What a set points to lies among the graph's targets.
pub proof fn lemma_step_in_targets(g: Map<u32, Set<u32>>, s: Set<u32>)
    ensures
        step(g, s) <= targets(g),
{
    assert forall|y: u32| #[trigger] step(g, s).contains(y) implies targets(g).contains(y) by {
        let x = choose|x: u32| s.contains(x) && #[trigger] edge(g, x, y);
        assert(edge(g, x, y));
    }
}

/// What is reached lies among the graph's targets.
pub proof fn lemma_reach_in_targets(g: Map<u32, Set<u32>>, avoid: Set<u32>, start: Set<u32>)
    ensures
        reach(g, avoid, start) <= targets(g),
{
    assert forall|y: u32| #[trigger] reach(g, avoid, start).contains(y) implies targets(
        g,
    ).contains(y) by {
        let p = choose|p: Seq<u32>| #[trigger] walk_to(g, avoid, start, y, p);
        assert(linked(g, p, p.len() - 2));
        assert(edge(g, p[p.len() - 2], y));
    }
}

/// One edge out of `start`, to a node outside `avoid`, is a reached node.
pub proof fn lemma_step_reached(g: Map<u32, Set<u32>>, avoid: Set<u32>, start: Set<u32>)
    ensures
        step(g, start) - avoid <= reach(g, avoid, start),
{
    assert forall|y: u32| #[trigger] (step(g, start) - avoid).contains(y) implies reach(
        g,
        avoid,
        start,
    ).contains(y) by {
        let x = choose|x: u32| start.contains(x) && #[trigger] edge(g, x, y);
        let p = seq![x, y];
        assert(linked(g, p, 0));
        assert forall|i: int| 1 <= i < p.len() implies #[trigger] clear_of(avoid, p, i) by {
            assert(i == 1);
        }
        assert(walk_to(g, avoid, start, y, p));
    }
}

/// Avoiding more reaches less.
pub proof fn lemma_reach_avoid_mono(
    g: Map<u32, Set<u32>>,
    a: Set<u32>,
    b: Set<u32>,
    start: Set<u32>,
)
    requires
        a <= b,
    ensures
        reach(g, b, start) <= reach(g, a, start),
{
    assert forall|y: u32| #[trigger] reach(g, b, start).contains(y) implies reach(
        g,
        a,
        start,
    ).contains(y) by {
        let p = choose|p: Seq<u32>| #[trigger] walk_to(g, b, start, y, p);
        assert forall|i: int| 1 <= i < p.len() implies #[trigger] clear_of(a, p, i) by {
            assert(clear_of(b, p, i));
        }
        assert(walk_to(g, a, start, y, p));
    }
}

/// Starting from more reaches more.
pub proof fn lemma_reach_start_mono(
    g: Map<u32, Set<u32>>,
    avoid: Set<u32>,
    s: Set<u32>,
    t: Set<u32>,
)
    requires
        s <= t,
    ensures
        reach(g, avoid, s) <= reach(g, avoid, t),
{
    assert forall|y: u32| #[trigger] reach(g, avoid, s).contains(y) implies reach(
        g,
        avoid,
        t,
    ).contains(y) by {
        let p = choose|p: Seq<u32>| #[trigger] walk_to(g, avoid, s, y, p);
        assert(walk_to(g, avoid, t, y, p));
    }
}

/// Nothing is reached from no node.
pub proof fn lemma_reach_from_nothing(g: Map<u32, Set<u32>>, avoid: Set<u32>)
    ensures
        reach(g, avoid, Set::empty()) == Set::<u32>::empty(),
{
    assert(reach(g, avoid, Set::empty()) =~= Set::<u32>::empty()) by {
        assert forall|y: u32| !#[trigger] reach(g, avoid, Set::empty()).contains(y) by {
            if reach(g, avoid, Set::empty()).contains(y) {
                let p = choose|p: Seq<u32>| #[trigger] walk_to(g, avoid, Set::empty(), y, p);
            }
        }
    }
}

/// The part of a walk from position `k` on is a walk.
pub proof fn lemma_walk_suffix(g: Map<u32, Set<u32>>, avoid: Set<u32>, p: Seq<u32>, k: int)
    requires
        walk(g, avoid, p),
        0 <= k < p.len() - 1,
    ensures
        walk(g, avoid, p.subrange(k, p.len() as int)),
        p.subrange(k, p.len() as int)[0] == p[k],
        p.subrange(k, p.len() as int).last() == p.last(),
{
    let q = p.subrange(k, p.len() as int);
    assert forall|i: int| 0 <= i < q.len() - 1 implies #[trigger] linked(g, q, i) by {
        assert(linked(g, p, k + i));
    }
    assert forall|i: int| 1 <= i < q.len() implies #[trigger] clear_of(avoid, q, i) by {
        assert(clear_of(avoid, p, k + i));
    }
}

/// Two walks that meet join into one walk.
pub proof fn lemma_walk_join(g: Map<u32, Set<u32>>, avoid: Set<u32>, p: Seq<u32>, q: Seq<u32>)
    requires
        walk(g, avoid, p),
        walk(g, avoid, q),
        p.last() == q[0],
    ensures
        walk(g, avoid, p + q.drop_first()),
        (p + q.drop_first())[0] == p[0],
        (p + q.drop_first()).last() == q.last(),
{
    let r = p + q.drop_first();
    assert forall|i: int| 0 <= i < r.len() - 1 implies #[trigger] linked(g, r, i) by {
        if i < p.len() - 1 {
            assert(linked(g, p, i));
        } else {
            assert(linked(g, q, i - p.len() + 1));
        }
    }
    assert forall|i: int| 1 <= i < r.len() implies #[trigger] clear_of(avoid, r, i) by {
        if i < p.len() {
            assert(clear_of(avoid, p, i));
        } else {
            assert(clear_of(avoid, q, i - p.len() + 1));
        }
    }
}

/// The tail of a walk from its `k`-th node, which lies in `n`: its end is in `n`,
/// or reached from `n` avoiding `avoid + n`.
proof fn lemma_walk_tail_from(
    g: Map<u32, Set<u32>>,
    avoid: Set<u32>,
    n: Set<u32>,
    p: Seq<u32>,
    k: int,
)
    requires
        walk(g, avoid, p),
        1 <= k < p.len(),
        n.contains(p[k]),
    ensures
        (n + reach(g, avoid + n, n)).contains(p.last()),
    decreases p.len() - k,
{
    if k == p.len() - 1 {
    } else if exists|j: int| k < j < p.len() && n.contains(#[trigger] p[j]) {
        let j = choose|j: int| k < j < p.len() && n.contains(#[trigger] p[j]);
        lemma_walk_tail_from(g, avoid, n, p, j);
    } else {
        lemma_walk_suffix(g, avoid, p, k);
        let q = p.subrange(k, p.len() as int);
        assert forall|i: int| 1 <= i < q.len() implies #[trigger] clear_of(avoid + n, q, i) by {
            assert(clear_of(avoid, q, i));
            assert(q[i] == p[k + i]);
        }
        assert(walk_to(g, avoid + n, n, p.last(), q));
    }
}

/// Reaching from `start` is taking one step to the new nodes `n`,
/// then reaching from `n` with `n` avoided as well.
pub proof fn lemma_reach_unfold(g: Map<u32, Set<u32>>, avoid: Set<u32>, start: Set<u32>)
    ensures
        ({
            let n = step(g, start) - avoid;
            reach(g, avoid, start) == n + reach(g, avoid + n, n)
        }),
{
    let n = step(g, start) - avoid;
    lemma_step_reached(g, avoid, start);
    assert forall|y: u32| #[trigger] reach(g, avoid, start).contains(y) implies (n + reach(
        g,
        avoid + n,
        n,
    )).contains(y) by {
        let p = choose|p: Seq<u32>| #[trigger] walk_to(g, avoid, start, y, p);
        assert(linked(g, p, 0));
        assert(clear_of(avoid, p, 1));
        assert(edge(g, p[0], p[1]));
        assert(step(g, start).contains(p[1]));
        lemma_walk_tail_from(g, avoid, n, p, 1);
    }
    assert forall|y: u32| #[trigger] reach(g, avoid + n, n).contains(y) implies reach(
        g,
        avoid,
        start,
    ).contains(y) by {
        let q = choose|q: Seq<u32>| #[trigger] walk_to(g, avoid + n, n, y, q);
        let x = choose|x: u32| start.contains(x) && #[trigger] edge(g, x, q[0]);
        let p = seq![x, q[0]];
        assert(linked(g, p, 0));
        assert forall|i: int| 1 <= i < p.len() implies #[trigger] clear_of(avoid, p, i) by {
            assert(i == 1);
        }
        lemma_reach_avoid_mono(g, avoid, avoid + n, n);
        assert(walk(g, avoid, p));
        assert forall|i: int| 1 <= i < q.len() implies #[trigger] clear_of(avoid, q, i) by {
            assert(clear_of(avoid + n, q, i));
        }
        lemma_walk_join(g, avoid, p, q);
        assert(walk_to(g, avoid, start, y, p + q.drop_first()));
    }
    assert(reach(g, avoid, start) =~= n + reach(g, avoid + n, n));
}

/// Reaching from `s + t` is reaching from `s`, then from `t` with what was
/// reached from `s` avoided as well.
pub proof fn lemma_reach_union(
    g: Map<u32, Set<u32>>,
    avoid: Set<u32>,
    s: Set<u32>,
    t: Set<u32>,
)
    ensures
        reach(g, avoid, s) + reach(g, avoid + reach(g, avoid, s), t) == reach(g, avoid, s + t),
{
    let r = reach(g, avoid, s);
    lemma_reach_start_mono(g, avoid, s, s + t);
    lemma_reach_start_mono(g, avoid, t, s + t);
    lemma_reach_avoid_mono(g, avoid, avoid + r, t);
    assert forall|y: u32| #[trigger] reach(g, avoid, s + t).contains(y) implies (r + reach(
        g,
        avoid + r,
        t,
    )).contains(y) by {
        let p = choose|p: Seq<u32>| #[trigger] walk_to(g, avoid, s + t, y, p);
        if s.contains(p[0]) {
            assert(walk_to(g, avoid, s, y, p));
        } else if exists|i: int| 1 <= i < p.len() && r.contains(#[trigger] p[i]) {
            let i = choose|i: int| 1 <= i < p.len() && r.contains(#[trigger] p[i]);
            if i < p.len() - 1 {
                let w = choose|w: Seq<u32>| #[trigger] walk_to(g, avoid, s, p[i], w);
                lemma_walk_suffix(g, avoid, p, i);
                let q = p.subrange(i, p.len() as int);
                lemma_walk_join(g, avoid, w, q);
                assert(walk_to(g, avoid, s, y, w + q.drop_first()));
            }
        } else {
            assert forall|i: int| 1 <= i < p.len() implies #[trigger] clear_of(avoid + r, p, i) by {
                assert(clear_of(avoid, p, i));
                assert(!r.contains(p[i]));
            }
            assert(walk_to(g, avoid + r, t, y, p));
        }
    }
    assert(r + reach(g, avoid + r, t) =~= reach(g, avoid, s + t));
}

} // verus!
