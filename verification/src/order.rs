//! Putting characters in order by a count and then by code point.
use vstd::prelude::*;

verus! {

/// Whether the pair `a` (code point, count) comes before `b`: by count,
/// rising (or falling when `falling`), then by code point, rising.
pub open spec fn pair_before(a: (u32, u64), b: (u32, u64), falling: bool) -> bool {
    if a.1 == b.1 {
        a.0 < b.0
    } else if falling {
        a.1 > b.1
    } else {
        a.1 < b.1
    }
}

/// Every pair of `s` comes before every later one.
pub open spec fn sorted_pairs(s: Seq<(u32, u64)>, falling: bool) -> bool {
    forall|i: int, j: int| 0 <= i < j < s.len() ==> pair_before(s[i], s[j], falling)
}

/// No two pairs of `s` have the same code point.
pub open spec fn distinct_codes(s: Seq<(u32, u64)>) -> bool {
    forall|i: int, j: int| 0 <= i < j < s.len() ==> s[i].0 != s[j].0
}

/// Whether the pair `a` comes before `b`.
pub fn comes_before(a: (u32, u64), b: (u32, u64), falling: bool) -> (r: bool)
    ensures
        r == pair_before(a, b, falling),
{
    if a.1 == b.1 {
        a.0 < b.0
    } else if falling {
        a.1 > b.1
    } else {
        a.1 < b.1
    }
}

/// `s` in order: the pairs of `v`, each before every later one.
pub fn sort_pairs(v: &Vec<(u32, u64)>, falling: bool) -> (s: Vec<(u32, u64)>)
    requires
        distinct_codes(v@),
    ensures
        sorted_pairs(s@, falling),
        s@.to_set() == v@.to_set(),
        s@.len() == v@.len(),
{
    let mut out: Vec<(u32, u64)> = Vec::new();
    let mut i: usize = 0;
    while i < v.len()
        invariant
            0 <= i <= v@.len(),
            distinct_codes(v@),
            sorted_pairs(out@, falling),
            out@.to_set() == v@.take(i as int).to_set(),
            out@.len() == i,
        decreases v@.len() - i,
    {
        let x = v[i];
        let mut p: usize = 0;
        while p < out.len() && !comes_before(x, out[p], falling)
            invariant
                0 <= p <= out@.len(),
                forall|k: int| 0 <= k < p ==> !pair_before(x, out@[k], falling),
            decreases out@.len() - p,
        {
            p = p + 1;
        }
        proof {
            assert forall|k: int| 0 <= k < out@.len() implies out@[k].0 != x.0 by {
                assert(out@.to_set().contains(out@[k]));
                assert(v@.take(i as int).to_set().contains(out@[k]));
                let j = choose|j: int| 0 <= j < i && v@.take(i as int)[j] == out@[k];
                assert(v@[j].0 != v@[i as int].0);
            }
        }
        let ghost before = out@;
        out.insert(p, x);
        proof {
            assert(out@ =~= before.take(p as int).push(x) + before.skip(p as int));
            assert forall|a: int, b: int| 0 <= a < b < out@.len() implies pair_before(
                out@[a],
                out@[b],
                falling,
            ) by {
                if b < p {
                    assert(out@[a] == before[a] && out@[b] == before[b]);
                } else if b == p {
                    assert(out@[a] == before[a]);
                    assert(!pair_before(x, before[a], falling));
                    assert(before[a].0 != x.0);
                } else if a < p {
                    assert(out@[a] == before[a] && out@[b] == before[b - 1]);
                } else if a == p {
                    assert(out@[b] == before[b - 1]);
                    if p < before.len() {
                        assert(pair_before(x, before[p as int], falling));
                        if b - 1 > p {
                            assert(pair_before(before[p as int], before[b - 1], falling));
                        }
                    }
                } else {
                    assert(out@[a] == before[a - 1] && out@[b] == before[b - 1]);
                }
            }
            assert(v@.take(i as int + 1) =~= v@.take(i as int).push(x));
            assert(out@.to_set() =~= before.to_set().insert(x)) by {
                assert forall|y: (u32, u64)| out@.to_set().contains(y) implies before.to_set().insert(
                    x,
                ).contains(y) by {
                    let k = choose|k: int| 0 <= k < out@.len() && out@[k] == y;
                    if k < p {
                        assert(before[k] == y);
                    } else if k > p {
                        assert(before[k - 1] == y);
                    }
                }
                assert forall|y: (u32, u64)| before.to_set().insert(x).contains(y) implies out@.to_set().contains(
                    y,
                ) by {
                    if y == x {
                        assert(out@[p as int] == x);
                    } else {
                        let k = choose|k: int| 0 <= k < before.len() && before[k] == y;
                        if k < p {
                            assert(out@[k] == y);
                        } else {
                            assert(out@[k + 1] == y);
                        }
                    }
                }
            }
            assert(v@.take(i as int).push(x).to_set() =~= v@.take(i as int).to_set().insert(x)) by {
                assert forall|y: (u32, u64)| v@.take(i as int).push(x).to_set().contains(y) implies v@.take(
                    i as int,
                ).to_set().insert(x).contains(y) by {
                    let k = choose|k: int| 0 <= k < i + 1 && v@.take(i as int).push(x)[k] == y;
                    if k < i {
                        assert(v@.take(i as int)[k] == y);
                    }
                }
                assert forall|y: (u32, u64)| v@.take(i as int).to_set().insert(x).contains(y) implies v@.take(
                    i as int,
                ).push(x).to_set().contains(y) by {
                    if y == x {
                        assert(v@.take(i as int).push(x)[i as int] == x);
                    } else {
                        let k = choose|k: int| 0 <= k < i && v@.take(i as int)[k] == y;
                        assert(v@.take(i as int).push(x)[k] == y);
                    }
                }
            }
        }
        i = i + 1;
    }
    assert(v@.take(i as int) =~= v@);
    out
}

/// Two sequences in order holding the same pairs are the same sequence.
pub proof fn lemma_sorted_unique(a: Seq<(u32, u64)>, b: Seq<(u32, u64)>, falling: bool)
    requires
        sorted_pairs(a, falling),
        sorted_pairs(b, falling),
        a.to_set() == b.to_set(),
    ensures
        a == b,
    decreases a.len(),
{
    if a.len() == 0 {
        if b.len() > 0 {
            assert(b.to_set().contains(b[0]));
        }
        assert(a =~= b);
    } else {
        assert(a.to_set().contains(a[0]));
        assert(b.len() > 0);
        assert(b.to_set().contains(b[0]));
        let j = choose|j: int| 0 <= j < b.len() && b[j] == a[0];
        let i = choose|i: int| 0 <= i < a.len() && a[i] == b[0];
        if j > 0 {
            assert(pair_before(b[0], b[j], falling));
            if i > 0 {
                assert(pair_before(a[0], a[i], falling));
            }
        }
        assert(j == 0);
        let ra = a.drop_first();
        let rb = b.drop_first();
        assert forall|x: (u32, u64)| ra.to_set().contains(x) implies rb.to_set().contains(x) by {
            let k = choose|k: int| 0 <= k < ra.len() && ra[k] == x;
            assert(pair_before(a[0], a[k + 1], falling));
            assert(a.to_set().contains(x));
            let m = choose|m: int| 0 <= m < b.len() && b[m] == x;
            assert(m != 0);
            assert(rb[m - 1] == x);
        }
        assert forall|x: (u32, u64)| rb.to_set().contains(x) implies ra.to_set().contains(x) by {
            let k = choose|k: int| 0 <= k < rb.len() && rb[k] == x;
            assert(pair_before(b[0], b[k + 1], falling));
            assert(b.to_set().contains(x));
            let m = choose|m: int| 0 <= m < a.len() && a[m] == x;
            assert(m != 0);
            assert(ra[m - 1] == x);
        }
        assert(ra.to_set() =~= rb.to_set());
        assert(sorted_pairs(ra, falling)) by {
            assert forall|p: int, q: int| 0 <= p < q < ra.len() implies pair_before(ra[p], ra[q], falling) by {
                assert(pair_before(a[p + 1], a[q + 1], falling));
            }
        }
        assert(sorted_pairs(rb, falling)) by {
            assert forall|p: int, q: int| 0 <= p < q < rb.len() implies pair_before(rb[p], rb[q], falling) by {
                assert(pair_before(b[p + 1], b[q + 1], falling));
            }
        }
        lemma_sorted_unique(ra, rb, falling);
        assert(a =~= seq![a[0]] + ra);
        assert(b =~= seq![b[0]] + rb);
    }
}

} // verus!
