//! Sets and maps keyed by code points: listing, copying, set algebra.
use vstd::prelude::*;
use std::collections::{HashMap, HashSet};
use vstd::std_specs::iter::IteratorSpec;

verus! {

broadcast use vstd::std_specs::hash::group_hash_axioms;

/// Lists the members of a set, each once.
pub fn set_to_vec(s: &HashSet<u32>) -> (v: Vec<u32>)
    ensures
        v@.to_set() == s@,
        v@.no_duplicates(),
        v@.len() == s@.len(),
{
    let ghost full = vstd::std_specs::hash::spec_hash_keys_iter(s).remaining().unref();
    let mut v: Vec<u32> = Vec::new();
    for x in it: s.iter()
        invariant
            v@ == it.seq().take(it.index() as int).unref(),
            it.seq().unref() == full,
            full.len() == s@.len(),
    {
        v.push(*x);
    }
    assert(v@ =~= full);
    v
}


/// Adds every member of `src` to `dst`.
pub fn add_all(dst: &mut HashSet<u32>, src: &HashSet<u32>)
    ensures
        final(dst)@ == old(dst)@ + src@,
{
    let items = set_to_vec(src);
    let mut i: usize = 0;
    while i < items.len()
        invariant
            0 <= i <= items@.len(),
            items@.to_set() == src@,
            dst@ == old(dst)@ + items@.take(i as int).to_set(),
        decreases items@.len() - i,
    {
        let x = items[i];
        dst.insert(x);
        assert(items@.take(i as int + 1) =~= items@.take(i as int).push(x));
        proof { lemma_push_to_set(items@.take(i as int), x); }
        i = i + 1;
    }
    assert(items@.take(i as int) =~= items@);
    assert(dst@ =~= old(dst)@ + src@);
}

/// A copy of a set.
pub fn copy_set(s: &HashSet<u32>) -> (r: HashSet<u32>)
    ensures
        r@ == s@,
{
    let mut r: HashSet<u32> = HashSet::new();
    add_all(&mut r, s);
    assert(r@ =~= s@);
    r
}

/// The members of `a` that are not members of `b`.
pub fn set_difference(a: &HashSet<u32>, b: &HashSet<u32>) -> (r: HashSet<u32>)
    ensures
        r@ == a@ - b@,
{
    let items = set_to_vec(a);
    let mut r: HashSet<u32> = HashSet::new();
    let mut i: usize = 0;
    while i < items.len()
        invariant
            0 <= i <= items@.len(),
            items@.to_set() == a@,
            r@ == items@.take(i as int).to_set() - b@,
        decreases items@.len() - i,
    {
        let x = items[i];
        if !b.contains(&x) {
            r.insert(x);
        }
        assert(items@.take(i as int + 1) =~= items@.take(i as int).push(x));
        proof { lemma_push_to_set(items@.take(i as int), x); }
        assert(r@ =~= items@.take(i as int + 1).to_set() - b@);
        i = i + 1;
    }
    assert(items@.take(i as int) =~= items@);
    r
}

/// The members shared by `a` and `b`.
pub fn set_intersection(a: &HashSet<u32>, b: &HashSet<u32>) -> (r: HashSet<u32>)
    ensures
        r@ == a@.intersect(b@),
{
    let items = set_to_vec(a);
    let mut r: HashSet<u32> = HashSet::new();
    let mut i: usize = 0;
    while i < items.len()
        invariant
            0 <= i <= items@.len(),
            items@.to_set() == a@,
            r@ == items@.take(i as int).to_set().intersect(b@),
        decreases items@.len() - i,
    {
        let x = items[i];
        if b.contains(&x) {
            r.insert(x);
        }
        assert(items@.take(i as int + 1) =~= items@.take(i as int).push(x));
        proof { lemma_push_to_set(items@.take(i as int), x); }
        assert(r@ =~= items@.take(i as int + 1).to_set().intersect(b@));
        i = i + 1;
    }
    assert(items@.take(i as int) =~= items@);
    r
}

/// Pushing onto a sequence adds the element to its set of members.
pub proof fn lemma_push_to_set(s: Seq<u32>, x: u32)
    ensures
        s.push(x).to_set() == s.to_set().insert(x),
{
    assert(s.push(x) =~= s + seq![x]);
    Seq::lemma_to_set_insert_commutes(s, x);
}

/// The view of a hash set is a finite set.
pub proof fn lemma_set_view_finite(s: &HashSet<u32>)
    ensures
        s@.finite(),
{
    vstd::std_specs::hash::axiom_spec_hash_keys_iter(s);
}

/// Lists the keys of a map, each once.
pub fn map_keys<V>(m: &HashMap<u32, V>) -> (v: Vec<u32>)
    ensures
        v@.to_set() == m@.dom(),
        v@.no_duplicates(),
        v@.len() == m@.dom().len(),
{
    let ghost full = vstd::std_specs::hash::spec_keys_iter(m).remaining().unref();
    let mut v: Vec<u32> = Vec::new();
    for x in it: m.keys()
        invariant
            v@ == it.seq().take(it.index() as int).unref(),
            it.seq().unref() == full,
            full.len() == m@.dom().len(),
    {
        v.push(*x);
    }
    assert(v@ =~= full);
    v
}

/// Lists the entries of a map, each once.
pub fn map_entries(m: &HashMap<u32, u64>) -> (v: Vec<(u32, u64)>)
    ensures
        forall|i: int| 0 <= i < v@.len() ==> m@.contains_key((#[trigger] v@[i]).0) && m@[v@[i].0] == v@[i].1,
        forall|k: u32| #[trigger] m@.contains_key(k) ==> v@.contains((k, m@[k])),
        crate::order::distinct_codes(v@),
{
    let keys = map_keys(m);
    let mut v: Vec<(u32, u64)> = Vec::new();
    let mut i: usize = 0;
    while i < keys.len()
        invariant
            0 <= i <= keys@.len(),
            keys@.to_set() == m@.dom(),
            keys@.no_duplicates(),
            v@.len() == i,
            forall|j: int| 0 <= j < i ==> (#[trigger] v@[j]).0 == keys@[j] && m@.contains_key(keys@[j]) && m@[keys@[j]] == v@[j].1,
        decreases keys@.len() - i,
    {
        let k = keys[i];
        assert(keys@.to_set().contains(k));
        let n: u64 = match m.get(&k) {
            Some(n) => *n,
            None => 0,
        };
        v.push((k, n));
        i = i + 1;
    }
    assert forall|k: u32| #[trigger] m@.contains_key(k) implies v@.contains((k, m@[k])) by {
        assert(keys@.to_set().contains(k));
        let j = choose|j: int| 0 <= j < keys@.len() && keys@[j] == k;
        assert(v@[j] == (k, m@[k]));
    }
    v
}

} // verus!
