//! Page templates as text pieces and `{{{name}}}` slots, and how filling
//! slots acts on them.
use vstd::prelude::*;
use crate::text::{fill, occurs_at, replace_all, slot};

verus! {

/// `s` holds no brace.
pub open spec fn brace_free(s: Seq<char>) -> bool {
    !s.contains('{') && !s.contains('}')
}

/// The text of a template piece: `(true, name)` is the slot `{{{name}}}`,
/// `(false, text)` is the text itself.
pub open spec fn piece_text(p: (bool, Seq<char>)) -> Seq<char> {
    if p.0 {
        slot(p.1)
    } else {
        p.1
    }
}

/// The template made of `pieces`, in order.
pub open spec fn render(pieces: Seq<(bool, Seq<char>)>) -> Seq<char> {
    pieces.map_values(|p: (bool, Seq<char>)| piece_text(p)).flatten()
}

/// No piece holds a brace of its own: braces occur only as the marks of
/// slots.
pub open spec fn pieces_ok(pieces: Seq<(bool, Seq<char>)>) -> bool {
    forall|i: int| 0 <= i < pieces.len() ==> brace_free(#[trigger] pieces[i].1)
}

/// The pieces with every slot `name` turned into the text `v`.
pub open spec fn fill_pieces(pieces: Seq<(bool, Seq<char>)>, name: Seq<char>, v: Seq<char>) -> Seq<(bool, Seq<char>)> {
    pieces.map_values(|p: (bool, Seq<char>)| if p.0 && p.1 == name { (false, v) } else { p })
}

/// Replacing in text where the pattern never occurs changes nothing.
proof fn lemma_replace_none(s: Seq<char>, pat: Seq<char>, rep: Seq<char>)
    requires
        pat.len() > 0,
        forall|i: int| !occurs_at(s, pat, i),
    ensures
        replace_all(s, pat, rep) == s,
    decreases s.len(),
{
    if s.len() >= pat.len() {
        assert(!occurs_at(s, pat, 0));
        assert(s.take(pat.len() as int) =~= s.subrange(0, pat.len() as int));
        let t = s.skip(1);
        assert forall|i: int| !occurs_at(t, pat, i) by {
            if occurs_at(t, pat, i) {
                assert(t.subrange(i, i + pat.len()) =~= s.subrange(i + 1, i + 1 + pat.len()));
                assert(occurs_at(s, pat, i + 1));
            }
        }
        lemma_replace_none(t, pat, rep);
        assert(seq![s[0]] + t =~= s);
    }
}

/// Replacing in `a + b` is replacing in each, when no occurrence starts in
/// `a` and runs past its end.
proof fn lemma_replace_concat(a: Seq<char>, b: Seq<char>, pat: Seq<char>, rep: Seq<char>)
    requires
        pat.len() > 0,
        forall|i: int| 0 <= i < a.len() && i + pat.len() > a.len() ==> !occurs_at(a + b, pat, i),
    ensures
        replace_all(a + b, pat, rep) == replace_all(a, pat, rep) + replace_all(b, pat, rep),
    decreases a.len(),
{
    let s = a + b;
    let p = pat.len();
    if a.len() == 0 {
        assert(s =~= b);
        assert(replace_all(a, pat, rep) =~= Seq::<char>::empty());
        assert(Seq::<char>::empty() + replace_all(b, pat, rep) =~= replace_all(b, pat, rep));
    } else if s.len() < p {
        assert(replace_all(a, pat, rep) == a);
        assert(replace_all(b, pat, rep) == b);
    } else if s.take(p as int) == pat {
        assert(s.subrange(0, p as int) =~= s.take(p as int));
        assert(occurs_at(s, pat, 0));
        assert(p <= a.len());
        assert(a.take(p as int) =~= s.take(p as int));
        let a2 = a.skip(p as int);
        assert(s.skip(p as int) =~= a2 + b);
        assert forall|i: int| 0 <= i < a2.len() && i + p > a2.len() implies !occurs_at(a2 + b, pat, i) by {
            if occurs_at(a2 + b, pat, i) {
                assert((a2 + b).subrange(i, i + p) =~= s.subrange(i + p, i + p + p));
                assert(occurs_at(s, pat, i + p));
            }
        }
        lemma_replace_concat(a2, b, pat, rep);
        assert(rep + (replace_all(a2, pat, rep) + replace_all(b, pat, rep)) =~= (rep + replace_all(a2, pat, rep))
            + replace_all(b, pat, rep));
    } else {
        let a2 = a.skip(1);
        assert(s.skip(1) =~= a2 + b);
        if a.len() < p {
            assert(replace_all(a, pat, rep) == a);
            assert(replace_all(a2, pat, rep) == a2);
            assert(seq![a[0]] + a2 =~= a);
        } else {
            assert(a.take(p as int) =~= s.take(p as int));
        }
        assert(replace_all(a, pat, rep) == seq![a[0]] + replace_all(a2, pat, rep));
        assert forall|i: int| 0 <= i < a2.len() && i + p > a2.len() implies !occurs_at(a2 + b, pat, i) by {
            if occurs_at(a2 + b, pat, i) {
                assert((a2 + b).subrange(i, i + p) =~= s.subrange(i + 1, i + 1 + p));
                assert(occurs_at(s, pat, i + 1));
            }
        }
        lemma_replace_concat(a2, b, pat, rep);
        assert(s[0] == a[0]);
        assert(seq![a[0]] + (replace_all(a2, pat, rep) + replace_all(b, pat, rep)) =~= (seq![a[0]]
            + replace_all(a2, pat, rep)) + replace_all(b, pat, rep));
    }
}

/// A slot `{{{n}}}` occurs in `piece_text(p) + b` at a position inside the
/// piece only where the piece is that very slot, starting at its start.
proof fn lemma_slot_occurrence(p: (bool, Seq<char>), b: Seq<char>, n: Seq<char>, i: int)
    requires
        brace_free(p.1),
        brace_free(n),
        0 <= i < piece_text(p).len(),
        occurs_at(piece_text(p) + b, slot(n), i),
    ensures
        p.0 && p.1 == n && i == 0,
{
    let a = piece_text(p);
    let s = a + b;
    let pat = slot(n);
    assert(s.subrange(i, i + pat.len())[0] == pat[0]);
    assert(s[i] == '{');
    assert(a[i] == '{');
    if !p.0 {
        assert(p.1.contains('{'));
    } else {
        let x = p.1;
        if i >= 3 {
            if i < 3 + x.len() {
                assert(x[i - 3] == '{');
                assert(x.contains('{'));
            }
        } else if i > 0 {
            assert(s.subrange(i, i + pat.len())[3 - i] == pat[3 - i]);
            assert(s[3] == '{');
            if x.len() > 0 {
                assert(x[0] == '{');
                assert(x.contains('{'));
            }
        } else {
            if n.len() > x.len() {
                assert(s.subrange(0, pat.len() as int)[3 + x.len() as int] == pat[3 + x.len() as int]);
                assert(n[x.len() as int] == '}');
                assert(n.contains('}'));
            } else if n.len() < x.len() {
                assert(s.subrange(0, pat.len() as int)[3 + n.len() as int] == pat[3 + n.len() as int]);
                assert(x[n.len() as int] == '}');
                assert(x.contains('}'));
            } else {
                assert forall|k: int| 0 <= k < n.len() implies x[k] == n[k] by {
                    assert(s.subrange(0, pat.len() as int)[3 + k] == pat[3 + k]);
                }
                assert(x =~= n);
            }
        }
    }
}

/// Filling the slot `name` in a template acts piece by piece.
proof fn lemma_fill_pieces(pieces: Seq<(bool, Seq<char>)>, name: Seq<char>, v: Seq<char>)
    requires
        pieces_ok(pieces),
        brace_free(name),
    ensures
        fill(render(pieces), name, v) == render(fill_pieces(pieces, name, v)),
    decreases pieces.len(),
{
    let pat = slot(name);
    let texts = pieces.map_values(|p: (bool, Seq<char>)| piece_text(p));
    let filled = fill_pieces(pieces, name, v);
    let ftexts = filled.map_values(|p: (bool, Seq<char>)| piece_text(p));
    if pieces.len() == 0 {
        assert(texts =~= Seq::<Seq<char>>::empty());
        assert(ftexts =~= Seq::<Seq<char>>::empty());
        assert(render(pieces) =~= Seq::<char>::empty());
        assert(render(filled) =~= Seq::<char>::empty());
    } else {
        let p0 = pieces[0];
        let rest = pieces.drop_first();
        assert(brace_free(pieces[0].1));
        assert(pieces_ok(rest)) by {
            assert forall|i: int| 0 <= i < rest.len() implies brace_free(#[trigger] rest[i].1) by {
                assert(rest[i] == pieces[i + 1]);
                assert(brace_free(pieces[i + 1].1));
            }
        }
        assert(texts.drop_first() =~= rest.map_values(|p: (bool, Seq<char>)| piece_text(p)));
        assert(texts.first() == piece_text(p0));
        assert(render(pieces) == piece_text(p0) + render(rest));
        assert(filled.drop_first() =~= fill_pieces(rest, name, v));
        assert(ftexts.drop_first() =~= fill_pieces(rest, name, v).map_values(|p: (bool, Seq<char>)| piece_text(p)));
        assert(render(filled) == piece_text(filled[0]) + render(fill_pieces(rest, name, v)));
        let a = piece_text(p0);
        let b = render(rest);
        assert forall|i: int| 0 <= i < a.len() && i + pat.len() > a.len() implies !occurs_at(a + b, pat, i) by {
            if occurs_at(a + b, pat, i) {
                lemma_slot_occurrence(p0, b, name, i);
            }
        }
        lemma_replace_concat(a, b, pat, v);
        lemma_fill_pieces(rest, name, v);
        if p0.0 && p0.1 == name {
            assert(a == pat);
            assert(a.take(pat.len() as int) =~= pat);
            assert(a.skip(pat.len() as int) =~= Seq::<char>::empty());
            assert(replace_all(Seq::<char>::empty(), pat, v) == Seq::<char>::empty());
            assert(replace_all(a, pat, v) == v + replace_all(a.skip(pat.len() as int), pat, v));
            assert(v + Seq::<char>::empty() =~= v);
        } else {
            assert forall|i: int| !occurs_at(a, pat, i) by {
                if occurs_at(a, pat, i) {
                    assert(a + Seq::<char>::empty() =~= a);
                    lemma_slot_occurrence(p0, Seq::<char>::empty(), name, i);
                }
            }
            lemma_replace_none(a, pat, v);
        }
    }
}

/// Filling a slot of a template with text holding no braces acts piece
/// by piece, and leaves a template whose pieces still hold no braces.
pub proof fn lemma_fill_step(pieces: Seq<(bool, Seq<char>)>, name: Seq<char>, v: Seq<char>)
    requires
        pieces_ok(pieces),
        brace_free(name),
        brace_free(v),
    ensures
        fill(render(pieces), name, v) == render(fill_pieces(pieces, name, v)),
        pieces_ok(fill_pieces(pieces, name, v)),
{
    lemma_fill_pieces(pieces, name, v);
    let f = fill_pieces(pieces, name, v);
    assert forall|i: int| 0 <= i < f.len() implies brace_free(#[trigger] f[i].1) by {
        assert(brace_free(pieces[i].1));
    }
}

} // verus!
