use vstd::multiset::Multiset;
use vstd::prelude::*;

use crate::types::Ranking;

verus! {

/// Lexicographic order of account identifiers, by code point.
pub open spec fn lex_le(a: Seq<char>, b: Seq<char>) -> bool
    decreases a.len(),
{
    if a.len() == 0 {
        true
    } else if b.len() == 0 {
        false
    } else if a[0] as u32 != b[0] as u32 {
        (a[0] as u32) < (b[0] as u32)
    } else {
        lex_le(a.drop_first(), b.drop_first())
    }
}

/// `a` may stand before `b` in a ranking: a higher score, or an equal score
/// and an identifier that is not greater.
pub open spec fn ranks_before(a: Ranking, b: Ranking) -> bool {
    a.score > b.score || (a.score == b.score && lex_le(a.user_id@, b.user_id@))
}

/// Scores are non-increasing and equal scores have non-decreasing identifiers.
pub open spec fn ranking_sorted(r: Seq<Ranking>) -> bool {
    forall|i: int| 0 <= i < r.len() - 1 ==> ranks_before(#[trigger] r[i], r[i + 1])
}

proof fn lemma_lex_total(a: Seq<char>, b: Seq<char>)
    ensures
        lex_le(a, b) || lex_le(b, a),
    decreases a.len(),
{
    if a.len() > 0 && b.len() > 0 && a[0] as u32 == b[0] as u32 {
        lemma_lex_total(a.drop_first(), b.drop_first());
    }
}

/// Whether identifier `a` sorts at or before identifier `b`.
pub fn id_le(a: &String, b: &String) -> (r: bool)
    ensures
        r == lex_le(a@, b@),
{
    let la = a.as_str().unicode_len();
    let lb = b.as_str().unicode_len();
    let mut i: usize = 0;
    proof {
        assert(a@.skip(0) =~= a@);
        assert(b@.skip(0) =~= b@);
    }
    while i < la && i < lb
        invariant
            la == a@.len(),
            lb == b@.len(),
            0 <= i <= la,
            0 <= i <= lb,
            lex_le(a@, b@) == lex_le(a@.skip(i as int), b@.skip(i as int)),
        decreases la - i,
    {
        let ca = a.as_str().get_char(i);
        let cb = b.as_str().get_char(i);
        proof {
            assert(a@.skip(i as int)[0] == ca);
            assert(b@.skip(i as int)[0] == cb);
            assert(a@.skip(i as int).drop_first() =~= a@.skip(i + 1));
            assert(b@.skip(i as int).drop_first() =~= b@.skip(i + 1));
        }
        if ca as u32 != cb as u32 {
            return (ca as u32) < (cb as u32);
        }
        i = i + 1;
    }
    i == la
}

fn before(a: &Ranking, b: &Ranking) -> (r: bool)
    ensures
        r == ranks_before(*a, *b),
{
    a.score > b.score || (a.score == b.score && id_le(&a.user_id, &b.user_id))
}

proof fn lemma_empty_ms(s: Seq<Ranking>)
    ensures
        Seq::<Ranking>::empty().to_multiset().add(s.to_multiset()) == s.to_multiset(),
{
    broadcast use vstd::multiset::group_multiset_axioms;
    broadcast use vstd::seq_lib::group_to_multiset_ensures;

    assert(Seq::<Ranking>::empty().to_multiset() =~= Multiset::empty());
    assert(Seq::<Ranking>::empty().to_multiset().add(s.to_multiset()) =~= s.to_multiset());
}

/// Orders rankings by score, highest first, and equal scores by identifier.
pub fn sort_rankings(items: Vec<Ranking>) -> (r: Vec<Ranking>)
    ensures
        r@.len() == items@.len(),
        ranking_sorted(r@),
        forall|i: int| 0 <= i < r@.len() ==> items@.contains(#[trigger] r@[i]),
        forall|j: int| 0 <= j < items@.len() ==> r@.contains(#[trigger] items@[j]),
        r@.to_multiset() == items@.to_multiset(),
{
    broadcast use vstd::multiset::group_multiset_axioms;
    broadcast use vstd::seq_lib::group_to_multiset_ensures;

    let ghost orig = items@;
    proof {
        lemma_empty_ms(orig);
    }
    let mut items = items;
    let mut out: Vec<Ranking> = Vec::new();
    while items.len() > 0
        invariant
            out@.len() + items@.len() == orig.len(),
            ranking_sorted(out@),
            forall|i: int| 0 <= i < out@.len() ==> orig.contains(#[trigger] out@[i]),
            forall|i: int| 0 <= i < items@.len() ==> #[trigger] items@[i] == orig[i],
            forall|j: int| items@.len() <= j < orig.len() ==> out@.contains(#[trigger] orig[j]),
            out@.to_multiset().add(items@.to_multiset()) == orig.to_multiset(),
        decreases items@.len(),
    {
        let ghost i0 = items@;
        let x = items.pop().unwrap();
        proof {
            assert(i0 =~= items@.push(x));
        }
        let ghost xi = items@.len() as int;
        let mut p: usize = 0;
        while p < out.len() && before(&out[p], &x)
            invariant
                0 <= p <= out@.len(),
                forall|q: int| 0 <= q < p ==> ranks_before(#[trigger] out@[q], x),
            decreases out@.len() - p,
        {
            p = p + 1;
        }
        proof {
            if p < out@.len() {
                assert(!ranks_before(out@[p as int], x));
                lemma_lex_total(out@[p as int].user_id@, x.user_id@);
                assert(ranks_before(x, out@[p as int]));
            }
        }
        let ghost o0 = out@;
        out.insert(p, x);
        proof {
            assert(out@ == o0.insert(p as int, x));
            vstd::seq_lib::to_multiset_insert(o0, p as int, x);
            vstd::seq_lib::to_multiset_build(items@, x);
            assert(i0.to_multiset() == items@.to_multiset().insert(x));
            assert(o0.to_multiset().add(i0.to_multiset()) == orig.to_multiset());
            assert(out@.to_multiset() == o0.to_multiset().insert(x));
            assert(out@.to_multiset().add(items@.to_multiset()) =~= orig.to_multiset());
            assert(out@ == o0.insert(p as int, x));
            assert forall|i: int| 0 <= i < out@.len() - 1 implies ranks_before(#[trigger] out@[i], out@[i + 1]) by {
                if i + 1 < p {
                    assert(out@[i] == o0[i] && out@[i + 1] == o0[i + 1]);
                } else if i + 1 == p {
                    assert(out@[i] == o0[i]);
                } else if i == p {
                    assert(out@[i + 1] == o0[i]);
                } else {
                    assert(out@[i] == o0[i - 1] && out@[i + 1] == o0[i]);
                }
            }
            assert forall|i: int| 0 <= i < out@.len() implies orig.contains(#[trigger] out@[i]) by {
                if i < p {
                    assert(out@[i] == o0[i]);
                    assert(orig.contains(o0[i]));
                } else if i == p {
                    assert(out@[i] == orig[xi]);
                } else {
                    assert(out@[i] == o0[i - 1]);
                    assert(orig.contains(o0[i - 1]));
                }
            }
            assert forall|j: int| items@.len() <= j < orig.len() implies out@.contains(#[trigger] orig[j]) by {
                if j == xi {
                    assert(out@[p as int] == orig[j]);
                } else {
                    assert(o0.contains(orig[j]));
                    let i = choose|i: int| 0 <= i < o0.len() && o0[i] == orig[j];
                    if i < p {
                        assert(out@[i] == o0[i]);
                    } else {
                        assert(out@[i + 1] == o0[i]);
                    }
                }
            }
        }
    }
    proof {
        assert(items@.to_multiset().len() == 0);
        assert(items@.to_multiset() =~= Multiset::empty());
        assert(out@.to_multiset() =~= orig.to_multiset());
    }
    out
}

} // verus!
