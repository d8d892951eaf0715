use vstd::prelude::*;

use crate::matrix::{
    has_self_loop, is_covered, pair_weight, row_weight, same_pair, total_weight, covers,
    LocalTrustMatrix,
};
use crate::propagate::{
    bounded, contribution, contribution_term, distance, edges_within, mass, run, step,
};
use crate::matrix::{
    distinct_accounts, edge_sum, lemma_edge_sum_ext, lemma_edge_sum_zero, row_sum, Edge,
};
use crate::propagate::{shares, Propagation};
use crate::seed::SeedVector;
use crate::types::{interaction_weight, Interaction, StrategyConfig, Termination, SCALE};

verus! {

proof fn lemma_remove_one(s: Seq<Interaction>, c: StrategyConfig, f: Seq<char>, t: Seq<char>, j: int)
    requires
        0 <= j < s.len(),
    ensures
        pair_weight(s, c, f, t) == pair_weight(s.remove(j), c, f, t) + if same_pair(s[j], f, t) {
            interaction_weight(s[j], c)
        } else {
            0
        },
        row_weight(s, c, f) == row_weight(s.remove(j), c, f) + if s[j].follower@ == f {
            interaction_weight(s[j], c)
        } else {
            0
        },
        total_weight(s, c) == total_weight(s.remove(j), c) + interaction_weight(s[j], c),
    decreases s.len(),
{
    if j == s.len() - 1 {
        assert(s.remove(j) =~= s.drop_last());
    } else {
        lemma_remove_one(s.drop_last(), c, f, t, j);
        assert(s.remove(j).drop_last() =~= s.drop_last().remove(j));
        assert(s.remove(j).last() == s.last());
    }
}

proof fn lemma_weights_permutation(
    s1: Seq<Interaction>,
    s2: Seq<Interaction>,
    c: StrategyConfig,
    f: Seq<char>,
    t: Seq<char>,
)
    requires
        s1.to_multiset() == s2.to_multiset(),
    ensures
        pair_weight(s1, c, f, t) == pair_weight(s2, c, f, t),
        row_weight(s1, c, f) == row_weight(s2, c, f),
        total_weight(s1, c) == total_weight(s2, c),
    decreases s1.len(),
{
    vstd::seq_lib::to_multiset_len(s1);
    vstd::seq_lib::to_multiset_len(s2);
    if s1.len() > 0 {
        let j1 = s1.len() - 1;
        let x = s1[j1];
        assert(s1.contains(x));
        vstd::seq_lib::to_multiset_contains(s1, x);
        vstd::seq_lib::to_multiset_contains(s2, x);
        let j2 = choose|j: int| 0 <= j < s2.len() && s2[j] == x;
        vstd::seq_lib::to_multiset_remove(s1, j1);
        vstd::seq_lib::to_multiset_remove(s2, j2);
        lemma_weights_permutation(s1.remove(j1), s2.remove(j2), c, f, t);
        lemma_remove_one(s1, c, f, t, j1);
        lemma_remove_one(s2, c, f, t, j2);
    }
}

proof fn lemma_self_loop_permutation(s1: Seq<Interaction>, s2: Seq<Interaction>)
    requires
        s1.to_multiset() == s2.to_multiset(),
    ensures
        has_self_loop(s1) ==> has_self_loop(s2),
{
    if has_self_loop(s1) {
        let i = choose|i: int| 0 <= i < s1.len() && s1[i].follower@ == s1[i].follows@;
        assert(s1.contains(s1[i]));
        vstd::seq_lib::to_multiset_contains(s1, s1[i]);
        vstd::seq_lib::to_multiset_contains(s2, s1[i]);
        let j = choose|j: int| 0 <= j < s2.len() && s2[j] == s1[i];
        assert(s2[j].follower@ == s2[j].follows@);
    }
}

proof fn lemma_pair_present(s: Seq<Interaction>, c: StrategyConfig, f: Seq<char>, t: Seq<char>)
    requires
        pair_weight(s, c, f, t) != 0,
    ensures
        exists|j: int| 0 <= j < s.len() && same_pair(#[trigger] s[j], f, t),
    decreases s.len(),
{
    if s.len() > 0 && !same_pair(s.last(), f, t) {
        lemma_pair_present(s.drop_last(), c, f, t);
        let j = choose|j: int| 0 <= j < s.len() - 1 && same_pair(#[trigger] s.drop_last()[j], f, t);
        assert(s.drop_last()[j] == s[j]);
    } else if s.len() > 0 {
        assert(same_pair(s[s.len() - 1], f, t));
    }
}

/// Reordering the interactions does not change what the matrix is built
/// from: self-loops, the whole weight, and the weight of every pair and every
/// row are the same. So two matrices built from reorderings of one sequence
/// hold the same pairs, each with the same weight and row total, that is the
/// same normalized trust.
pub proof fn lemma_build_matrix_order_independent(
    s1: Seq<Interaction>,
    s2: Seq<Interaction>,
    c: StrategyConfig,
    m1: LocalTrustMatrix,
    m2: LocalTrustMatrix,
)
    requires
        s1.to_multiset() == s2.to_multiset(),
        m1.built_from(s1, c),
        m2.built_from(s2, c),
    ensures
        has_self_loop(s1) == has_self_loop(s2),
        total_weight(s1, c) == total_weight(s2, c),
        forall|f: Seq<char>, t: Seq<char>|
            #[trigger] pair_weight(s1, c, f, t) == pair_weight(s2, c, f, t),
        forall|f: Seq<char>| #[trigger] row_weight(s1, c, f) == row_weight(s2, c, f),
        forall|k1: int|
            0 <= k1 < m1.edges@.len() ==> exists|k2: int|
                0 <= k2 < m2.edges@.len() && m2.account(m2.edges@[k2].from as int) == m1.account(
                    #[trigger] m1.edges@[k1].from as int,
                ) && m2.account(m2.edges@[k2].to as int) == m1.account(m1.edges@[k1].to as int)
                    && m2.edges@[k2].weight == m1.edges@[k1].weight && m2.edges@[k2].total
                    == m1.edges@[k1].total,
{
    lemma_self_loop_permutation(s1, s2);
    lemma_self_loop_permutation(s2, s1);
    lemma_weights_permutation(s1, s2, c, Seq::empty(), Seq::empty());
    assert forall|f: Seq<char>, t: Seq<char>| #[trigger] pair_weight(s1, c, f, t) == pair_weight(s2, c, f, t) by {
        lemma_weights_permutation(s1, s2, c, f, t);
    }
    assert forall|f: Seq<char>| #[trigger] row_weight(s1, c, f) == row_weight(s2, c, f) by {
        lemma_weights_permutation(s1, s2, c, f, f);
    }
    assert forall|k1: int| 0 <= k1 < m1.edges@.len() implies exists|k2: int|
        0 <= k2 < m2.edges@.len() && m2.account(m2.edges@[k2].from as int) == m1.account(
            #[trigger] m1.edges@[k1].from as int,
        ) && m2.account(m2.edges@[k2].to as int) == m1.account(m1.edges@[k1].to as int)
            && m2.edges@[k2].weight == m1.edges@[k1].weight && m2.edges@[k2].total
            == m1.edges@[k1].total by {
        let e = m1.edges@[k1];
        let f = m1.account(e.from as int);
        let t = m1.account(e.to as int);
        lemma_weights_permutation(s1, s2, c, f, t);
        lemma_pair_present(s2, c, f, t);
        let j = choose|j: int| 0 <= j < s2.len() && same_pair(#[trigger] s2[j], f, t);
        assert(is_covered(m2.accounts@, m2.edges@, s2[j]));
        let k2 = choose|k2: int| 0 <= k2 < m2.edges@.len() && #[trigger] covers(m2.accounts@, m2.edges@[k2], s2[j]);
        assert(m2.edges@[k2].weight == pair_weight(s2, c, f, t));
    }
}

proof fn lemma_contribution_nonnegative(edges: Seq<Edge>, scores: Seq<u64>, x: int)
    requires
        edges_within(edges, scores.len() as int),
    ensures
        contribution(edges, scores, x) >= 0,
    decreases edges.len(),
{
    if edges.len() > 0 {
        lemma_contribution_nonnegative(edges.drop_last(), scores, x);
        let e = edges.last();
        assert(edges[edges.len() - 1] == e);
        let v = scores[e.from as int] * e.weight;
        assert(v >= 0) by (nonlinear_arith)
            requires v == scores[e.from as int] * e.weight;
        assert(contribution_term(scores, x, e) >= 0) by (nonlinear_arith)
            requires e.total > 0, v >= 0, contribution_term(scores, x, e) == if e.to == x { v / (e.total as int) } else { 0 };
    }
}

/// Every account keeps at least `damping` times its seed share, rounded up,
/// however many iterations run.
proof fn lemma_seed_floor(
    edges: Seq<Edge>,
    seeds: Seq<u64>,
    damping: u64,
    scores: Seq<u64>,
    k: nat,
    tolerance: u64,
)
    requires
        seeds.len() == scores.len(),
        edges_within(edges, scores.len() as int),
        bounded(seeds),
        damping < SCALE,
        forall|x: int| 0 <= x < scores.len() ==> #[trigger] scores[x] >= (damping * seeds[x] + SCALE - 1) / (SCALE as int),
    ensures
        run(edges, seeds, damping, scores, k, tolerance).0.len() == scores.len(),
        forall|x: int|
            0 <= x < scores.len() ==> #[trigger] run(edges, seeds, damping, scores, k, tolerance).0[x]
                >= (damping * seeds[x] + SCALE - 1) / (SCALE as int),
    decreases k,
{
    if k > 0 {
        let next = step(edges, seeds, damping, scores);
        assert forall|x: int| 0 <= x < next.len() implies #[trigger] next[x] >= (damping * seeds[x] + SCALE - 1) / (SCALE as int) by {
            lemma_contribution_nonnegative(edges, scores, x);
            let c = contribution(edges, scores, x);
            assert((SCALE - damping) * c >= 0) by (nonlinear_arith)
                requires damping < SCALE, c >= 0;
            assert(((SCALE - damping) * c) / (SCALE as int) >= 0) by (nonlinear_arith)
                requires (SCALE - damping) * c >= 0;
            assert(damping * seeds[x] + SCALE - 1 < (SCALE + 1) * SCALE) by (nonlinear_arith)
                requires damping < SCALE, seeds[x] <= SCALE;
            assert((damping * seeds[x] + SCALE - 1) / (SCALE as int) <= SCALE) by (nonlinear_arith)
                requires damping * seeds[x] + SCALE - 1 < (SCALE + 1) * SCALE;
            assert((damping * seeds[x] + SCALE - 1) / (SCALE as int) >= 0) by (nonlinear_arith)
                requires damping >= 0, seeds[x] >= 0;
        }
        lemma_seed_floor(edges, seeds, damping, next, (k - 1) as nat, tolerance);
    }
}

spec fn xsum(n: nat, h: spec_fn(int) -> int) -> int
    decreases n,
{
    if n == 0 {
        0
    } else {
        xsum((n - 1) as nat, h) + h(n - 1)
    }
}

proof fn lemma_xsum_le(n: nat, h1: spec_fn(int) -> int, h2: spec_fn(int) -> int)
    requires
        forall|x: int| 0 <= x < n ==> #[trigger] h1(x) <= h2(x),
    ensures
        xsum(n, h1) <= xsum(n, h2),
    decreases n,
{
    if n > 0 {
        lemma_xsum_le((n - 1) as nat, h1, h2);
    }
}

proof fn lemma_xsum_add(n: nat, h1: spec_fn(int) -> int, h2: spec_fn(int) -> int, h3: spec_fn(int) -> int)
    requires
        forall|x: int| 0 <= x < n ==> #[trigger] h3(x) == h1(x) + h2(x),
    ensures
        xsum(n, h3) == xsum(n, h1) + xsum(n, h2),
    decreases n,
{
    if n > 0 {
        lemma_xsum_add((n - 1) as nat, h1, h2, h3);
    }
}

proof fn lemma_xsum_scale(n: nat, h: spec_fn(int) -> int, c: int, h2: spec_fn(int) -> int)
    requires
        forall|x: int| 0 <= x < n ==> #[trigger] h2(x) == c * h(x),
    ensures
        xsum(n, h2) == c * xsum(n, h),
    decreases n,
{
    if n > 0 {
        lemma_xsum_scale((n - 1) as nat, h, c, h2);
        let a = xsum((n - 1) as nat, h);
        assert(c * a + c * h(n - 1) == c * (a + h(n - 1))) by (nonlinear_arith);
    }
}

proof fn lemma_xsum_single(n: nat, h: spec_fn(int) -> int, y: int)
    requires
        0 <= y < n,
        forall|x: int| 0 <= x < n && x != y ==> #[trigger] h(x) == 0,
    ensures
        xsum(n, h) == h(y),
    decreases n,
{
    if y == n - 1 {
        lemma_xsum_zero((n - 1) as nat, h);
    } else {
        lemma_xsum_single((n - 1) as nat, h, y);
    }
}

proof fn lemma_xsum_zero(n: nat, h: spec_fn(int) -> int)
    requires
        forall|x: int| 0 <= x < n ==> #[trigger] h(x) == 0,
    ensures
        xsum(n, h) == 0,
    decreases n,
{
    if n > 0 {
        lemma_xsum_zero((n - 1) as nat, h);
    }
}

proof fn lemma_mass_xsum(v: Seq<u64>)
    ensures
        mass(v) == xsum(v.len(), |x: int| v[x] as int),
    decreases v.len(),
{
    if v.len() > 0 {
        let p = v.drop_last();
        lemma_mass_xsum(p);
        lemma_xsum_ext(p.len(), |x: int| p[x] as int, |x: int| v[x] as int);
    }
}

proof fn lemma_xsum_ext(n: nat, h1: spec_fn(int) -> int, h2: spec_fn(int) -> int)
    requires
        forall|x: int| 0 <= x < n ==> #[trigger] h1(x) == h2(x),
    ensures
        xsum(n, h1) == xsum(n, h2),
    decreases n,
{
    if n > 0 {
        lemma_xsum_ext((n - 1) as nat, h1, h2);
    }
}

proof fn lemma_edge_sum_le(es: Seq<Edge>, g1: spec_fn(Edge) -> int, g2: spec_fn(Edge) -> int)
    requires
        forall|k: int| 0 <= k < es.len() ==> g1(#[trigger] es[k]) <= g2(es[k]),
    ensures
        edge_sum(es, g1) <= edge_sum(es, g2),
    decreases es.len(),
{
    if es.len() > 0 {
        lemma_edge_sum_le(es.drop_last(), g1, g2);
    }
}

proof fn lemma_edge_sum_scale(es: Seq<Edge>, g: spec_fn(Edge) -> int, c: int, g2: spec_fn(Edge) -> int)
    requires
        forall|k: int| 0 <= k < es.len() ==> g2(#[trigger] es[k]) == c * g(es[k]),
    ensures
        edge_sum(es, g2) == c * edge_sum(es, g),
    decreases es.len(),
{
    if es.len() > 0 {
        lemma_edge_sum_scale(es.drop_last(), g, c, g2);
        let a = edge_sum(es.drop_last(), g);
        assert(c * a + c * g(es.last()) == c * (a + g(es.last()))) by (nonlinear_arith);
    }
}

/// Summing over accounts and over edges commute.
proof fn lemma_swap(es: Seq<Edge>, n: nat, f: spec_fn(int, Edge) -> int)
    ensures
        xsum(n, |x: int| edge_sum(es, |e: Edge| f(x, e))) == edge_sum(
            es,
            |e: Edge| xsum(n, |x: int| f(x, e)),
        ),
    decreases es.len(),
{
    if es.len() == 0 {
        lemma_xsum_zero(n, |x: int| edge_sum(es, |e: Edge| f(x, e)));
    } else {
        let p = es.drop_last();
        let l = es.last();
        lemma_swap(p, n, f);
        lemma_xsum_add(
            n,
            |x: int| edge_sum(p, |e: Edge| f(x, e)),
            |x: int| f(x, l),
            |x: int| edge_sum(es, |e: Edge| f(x, e)),
        );
    }
}

spec fn full_term(scores: Seq<u64>, e: Edge) -> int {
    (scores[e.from as int] * e.weight) / (e.total as int)
}

/// What the edges leaving `a` hand on is at most `a`'s score.
proof fn lemma_row_hands_on(m: LocalTrustMatrix, scores: Seq<u64>, a: int)
    requires
        m.wf(),
        m.row_stochastic(),
        edges_within(m.edges@, scores.len() as int),
        0 <= a < scores.len(),
    ensures
        edge_sum(m.edges@, |e: Edge| if e.from == a { full_term(scores, e) } else { 0 })
            <= scores[a],
{
    let es = m.edges@;
    let g = |e: Edge| if e.from == a { full_term(scores, e) } else { 0 };
    if exists|k: int| 0 <= k < es.len() && #[trigger] es[k].from == a {
        let k0 = choose|k: int| 0 <= k < es.len() && #[trigger] es[k].from == a;
        let t = es[k0].total as int;
        let sa = scores[a] as int;
        assert(t > 0);
        let tg = |e: Edge| if e.from == a { t * full_term(scores, e) } else { 0 };
        let sw = |e: Edge| if e.from == a { sa * e.weight } else { 0 };
        let w = |e: Edge| if e.from == a { e.weight as int } else { 0 };
        assert forall|k: int| 0 <= k < es.len() implies tg(#[trigger] es[k]) <= sw(es[k]) by {
            if es[k].from == a {
                assert(row_sum(es, es[k].from) == es[k].total);
                assert(row_sum(es, es[k0].from) == es[k0].total);
                let v = sa * es[k].weight;
                assert(t * (v / t) <= v) by (nonlinear_arith)
                    requires t > 0, v >= 0;
                assert(v >= 0) by (nonlinear_arith)
                    requires sa >= 0, es[k].weight >= 0, v == sa * es[k].weight;
            }
        }
        lemma_edge_sum_le(es, tg, sw);
        lemma_edge_sum_scale(es, g, t, tg);
        lemma_edge_sum_scale(es, w, sa, sw);
        assert(edge_sum(es, w) == t) by {
            assert(row_sum(es, es[k0].from) == es[k0].total);
            lemma_edge_sum_ext(es, w, |e: Edge| if e.from == es[k0].from { e.weight as int } else { 0 });
        }
        assert(t * edge_sum(es, g) <= sa * t);
        assert(edge_sum(es, g) <= sa) by (nonlinear_arith)
            requires t * edge_sum(es, g) <= sa * t, t > 0;
    } else {
        lemma_edge_sum_zero(es, g);
    }
}

/// All that one iteration propagates is at most the mass it starts from.
proof fn lemma_contributions_bounded(m: LocalTrustMatrix, scores: Seq<u64>)
    requires
        m.wf(),
        m.row_stochastic(),
        edges_within(m.edges@, scores.len() as int),
    ensures
        xsum(scores.len(), |x: int| contribution(m.edges@, scores, x)) <= mass(scores),
{
    let es = m.edges@;
    let n = scores.len();
    let f1 = |x: int, e: Edge| contribution_term(scores, x, e);
    lemma_swap(es, n, f1);
    assert forall|k: int| 0 <= k < es.len() implies xsum(n, |x: int| f1(x, #[trigger] es[k]))
        == full_term(scores, es[k]) by {
        lemma_xsum_single(n, |x: int| f1(x, es[k]), es[k].to as int);
    }
    let c1 = |x: int| contribution(es, scores, x);
    let c2 = |x: int| edge_sum(es, |e: Edge| f1(x, e));
    assert forall|x: int| 0 <= x < n implies #[trigger] c1(x) == c2(x) by {
        lemma_edge_sum_ext(es, |e: Edge| contribution_term(scores, x, e), |e: Edge| f1(x, e));
    }
    lemma_xsum_ext(n, c1, c2);
    lemma_edge_sum_ext(es, |e: Edge| xsum(n, |x: int| f1(x, e)), |e: Edge| full_term(scores, e));
    let f2 = |a: int, e: Edge| if e.from == a { full_term(scores, e) } else { 0 };
    lemma_swap(es, n, f2);
    assert forall|k: int| 0 <= k < es.len() implies xsum(n, |a: int| f2(a, #[trigger] es[k]))
        == full_term(scores, es[k]) by {
        lemma_xsum_single(n, |a: int| f2(a, es[k]), es[k].from as int);
    }
    lemma_edge_sum_ext(es, |e: Edge| xsum(n, |a: int| f2(a, e)), |e: Edge| full_term(scores, e));
    let h1 = |a: int| edge_sum(es, |e: Edge| f2(a, e));
    let h2 = |a: int| scores[a] as int;
    assert forall|a: int| 0 <= a < n implies #[trigger] h1(a) <= h2(a) by {
        lemma_row_hands_on(m, scores, a);
        lemma_edge_sum_ext(es, |e: Edge| f2(a, e), |e: Edge| if e.from == a { full_term(scores, e) } else { 0 });
    }
    lemma_xsum_le(n, h1, h2);
    lemma_mass_xsum(scores);
    assert(xsum(n, |x: int| contribution(es, scores, x)) == xsum(n, |x: int| edge_sum(es, |e: Edge| f1(x, e))));
    assert(xsum(n, |x: int| edge_sum(es, |e: Edge| f1(x, e))) == edge_sum(es, |e: Edge| xsum(n, |x: int| f1(x, e))));
    assert(edge_sum(es, |e: Edge| xsum(n, |x: int| f1(x, e))) == edge_sum(es, |e: Edge| full_term(scores, e)));
    assert(edge_sum(es, |e: Edge| full_term(scores, e)) == edge_sum(es, |e: Edge| xsum(n, |a: int| f2(a, e))));
    assert(edge_sum(es, |e: Edge| xsum(n, |a: int| f2(a, e))) == xsum(n, h1));
    assert(xsum(n, h2) == mass(scores));
}

proof fn lemma_xsum_const(n: nat, c: int, h: spec_fn(int) -> int)
    requires
        forall|x: int| 0 <= x < n ==> #[trigger] h(x) == c,
    ensures
        xsum(n, h) == c * n,
    decreases n,
{
    if n > 0 {
        lemma_xsum_const((n - 1) as nat, c, h);
        assert(c * (n - 1) + c == c * n) by (nonlinear_arith);
    } else {
        assert(c * n == 0) by (nonlinear_arith)
            requires n == 0;
    }
}

/// One iteration moves mass by at most rounding: with a row-stochastic
/// matrix, the new mass is at most the old one weighted by
/// `SCALE - damping`, plus the seed mass weighted by `damping`, plus one unit
/// per account for rounding the seed term up (all times `SCALE`).
pub proof fn lemma_mass_one_step(
    m: LocalTrustMatrix,
    seeds: Seq<u64>,
    damping: u64,
    scores: Seq<u64>,
)
    requires
        m.wf(),
        m.row_stochastic(),
        edges_within(m.edges@, scores.len() as int),
        seeds.len() == scores.len(),
        damping <= SCALE,
    ensures
        SCALE * mass(step(m.edges@, seeds, damping, scores)) <= (SCALE - damping) * mass(scores)
            + damping * mass(seeds) + SCALE * scores.len(),
{
    let es = m.edges@;
    let n = scores.len();
    let next = step(es, seeds, damping, scores);
    let sd = (SCALE - damping) as int;
    let c = |x: int| contribution(es, scores, x);
    let h0 = |x: int| sd * contribution(es, scores, x) + damping * seeds[x];
    let h = |x: int| sd * contribution(es, scores, x) + damping * seeds[x] + SCALE;
    assert forall|x: int| 0 <= x < n implies #[trigger] (SCALE * next[x]) <= h(x) by {
        let cx = contribution(es, scores, x);
        lemma_contribution_nonnegative(es, scores, x);
        let aa = sd * cx;
        let bb = damping * seeds[x];
        assert(aa >= 0 && bb >= 0) by (nonlinear_arith)
            requires sd >= 0, cx >= 0, damping >= 0, seeds[x] >= 0, aa == sd * cx, bb == damping * seeds[x];
        assert(SCALE * (aa / (SCALE as int) + (bb + SCALE - 1) / (SCALE as int)) <= aa + bb + SCALE) by (nonlinear_arith)
            requires aa >= 0, bb >= 0;
        assert(SCALE * next[x] <= SCALE * (aa / (SCALE as int) + (bb + SCALE - 1) / (SCALE as int))) by (nonlinear_arith)
            requires next[x] <= aa / (SCALE as int) + (bb + SCALE - 1) / (SCALE as int);
    }
    lemma_xsum_le(n, |x: int| SCALE * next[x], h);
    lemma_xsum_scale(n, |x: int| next[x] as int, SCALE as int, |x: int| SCALE * next[x]);
    lemma_xsum_add(n, h0, |x: int| SCALE as int, h);
    lemma_xsum_const(n, SCALE as int, |x: int| SCALE as int);
    lemma_xsum_add(n, |x: int| sd * contribution(es, scores, x), |x: int| damping * seeds[x], h0);
    lemma_xsum_scale(n, c, sd, |x: int| sd * contribution(es, scores, x));
    lemma_xsum_scale(n, |x: int| seeds[x] as int, damping as int, |x: int| damping * seeds[x]);
    lemma_mass_xsum(next);
    lemma_mass_xsum(seeds);
    lemma_contributions_bounded(m, scores);
    let cs = xsum(n, c);
    assert(SCALE * mass(next) <= sd * cs + damping * mass(seeds) + SCALE * n);
    assert(sd * cs <= sd * mass(scores)) by (nonlinear_arith)
        requires cs <= mass(scores), sd >= 0;
}

/// The mass drift of a whole run stays bounded: starting from scores of mass
/// at most `SCALE + n` with seed shares of mass at most `SCALE + n` (`n`
/// accounts), every run ends with
/// `damping * mass <= damping * (SCALE + n) + SCALE * n`, that is at most
/// `n * (1 + SCALE / damping)` units above one.
pub proof fn lemma_run_mass_bounded(
    m: LocalTrustMatrix,
    seeds: Seq<u64>,
    damping: u64,
    scores: Seq<u64>,
    k: nat,
    tolerance: u64,
)
    requires
        m.wf(),
        m.row_stochastic(),
        edges_within(m.edges@, scores.len() as int),
        seeds.len() == scores.len(),
        0 < damping <= SCALE,
        damping * mass(scores) <= damping * (SCALE + scores.len()) + SCALE * scores.len(),
        mass(seeds) <= SCALE + scores.len(),
    ensures
        run(m.edges@, seeds, damping, scores, k, tolerance).0.len() == scores.len(),
        damping * mass(run(m.edges@, seeds, damping, scores, k, tolerance).0) <= damping * (SCALE
            + scores.len()) + SCALE * scores.len(),
    decreases k,
{
    if k > 0 {
        let n = scores.len() as int;
        let d = damping as int;
        let sc = SCALE as int;
        lemma_mass_one_step(m, seeds, damping, scores);
        let next = step(m.edges@, seeds, damping, scores);
        let mo = mass(scores);
        let mn = mass(next);
        let ms = mass(seeds);
        assert(d * mo <= d * (sc + n) + sc * n);
        assert(sc * mn <= (sc - d) * mo + d * ms + sc * n);
        assert((sc - d) * (d * mo) <= (sc - d) * (d * (sc + n) + sc * n)) by (nonlinear_arith)
            requires d * mo <= d * (sc + n) + sc * n, sc - d >= 0;
        assert(d * (sc * mn) <= d * ((sc - d) * mo + d * ms + sc * n)) by (nonlinear_arith)
            requires sc * mn <= (sc - d) * mo + d * ms + sc * n, d >= 0;
        assert(d * ms <= d * (sc + n)) by (nonlinear_arith)
            requires ms <= sc + n, d >= 0;
        assert(sc * (d * mn) <= sc * (d * (sc + n) + sc * n)) by (nonlinear_arith)
            requires
                d * (sc * mn) <= d * ((sc - d) * mo + d * ms + sc * n),
                (sc - d) * (d * mo) <= (sc - d) * (d * (sc + n) + sc * n),
                d * ms <= d * (sc + n),
                d >= 0;
        assert(d * mn <= d * (sc + n) + sc * n) by (nonlinear_arith)
            requires sc * (d * mn) <= sc * (d * (sc + n) + sc * n), sc > 0;
        if distance(next, scores) >= tolerance {
            lemma_run_mass_bounded(m, seeds, damping, next, (k - 1) as nat, tolerance);
        }
    }
}

spec fn weight_in(accounts: Seq<String>, weights: Seq<u64>, name: Seq<char>) -> int {
    if exists|a: int| 0 <= a < accounts.len() && #[trigger] accounts[a]@ == name {
        let a = choose|a: int| 0 <= a < accounts.len() && #[trigger] accounts[a]@ == name;
        weights[a] as int
    } else {
        0
    }
}

proof fn lemma_weight_in_last(accounts: Seq<String>, weights: Seq<u64>, name: Seq<char>)
    requires
        accounts.len() > 0,
        weights.len() == accounts.len(),
        distinct_accounts(accounts),
    ensures
        weight_in(accounts, weights, name) == weight_in(accounts.drop_last(), weights.drop_last(), name)
            + if name == accounts.last()@ { weights.last() as int } else { 0 },
{
    let l = accounts.len() - 1;
    let pa = accounts.drop_last();
    let pw = weights.drop_last();
    if name == accounts.last()@ {
        assert(accounts[l]@ == name);
        let c = choose|a: int| 0 <= a < accounts.len() && #[trigger] accounts[a]@ == name;
        assert(c == l);
        assert forall|a: int| 0 <= a < pa.len() implies #[trigger] pa[a]@ != name by {
            assert(pa[a] == accounts[a]);
        }
    } else if exists|a: int| 0 <= a < accounts.len() && #[trigger] accounts[a]@ == name {
        let c = choose|a: int| 0 <= a < accounts.len() && #[trigger] accounts[a]@ == name;
        assert(c < l);
        assert(pa[c] == accounts[c]);
        assert(pa[c]@ == name);
        let c2 = choose|a: int| 0 <= a < pa.len() && #[trigger] pa[a]@ == name;
        assert(pa[c2] == accounts[c2]);
        assert(c2 == c);
    } else {
        assert forall|a: int| 0 <= a < pa.len() implies #[trigger] pa[a]@ != name by {
            assert(pa[a] == accounts[a]);
        }
    }
}

/// Distinct names draw at most the whole seed weight.
proof fn lemma_names_weight(accounts: Seq<String>, weights: Seq<u64>, names: Seq<String>)
    requires
        weights.len() == accounts.len(),
        distinct_accounts(accounts),
        distinct_accounts(names),
    ensures
        xsum(names.len(), |x: int| weight_in(accounts, weights, names[x]@)) <= mass(weights),
    decreases accounts.len(),
{
    let n = names.len();
    let h = |x: int| weight_in(accounts, weights, names[x]@);
    if accounts.len() == 0 {
        lemma_xsum_zero(n, h);
    } else {
        let pa = accounts.drop_last();
        let pw = weights.drop_last();
        let n0 = accounts.last()@;
        let wl = weights.last() as int;
        assert(distinct_accounts(pa)) by {
            assert forall|i: int, j: int| 0 <= i < pa.len() && 0 <= j < pa.len() && i != j implies pa[i]@ != pa[j]@ by {
                assert(pa[i] == accounts[i] && pa[j] == accounts[j]);
            }
        }
        lemma_names_weight(pa, pw, names);
        let hp = |x: int| weight_in(pa, pw, names[x]@);
        let hl = |x: int| if names[x]@ == n0 { wl } else { 0 };
        assert forall|x: int| 0 <= x < n implies #[trigger] h(x) == hp(x) + hl(x) by {
            lemma_weight_in_last(accounts, weights, names[x]@);
        }
        lemma_xsum_add(n, hp, hl, h);
        if exists|y: int| 0 <= y < n && #[trigger] names[y]@ == n0 {
            let y = choose|y: int| 0 <= y < n && #[trigger] names[y]@ == n0;
            lemma_xsum_single(n, hl, y);
        } else {
            lemma_xsum_zero(n, hl);
        }
        assert(mass(weights) == mass(pw) + wl);
    }
}

/// The seed shares of distinct accounts have mass at most one.
proof fn lemma_shares_mass(v: SeedVector, names: Seq<String>)
    requires
        v.wf(),
        distinct_accounts(names),
    ensures
        mass(shares(v, names)) <= SCALE + names.len(),
{
    let n = names.len();
    let sh = shares(v, names);
    let t = v.total as int;
    let wo = |x: int| weight_in(v.accounts@, v.weights@, names[x]@);
    lemma_names_weight(v.accounts@, v.weights@, names);
    lemma_mass_xsum(sh);
    let f = |x: int| sh[x] as int;
    let tf = |x: int| t * (sh[x] as int);
    let swo = |x: int| SCALE * wo(x);
    let swt = |x: int| SCALE * wo(x) + t;
    assert forall|x: int| 0 <= x < n implies #[trigger] tf(x) <= swt(x) by {
        assert(v.weight_of(names[x]@) == wo(x));
        let q = SCALE * wo(x);
        assert(wo(x) >= 0);
        assert(q >= 0) by (nonlinear_arith)
            requires q == SCALE * wo(x), wo(x) >= 0;
        if exists|a: int| 0 <= a < v.accounts@.len() && #[trigger] v.accounts@[a]@ == names[x]@ {
            let c = choose|a: int| 0 <= a < v.accounts@.len() && #[trigger] v.accounts@[a]@ == names[x]@;
            assert(v.weights@[c] <= v.total);
        }
        assert(wo(x) <= t);
        assert(q <= SCALE * t) by (nonlinear_arith)
            requires q == SCALE * wo(x), wo(x) <= t;
        assert((q + t - 1) / t <= SCALE + 1) by (nonlinear_arith)
            requires q <= SCALE * t, t > 0, q >= 0;
        assert((q + t - 1) / t >= 0) by (nonlinear_arith)
            requires q >= 0, t > 0;
        assert(sh[x] == (q + t - 1) / t);
        assert(t * ((q + t - 1) / t) <= q + t) by (nonlinear_arith)
            requires t > 0, q >= 0;
    }
    lemma_xsum_le(n, tf, swt);
    lemma_xsum_scale(n, f, t, tf);
    lemma_xsum_scale(n, wo, SCALE as int, swo);
    lemma_xsum_add(n, swo, |x: int| t, swt);
    lemma_xsum_const(n, t, |x: int| t);
    let total_sh = xsum(n, f);
    assert(t * total_sh <= SCALE * xsum(n, wo) + t * n);
    assert(t * total_sh <= t * (SCALE + n)) by (nonlinear_arith)
        requires t * total_sh <= SCALE * xsum(n, wo) + t * n, xsum(n, wo) <= t, t > 0;
    assert(total_sh <= SCALE + n) by (nonlinear_arith)
        requires t * total_sh <= t * (SCALE + n), t > 0;
}

/// The mass of a whole propagation stays near one: the final scores of any
/// propagation of a well-formed, row-stochastic matrix from a well-formed seed
/// distribution over `n` accounts have mass at most
/// `SCALE + n * (1 + SCALE / damping)` units (the seed term is rounded up).
pub proof fn lemma_propagation_mass_bounded(
    p: Propagation,
    m: LocalTrustMatrix,
    v: SeedVector,
    damping: u64,
    max_iterations: u64,
    tolerance: u64,
)
    requires
        m.wf(),
        m.row_stochastic(),
        v.wf(),
        0 < damping <= SCALE,
        p.propagated(m, v, damping, max_iterations, tolerance),
    ensures
        damping * mass(p.scores@) <= damping * (SCALE + p.accounts@.len()) + SCALE
            * p.accounts@.len(),
{
    let names = p.accounts@;
    let sh = shares(v, names);
    lemma_shares_mass(v, names);
    assert(edges_within(m.edges@, sh.len() as int));
    let n = sh.len() as int;
    assert(damping * mass(sh) <= damping * (SCALE + n)) by (nonlinear_arith)
        requires mass(sh) <= SCALE + n, damping >= 0;
    lemma_run_mass_bounded(m, sh, damping, sh, max_iterations as nat, tolerance);
}

/// Every seed keeps its anchor: in any propagation from a well-formed seed
/// distribution, each account ends with a score of at least `damping` times
/// its seed weight `weight / total` (both sides in units of `1 / SCALE`), so
/// `score * total >= damping * weight`, however many iterations run.
pub proof fn lemma_seeds_keep_anchor(
    p: Propagation,
    m: LocalTrustMatrix,
    v: SeedVector,
    damping: u64,
    max_iterations: u64,
    tolerance: u64,
)
    requires
        m.wf(),
        v.wf(),
        damping < SCALE,
        p.propagated(m, v, damping, max_iterations, tolerance),
    ensures
        forall|x: int|
            0 <= x < p.scores@.len() ==> #[trigger] p.scores@[x] * v.total >= damping * v.weight_of(
                p.accounts@[x]@,
            ),
        p.scores@.len() == p.accounts@.len(),
{
    let names = p.accounts@;
    let sh = shares(v, names);
    let t = v.total as int;
    let d = damping as int;
    let sc = SCALE as int;
    assert forall|x: int| 0 <= x < sh.len() implies #[trigger] sh[x] <= SCALE && sh[x] * t >= sc * v.weight_of(names[x]@) by {
        let w = v.weight_of(names[x]@);
        if exists|a: int| 0 <= a < v.accounts@.len() && #[trigger] v.accounts@[a]@ == names[x]@ {
            let c = choose|a: int| 0 <= a < v.accounts@.len() && #[trigger] v.accounts@[a]@ == names[x]@;
            assert(v.weights@[c] <= v.total);
        }
        assert(0 <= w <= t);
        let q = sc * w;
        assert(q >= 0 && q <= sc * t) by (nonlinear_arith)
            requires q == sc * w, 0 <= w <= t, sc > 0;
        assert((q + t - 1) / t <= sc) by (nonlinear_arith)
            requires q <= sc * t, t > 0, q >= 0;
        assert((q + t - 1) / t >= 0) by (nonlinear_arith)
            requires q >= 0, t > 0;
        assert(sh[x] == (q + t - 1) / t);
        assert(((q + t - 1) / t) * t >= q) by (nonlinear_arith)
            requires t > 0, q >= 0;
    }
    assert(bounded(sh));
    assert forall|x: int| 0 <= x < sh.len() implies #[trigger] sh[x] >= (damping * sh[x] + SCALE - 1) / (SCALE as int) by {
        let y = sh[x] as int;
        assert(d * y + sc - 1 < (y + 1) * sc) by (nonlinear_arith)
            requires d < sc, y >= 0;
        assert((d * y + sc - 1) / sc <= y) by (nonlinear_arith)
            requires d * y + sc - 1 < (y + 1) * sc, sc > 0;
    }
    assert(edges_within(m.edges@, sh.len() as int));
    lemma_seed_floor(m.edges@, sh, damping, sh, max_iterations as nat, tolerance);
    assert forall|x: int| 0 <= x < p.scores@.len() implies #[trigger] p.scores@[x] * v.total >= damping * v.weight_of(
        p.accounts@[x]@,
    ) by {
        let y = sh[x] as int;
        let s = p.scores@[x] as int;
        let w = v.weight_of(names[x]@);
        assert(s >= (d * y + sc - 1) / sc);
        assert(((d * y + sc - 1) / sc) * sc >= d * y) by (nonlinear_arith)
            requires sc > 0, d >= 0, y >= 0;
        assert(s * sc >= d * y) by (nonlinear_arith)
            requires s >= (d * y + sc - 1) / sc, ((d * y + sc - 1) / sc) * sc >= d * y, sc > 0;
        assert(y * t >= sc * w);
        assert(s * sc * t >= d * sc * w) by (nonlinear_arith)
            requires s * sc >= d * y, y * t >= sc * w, t > 0, d >= 0;
        assert(s * t >= d * w) by (nonlinear_arith)
            requires s * sc * t >= d * sc * w, sc > 0;
    }
}

} // verus!
