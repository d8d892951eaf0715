use vstd::prelude::*;

use crate::types::{
    interaction_weight, max_interaction_weight, EngineError, Interaction, StrategyConfig,
};

verus! {

/// One distinct (follower, follows) pair of the matrix, by account index.
/// Its normalized trust is `weight / total`, where `total` is the follower's
/// whole outgoing weight.
#[derive(Clone, Copy, Debug, PartialEq, Eq, Structural)]
pub struct Edge {
    pub from: usize,
    pub to: usize,
    pub weight: u64,
    pub total: u64,
}

/// The local-trust matrix: the accounts that occur in the interactions, each
/// once, and one edge per distinct (follower, follows) pair.
pub struct LocalTrustMatrix {
    pub accounts: Vec<String>,
    pub edges: Vec<Edge>,
}

pub open spec fn same_pair(x: Interaction, f: Seq<char>, t: Seq<char>) -> bool {
    x.follower@ == f && x.follows@ == t
}

/// Accumulated weight of all interactions from `f` to `t`.
pub open spec fn pair_weight(s: Seq<Interaction>, c: StrategyConfig, f: Seq<char>, t: Seq<char>) -> int
    decreases s.len(),
{
    if s.len() == 0 {
        0
    } else {
        pair_weight(s.drop_last(), c, f, t) + if same_pair(s.last(), f, t) {
            interaction_weight(s.last(), c)
        } else {
            0
        }
    }
}

/// Accumulated weight of all interactions whose follower is `f`.
pub open spec fn row_weight(s: Seq<Interaction>, c: StrategyConfig, f: Seq<char>) -> int
    decreases s.len(),
{
    if s.len() == 0 {
        0
    } else {
        row_weight(s.drop_last(), c, f) + if s.last().follower@ == f {
            interaction_weight(s.last(), c)
        } else {
            0
        }
    }
}

/// Accumulated weight of all interactions.
pub open spec fn total_weight(s: Seq<Interaction>, c: StrategyConfig) -> int
    decreases s.len(),
{
    if s.len() == 0 {
        0
    } else {
        total_weight(s.drop_last(), c) + interaction_weight(s.last(), c)
    }
}

pub open spec fn has_self_loop(s: Seq<Interaction>) -> bool {
    exists|i: int| 0 <= i < s.len() && s[i].follower@ == s[i].follows@
}

pub open spec fn distinct_accounts(accounts: Seq<String>) -> bool {
    forall|i: int, j: int| 0 <= i < accounts.len() && 0 <= j < accounts.len() && i != j
        ==> accounts[i]@ != accounts[j]@
}

/// `e` is the edge of interaction `x` among `accounts`.
pub open spec fn covers(accounts: Seq<String>, e: Edge, x: Interaction) -> bool {
    &&& e.from < accounts.len()
    &&& e.to < accounts.len()
    &&& accounts[e.from as int]@ == x.follower@
    &&& accounts[e.to as int]@ == x.follows@
}

/// Some edge among `edges` is the edge of interaction `x`.
pub open spec fn is_covered(accounts: Seq<String>, edges: Seq<Edge>, x: Interaction) -> bool {
    exists|k: int| 0 <= k < edges.len() && #[trigger] covers(accounts, edges[k], x)
}

pub open spec fn edge_sum(es: Seq<Edge>, g: spec_fn(Edge) -> int) -> int
    decreases es.len(),
{
    if es.len() == 0 {
        0
    } else {
        edge_sum(es.drop_last(), g) + g(es.last())
    }
}

/// Sum of the weights of the edges leaving account `a`.
pub open spec fn row_sum(es: Seq<Edge>, a: usize) -> int {
    edge_sum(es, |e: Edge| if e.from == a { e.weight as int } else { 0 })
}


proof fn lemma_weight_positive(x: Interaction, c: StrategyConfig)
    ensures
        interaction_weight(x, c) >= 1,
{
    assert(c.mentions_weight * x.mentions >= 0) by (nonlinear_arith);
    assert(c.reposts_weight * x.reposts >= 0) by (nonlinear_arith);
    assert(c.replies_weight * x.replies >= 0) by (nonlinear_arith);
}

/// Pair and row weights are bounded by the whole weight.
proof fn lemma_weights_bounded(s: Seq<Interaction>, c: StrategyConfig, f: Seq<char>, t: Seq<char>)
    ensures
        0 <= pair_weight(s, c, f, t) <= row_weight(s, c, f) <= total_weight(s, c),
    decreases s.len(),
{
    if s.len() > 0 {
        lemma_weights_bounded(s.drop_last(), c, f, t);
        lemma_weight_positive(s.last(), c);
    }
}

/// The weight of a prefix is at most the whole weight.
proof fn lemma_total_prefix(s: Seq<Interaction>, c: StrategyConfig, j: int)
    requires
        0 <= j <= s.len(),
    ensures
        total_weight(s.take(j), c) <= total_weight(s, c),
    decreases s.len(),
{
    if j == s.len() {
        assert(s.take(j) =~= s);
    } else {
        lemma_total_prefix(s.drop_last(), c, j);
        assert(s.drop_last().take(j) =~= s.take(j));
        lemma_weight_positive(s.last(), c);
    }
}

/// A pair that no interaction has carries no weight.
proof fn lemma_pair_absent(s: Seq<Interaction>, c: StrategyConfig, f: Seq<char>, t: Seq<char>)
    requires
        forall|j: int| 0 <= j < s.len() ==> !same_pair(#[trigger] s[j], f, t),
    ensures
        pair_weight(s, c, f, t) == 0,
    decreases s.len(),
{
    if s.len() > 0 {
        lemma_pair_absent(s.drop_last(), c, f, t);
    }
}

pub(crate) proof fn lemma_edge_sum_ext(es: Seq<Edge>, g1: spec_fn(Edge) -> int, g2: spec_fn(Edge) -> int)
    requires
        forall|k: int| 0 <= k < es.len() ==> g1(#[trigger] es[k]) == g2(es[k]),
    ensures
        edge_sum(es, g1) == edge_sum(es, g2),
    decreases es.len(),
{
    if es.len() > 0 {
        lemma_edge_sum_ext(es.drop_last(), g1, g2);
    }
}

proof fn lemma_edge_sum_add(
    es: Seq<Edge>,
    g1: spec_fn(Edge) -> int,
    g2: spec_fn(Edge) -> int,
    g3: spec_fn(Edge) -> int,
)
    requires
        forall|k: int| 0 <= k < es.len() ==> g3(#[trigger] es[k]) == g1(es[k]) + g2(es[k]),
    ensures
        edge_sum(es, g3) == edge_sum(es, g1) + edge_sum(es, g2),
    decreases es.len(),
{
    if es.len() > 0 {
        lemma_edge_sum_add(es.drop_last(), g1, g2, g3);
    }
}

pub(crate) proof fn lemma_edge_sum_zero(es: Seq<Edge>, g: spec_fn(Edge) -> int)
    requires
        forall|k: int| 0 <= k < es.len() ==> g(#[trigger] es[k]) == 0,
    ensures
        edge_sum(es, g) == 0,
    decreases es.len(),
{
    if es.len() > 0 {
        lemma_edge_sum_zero(es.drop_last(), g);
    }
}

proof fn lemma_edge_sum_single(es: Seq<Edge>, g: spec_fn(Edge) -> int, k: int)
    requires
        0 <= k < es.len(),
        forall|l: int| 0 <= l < es.len() && l != k ==> g(#[trigger] es[l]) == 0,
    ensures
        edge_sum(es, g) == g(es[k]),
    decreases es.len(),
{
    if k == es.len() - 1 {
        lemma_edge_sum_zero(es.drop_last(), g);
    } else {
        lemma_edge_sum_single(es.drop_last(), g, k);
    }
}

/// Over distinct pairs that cover every interaction, the pair weights of one
/// follower's edges add up to that follower's row weight.
proof fn lemma_row_partition(
    s: Seq<Interaction>,
    c: StrategyConfig,
    accounts: Seq<String>,
    edges: Seq<Edge>,
    a: usize,
)
    requires
        distinct_accounts(accounts),
        a < accounts.len(),
        forall|k: int|
            #![trigger edges[k]]
            0 <= k < edges.len() ==> edges[k].from < accounts.len() && edges[k].to < accounts.len(),
        forall|k: int, l: int|
            0 <= k < edges.len() && 0 <= l < edges.len() && k != l ==> (edges[k].from
                != edges[l].from || edges[k].to != edges[l].to),
        forall|j: int| 0 <= j < s.len() ==> is_covered(accounts, edges, #[trigger] s[j]),
    ensures
        edge_sum(
            edges,
            |e: Edge|
                if e.from == a {
                    pair_weight(s, c, accounts[a as int]@, accounts[e.to as int]@)
                } else {
                    0
                },
        ) == row_weight(s, c, accounts[a as int]@),
    decreases s.len(),
{
    let fa = accounts[a as int]@;
    let gs = |e: Edge| if e.from == a { pair_weight(s, c, fa, accounts[e.to as int]@) } else { 0 };
    if s.len() == 0 {
        lemma_edge_sum_zero(edges, gs);
    } else {
        let p = s.drop_last();
        let x = s.last();
        assert forall|j: int| 0 <= j < p.len() implies is_covered(accounts, edges, #[trigger] p[j]) by {
            assert(p[j] == s[j]);
        }
        lemma_row_partition(p, c, accounts, edges, a);
        let gp = |e: Edge| if e.from == a { pair_weight(p, c, fa, accounts[e.to as int]@) } else { 0 };
        let h = |e: Edge|
            if e.from == a && same_pair(x, fa, accounts[e.to as int]@) {
                interaction_weight(x, c)
            } else {
                0
            };
        lemma_edge_sum_add(edges, gp, h, gs);
        if x.follower@ == fa {
            assert(s[s.len() - 1] == x);
            let k = choose|k: int| 0 <= k < edges.len() && #[trigger] covers(accounts, edges[k], s[s.len() - 1]);
            assert(edges[k].from == a);
            assert forall|l: int| 0 <= l < edges.len() && l != k implies h(#[trigger] edges[l]) == 0 by {
                if h(edges[l]) != 0 {
                    assert(edges[l].from == edges[k].from);
                    assert(accounts[edges[l].to as int]@ == accounts[edges[k].to as int]@);
                    assert(edges[l].to == edges[k].to);
                }
            }
            lemma_edge_sum_single(edges, h, k);
        } else {
            lemma_edge_sum_zero(edges, h);
        }
    }
}

/// Index of `name` in `accounts`, appending it when it is not there yet.
pub(crate) fn intern(accounts: &mut Vec<String>, name: &String) -> (idx: usize)
    requires
        distinct_accounts(old(accounts)@),
    ensures
        distinct_accounts(final(accounts)@),
        idx < final(accounts)@.len(),
        final(accounts)@[idx as int]@ == name@,
        (idx < old(accounts)@.len() && final(accounts)@ == old(accounts)@) || (idx == old(
            accounts,
        )@.len() && final(accounts)@ == old(accounts)@.push(*name)),
{
    let mut i: usize = 0;
    while i < accounts.len()
        invariant
            accounts@ == old(accounts)@,
            distinct_accounts(accounts@),
            0 <= i <= accounts@.len(),
            forall|j: int| 0 <= j < i ==> accounts@[j]@ != name@,
        decreases accounts@.len() - i,
    {
        if accounts[i] == *name {
            return i;
        }
        i = i + 1;
    }
    accounts.push(name.clone());
    i
}

/// Position of the edge from `from` to `to`, if there is one.
fn find_edge(edges: &Vec<Edge>, from: usize, to: usize) -> (r: Option<usize>)
    ensures
        match r {
            Some(k) => k < edges@.len() && edges@[k as int].from == from && edges@[k as int].to == to,
            None => forall|k: int|
                0 <= k < edges@.len() ==> !(#[trigger] edges@[k].from == from && edges@[k].to == to),
        },
{
    let mut k: usize = 0;
    while k < edges.len()
        invariant
            0 <= k <= edges@.len(),
            forall|l: int| 0 <= l < k ==> !(#[trigger] edges@[l].from == from && edges@[l].to == to),
        decreases edges@.len() - k,
    {
        if edges[k].from == from && edges[k].to == to {
            return Some(k);
        }
        k = k + 1;
    }
    None
}

/// The row weight of `follower` over all interactions.
fn row_total(interactions: &Vec<Interaction>, config: StrategyConfig, follower: &String) -> (r: u64)
    requires
        total_weight(interactions@, config) <= u64::MAX,
    ensures
        r == row_weight(interactions@, config, follower@),
{
    let s = Ghost(interactions@);
    let mut t: u64 = 0;
    let mut j: usize = 0;
    while j < interactions.len()
        invariant
            s@ == interactions@,
            total_weight(s@, config) <= u64::MAX,
            0 <= j <= s@.len(),
            t == row_weight(s@.take(j as int), config, follower@),
        decreases s@.len() - j,
    {
        proof {
            assert(s@.take(j + 1).drop_last() =~= s@.take(j as int));
            lemma_weights_bounded(s@.take(j + 1), config, follower@, follower@);
            lemma_total_prefix(s@, config, j + 1);
        }
        if interactions[j].follower == *follower {
            t = t + interactions[j].weight(config);
        }
        j = j + 1;
    }
    proof {
        assert(s@.take(j as int) =~= s@);
    }
    t
}

proof fn lemma_matrix_complete(s: Seq<Interaction>, c: StrategyConfig, m: LocalTrustMatrix)
    requires
        total_weight(s, c) <= u64::MAX,
        distinct_accounts(m.accounts@),
        forall|k: int|
            #![trigger m.edges@[k]]
            0 <= k < m.edges@.len() ==> {
                &&& m.edges@[k].from < m.accounts@.len()
                &&& m.edges@[k].to < m.accounts@.len()
                &&& 0 < m.edges@[k].weight
                &&& m.edges@[k].weight == pair_weight(s, c, m.account(m.edges@[k].from as int), m.account(m.edges@[k].to as int))
                &&& m.edges@[k].total == row_weight(s, c, m.account(m.edges@[k].from as int))
            },
        forall|k: int, l: int|
            0 <= k < m.edges@.len() && 0 <= l < m.edges@.len() && k != l ==> (m.edges@[k].from
                != m.edges@[l].from || m.edges@[k].to != m.edges@[l].to),
        forall|j: int| 0 <= j < s.len() ==> is_covered(m.accounts@, m.edges@, #[trigger] s[j]),
    ensures
        m.wf(),
        m.row_stochastic(),
{
    assert forall|k: int| 0 <= k < m.edges@.len() implies row_sum(m.edges@, #[trigger] m.edges@[k].from)
        == m.edges@[k].total by {
        let a = m.edges@[k].from;
        lemma_row_partition(s, c, m.accounts@, m.edges@, a);
        let fa = m.accounts@[a as int]@;
        lemma_edge_sum_ext(
            m.edges@,
            |e: Edge| if e.from == a { e.weight as int } else { 0 },
            |e: Edge| if e.from == a { pair_weight(s, c, fa, m.accounts@[e.to as int]@) } else { 0 },
        );
    }
    assert forall|k: int| #![trigger m.edges@[k]] 0 <= k < m.edges@.len() implies m.edges@[k].weight <= m.edges@[k].total by {
        lemma_weights_bounded(s, c, m.account(m.edges@[k].from as int), m.account(m.edges@[k].to as int));
    }
}

/// What the matrix built from the interactions `p` holds before row totals:
/// edges in range with the pair weights of `p`, distinct pairs, every
/// interaction covered, and every account taken from an interaction.
#[verifier::opaque]
pub open spec fn partial_matrix(p: Seq<Interaction>, c: StrategyConfig, accounts: Seq<String>, edges: Seq<Edge>) -> bool {
    &&& distinct_accounts(accounts)
    &&& forall|k: int|
        #![trigger edges[k]]
        0 <= k < edges.len() ==> {
            &&& edges[k].from < accounts.len()
            &&& edges[k].to < accounts.len()
            &&& 0 < edges[k].weight
            &&& edges[k].weight == pair_weight(p, c, accounts[edges[k].from as int]@, accounts[edges[k].to as int]@)
        }
    &&& forall|k: int, l: int|
        0 <= k < edges.len() && 0 <= l < edges.len() && k != l ==> (edges[k].from
            != edges[l].from || edges[k].to != edges[l].to)
    &&& forall|j: int| 0 <= j < p.len() ==> is_covered(accounts, edges, #[trigger] p[j])
    &&& forall|a: int|
        #![trigger accounts[a]]
        0 <= a < accounts.len() ==> exists|j: int|
            0 <= j < p.len() && (#[trigger] p[j].follower@ == accounts[a]@ || p[j].follows@
                == accounts[a]@)
}

/// Appending accounts keeps edges and coverage.
proof fn lemma_partial_extend(p: Seq<Interaction>, c: StrategyConfig, a0: Seq<String>, a1: Seq<String>, edges: Seq<Edge>)
    requires
        partial_matrix(p, c, a0, edges),
        distinct_accounts(a1),
        a0.len() <= a1.len(),
        forall|a: int| 0 <= a < a0.len() ==> a1[a] == a0[a],
    ensures
        forall|k: int|
            #![trigger edges[k]]
            0 <= k < edges.len() ==> {
                &&& edges[k].from < a0.len()
                &&& edges[k].to < a0.len()
                &&& 0 < edges[k].weight
                &&& edges[k].weight == pair_weight(p, c, a1[edges[k].from as int]@, a1[edges[k].to as int]@)
            },
        forall|j: int| 0 <= j < p.len() ==> is_covered(a1, edges, #[trigger] p[j]),
{
    reveal(partial_matrix);
    assert forall|j: int| 0 <= j < p.len() implies is_covered(a1, edges, #[trigger] p[j]) by {
        assert(is_covered(a0, edges, p[j]));
        let k = choose|k: int| 0 <= k < edges.len() && #[trigger] covers(a0, edges[k], p[j]);
        assert(covers(a1, edges[k], p[j]));
    }
}

/// Adding the last interaction of `t` to the edges built from the others.
proof fn lemma_partial_step(
    t: Seq<Interaction>,
    c: StrategyConfig,
    accounts: Seq<String>,
    e0: Seq<Edge>,
    e1: Seq<Edge>,
    fi: usize,
    ti: usize,
    found: Option<int>,
)
    requires
        t.len() > 0,
        distinct_accounts(accounts),
        fi < accounts.len(),
        ti < accounts.len(),
        accounts[fi as int]@ == t.last().follower@,
        accounts[ti as int]@ == t.last().follows@,
        forall|k: int|
            #![trigger e0[k]]
            0 <= k < e0.len() ==> {
                &&& e0[k].from < accounts.len()
                &&& e0[k].to < accounts.len()
                &&& 0 < e0[k].weight
                &&& e0[k].weight == pair_weight(t.drop_last(), c, accounts[e0[k].from as int]@, accounts[e0[k].to as int]@)
            },
        forall|k: int, l: int|
            0 <= k < e0.len() && 0 <= l < e0.len() && k != l ==> (e0[k].from
                != e0[l].from || e0[k].to != e0[l].to),
        forall|j: int| 0 <= j < t.len() - 1 ==> is_covered(accounts, e0, #[trigger] t[j]),
        match found {
            Some(k) => 0 <= k < e0.len() && e0[k].from == fi && e0[k].to == ti
                && e1 == e0.update(k, Edge { weight: (e0[k].weight + interaction_weight(t.last(), c)) as u64, ..e0[k] }),
            None => (forall|k: int| 0 <= k < e0.len() ==> !(#[trigger] e0[k].from == fi && e0[k].to == ti))
                && e1 == e0.push(Edge { from: fi, to: ti, weight: interaction_weight(t.last(), c) as u64, total: 0 }),
        },
        pair_weight(t, c, t.last().follower@, t.last().follows@) <= u64::MAX,
    ensures
        forall|k: int|
            #![trigger e1[k]]
            0 <= k < e1.len() ==> {
                &&& e1[k].from < accounts.len()
                &&& e1[k].to < accounts.len()
                &&& 0 < e1[k].weight
                &&& e1[k].weight == pair_weight(t, c, accounts[e1[k].from as int]@, accounts[e1[k].to as int]@)
            },
        forall|k: int, l: int|
            0 <= k < e1.len() && 0 <= l < e1.len() && k != l ==> (e1[k].from
                != e1[l].from || e1[k].to != e1[l].to),
        forall|j: int| 0 <= j < t.len() ==> is_covered(accounts, e1, #[trigger] t[j]),
{
    let p = t.drop_last();
    let x = t.last();
    lemma_weight_positive(x, c);
    lemma_weights_bounded(t, c, x.follower@, x.follows@);
    if found is None {
        assert forall|j: int| 0 <= j < p.len() implies !same_pair(#[trigger] p[j], x.follower@, x.follows@) by {
            assert(p[j] == t[j]);
            assert(is_covered(accounts, e0, t[j]));
            if same_pair(p[j], x.follower@, x.follows@) {
                let k = choose|k: int| 0 <= k < e0.len() && #[trigger] covers(accounts, e0[k], t[j]);
                assert(e0[k].from == fi);
                assert(e0[k].to == ti);
            }
        }
        lemma_pair_absent(p, c, x.follower@, x.follows@);
    }
    assert forall|k: int| #![trigger e1[k]] 0 <= k < e1.len() implies {
        &&& e1[k].from < accounts.len()
        &&& e1[k].to < accounts.len()
        &&& 0 < e1[k].weight
        &&& e1[k].weight == pair_weight(t, c, accounts[e1[k].from as int]@, accounts[e1[k].to as int]@)
    } by {
        if k < e0.len() {
            if !(e0[k].from == fi && e0[k].to == ti) {
                assert(!same_pair(x, accounts[e0[k].from as int]@, accounts[e0[k].to as int]@));
            }
        }
    }
    assert forall|j: int| 0 <= j < t.len() implies is_covered(accounts, e1, #[trigger] t[j]) by {
        if j < t.len() - 1 {
            let k = choose|k: int| 0 <= k < e0.len() && #[trigger] covers(accounts, e0[k], t[j]);
            assert(covers(accounts, e1[k], t[j]));
        } else {
            match found {
                Some(k) => {
                    assert(covers(accounts, e1[k], t[j]));
                },
                None => {
                    assert(covers(accounts, e1[e0.len() as int], t[j]));
                },
            }
        }
    }
}

/// One step of the main loop: `t` is `p` with one more interaction.
proof fn lemma_partial_next(
    t: Seq<Interaction>,
    c: StrategyConfig,
    a0: Seq<String>,
    accounts: Seq<String>,
    e0: Seq<Edge>,
    e1: Seq<Edge>,
    fi: usize,
    ti: usize,
    found: Option<int>,
)
    requires
        t.len() > 0,
        partial_matrix(t.drop_last(), c, a0, e0),
        distinct_accounts(accounts),
        a0.len() <= accounts.len(),
        forall|a: int| 0 <= a < a0.len() ==> accounts[a] == a0[a],
        forall|a: int| a0.len() <= a < accounts.len() ==> (#[trigger] accounts[a])@ == t.last().follower@
            || accounts[a]@ == t.last().follows@,
        fi < accounts.len(),
        ti < accounts.len(),
        accounts[fi as int]@ == t.last().follower@,
        accounts[ti as int]@ == t.last().follows@,
        match found {
            Some(k) => 0 <= k < e0.len() && e0[k].from == fi && e0[k].to == ti
                && e1 == e0.update(k, Edge { weight: (e0[k].weight + interaction_weight(t.last(), c)) as u64, ..e0[k] }),
            None => (forall|k: int| 0 <= k < e0.len() ==> !(#[trigger] e0[k].from == fi && e0[k].to == ti))
                && e1 == e0.push(Edge { from: fi, to: ti, weight: interaction_weight(t.last(), c) as u64, total: 0 }),
        },
        pair_weight(t, c, t.last().follower@, t.last().follows@) <= u64::MAX,
    ensures
        partial_matrix(t, c, accounts, e1),
{
    reveal(partial_matrix);
    let p = t.drop_last();
    lemma_partial_extend(p, c, a0, accounts, e0);
    assert forall|j: int| 0 <= j < t.len() - 1 implies is_covered(accounts, e0, #[trigger] t[j]) by {
        assert(t[j] == p[j]);
    }
    lemma_partial_step(t, c, accounts, e0, e1, fi, ti, found);
    assert forall|a: int| #![trigger accounts[a]] 0 <= a < accounts.len() implies exists|j: int|
        0 <= j < t.len() && (#[trigger] t[j].follower@ == accounts[a]@ || t[j].follows@
            == accounts[a]@) by {
        if a < a0.len() {
            assert(accounts[a] == a0[a]);
            let j = choose|j: int| 0 <= j < p.len() && (#[trigger] p[j].follower@ == a0[a]@ || p[j].follows@ == a0[a]@);
            assert(p[j] == t[j]);
        } else {
            assert(t[t.len() - 1].follower@ == accounts[a]@ || t[t.len() - 1].follows@ == accounts[a]@);
        }
    }
}

/// Sets each edge's row total and so completes the matrix.
fn fill_totals(
    interactions: &Vec<Interaction>,
    config: StrategyConfig,
    accounts: Vec<String>,
    edges: Vec<Edge>,
) -> (r: Result<LocalTrustMatrix, EngineError>)
    requires
        total_weight(interactions@, config) <= u64::MAX,
        !has_self_loop(interactions@),
        partial_matrix(interactions@, config, accounts@, edges@),
    ensures
        match r {
            Ok(m) => !has_self_loop(interactions@) && total_weight(interactions@, config)
                <= u64::MAX && m.built_from(interactions@, config),
            Err(_) => false,
        },
{
    reveal(partial_matrix);
    let s = Ghost(interactions@);
    let ghost e0 = edges@;
    let mut edges = edges;
    let mut k: usize = 0;
    while k < edges.len()
        invariant
            s@ == interactions@,
            total_weight(s@, config) <= u64::MAX,
            0 <= k <= edges@.len(),
            edges@.len() == e0.len(),
            forall|l: int|
                #![trigger edges@[l]]
                0 <= l < edges@.len() ==> {
                    &&& edges@[l].from == e0[l].from
                    &&& edges@[l].to == e0[l].to
                    &&& edges@[l].weight == e0[l].weight
                    &&& (l < k ==> edges@[l].total == row_weight(
                        s@,
                        config,
                        accounts@[edges@[l].from as int]@,
                    ))
                },
            forall|l: int|
                #![trigger e0[l]]
                0 <= l < e0.len() ==> e0[l].from < accounts@.len(),
        decreases edges@.len() - k,
    {
        assert(e0[k as int].from < accounts@.len());
        let t = row_total(interactions, config, &accounts[edges[k].from]);
        let mut e = edges[k];
        e.total = t;
        edges.set(k, e);
        k = k + 1;
    }
    let m = LocalTrustMatrix { accounts, edges };
    proof {
        assert forall|j: int| 0 <= j < s@.len() implies is_covered(m.accounts@, m.edges@, #[trigger] s@[j]) by {
            assert(is_covered(m.accounts@, e0, s@[j]));
            let q = choose|q: int| 0 <= q < e0.len() && #[trigger] covers(m.accounts@, e0[q], s@[j]);
            assert(covers(m.accounts@, m.edges@[q], s@[j]));
        }
        lemma_matrix_complete(s@, config, m);
    }
    Ok(m)
}

/// Builds the local-trust matrix of `interactions` under the weights of
/// `config`. Self-loops are refused, and so are weights whose sum does not fit
/// in 64 bits.
pub fn build_matrix(interactions: &Vec<Interaction>, config: StrategyConfig) -> (r: Result<
    LocalTrustMatrix,
    EngineError,
>)
    ensures
        match r {
            Ok(m) => !has_self_loop(interactions@) && total_weight(interactions@, config)
                <= u64::MAX && m.built_from(interactions@, config),
            Err(e) => (e == EngineError::InvalidInteraction && has_self_loop(interactions@)) || (e
                == EngineError::WeightOverflow && !has_self_loop(interactions@) && total_weight(
                interactions@,
                config,
            ) > u64::MAX),
        },
{
    let s = Ghost(interactions@);
    let n = interactions.len();
    let mut total: u128 = 0;
    let mut i: usize = 0;
    while i < n
        invariant
            s@ == interactions@,
            n == s@.len(),
            0 <= i <= n,
            total == total_weight(s@.take(i as int), config),
            total <= i * max_interaction_weight(),
            forall|j: int| 0 <= j < i ==> (#[trigger] s@[j]).follower@ != s@[j].follows@,
        decreases n - i,
    {
        if interactions[i].follower == interactions[i].follows {
            return Err(EngineError::InvalidInteraction);
        }
        let w = interactions[i].weight(config);
        proof {
            assert(s@.take(i + 1).drop_last() =~= s@.take(i as int));
        }
        total = total + w as u128;
        i = i + 1;
    }
    proof {
        assert(s@.take(n as int) =~= s@);
    }
    if total > u64::MAX as u128 {
        return Err(EngineError::WeightOverflow);
    }
    let mut accounts: Vec<String> = Vec::new();
    let mut edges: Vec<Edge> = Vec::new();
    proof {
        reveal(partial_matrix);
    }
    let mut i: usize = 0;
    while i < n
        invariant
            s@ == interactions@,
            n == s@.len(),
            0 <= i <= n,
            total_weight(s@, config) <= u64::MAX,
            !has_self_loop(s@),
            partial_matrix(s@.take(i as int), config, accounts@, edges@),
        decreases n - i,
    {
        let ghost a0 = accounts@;
        let ghost e0 = edges@;
        let ghost x = s@[i as int];
        assert(distinct_accounts(accounts@)) by {
            reveal(partial_matrix);
        }
        let fi = intern(&mut accounts, &interactions[i].follower);
        let ti = intern(&mut accounts, &interactions[i].follows);
        let w = interactions[i].weight(config);
        proof {
            assert(s@.take(i + 1).drop_last() =~= s@.take(i as int));
            assert(s@.take(i + 1).last() == x);
            lemma_weights_bounded(s@.take(i + 1), config, x.follower@, x.follows@);
            lemma_total_prefix(s@, config, i + 1);
            assert forall|a: int| 0 <= a < a0.len() implies accounts@[a] == a0[a] by {}
            assert forall|a: int| a0.len() <= a < accounts@.len() implies (#[trigger] accounts@[a])@ == x.follower@
                || accounts@[a]@ == x.follows@ by {}
        }
        match find_edge(&edges, fi, ti) {
            Some(k) => {
                assert(edges@[k as int].weight == pair_weight(s@.take(i as int), config, x.follower@, x.follows@)) by {
                    reveal(partial_matrix);
                    assert(a0[fi as int] == accounts@[fi as int]);
                    assert(a0[ti as int] == accounts@[ti as int]);
                }
                let mut e = edges[k];
                e.weight = e.weight + w;
                edges.set(k, e);
                proof {
                    lemma_partial_next(s@.take(i + 1), config, a0, accounts@, e0, edges@, fi, ti, Some(k as int));
                }
            },
            None => {
                edges.push(Edge { from: fi, to: ti, weight: w, total: 0 });
                proof {
                    lemma_partial_next(s@.take(i + 1), config, a0, accounts@, e0, edges@, fi, ti, None);
                }
            },
        }
        i = i + 1;
    }
    proof {
        assert(s@.take(n as int) =~= s@);
    }
    fill_totals(interactions, config, accounts, edges)
}

impl LocalTrustMatrix {
    pub open spec fn account(&self, a: int) -> Seq<char> {
        self.accounts@[a]@
    }

    pub open spec fn wf(&self) -> bool {
        &&& distinct_accounts(self.accounts@)
        &&& forall|k: int|
            #![trigger self.edges@[k]]
            0 <= k < self.edges@.len() ==> {
                &&& self.edges@[k].from < self.accounts@.len()
                &&& self.edges@[k].to < self.accounts@.len()
                &&& 0 < self.edges@[k].weight <= self.edges@[k].total
            }
        &&& forall|k: int, l: int|
            0 <= k < self.edges@.len() && 0 <= l < self.edges@.len() && k != l ==> (
            self.edges@[k].from != self.edges@[l].from || self.edges@[k].to
                != self.edges@[l].to)
    }

    /// Every follower's outgoing weights add up to its row total, so the
    /// normalized weights `weight / total` of each row add up to one.
    pub open spec fn row_stochastic(&self) -> bool {
        forall|k: int|
            0 <= k < self.edges@.len() ==> row_sum(self.edges@, #[trigger] self.edges@[k].from)
                == self.edges@[k].total
    }

    /// `self` is the matrix of interactions `s` under weights `c`.
    pub open spec fn built_from(&self, s: Seq<Interaction>, c: StrategyConfig) -> bool {
        &&& self.wf()
        &&& self.row_stochastic()
        &&& forall|k: int|
            #![trigger self.edges@[k]]
            0 <= k < self.edges@.len() ==> {
                &&& self.edges@[k].weight == pair_weight(
                    s,
                    c,
                    self.account(self.edges@[k].from as int),
                    self.account(self.edges@[k].to as int),
                )
                &&& self.edges@[k].total == row_weight(
                    s,
                    c,
                    self.account(self.edges@[k].from as int),
                )
            }
        &&& forall|j: int| 0 <= j < s.len() ==> is_covered(self.accounts@, self.edges@, #[trigger] s[j])
        &&& forall|a: int|
            #![trigger self.accounts@[a]]
            0 <= a < self.accounts@.len() ==> exists|j: int|
                0 <= j < s.len() && (#[trigger] s[j].follower@ == self.account(a) || s[j].follows@
                    == self.account(a))
    }
}

} // verus!
