use vstd::prelude::*;

use crate::matrix::{edge_sum, intern, distinct_accounts, Edge, LocalTrustMatrix};
use crate::seed::{lists, uniform_over, uniform_seed, SeedVector};
use crate::ranking::{ranking_sorted, sort_rankings};
use crate::types::{EngineError, Ranking, Termination, SCALE};

verus! {

/// Fixed-point share of `name` in the seed distribution, rounded up so that
/// no seed is anchored below its weight.
pub open spec fn seed_share(v: SeedVector, name: Seq<char>) -> int {
    (SCALE * v.weight_of(name) + v.total - 1) / (v.total as int)
}

/// What edge `e` hands to account `x`: the source's score times the edge's
/// normalized weight, rounded down.
pub open spec fn contribution_term(scores: Seq<u64>, x: int, e: Edge) -> int {
    if e.to == x {
        (scores[e.from as int] * e.weight) / (e.total as int)
    } else {
        0
    }
}

/// Everything account `x` receives from its in-edges in one iteration.
pub open spec fn contribution(edges: Seq<Edge>, scores: Seq<u64>, x: int) -> int {
    edge_sum(edges, |e: Edge| contribution_term(scores, x, e))
}

/// One iteration for account `x`: propagated trust weighted by
/// `SCALE - damping` and rounded down, plus the seed share weighted by
/// `damping` and rounded up, in units of `1 / SCALE` and never above `SCALE`.
pub open spec fn next_score(
    edges: Seq<Edge>,
    seeds: Seq<u64>,
    damping: u64,
    scores: Seq<u64>,
    x: int,
) -> int {
    let v = ((SCALE - damping) * contribution(edges, scores, x)) / (SCALE as int) + (damping
        * seeds[x] + SCALE - 1) / (SCALE as int);
    if v < SCALE {
        v
    } else {
        SCALE as int
    }
}

pub open spec fn step(edges: Seq<Edge>, seeds: Seq<u64>, damping: u64, scores: Seq<u64>) -> Seq<u64> {
    Seq::new(scores.len(), |x: int| next_score(edges, seeds, damping, scores, x) as u64)
}

/// L1 distance of two score vectors of equal length.
pub open spec fn distance(a: Seq<u64>, b: Seq<u64>) -> int
    decreases a.len(),
{
    if a.len() == 0 || b.len() == 0 {
        0
    } else {
        distance(a.drop_last(), b.drop_last()) + if a.last() >= b.last() {
            a.last() - b.last()
        } else {
            b.last() - a.last()
        }
    }
}

/// Power iteration from `scores` for at most `k` more iterations, stopping as
/// soon as one iteration moves the vector by less than `tolerance`.
pub open spec fn run(
    edges: Seq<Edge>,
    seeds: Seq<u64>,
    damping: u64,
    scores: Seq<u64>,
    k: nat,
    tolerance: u64,
) -> (Seq<u64>, Termination)
    decreases k,
{
    if k == 0 {
        (scores, Termination::MaxIterationsReached)
    } else {
        let next = step(edges, seeds, damping, scores);
        if distance(next, scores) < tolerance {
            (next, Termination::Converged)
        } else {
            run(edges, seeds, damping, next, (k - 1) as nat, tolerance)
        }
    }
}

/// Total weight of a score vector.
pub open spec fn mass(v: Seq<u64>) -> int
    decreases v.len(),
{
    if v.len() == 0 {
        0
    } else {
        mass(v.drop_last()) + v.last()
    }
}

pub proof fn lemma_mass_update(v: Seq<u64>, i: int, x: u64)
    requires
        0 <= i < v.len(),
    ensures
        mass(v.update(i, x)) == mass(v) - v[i] + x,
    decreases v.len(),
{
    if i == v.len() - 1 {
        assert(v.update(i, x).drop_last() =~= v.drop_last());
    } else {
        lemma_mass_update(v.drop_last(), i, x);
        assert(v.update(i, x).drop_last() =~= v.drop_last().update(i, x));
    }
}

pub open spec fn bounded(v: Seq<u64>) -> bool {
    forall|x: int| 0 <= x < v.len() ==> #[trigger] v[x] <= SCALE
}

pub open spec fn edges_within(edges: Seq<Edge>, n: int) -> bool {
    forall|k: int|
        #![trigger edges[k]]
        0 <= k < edges.len() ==> edges[k].from < n && edges[k].to < n && 0 < edges[k].weight
            <= edges[k].total
}

proof fn lemma_term_bounded(s: u64, w: u64, t: u64)
    requires
        s <= SCALE,
        0 < w <= t,
    ensures
        0 <= (s * w) / (t as int) <= s,
        s * w <= SCALE * 0x1_0000_0000_0000_0000,
{
    assert((s * w) / (t as int) <= s) by (nonlinear_arith)
        requires
            0 < w <= t,
            s >= 0,
    {
        assert(s * w <= s * t);
    }
    assert(s * w <= SCALE * 0x1_0000_0000_0000_0000) by (nonlinear_arith)
        requires
            s <= SCALE,
            w < 0x1_0000_0000_0000_0000,
    ;
    assert((s * w) / (t as int) >= 0) by (nonlinear_arith)
        requires
            w > 0,
            t > 0,
            s >= 0,
    ;
}

/// One iteration of the update rule.
fn step_scores(edges: &Vec<Edge>, seeds: &Vec<u64>, damping: u64, scores: &Vec<u64>) -> (r: Vec<u64>)
    requires
        scores@.len() == seeds@.len(),
        edges_within(edges@, scores@.len() as int),
        bounded(scores@),
        bounded(seeds@),
        damping <= SCALE,
    ensures
        r@ == step(edges@, seeds@, damping, scores@),
        bounded(r@),
{
    let n = scores.len();
    let mut acc: Vec<u128> = Vec::new();
    let mut x: usize = 0;
    while x < n
        invariant
            0 <= x <= n,
            acc@.len() == x,
            forall|y: int| 0 <= y < x ==> #[trigger] acc@[y] == 0,
        decreases n - x,
    {
        acc.push(0);
        x = x + 1;
    }
    let mut k: usize = 0;
    while k < edges.len()
        invariant
            n == scores@.len(),
            edges_within(edges@, n as int),
            bounded(scores@),
            0 <= k <= edges@.len(),
            acc@.len() == n,
            forall|y: int|
                0 <= y < n ==> #[trigger] acc@[y] == edge_sum(
                    edges@.take(k as int),
                    |e: Edge| contribution_term(scores@, y, e),
                ) && acc@[y] <= k * SCALE,
        decreases edges@.len() - k,
    {
        let e = edges[k];
        proof {
            lemma_term_bounded(scores@[e.from as int], e.weight, e.total);
        }
        let c = (scores[e.from] as u128 * e.weight as u128) / e.total as u128;
        let cur = acc[e.to];
        acc.set(e.to, cur + c);
        proof {
            assert(edges@.take(k + 1).drop_last() =~= edges@.take(k as int));
            assert(edges@.take(k + 1).last() == e);
            assert forall|y: int|
                0 <= y < n implies #[trigger] acc@[y] == edge_sum(
                    edges@.take(k + 1),
                    |e: Edge| contribution_term(scores@, y, e),
                ) && acc@[y] <= (k + 1) * SCALE by {
            }
        }
        k = k + 1;
    }
    proof {
        assert(edges@.take(edges@.len() as int) =~= edges@);
    }
    let ne = edges.len();
    let mut r: Vec<u64> = Vec::new();
    let mut x: usize = 0;
    while x < n
        invariant
            ne == edges@.len(),
            n == scores@.len(),
            n == seeds@.len(),
            bounded(seeds@),
            damping <= SCALE,
            0 <= x <= n,
            acc@.len() == n,
            forall|y: int|
                0 <= y < n ==> #[trigger] acc@[y] == contribution(edges@, scores@, y) && acc@[y]
                    <= edges@.len() * SCALE,
            r@.len() == x,
            forall|y: int|
                0 <= y < x ==> #[trigger] r@[y] == next_score(edges@, seeds@, damping, scores@, y),
            bounded(r@),
        decreases n - x,
    {
        let c = acc[x];
        proof {
            assert(edges@.len() * SCALE <= 0x1_0000_0000_0000_0000 * SCALE) by (nonlinear_arith)
                requires
                    edges@.len() == ne,
            ;
            assert((SCALE - damping) * c <= SCALE * (0x1_0000_0000_0000_0000 * SCALE)) by (nonlinear_arith)
                requires
                    c <= 0x1_0000_0000_0000_0000 * SCALE,
                    damping <= SCALE,
            ;
            assert(damping * seeds@[x as int] <= SCALE * SCALE) by (nonlinear_arith)
                requires
                    damping <= SCALE,
                    seeds@[x as int] <= SCALE,
            ;
        }
        let v = ((SCALE - damping) as u128 * c) / (SCALE as u128) + (damping as u128
            * seeds[x] as u128 + (SCALE - 1) as u128) / (SCALE as u128);
        let s: u64 = if v < SCALE as u128 {
            v as u64
        } else {
            SCALE
        };
        r.push(s);
        x = x + 1;
    }
    proof {
        assert(r@ =~= step(edges@, seeds@, damping, scores@));
    }
    r
}

/// L1 distance of two score vectors.
fn distance_of(a: &Vec<u64>, b: &Vec<u64>) -> (r: u128)
    requires
        a@.len() == b@.len(),
    ensures
        r == distance(a@, b@),
{
    let n = a.len();
    let mut d: u128 = 0;
    let mut i: usize = 0;
    while i < n
        invariant
            n == a@.len(),
            n == b@.len(),
            0 <= i <= n,
            d == distance(a@.take(i as int), b@.take(i as int)),
            d <= i * 0x1_0000_0000_0000_0000,
        decreases n - i,
    {
        proof {
            assert(a@.take(i + 1).drop_last() =~= a@.take(i as int));
            assert(b@.take(i + 1).drop_last() =~= b@.take(i as int));
            assert(a@.take(i + 1).last() == a@[i as int]);
            assert(b@.take(i + 1).last() == b@[i as int]);
        }
        if a[i] >= b[i] {
            d = d + (a[i] - b[i]) as u128;
        } else {
            d = d + (b[i] - a[i]) as u128;
        }
        i = i + 1;
    }
    proof {
        assert(a@.take(n as int) =~= a@);
        assert(b@.take(n as int) =~= b@);
    }
    d
}

/// The fixed-point seed share of each of `names`.
pub open spec fn shares(v: SeedVector, names: Seq<String>) -> Seq<u64> {
    Seq::new(names.len(), |x: int| seed_share(v, names[x]@) as u64)
}

/// The rankings of `accounts` with their `scores`, in account order.
pub open spec fn pairs(accounts: Seq<String>, scores: Seq<u64>) -> Seq<Ranking> {
    Seq::new(accounts.len(), |x: int| Ranking { user_id: accounts[x], score: scores[x] })
}

/// The outcome of a propagation.
pub struct Propagation {
    /// The accounts of the matrix, in its order, then the seeds it lacks.
    pub accounts: Vec<String>,
    /// Final score of each account, in units of `1 / SCALE`.
    pub scores: Vec<u64>,
    pub termination: Termination,
    /// Every account with its score, sorted.
    pub rankings: Vec<Ranking>,
}

impl Propagation {
    /// `self` is the propagation of matrix `m` anchored at seeds `v`.
    pub open spec fn propagated(
        &self,
        m: LocalTrustMatrix,
        v: SeedVector,
        damping: u64,
        max_iterations: u64,
        tolerance: u64,
    ) -> bool {
        let seeds = shares(v, self.accounts@);
        let outcome = run(m.edges@, seeds, damping, seeds, max_iterations as nat, tolerance);
        &&& distinct_accounts(self.accounts@)
        &&& m.accounts@.len() <= self.accounts@.len()
        &&& forall|a: int| 0 <= a < m.accounts@.len() ==> #[trigger] self.accounts@[a] == m.accounts@[a]
        &&& forall|a: int| 0 <= a < v.accounts@.len() ==> lists(self.accounts@, (#[trigger] v.accounts@[a])@)
        &&& forall|x: int|
            m.accounts@.len() <= x < self.accounts@.len() ==> lists(v.accounts@, (#[trigger] self.accounts@[x])@)
        &&& self.scores@ == outcome.0
        &&& self.termination == outcome.1
        &&& self.rankings@.len() == self.accounts@.len()
        &&& ranking_sorted(self.rankings@)
        &&& forall|i: int|
            0 <= i < self.rankings@.len() ==> pairs(self.accounts@, self.scores@).contains(#[trigger] self.rankings@[i])
        &&& forall|x: int|
            0 <= x < self.accounts@.len() ==> self.rankings@.contains(#[trigger] pairs(self.accounts@, self.scores@)[x])
    }
}

proof fn lemma_ceil_share_bounded(w: int, t: int)
    requires
        0 <= w <= t,
        t > 0,
    ensures
        0 <= (SCALE * w + t - 1) / t <= SCALE,
{
    assert(SCALE * w <= SCALE * t) by (nonlinear_arith)
        requires w <= t;
    assert(SCALE * w + t - 1 < (SCALE + 1) * t) by (nonlinear_arith)
        requires SCALE * w <= SCALE * t, t > 0;
    assert((SCALE * w + t - 1) / t < SCALE + 1) by (nonlinear_arith)
        requires SCALE * w + t - 1 < (SCALE + 1) * t, t > 0;
    assert((SCALE * w + t - 1) / t >= 0) by (nonlinear_arith)
        requires SCALE * w + t - 1 >= 0, t > 0;
}

/// Fixed-point seed share of `name`.
fn share_of(v: &SeedVector, name: &String) -> (r: u64)
    requires
        v.wf(),
    ensures
        r == seed_share(*v, name@),
        r <= SCALE,
{
    let mut a: usize = 0;
    while a < v.accounts.len()
        invariant
            v.wf(),
            0 <= a <= v.accounts@.len(),
            forall|b: int| 0 <= b < a ==> v.accounts@[b]@ != name@,
        decreases v.accounts@.len() - a,
    {
        if v.accounts[a] == *name {
            let w = v.weights[a];
            proof {
                let c = choose|c: int| 0 <= c < v.accounts@.len() && #[trigger] v.accounts@[c]@ == name@;
                assert(c == a);
                assert(v.weights@[a as int] <= v.total);
                assert(SCALE * w <= SCALE * v.total) by (nonlinear_arith)
                    requires w <= v.total;
                lemma_ceil_share_bounded(w as int, v.total as int);
                assert(SCALE * w <= SCALE * 0x1_0000_0000_0000_0000) by (nonlinear_arith)
                    requires w < 0x1_0000_0000_0000_0000;
            }
            return ((SCALE as u128 * w as u128 + (v.total - 1) as u128) / v.total as u128) as u64;
        }
        a = a + 1;
    }
    proof {
        let t = v.total as int;
        assert((SCALE * 0 + t - 1) / t == 0) by (nonlinear_arith)
            requires t > 0;
    }
    0
}

/// Runs the power iteration of `matrix` anchored at `seed`: it starts from
/// the seed shares and stops after `max_iterations` iterations or once one
/// iteration moves the scores by less than `tolerance` in total; `damping`
/// and the scores are in units of `1 / SCALE`. An empty seed stands for
/// every account of the matrix once; with an empty matrix too there is
/// nothing to rank.
pub fn propagate(
    matrix: &LocalTrustMatrix,
    seed: &SeedVector,
    damping: u64,
    max_iterations: u64,
    tolerance: u64,
) -> (r: Result<Propagation, EngineError>)
    requires
        matrix.wf(),
        seed.wf() || seed.accounts@.len() == 0,
        0 < damping < SCALE,
    ensures
        match r {
            Err(e) => e == EngineError::EmptyMatrix && seed.accounts@.len() == 0
                && matrix.accounts@.len() == 0,
            Ok(p) => exists|v: SeedVector|
                (if seed.accounts@.len() > 0 {
                    v == *seed
                } else {
                    uniform_over(v, *matrix)
                }) && #[trigger] p.propagated(*matrix, v, damping, max_iterations, tolerance),
        },
{
    if seed.accounts.len() == 0 {
        if matrix.accounts.len() == 0 {
            return Err(EngineError::EmptyMatrix);
        }
        let u = uniform_seed(matrix);
        let p = propagate_from(matrix, &u, damping, max_iterations, tolerance);
        assert(uniform_over(u, *matrix));
        return Ok(p);
    }
    let p = propagate_from(matrix, seed, damping, max_iterations, tolerance);
    Ok(p)
}

fn propagate_from(
    matrix: &LocalTrustMatrix,
    seed: &SeedVector,
    damping: u64,
    max_iterations: u64,
    tolerance: u64,
) -> (r: Propagation)
    requires
        matrix.wf(),
        seed.wf(),
        0 < damping < SCALE,
    ensures
        r.propagated(*matrix, *seed, damping, max_iterations, tolerance),
{
    let mut names: Vec<String> = Vec::new();
    let mut i: usize = 0;
    while i < matrix.accounts.len()
        invariant
            matrix.wf(),
            0 <= i <= matrix.accounts@.len(),
            names@ == matrix.accounts@.take(i as int),
        decreases matrix.accounts@.len() - i,
    {
        names.push(matrix.accounts[i].clone());
        proof {
            assert(names@ =~= matrix.accounts@.take(i + 1));
        }
        i = i + 1;
    }
    proof {
        assert(names@ =~= matrix.accounts@);
    }
    let mut j: usize = 0;
    while j < seed.accounts.len()
        invariant
            matrix.wf(),
            seed.wf(),
            0 <= j <= seed.accounts@.len(),
            distinct_accounts(names@),
            matrix.accounts@.len() <= names@.len(),
            forall|a: int| 0 <= a < matrix.accounts@.len() ==> #[trigger] names@[a] == matrix.accounts@[a],
            forall|a: int| 0 <= a < j ==> lists(names@, (#[trigger] seed.accounts@[a])@),
            forall|x: int|
                matrix.accounts@.len() <= x < names@.len() ==> lists(seed.accounts@, (#[trigger] names@[x])@),
        decreases seed.accounts@.len() - j,
    {
        let ghost n0 = names@;
        let idx = intern(&mut names, &seed.accounts[j]);
        proof {
            assert forall|a: int| 0 <= a < j + 1 implies lists(names@, (#[trigger] seed.accounts@[a])@) by {
                if a < j {
                    let b = choose|b: int| 0 <= b < n0.len() && #[trigger] n0[b]@ == seed.accounts@[a]@;
                    assert(names@[b] == n0[b]);
                } else {
                    assert(names@[idx as int]@ == seed.accounts@[a]@);
                }
            }
            assert forall|x: int|
                matrix.accounts@.len() <= x < names@.len() implies lists(seed.accounts@, (#[trigger] names@[x])@) by {
                if x < n0.len() {
                    assert(names@[x] == n0[x]);
                } else {
                    assert(seed.accounts@[j as int]@ == names@[x]@);
                }
            }
        }
        j = j + 1;
    }
    let n = names.len();
    let mut seeds: Vec<u64> = Vec::new();
    let mut cur: Vec<u64> = Vec::new();
    let mut x: usize = 0;
    while x < n
        invariant
            seed.wf(),
            n == names@.len(),
            0 <= x <= n,
            seeds@ == shares(*seed, names@).take(x as int),
            cur@ == seeds@,
            bounded(seeds@),
        decreases n - x,
    {
        let sh = share_of(seed, &names[x]);
        seeds.push(sh);
        cur.push(sh);
        proof {
            assert(seeds@ =~= shares(*seed, names@).take(x + 1));
        }
        x = x + 1;
    }
    proof {
        assert(seeds@ =~= shares(*seed, names@));
        assert forall|k: int| #![trigger matrix.edges@[k]] 0 <= k < matrix.edges@.len() implies matrix.edges@[k].from < n
            && matrix.edges@[k].to < n by {}
    }
    let ghost target = run(matrix.edges@, seeds@, damping, seeds@, max_iterations as nat, tolerance);
    let mut termination = Termination::MaxIterationsReached;
    let mut done = false;
    let mut it: u64 = 0;
    while it < max_iterations && !done
        invariant
            n == names@.len(),
            seeds@.len() == n,
            cur@.len() == n,
            bounded(seeds@),
            bounded(cur@),
            edges_within(matrix.edges@, n as int),
            0 < damping < SCALE,
            it <= max_iterations,
            !done ==> target == run(matrix.edges@, seeds@, damping, cur@, (max_iterations - it) as nat, tolerance),
            !done ==> termination == Termination::MaxIterationsReached,
            done ==> target == (cur@, termination),
        decreases max_iterations - it,
    {
        let next = step_scores(&matrix.edges, &seeds, damping, &cur);
        let d = distance_of(&next, &cur);
        if d < tolerance as u128 {
            termination = Termination::Converged;
            done = true;
        }
        cur = next;
        it = it + 1;
    }
    let mut items: Vec<Ranking> = Vec::new();
    let mut x: usize = 0;
    while x < n
        invariant
            n == names@.len(),
            cur@.len() == n,
            0 <= x <= n,
            items@ == pairs(names@, cur@).take(x as int),
        decreases n - x,
    {
        items.push(Ranking { user_id: names[x].clone(), score: cur[x] });
        proof {
            assert(items@ =~= pairs(names@, cur@).take(x + 1));
        }
        x = x + 1;
    }
    proof {
        assert(items@ =~= pairs(names@, cur@));
    }
    let rankings = sort_rankings(items);
    Propagation { accounts: names, scores: cur, termination, rankings }
}

} // verus!
