use vstd::prelude::*;

use crate::matrix::{distinct_accounts, intern, LocalTrustMatrix};
use crate::propagate::{lemma_mass_update, mass};
use crate::types::{EngineError, SeedStrategy};

verus! {

/// The pre-trusted distribution: account `accounts[a]` has weight
/// `weights[a] / total`.
pub struct SeedVector {
    pub accounts: Vec<String>,
    pub weights: Vec<u64>,
    pub total: u64,
}

/// What each listed seed counts for: one under `Basic`, its importance under
/// `Enhanced`.
pub open spec fn seed_unit(strategy: SeedStrategy, importance: Seq<u64>, k: int) -> int {
    match strategy {
        SeedStrategy::Basic => 1,
        SeedStrategy::Enhanced => importance[k] as int,
    }
}

/// Summed units of the listed seeds named `name`.
pub open spec fn seed_mass(
    seeds: Seq<String>,
    strategy: SeedStrategy,
    importance: Seq<u64>,
    name: Seq<char>,
) -> int
    decreases seeds.len(),
{
    if seeds.len() == 0 {
        0
    } else {
        seed_mass(seeds.drop_last(), strategy, importance, name) + if seeds.last()@ == name {
            seed_unit(strategy, importance, seeds.len() - 1)
        } else {
            0
        }
    }
}

/// Summed units of all listed seeds.
pub open spec fn seed_total(seeds: Seq<String>, strategy: SeedStrategy, importance: Seq<u64>) -> int
    decreases seeds.len(),
{
    if seeds.len() == 0 {
        0
    } else {
        seed_total(seeds.drop_last(), strategy, importance) + seed_unit(
            strategy,
            importance,
            seeds.len() - 1,
        )
    }
}

pub open spec fn has_zero_importance(n: int, importance: Seq<u64>) -> bool {
    exists|k: int| 0 <= k < n && importance[k] == 0
}

/// Some entry of `accounts` is named `name`.
pub open spec fn lists(accounts: Seq<String>, name: Seq<char>) -> bool {
    exists|a: int| 0 <= a < accounts.len() && #[trigger] accounts[a]@ == name
}

impl SeedVector {
    /// `self` is the distribution of the listed seeds under `strategy`.
    pub open spec fn built_from(
        &self,
        seeds: Seq<String>,
        strategy: SeedStrategy,
        importance: Seq<u64>,
    ) -> bool {
        &&& seeds.len() > 0
        &&& strategy == SeedStrategy::Enhanced ==> !has_zero_importance(seeds.len() as int, importance)
        &&& self.wf()
        &&& self.total == seed_total(seeds, strategy, importance)
        &&& forall|a: int|
            0 <= a < self.accounts@.len() ==> #[trigger] self.weights@[a] == seed_mass(
                seeds,
                strategy,
                importance,
                self.accounts@[a]@,
            )
        &&& forall|k: int| 0 <= k < seeds.len() ==> lists(self.accounts@, (#[trigger] seeds[k])@)
    }

    pub open spec fn wf(&self) -> bool {
        &&& distinct_accounts(self.accounts@)
        &&& self.weights@.len() == self.accounts@.len()
        &&& self.total > 0
        &&& mass(self.weights@) == self.total
        &&& forall|a: int|
            0 <= a < self.weights@.len() ==> 0 < #[trigger] self.weights@[a] <= self.total
    }

    /// Weight of account `name`, zero when it is not a seed.
    pub open spec fn weight_of(&self, name: Seq<char>) -> int {
        if exists|a: int| 0 <= a < self.accounts@.len() && #[trigger] self.accounts@[a]@ == name {
            let a = choose|a: int| 0 <= a < self.accounts@.len() && #[trigger] self.accounts@[a]@ == name;
            self.weights@[a] as int
        } else {
            0
        }
    }
}

proof fn lemma_mass_bounded(
    seeds: Seq<String>,
    strategy: SeedStrategy,
    importance: Seq<u64>,
    name: Seq<char>,
)
    ensures
        0 <= seed_mass(seeds, strategy, importance, name) <= seed_total(seeds, strategy, importance),
    decreases seeds.len(),
{
    if seeds.len() > 0 {
        lemma_mass_bounded(seeds.drop_last(), strategy, importance, name);
    }
}

proof fn lemma_total_prefix(seeds: Seq<String>, strategy: SeedStrategy, importance: Seq<u64>, j: int)
    requires
        0 <= j <= seeds.len(),
    ensures
        seed_total(seeds.take(j), strategy, importance) <= seed_total(seeds, strategy, importance),
    decreases seeds.len(),
{
    if j == seeds.len() {
        assert(seeds.take(j) =~= seeds);
    } else {
        lemma_total_prefix(seeds.drop_last(), strategy, importance, j);
        assert(seeds.drop_last().take(j) =~= seeds.take(j));
    }
}

/// Builds the seed distribution of `seed_accounts`: under `Basic` every listed
/// account counts once, under `Enhanced` by its entry in `importance`. A seed
/// listed twice counts twice.
pub fn build_seed_vector(
    seed_accounts: &Vec<String>,
    importance: &Vec<u64>,
    strategy: SeedStrategy,
) -> (r: Result<SeedVector, EngineError>)
    requires
        strategy == SeedStrategy::Enhanced ==> importance@.len() == seed_accounts@.len(),
    ensures
        match r {
            Err(e) => (e == EngineError::EmptySeedSet && seed_accounts@.len() == 0) || (e
                == EngineError::NonPositiveWeight && seed_accounts@.len() > 0 && strategy
                == SeedStrategy::Enhanced && has_zero_importance(
                seed_accounts@.len() as int,
                importance@,
            )) || (e == EngineError::WeightOverflow && seed_accounts@.len() > 0 && strategy
                == SeedStrategy::Enhanced && !has_zero_importance(
                seed_accounts@.len() as int,
                importance@,
            ) && seed_total(seed_accounts@, strategy, importance@) > u64::MAX),
            Ok(v) => v.built_from(seed_accounts@, strategy, importance@),
        },
{
    let n = seed_accounts.len();
    if n == 0 {
        return Err(EngineError::EmptySeedSet);
    }
    let s = Ghost(seed_accounts@);
    let imp = Ghost(importance@);
    let mut total: u128 = 0;
    let mut k: usize = 0;
    while k < n
        invariant
            s@ == seed_accounts@,
            imp@ == importance@,
            n == s@.len(),
            strategy == SeedStrategy::Enhanced ==> imp@.len() == n,
            0 <= k <= n,
            total == seed_total(s@.take(k as int), strategy, imp@),
            total <= k * 0x1_0000_0000_0000_0000,
            strategy == SeedStrategy::Basic ==> total == k,
            strategy == SeedStrategy::Enhanced ==> forall|j: int| 0 <= j < k ==> #[trigger] imp@[j] != 0,
        decreases n - k,
    {
        let unit: u64 = match strategy {
            SeedStrategy::Basic => 1,
            SeedStrategy::Enhanced => importance[k],
        };
        if unit == 0 {
            return Err(EngineError::NonPositiveWeight);
        }
        proof {
            assert(s@.take(k + 1).drop_last() =~= s@.take(k as int));
        }
        total = total + unit as u128;
        k = k + 1;
    }
    proof {
        assert(s@.take(n as int) =~= s@);
    }
    assert(strategy == SeedStrategy::Enhanced ==> !has_zero_importance(n as int, imp@));
    if total > u64::MAX as u128 {
        return Err(EngineError::WeightOverflow);
    }
    let mut accounts: Vec<String> = Vec::new();
    let mut weights: Vec<u64> = Vec::new();
    let mut k: usize = 0;
    while k < n
        invariant
            s@ == seed_accounts@,
            imp@ == importance@,
            n == s@.len(),
            n > 0,
            strategy == SeedStrategy::Enhanced ==> imp@.len() == n,
            strategy == SeedStrategy::Enhanced ==> forall|j: int| 0 <= j < n ==> #[trigger] imp@[j] != 0,
            total == seed_total(s@, strategy, imp@),
            total <= u64::MAX,
            0 <= k <= n,
            distinct_accounts(accounts@),
            weights@.len() == accounts@.len(),
            mass(weights@) == seed_total(s@.take(k as int), strategy, imp@),
            forall|a: int|
                0 <= a < accounts@.len() ==> #[trigger] weights@[a] == seed_mass(
                    s@.take(k as int),
                    strategy,
                    imp@,
                    accounts@[a]@,
                ) && weights@[a] > 0,
            forall|j: int| 0 <= j < k ==> lists(accounts@, (#[trigger] s@[j])@),
        decreases n - k,
    {
        let ghost a0 = accounts@;
        let ghost w0 = weights@;
        let unit: u64 = match strategy {
            SeedStrategy::Basic => 1,
            SeedStrategy::Enhanced => importance[k],
        };
        let idx = intern(&mut accounts, &seed_accounts[k]);
        if idx == weights.len() {
            weights.push(0);
        }
        proof {
            let t = s@.take(k + 1);
            assert(t.drop_last() =~= s@.take(k as int));
            assert(t.last() == s@[k as int]);
            lemma_mass_bounded(t, strategy, imp@, s@[k as int]@);
            lemma_total_prefix(s@, strategy, imp@, k + 1);
            if idx == a0.len() {
                assert forall|j: int| 0 <= j < k implies s@[j]@ != s@[k as int]@ by {
                    if s@[j]@ == s@[k as int]@ {
                        assert(lists(a0, s@[j]@));
                        let a = choose|a: int| 0 <= a < a0.len() && #[trigger] a0[a]@ == s@[j]@;
                        assert(accounts@[a] == a0[a]);
                        assert(accounts@[a]@ != accounts@[idx as int]@);
                    }
                }
                lemma_mass_absent(s@.take(k as int), strategy, imp@, s@[k as int]@);
            }
        }
        let ghost w1 = weights@;
        proof {
            assert(w1.drop_last() =~= w0 || w1 == w0);
        }
        let cur = weights[idx];
        weights.set(idx, cur + unit);
        proof {
            lemma_mass_update(w1, idx as int, (cur + unit) as u64);
            let t = s@.take(k + 1);
            assert forall|a: int| 0 <= a < accounts@.len() implies #[trigger] weights@[a] == seed_mass(
                t,
                strategy,
                imp@,
                accounts@[a]@,
            ) && weights@[a] > 0 by {
                if a < a0.len() {
                    assert(accounts@[a] == a0[a]);
                }
            }
            assert forall|j: int| 0 <= j < k + 1 implies lists(accounts@, (#[trigger] s@[j])@) by {
                if j < k {
                    assert(lists(a0, s@[j]@));
                        let a = choose|a: int| 0 <= a < a0.len() && #[trigger] a0[a]@ == s@[j]@;
                    assert(accounts@[a] == a0[a]);
                    assert(lists(accounts@, s@[j]@));
                } else {
                    assert(accounts@[idx as int]@ == s@[j]@);
                    assert(lists(accounts@, s@[j]@));
                }
            }
        }
        k = k + 1;
    }
    proof {
        assert(s@.take(n as int) =~= s@);
        assert forall|a: int| 0 <= a < weights@.len() implies 0 < #[trigger] weights@[a] <= total by {
            lemma_mass_bounded(s@, strategy, imp@, accounts@[a]@);
        }
        assert(total > 0) by {
            assert(lists(accounts@, s@[0]@));
            let a = choose|a: int| 0 <= a < accounts@.len() && #[trigger] accounts@[a]@ == s@[0]@;
            assert(weights@[a] > 0);
            lemma_mass_bounded(s@, strategy, imp@, accounts@[a]@);
        }
    }
    let v = SeedVector { accounts, weights, total: total as u64 };
    assert(strategy == SeedStrategy::Enhanced ==> !has_zero_importance(n as int, imp@));
    assert(v.wf());
    Ok(v)
}

proof fn lemma_mass_absent(seeds: Seq<String>, strategy: SeedStrategy, importance: Seq<u64>, name: Seq<char>)
    requires
        forall|j: int| 0 <= j < seeds.len() ==> (#[trigger] seeds[j])@ != name,
    ensures
        seed_mass(seeds, strategy, importance, name) == 0,
    decreases seeds.len(),
{
    if seeds.len() > 0 {
        lemma_mass_absent(seeds.drop_last(), strategy, importance, name);
    }
}

/// `v` weighs every account of `m` once.
pub open spec fn uniform_over(v: SeedVector, m: LocalTrustMatrix) -> bool {
    &&& v.wf()
    &&& v.accounts@ == m.accounts@
    &&& v.total == m.accounts@.len()
    &&& forall|a: int| 0 <= a < v.weights@.len() ==> #[trigger] v.weights@[a] == 1
}

/// The fallback distribution: every account of the matrix counts once.
pub fn uniform_seed(matrix: &LocalTrustMatrix) -> (r: SeedVector)
    requires
        matrix.wf(),
        matrix.accounts@.len() > 0,
    ensures
        uniform_over(r, *matrix),
{
    let n = matrix.accounts.len();
    let mut accounts: Vec<String> = Vec::new();
    let mut weights: Vec<u64> = Vec::new();
    let mut i: usize = 0;
    while i < n
        invariant
            n == matrix.accounts@.len(),
            0 <= i <= n,
            accounts@ == matrix.accounts@.take(i as int),
            weights@.len() == i,
            mass(weights@) == i,
            forall|a: int| 0 <= a < i ==> #[trigger] weights@[a] == 1,
        decreases n - i,
    {
        accounts.push(matrix.accounts[i].clone());
        let ghost w0 = weights@;
        weights.push(1);
        proof {
            assert(weights@.drop_last() =~= w0);
            assert(accounts@ =~= matrix.accounts@.take(i + 1));
        }
        i = i + 1;
    }
    proof {
        assert(accounts@ =~= matrix.accounts@);
    }
    SeedVector { accounts, weights, total: n as u64 }
}

} // verus!
