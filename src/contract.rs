use vstd::prelude::*;
use vstd::string::StringExecFns;

use crate::matrix::{build_matrix, has_self_loop, total_weight, LocalTrustMatrix};
use crate::propagate::{propagate, Propagation};
use crate::seed::{
    build_seed_vector, has_zero_importance, seed_total, uniform_over, uniform_seed, SeedVector,
};
use crate::types::{
    strategy_config, EngineError, Interaction, LocalTrustStrategy, SeedStrategy,
};

verus! {

/// Default anchoring to the seeds: 0.1, in units of `1 / SCALE`.
pub const DEFAULT_DAMPING: u64 = 100_000_000;

/// Default bound on the number of iterations.
pub const DEFAULT_MAX_ITERATIONS: u64 = 10;

/// The ranking service: where interactions come from and rankings go.
pub struct EigenrankContract {
    pub social_db_contract_id: String,
}

/// The failure, if any, of a whole computation, checked in order: the
/// interactions, then the seeds.
pub open spec fn pipeline_error(
    s: Seq<Interaction>,
    seeds: Seq<String>,
    importance: Seq<u64>,
    strategy: SeedStrategy,
    local: LocalTrustStrategy,
) -> Option<EngineError> {
    let c = strategy_config(local);
    if has_self_loop(s) {
        Some(EngineError::InvalidInteraction)
    } else if total_weight(s, c) > u64::MAX {
        Some(EngineError::WeightOverflow)
    } else if seeds.len() == 0 {
        if s.len() == 0 {
            Some(EngineError::EmptyMatrix)
        } else {
            None
        }
    } else if strategy == SeedStrategy::Enhanced && has_zero_importance(
        seeds.len() as int,
        importance,
    ) {
        Some(EngineError::NonPositiveWeight)
    } else if strategy == SeedStrategy::Enhanced && seed_total(seeds, strategy, importance)
        > u64::MAX {
        Some(EngineError::WeightOverflow)
    } else {
        None
    }
}

/// The seed distribution the computation uses: the listed seeds, or every
/// account of the matrix once when none are listed.
pub open spec fn seeds_used(
    v: SeedVector,
    m: LocalTrustMatrix,
    seeds: Seq<String>,
    importance: Seq<u64>,
    strategy: SeedStrategy,
) -> bool {
    if seeds.len() == 0 {
        uniform_over(v, m)
    } else {
        v.built_from(seeds, strategy, importance)
    }
}

impl Default for EigenrankContract {
    fn default() -> (r: Self)
        ensures
            r.social_db_contract_id@ == "example.testnet"@,
    {
        EigenrankContract { social_db_contract_id: String::from_str("example.testnet") }
    }
}

impl EigenrankContract {
    pub fn new(social_db_contract_id: String) -> (r: Self)
        ensures
            r.social_db_contract_id == social_db_contract_id,
    {
        EigenrankContract { social_db_contract_id }
    }

    /// Ranks the accounts of `interactions`: builds the local-trust matrix
    /// under `localtrust_strategy`, the seed distribution of `seed_accounts`
    /// under `seed_strategy` (every account of the matrix once when no seed
    /// is listed), and runs the default number of iterations at the default
    /// damping, without early stop.
    pub fn calculate_eigenrank(
        &self,
        interactions: &Vec<Interaction>,
        seed_accounts: &Vec<String>,
        importance: &Vec<u64>,
        seed_strategy: SeedStrategy,
        localtrust_strategy: LocalTrustStrategy,
    ) -> (r: Result<Propagation, EngineError>)
        requires
            seed_strategy == SeedStrategy::Enhanced ==> importance@.len() == seed_accounts@.len(),
        ensures
            match r {
                Err(e) => pipeline_error(
                    interactions@,
                    seed_accounts@,
                    importance@,
                    seed_strategy,
                    localtrust_strategy,
                ) == Some(e),
                Ok(p) => pipeline_error(
                    interactions@,
                    seed_accounts@,
                    importance@,
                    seed_strategy,
                    localtrust_strategy,
                ) is None && exists|m: LocalTrustMatrix, v: SeedVector|
                    m.built_from(interactions@, strategy_config(localtrust_strategy)) && seeds_used(
                        v,
                        m,
                        seed_accounts@,
                        importance@,
                        seed_strategy,
                    ) && #[trigger] p.propagated(m, v, DEFAULT_DAMPING, DEFAULT_MAX_ITERATIONS, 0),
            },
    {
        let config = localtrust_strategy.config();
        let matrix = match build_matrix(interactions, config) {
            Ok(m) => m,
            Err(e) => {
                return Err(e);
            },
        };
        let seed = if seed_accounts.len() == 0 {
            if interactions.len() == 0 {
                return Err(EngineError::EmptyMatrix);
            }
            proof {
                assert(matrix.built_from(interactions@, config));
                assert(interactions@[0] == interactions@[0]);
                let k = choose|k: int|
                    0 <= k < matrix.edges@.len() && #[trigger] crate::matrix::covers(
                        matrix.accounts@,
                        matrix.edges@[k],
                        interactions@[0],
                    );
            }
            uniform_seed(&matrix)
        } else {
            match build_seed_vector(seed_accounts, importance, seed_strategy) {
                Ok(v) => v,
                Err(e) => {
                    return Err(e);
                },
            }
        };
        assert(seed.accounts@.len() > 0) by {
            if seed.accounts@.len() == 0 {
                assert(seed.weights@ =~= Seq::<u64>::empty());
            }
        }
        match propagate(&matrix, &seed, DEFAULT_DAMPING, DEFAULT_MAX_ITERATIONS, 0) {
            Ok(p) => Ok(p),
            Err(e) => Err(e),
        }
    }
}

} // verus!
