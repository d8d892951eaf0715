//! Trust scores for the members of a social graph: a row-stochastic
//! local-trust matrix built from interaction counts, a seed distribution over
//! pre-trusted accounts, and power iteration to a ranked global trust, all in
//! exact integer and fixed-point arithmetic.
use vstd::prelude::*;

pub mod types;
pub mod matrix;
pub mod seed;
pub mod propagate;
pub mod ranking;
pub mod contract;
pub mod laws;
pub mod storage;

pub use contract::{EigenrankContract, DEFAULT_DAMPING, DEFAULT_MAX_ITERATIONS};
pub use matrix::{build_matrix, Edge, LocalTrustMatrix};
pub use propagate::{propagate, Propagation};
pub use ranking::{id_le, sort_rankings};
pub use storage::{rankings_file, RankingsFile};
pub use seed::{build_seed_vector, uniform_seed, SeedVector};
pub use types::{
    EngineError, Interaction, LocalTrustStrategy, Ranking, SeedStrategy, StrategyConfig,
    Termination, SCALE,
};

verus! {

} // verus!
