use vstd::prelude::*;

verus! {

/// Fixed-point unit of trust: a score of `SCALE` stands for 1.0.
pub const SCALE: u64 = 1_000_000_000;

/// One directed edge's raw signal counts: `follower` interacted with `follows`.
pub struct Interaction {
    pub follower: String,
    pub follows: String,
    pub mentions: u32,
    pub reposts: u32,
    pub replies: u32,
}

/// Weights that combine the raw counts of an interaction into an edge weight.
#[derive(Clone, Copy, Debug, PartialEq, Eq, Structural)]
pub struct StrategyConfig {
    pub likes_weight: u8,
    pub replies_weight: u8,
    pub reposts_weight: u8,
    pub mentions_weight: u8,
    pub boost_weight: u8,
}

/// The weight that one interaction adds to its (follower, follows) pair:
/// a floor of one, the weighted counts, and the boost. Likes are not counted.
pub open spec fn interaction_weight(i: Interaction, c: StrategyConfig) -> int {
    1 + c.mentions_weight * i.mentions + c.reposts_weight * i.reposts + c.replies_weight
        * i.replies + c.boost_weight
}

/// An upper bound on the weight of any single interaction.
pub open spec fn max_interaction_weight() -> int {
    0x400_0000_0000
}

proof fn lemma_small_product(a: u64, b: u64)
    requires
        a <= 255,
        b <= 0xffff_ffff,
    ensures
        a * b <= 255 * 0xffff_ffff,
{
    assert(a * b <= 255 * 0xffff_ffff) by (nonlinear_arith)
        requires
            a <= 255,
            b <= 0xffff_ffff,
    ;
}

impl Interaction {
    pub fn new(follower: String, follows: String, mentions: u32, reposts: u32, replies: u32) -> (r:
        Interaction)
        ensures
            r.follower == follower,
            r.follows == follows,
            r.mentions == mentions,
            r.reposts == reposts,
            r.replies == replies,
    {
        Interaction { follower, follows, mentions, reposts, replies }
    }

    /// The edge weight this interaction contributes under `config`.
    pub fn weight(&self, config: StrategyConfig) -> (r: u64)
        ensures
            r as int == interaction_weight(*self, config),
            0 < r <= max_interaction_weight(),
    {
        let (a1, b1) = (config.mentions_weight as u64, self.mentions as u64);
        let (a2, b2) = (config.reposts_weight as u64, self.reposts as u64);
        let (a3, b3) = (config.replies_weight as u64, self.replies as u64);
        proof {
            lemma_small_product(a1, b1);
            lemma_small_product(a2, b2);
            lemma_small_product(a3, b3);
        }
        let m = a1 * b1;
        let p = a2 * b2;
        let q = a3 * b3;
        1 + m + p + q + config.boost_weight as u64
    }
}

impl Default for StrategyConfig {
    fn default() -> (r: StrategyConfig)
        ensures
            r == (StrategyConfig {
                likes_weight: 1,
                replies_weight: 1,
                reposts_weight: 1,
                mentions_weight: 1,
                boost_weight: 0,
            }),
    {
        StrategyConfig {
            likes_weight: 1,
            replies_weight: 1,
            reposts_weight: 1,
            mentions_weight: 1,
            boost_weight: 0,
        }
    }
}

/// Named choices of `StrategyConfig`.
#[derive(Clone, Copy, Debug, PartialEq, Eq, Structural)]
pub enum LocalTrustStrategy {
    ExistingConnections,
    L1Rep1Rec1M1Enhanced,
    L1Rep6Rec3M12Enhanced,
}

/// The configuration that each strategy stands for: likes, reposts, replies
/// and mentions weighted as the strategy's name spells out.
pub open spec fn strategy_config(s: LocalTrustStrategy) -> StrategyConfig {
    match s {
        LocalTrustStrategy::ExistingConnections => StrategyConfig {
            likes_weight: 1,
            replies_weight: 1,
            reposts_weight: 1,
            mentions_weight: 1,
            boost_weight: 0,
        },
        LocalTrustStrategy::L1Rep1Rec1M1Enhanced => StrategyConfig {
            likes_weight: 1,
            replies_weight: 1,
            reposts_weight: 1,
            mentions_weight: 1,
            boost_weight: 1,
        },
        LocalTrustStrategy::L1Rep6Rec3M12Enhanced => StrategyConfig {
            likes_weight: 1,
            replies_weight: 3,
            reposts_weight: 6,
            mentions_weight: 12,
            boost_weight: 1,
        },
    }
}

impl LocalTrustStrategy {
    pub fn config(&self) -> (r: StrategyConfig)
        ensures
            r == strategy_config(*self),
    {
        match self {
            LocalTrustStrategy::ExistingConnections => StrategyConfig::default(),
            LocalTrustStrategy::L1Rep1Rec1M1Enhanced => StrategyConfig {
                likes_weight: 1,
                replies_weight: 1,
                reposts_weight: 1,
                mentions_weight: 1,
                boost_weight: 1,
            },
            LocalTrustStrategy::L1Rep6Rec3M12Enhanced => StrategyConfig {
                likes_weight: 1,
                replies_weight: 3,
                reposts_weight: 6,
                mentions_weight: 12,
                boost_weight: 1,
            },
        }
    }
}

/// How the seed accounts are weighted.
#[derive(Clone, Copy, Debug, PartialEq, Eq, Structural)]
pub enum SeedStrategy {
    /// Every seed account counts once.
    Basic,
    /// Every seed account counts by a supplied importance.
    Enhanced,
}

/// Why a computation was refused.
#[derive(Clone, Copy, Debug, PartialEq, Eq, Structural)]
pub enum EngineError {
    /// An interaction whose follower and followed account are the same.
    InvalidInteraction,
    /// No seed accounts were given.
    EmptySeedSet,
    /// A seed account's importance is zero.
    NonPositiveWeight,
    /// Neither interactions nor seeds: nothing to rank.
    EmptyMatrix,
    /// The summed weights do not fit in 64 bits.
    WeightOverflow,
}

/// How propagation stopped.
#[derive(Clone, Copy, Debug, PartialEq, Eq, Structural)]
pub enum Termination {
    Converged,
    MaxIterationsReached,
}

/// One account's final score, in units of `1 / SCALE`.
pub struct Ranking {
    pub user_id: String,
    pub score: u64,
}

} // verus!
