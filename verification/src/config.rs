//! Parameters of the consensus algorithm.

use vstd::prelude::*;

verus! {

pub const DEFERRED_STATE_EPOCH_COUNT: u64 = 5;

/// Rewards are paid this many epochs later. It is larger than
/// `ANTICONE_PENALTY_UPPER_EPOCH_COUNT`.
pub const REWARD_EPOCH_COUNT: u64 = 12;

pub const ANTICONE_PENALTY_UPPER_EPOCH_COUNT: u64 = 10;

pub const ANTICONE_PENALTY_RATIO: u64 = 100;

pub const GAS_PRICE_BLOCK_SAMPLE_SIZE: usize = 100;

pub const GAS_PRICE_TRANSACTION_SAMPLE_SIZE: usize = 10000;

pub const ADAPTIVE_WEIGHT_DEFAULT_ALPHA_NUM: u64 = 2;

pub const ADAPTIVE_WEIGHT_DEFAULT_ALPHA_DEN: u64 = 3;

pub const ADAPTIVE_WEIGHT_DEFAULT_BETA: u64 = 1000;

pub const HEAVY_BLOCK_DEFAULT_DIFFICULTY_RATIO: u64 = 240;

/// With an anticone barrier of more than this size the subtree weights are
/// computed afresh.
pub const ANTICONE_BARRIER_CAP: usize = 1000;

/// The number of epochs per era. Each era is a potential checkpoint position;
/// parent and adaptivity checks are relative to the era's first block.
pub const ERA_EPOCH_COUNT: usize = 10000;

pub const MAX_NUM_MAINTAINED_RISK: usize = 10;

/// The risk that is too small to be kept, in millionths.
pub const MIN_MAINTAINED_RISK: u32 = 1;

#[derive(Copy, Clone)]
pub struct ConsensusInnerConfig {
    /// The adaptive alpha is `adaptive_weight_alpha_num / adaptive_weight_alpha_den`.
    pub adaptive_weight_alpha_num: u64,
    pub adaptive_weight_alpha_den: u64,
    /// The adaptive threshold, in units of a block's difficulty.
    pub adaptive_weight_beta: u64,
    /// How many times its difficulty a heavy block's proof of work is worth.
    pub heavy_block_difficulty_ratio: u64,
    /// Whether epochs are executed ahead of the deferred boundary.
    pub enable_optimistic_execution: bool,
}

pub struct ConsensusConfig {
    /// Where to dump a block with an invalid state root.
    pub debug_dump_dir_invalid_state_root: String,
    /// Skips the check of the adaptive field.
    pub bench_mode: bool,
    pub inner_conf: ConsensusInnerConfig,
}

/// What the graph reads of the proof-of-work configuration.
#[derive(Copy, Clone)]
pub struct ProofOfWorkConfig {
    pub initial_difficulty: u64,
    pub difficulty_adjustment_epoch_period: u64,
}

#[derive(Debug)]
pub struct ConsensusGraphStatistics {
    pub inserted_block_count: usize,
}

impl ConsensusGraphStatistics {
    pub fn new() -> (statistics: ConsensusGraphStatistics)
        ensures
            statistics.inserted_block_count == 0,
    {
        ConsensusGraphStatistics { inserted_block_count: 0 }
    }
}

} // verus!
