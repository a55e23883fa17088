//! Costs and capacities shared by both planning stages.
use vstd::prelude::*;

verus! {

/// The cost and capacity rules that both stages score against.
#[derive(Debug, Clone, Copy, PartialEq, Eq, Structural)]
pub struct Config {
    /// Largest total volume a batch may hold.
    pub max_weight_per_batch: u64,
    /// Largest number of units a wave may hold.
    pub max_articles_per_waive: u64,
    /// Tour cost for each distinct warehouse a batch visits.
    pub cost_per_warehouse: u32,
    /// Tour cost for each distinct (warehouse, aisle) pair a batch visits.
    pub cost_per_aisle: u32,
    /// Fixed cost of each batch.
    pub cost_per_batch: u32,
    /// Fixed cost of each wave.
    pub cost_per_waive: u32,
}

pub const MAX_WEIGHT_PER_BATCH: u64 = 1000;

pub const MAX_ARTICLES_PER_WAIVE: u64 = 250;

pub const COST_PER_WAREHOUSE: u32 = 10;

pub const COST_PER_AISLE: u32 = 5;

pub const COST_PER_BATCH: u32 = 10;

pub const COST_PER_WAIVE: u32 = 10;

impl Config {
    /// The standard rules.
    pub fn standard() -> (r: Config)
        ensures
            r.max_weight_per_batch == MAX_WEIGHT_PER_BATCH,
            r.max_articles_per_waive == MAX_ARTICLES_PER_WAIVE,
            r.cost_per_warehouse == COST_PER_WAREHOUSE,
            r.cost_per_aisle == COST_PER_AISLE,
            r.cost_per_batch == COST_PER_BATCH,
            r.cost_per_waive == COST_PER_WAIVE,
    {
        Config {
            max_weight_per_batch: MAX_WEIGHT_PER_BATCH,
            max_articles_per_waive: MAX_ARTICLES_PER_WAIVE,
            cost_per_warehouse: COST_PER_WAREHOUSE,
            cost_per_aisle: COST_PER_AISLE,
            cost_per_batch: COST_PER_BATCH,
            cost_per_waive: COST_PER_WAIVE,
        }
    }
}

} // verus!
