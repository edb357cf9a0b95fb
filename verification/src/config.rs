//! Runtime settings of the engine.

use crate::types::{gas_cost_for, gas_cost_of};
use vstd::prelude::*;

verus! {

/// Configuration structure for runtime settings
#[derive(Debug, Clone)]
pub struct Config {
    pub rpc_url: String,
    /// Gas price, in millionths of a gwei.
    pub gas_price_gwei: u64,
    pub block_time_seconds: u64,
    pub max_retries: u32,
    pub csv_file_path: String,
    /// Fee of a swap, in millionths of the input.
    pub dex_fee: u64,
    pub ternary_search_iterations: usize,
}

impl Config {
    /// Calculate precise gas cost based on gas units, in millionths of the native token.
    pub fn calculate_gas_cost(&self, gas_units: u64) -> (cost: u128)
        ensures
            cost == gas_cost_of(gas_units as nat, self.gas_price_gwei as nat),
    {
        gas_cost_for(gas_units, self.gas_price_gwei)
    }
}

} // verus!
