//! Addresses of the known tokens and pools, and default settings.

use vstd::prelude::*;

verus! {

/// Pool addresses on Mantle Network
pub const MOE_WMNT_POOL: &'static str = "0x763868612858358f62b05691dB82Ad35a9b3E110";

pub const JOE_MOE_POOL: &'static str = "0xb670D2B452D0Ecc468cccFD532482d45dDdDe2a1";

pub const JOE_WMNT_POOL: &'static str = "0xEFC38C1B0d60725B824EBeE8D431aBFBF12BC953";

/// Token addresses on Mantle Network
pub const WMNT_ADDRESS: &'static str = "0x78c1b0c915c4faa5fffa6cabf0219da63d7f4cb8";

pub const MOE_ADDRESS: &'static str = "0x4515a45337f461a11ff0fe8abf3c606ae5dc00c9";

pub const JOE_ADDRESS: &'static str = "0x371c7ec6d8039ff7933a2aa28eb827ffe1f52f07";

/// Gas that a route of three swaps uses.
pub const GAS_UNITS_3_HOPS: u64 = 700_000;

/// Gas that a route of four swaps uses.
pub const GAS_UNITS_4_HOPS: u64 = 900_000;

/// Gas added per token of a route that is neither three nor four swaps long.
pub const GAS_UNITS_PER_TOKEN: u64 = 10_000;

/// Default gas price: 0.02 gwei, in millionths of a gwei.
pub const DEFAULT_GAS_PRICE_GWEI: u64 = 20_000;

/// Gas units times the gas price in millionths of a gwei, divided by this, is the
/// cost in millionths of the native token: a gwei is 10^-9 of it.
pub const GWEI_PER_MNT: u64 = 1_000_000_000;

/// Default cost of a transaction, in millionths of the native token.
pub const DEFAULT_TRANSACTION_COST_MNT: u64 = 20_000;

pub const DEFAULT_BLOCK_TIME_SECONDS: u64 = 2;

pub const DEFAULT_MAX_RETRIES: u32 = 3;

pub const DEFAULT_CSV_FILE_PATH: &'static str = "arbitrage_opportunities.csv";

/// Default fee of a swap: 0.3%, in millionths.
pub const DEFAULT_DEX_FEE: u64 = 3_000;

pub const DEFAULT_TERNARY_SEARCH_ITERATIONS: usize = 100;

/// Raw on-chain units in one millionth of a token with 18 decimals.
pub const WEI_PER_MICRO: u128 = 1_000_000_000_000;

} // verus!
