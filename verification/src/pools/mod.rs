//! Pool modules for different DEX protocols

pub mod moe;

use crate::types::{Address, Token};
use vstd::prelude::*;

verus! {

/// Pool information structure
#[derive(Debug, Clone)]
pub struct PoolInfo {
    pub address: Address,
    pub name: String,
    pub token_a: Token,
    pub token_b: Token,
    pub dex_protocol: String,
    /// Fee of a swap, in millionths of the input.
    pub fee_tier: u64,
}

impl PoolInfo {
    pub fn new(
        address: Address,
        name: String,
        token_a: Token,
        token_b: Token,
        dex_protocol: String,
        fee_tier: u64,
    ) -> (pool: PoolInfo)
        ensures
            pool.address == address,
            pool.name == name,
            pool.token_a == token_a,
            pool.token_b == token_b,
            pool.dex_protocol == dex_protocol,
            pool.fee_tier == fee_tier,
    {
        PoolInfo { address, name, token_a, token_b, dex_protocol, fee_tier }
    }

    /// Get a descriptive name for the pool: the two symbols, then the protocol in brackets.
    pub fn get_display_name(&self) -> (text: String)
        ensures
            text@ == self.token_a.ticker() + "-"@ + self.token_b.ticker() + " ("@
                + self.dex_protocol@ + ")"@,
    {
        let mut text = String::from_str(self.token_a.symbol());
        text.append("-");
        text.append(self.token_b.symbol());
        text.append(" (");
        text.append(self.dex_protocol.as_str());
        text.append(")");
        text
    }

    /// Check if this pool contains both tokens
    pub fn contains_tokens(&self, token_a: Token, token_b: Token) -> (both: bool)
        ensures
            both == ((self.token_a.addr() == token_a.addr() && self.token_b.addr()
                == token_b.addr()) || (self.token_a.addr() == token_b.addr()
                && self.token_b.addr() == token_a.addr())),
    {
        (self.token_a == token_a && self.token_b == token_b) || (self.token_a == token_b
            && self.token_b == token_a)
    }
}

} // verus!
