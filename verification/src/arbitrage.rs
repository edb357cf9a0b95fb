//! The fixed route of three swaps: base token to MOE, to JOE and back.

use crate::config::Config;
use crate::constants::GAS_UNITS_3_HOPS;
use crate::math::{
    amount_out, best_input_of, find_best_input, get_amount_out, lemma_chain_out_bound, profit_of,
    token_units, u256_to_f64, MAX_RESERVE,
};
use crate::multi_path::percentage_of;
use crate::types::{gas_cost_of, join_symbols, joined_tickers, ArbitrageOpportunity, OpportunityView, PoolReserves, Token};
use vstd::prelude::*;

verus! {

/// Symbols of tokens, without their addresses.
#[derive(Debug, Clone, Copy, PartialEq, Eq, Structural)]
pub enum Symbol {
    Wmnt,
    Moe,
    Joe,
}

/// The symbol that a token carries.
pub open spec fn symbol_of(token: Token) -> Symbol {
    match token {
        Token::WMNT(_) => Symbol::Wmnt,
        Token::MOE(_) => Symbol::Moe,
        Token::JOE(_) => Symbol::Joe,
    }
}

/// The reserves of a pool in token units, seen from the token with the symbol
/// `from` to the token with the symbol `to`; nothing where the pool is not one of
/// these two symbols, one on each side.
pub open spec fn reserves_by_symbol(snapshot: PoolReserves, from: Symbol, to: Symbol) -> Option<
    (u64, u64),
> {
    let a = token_units(snapshot.reserve_a as nat) as u64;
    let b = token_units(snapshot.reserve_b as nat) as u64;
    if symbol_of(snapshot.token_a) == from && symbol_of(snapshot.token_b) == to {
        Some((a, b))
    } else if symbol_of(snapshot.token_a) == to && symbol_of(snapshot.token_b) == from {
        Some((b, a))
    } else {
        None
    }
}

/// The reserves of the three hops, base token to MOE, MOE to JOE, JOE to base token.
pub open spec fn triangle_reserves(
    moe_wmnt: PoolReserves,
    joe_moe: PoolReserves,
    joe_wmnt: PoolReserves,
) -> Option<Seq<(u64, u64)>> {
    match (
        reserves_by_symbol(moe_wmnt, Symbol::Wmnt, Symbol::Moe),
        reserves_by_symbol(joe_moe, Symbol::Moe, Symbol::Joe),
        reserves_by_symbol(joe_wmnt, Symbol::Joe, Symbol::Wmnt),
    ) {
        (Some(first), Some(second), Some(third)) => Some(seq![first, second, third]),
        _ => None,
    }
}

fn symbol(token: Token) -> (s: Symbol)
    ensures
        s == symbol_of(token),
{
    match token {
        Token::WMNT(_) => Symbol::Wmnt,
        Token::MOE(_) => Symbol::Moe,
        Token::JOE(_) => Symbol::Joe,
    }
}

pub fn oriented_by_symbol(snapshot: &PoolReserves, from: Symbol, to: Symbol) -> (pair: Option<(u64, u64)>)
    ensures
        pair == reserves_by_symbol(*snapshot, from, to),
{
    let a = u256_to_f64(snapshot.reserve_a);
    let b = u256_to_f64(snapshot.reserve_b);
    let first = symbol(snapshot.token_a);
    let second = symbol(snapshot.token_b);
    if first == from && second == to {
        Some((a, b))
    } else if first == to && second == from {
        Some((b, a))
    } else {
        None
    }
}

/// Extract and normalize pool reserves for ternary search algorithm
pub fn prepare_pools_for_search(
    moe_wmnt: &PoolReserves,
    joe_moe: &PoolReserves,
    joe_wmnt: &PoolReserves,
) -> (pools: Option<Vec<(u64, u64)>>)
    ensures
        match pools {
            Some(found) => triangle_reserves(*moe_wmnt, *joe_moe, *joe_wmnt) == Some(found@),
            None => triangle_reserves(*moe_wmnt, *joe_moe, *joe_wmnt) is None,
        },
{
    let first = oriented_by_symbol(moe_wmnt, Symbol::Wmnt, Symbol::Moe)?;
    let second = oriented_by_symbol(joe_moe, Symbol::Moe, Symbol::Joe)?;
    let third = oriented_by_symbol(joe_wmnt, Symbol::Joe, Symbol::Wmnt)?;
    let mut pools: Vec<(u64, u64)> = Vec::new();
    pools.push(first);
    pools.push(second);
    pools.push(third);
    assert(pools@ =~= seq![first, second, third]);
    Some(pools)
}

/// The opportunity of the fixed route with the reserves `pools`: the input that the
/// search settles on, and the net profit after the gas of three swaps.
pub open spec fn triangle_opportunity(
    pools: Seq<(u64, u64)>,
    fee: nat,
    gas_price: nat,
    iterations: nat,
) -> OpportunityView {
    let input = best_input_of(pools, fee, iterations);
    let gross = profit_of(pools, input, fee);
    let net = gross - gas_cost_of(GAS_UNITS_3_HOPS as nat, gas_price);
    OpportunityView {
        optimal_input: input as u64,
        final_output: (input + gross) as i128,
        gross_profit: gross as i128,
        net_profit: net as i128,
        profit_percentage: percentage_of(net, input) as i128,
        search_method: "ternary_search"@,
        path: None,
    }
}

/// Ternary search over the fixed route of three swaps.
pub fn find_optimal_arbitrage(
    moe_wmnt: &PoolReserves,
    joe_moe: &PoolReserves,
    joe_wmnt: &PoolReserves,
    config: &Config,
) -> (opportunity: Option<ArbitrageOpportunity>)
    ensures
        match opportunity {
            Some(found) => triangle_reserves(*moe_wmnt, *joe_moe, *joe_wmnt) matches Some(pools)
                && found@ == triangle_opportunity(
                pools,
                config.dex_fee as nat,
                config.gas_price_gwei as nat,
                config.ternary_search_iterations as nat,
            ),
            None => triangle_reserves(*moe_wmnt, *joe_moe, *joe_wmnt) is None,
        },
{
    let pools = prepare_pools_for_search(moe_wmnt, joe_moe, joe_wmnt)?;
    let (best_input, gross_profit) = find_best_input(
        pools.as_slice(),
        config.dex_fee,
        config.ternary_search_iterations,
    );
    proof {
        lemma_chain_out_bound(pools@, best_input as nat, config.dex_fee as nat);
    }
    let final_output: i128 = (best_input as i128) + gross_profit;
    let gas_cost = config.calculate_gas_cost(GAS_UNITS_3_HOPS);
    assert(gas_cost <= 0xffff_ffff_ffff_ffff * 0xffff_ffff_ffff_ffff / 1_000_000_000)
        by (nonlinear_arith)
        requires
            gas_cost == (GAS_UNITS_3_HOPS as nat) * (config.gas_price_gwei as nat) / 1_000_000_000,
            GAS_UNITS_3_HOPS <= 0xffff_ffff_ffff_ffff,
            config.gas_price_gwei <= 0xffff_ffff_ffff_ffff,
    ;
    let net_profit: i128 = gross_profit - (gas_cost as i128);
    let profit_percentage = crate::multi_path::percentage(net_profit, best_input);
    Some(
        ArbitrageOpportunity {
            optimal_input: best_input,
            final_output,
            gross_profit,
            net_profit,
            profit_percentage,
            search_method: String::from_str("ternary_search"),
            path: None,
        },
    )
}

/// Cost of the transaction of the fixed route in raw units of the native token: the
/// gas of three swaps at the default gas price.
pub const TRIANGLE_TX_COST: u128 = 14_000_000_000_000;

/// The raw reserves of a pool, seen from the token with the symbol `from` to the
/// token with the symbol `to`.
pub open spec fn raw_by_symbol(snapshot: PoolReserves, from: Symbol, to: Symbol) -> Option<
    (u128, u128),
> {
    if symbol_of(snapshot.token_a) == from && symbol_of(snapshot.token_b) == to {
        Some((snapshot.reserve_a, snapshot.reserve_b))
    } else if symbol_of(snapshot.token_a) == to && symbol_of(snapshot.token_b) == from {
        Some((snapshot.reserve_b, snapshot.reserve_a))
    } else {
        None
    }
}

/// What sending `start_amount` round the fixed route gives, in raw units: whether it
/// pays after the cost of the transaction, what comes back, and the net profit, which
/// is zero where it does not pay. A pool of other tokens than its leg needs gives
/// `(false, 0, 0)`.
pub open spec fn triangle_outcome(
    moe_wmnt: PoolReserves,
    joe_moe: PoolReserves,
    joe_wmnt: PoolReserves,
    start_amount: u128,
) -> (bool, u128, u128) {
    match (
        raw_by_symbol(moe_wmnt, Symbol::Wmnt, Symbol::Moe),
        raw_by_symbol(joe_moe, Symbol::Moe, Symbol::Joe),
        raw_by_symbol(joe_wmnt, Symbol::Joe, Symbol::Wmnt),
    ) {
        (Some(first), Some(second), Some(third)) => {
            let moe_out = amount_out(start_amount as nat, first.0 as nat, first.1 as nat);
            let joe_out = amount_out(moe_out, second.0 as nat, second.1 as nat);
            let wmnt_out = amount_out(joe_out, third.0 as nat, third.1 as nat);
            let net = if wmnt_out > start_amount + TRIANGLE_TX_COST {
                (wmnt_out - start_amount - TRIANGLE_TX_COST) as nat
            } else {
                0
            };
            (net > 0, wmnt_out as u128, net as u128)
        },
        _ => (false, 0, 0),
    }
}

fn raw_oriented(snapshot: &PoolReserves, from: Symbol, to: Symbol) -> (pair: Option<(u128, u128)>)
    ensures
        pair == raw_by_symbol(*snapshot, from, to),
{
    let first = symbol(snapshot.token_a);
    let second = symbol(snapshot.token_b);
    if first == from && second == to {
        Some((snapshot.reserve_a, snapshot.reserve_b))
    } else if first == to && second == from {
        Some((snapshot.reserve_b, snapshot.reserve_a))
    } else {
        None
    }
}

/// The fixed route in raw on-chain units, with the formula of the pools on chain.
pub fn check_arbitrage_legacy(
    moe_wmnt: &PoolReserves,
    joe_moe: &PoolReserves,
    joe_wmnt: &PoolReserves,
    start_amount: u128,
) -> (outcome: (bool, u128, u128))
    requires
        start_amount <= MAX_RESERVE,
        moe_wmnt.reserve_a <= MAX_RESERVE && moe_wmnt.reserve_b <= MAX_RESERVE,
        joe_moe.reserve_a <= MAX_RESERVE && joe_moe.reserve_b <= MAX_RESERVE,
        joe_wmnt.reserve_a <= MAX_RESERVE && joe_wmnt.reserve_b <= MAX_RESERVE,
    ensures
        outcome == triangle_outcome(*moe_wmnt, *joe_moe, *joe_wmnt, start_amount),
{
    let (wmnt_reserve, moe_reserve) = match raw_oriented(moe_wmnt, Symbol::Wmnt, Symbol::Moe) {
        Some(pair) => pair,
        None => {
            return (false, 0, 0);
        },
    };
    let moe_out = get_amount_out(start_amount, wmnt_reserve, moe_reserve);
    let (moe_reserve, joe_reserve) = match raw_oriented(joe_moe, Symbol::Moe, Symbol::Joe) {
        Some(pair) => pair,
        None => {
            return (false, 0, 0);
        },
    };
    let joe_out = get_amount_out(moe_out, moe_reserve, joe_reserve);
    let (joe_reserve, wmnt_reserve) = match raw_oriented(joe_wmnt, Symbol::Joe, Symbol::Wmnt) {
        Some(pair) => pair,
        None => {
            return (false, 0, 0);
        },
    };
    let wmnt_out = get_amount_out(joe_out, joe_reserve, wmnt_reserve);
    let net_profit: u128 = if wmnt_out > start_amount + TRIANGLE_TX_COST {
        wmnt_out - start_amount - TRIANGLE_TX_COST
    } else {
        0
    };
    let profitable = net_profit > 0;
    (profitable, wmnt_out, net_profit)
}

/// Generic arbitrage path finder
pub trait ArbitragePath {
    fn calculate_output(&self, input_amount: u64, reserves: &[&PoolReserves]) -> Option<u64>;

    fn get_path_description(&self) -> String;
}

/// Standard 3-pool triangular arbitrage path
pub struct TriangularPath {
    pub path: Vec<Token>,
}

impl ArbitragePath for TriangularPath {
    /// A triangular path computes no output of its own.
    fn calculate_output(&self, _input_amount: u64, _reserves: &[&PoolReserves]) -> (output: Option<
        u64,
    >)
        ensures
            output is None,
    {
        None
    }

    fn get_path_description(&self) -> (text: String)
        ensures
            text@ == joined_tickers(self.path@, " -> "@),
    {
        join_symbols(self.path.as_slice(), " -> ")
    }
}

} // verus!
