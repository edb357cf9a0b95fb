//! Evaluation of the routes that the search finds, and the choice among the results.

use crate::clock::now_millis;
use crate::config::Config;
use crate::graph::{PoolEdge, TokenGraph};
use crate::hexcode::{address_text, joe_address, moe_address, names_token, wmnt_address};
use crate::math::{
    best_input_of, find_best_input, lemma_chain_out_bound, product_at_least, profit_of,
};
use crate::topology::INDEX_LIMIT;
use crate::types::{
    gas_cost_for, gas_cost_of, path_type_of, views_of, Address, ArbitrageOpportunity,
    ArbitragePath, MultiPathOpportunity, OpportunityView, PathView, PoolReserves, Token,
};
use vstd::prelude::*;
use vstd::string::StringSliceAdditionalSpecFns;

verus! {

/// The reserves of `pool` as a swap from `token_in` sees them: input side first.
pub open spec fn oriented(pool: PoolEdge, token_in: Token) -> (u64, u64) {
    if pool.token_a.addr() == token_in.addr() {
        (pool.reserves_a, pool.reserves_b)
    } else {
        (pool.reserves_b, pool.reserves_a)
    }
}

/// The reserves of the hops along `tokens`, in hop order; nothing where the graph
/// has no pool for a hop.
pub open spec fn hop_reserves(graph: TokenGraph, tokens: Seq<Token>) -> Option<Seq<(u64, u64)>>
    decreases tokens.len(),
{
    if tokens.len() <= 1 {
        Some(Seq::empty())
    } else {
        match hop_reserves(graph, tokens.drop_last()) {
            Some(front) => match graph.pool_for(tokens[tokens.len() - 2], tokens.last()) {
                Some(pool) => Some(front.push(oriented(pool, tokens[tokens.len() - 2]))),
                None => None,
            },
            None => None,
        }
    }
}

/// The reserves of a route, in hop order, with the closing hop back to the base token
/// where the route does not end there.
pub open spec fn route_reserves(graph: TokenGraph, tokens: Seq<Token>) -> Option<Seq<(u64, u64)>> {
    match hop_reserves(graph, tokens) {
        Some(front) => if tokens.last().addr() != graph.base().addr() {
            match graph.pool_for(tokens.last(), graph.base()) {
                Some(pool) => Some(front.push(oriented(pool, tokens.last()))),
                None => None,
            }
        } else {
            Some(front)
        },
        None => None,
    }
}

/// One pair of reserves for each hop.
pub proof fn lemma_hop_reserves_len(graph: TokenGraph, tokens: Seq<Token>)
    ensures
        hop_reserves(graph, tokens) matches Some(pairs) ==> pairs.len() == if tokens.len() == 0 {
            0
        } else {
            tokens.len() - 1
        },
    decreases tokens.len(),
{
    if tokens.len() > 1 {
        lemma_hop_reserves_len(graph, tokens.drop_last());
    }
}

/// Once a part of a route lacks a pool, the route lacks one.
pub proof fn lemma_hop_reserves_stay_empty(graph: TokenGraph, tokens: Seq<Token>, n: int)
    requires
        0 <= n <= tokens.len(),
        hop_reserves(graph, tokens.take(n)) is None,
    ensures
        hop_reserves(graph, tokens) is None,
    decreases tokens.len() - n,
{
    if n < tokens.len() {
        assert(tokens.take(n + 1).drop_last() == tokens.take(n));
        lemma_hop_reserves_stay_empty(graph, tokens, n + 1);
    } else {
        assert(tokens.take(n) == tokens);
    }
}

/// A route that the graph serves has reserves for every hop.
pub proof fn lemma_served_route_has_reserves(graph: TokenGraph, route: (Seq<Token>, Seq<Address>))
    requires
        graph.serves(route),
    ensures
        hop_reserves(graph, route.0) is Some,
{
    assert forall|k: int| 0 <= k < route.0.len() - 1 implies (#[trigger] graph.pool_for(
        route.0[k],
        route.0[k + 1],
    )) is Some by {
        assert(graph.serves_hop(route.0[k], route.0[k + 1], route.1[k]));
    }
    lemma_hops_have_reserves(graph, route.0, route.0.len() as int);
    assert(route.0.take(route.0.len() as int) == route.0);
}

proof fn lemma_hops_have_reserves(graph: TokenGraph, tokens: Seq<Token>, n: int)
    requires
        0 <= n <= tokens.len(),
        forall|k: int|
            0 <= k < tokens.len() - 1 ==> (#[trigger] graph.pool_for(tokens[k], tokens[k + 1]))
                is Some,
    ensures
        hop_reserves(graph, tokens.take(n)) is Some,
    decreases n,
{
    if n > 1 {
        lemma_hops_have_reserves(graph, tokens, n - 1);
        assert(tokens.take(n).drop_last() == tokens.take(n - 1));
        let k = n - 2;
        assert(graph.pool_for(tokens[k], tokens[k + 1]) is Some);
        assert(tokens.take(n)[n - 2] == tokens[k] && tokens.take(n).last() == tokens[k + 1]);
    }
}

/// Net profit as a share of the input, in millionths of a percent, cut towards zero;
/// zero for no input.
pub open spec fn percentage_of(net: int, input: nat) -> int {
    if input == 0 {
        0
    } else if net >= 0 {
        net * 100_000_000 / (input as int)
    } else {
        -((-net) * 100_000_000 / (input as int))
    }
}

/// The opportunity that a route with the reserves `pools` gives: the input that the
/// search settles on, the gross profit there, and the net profit after the gas of
/// the route at `gas_price`.
pub open spec fn evaluated(
    pools: Seq<(u64, u64)>,
    fee: nat,
    gas_price: nat,
    iterations: nat,
    path: PathView,
) -> OpportunityView {
    let input = best_input_of(pools, fee, iterations);
    let gross = profit_of(pools, input, fee);
    let cost = gas_cost_of(
        ArbitragePath::gas_units_of(path.path_type, path.tokens.len()),
        gas_price,
    );
    let net = gross - cost;
    OpportunityView {
        optimal_input: input as u64,
        final_output: (input + gross) as i128,
        gross_profit: gross as i128,
        net_profit: net as i128,
        profit_percentage: percentage_of(net, input) as i128,
        search_method: "multi_path_ternary"@,
        path: Some(path),
    }
}

/// The opportunity of a route of the graph, if the graph has a pool for each hop.
pub open spec fn evaluated_route(
    graph: TokenGraph,
    fee: nat,
    gas_price: nat,
    iterations: nat,
    route: (Seq<Token>, Seq<Address>),
) -> Option<OpportunityView> {
    match route_reserves(graph, route.0) {
        Some(pools) => Some(
            evaluated(
                pools,
                fee,
                gas_price,
                iterations,
                PathView {
                    tokens: route.0,
                    pools: route.1,
                    path_type: path_type_of(route.0.len()),
                },
            ),
        ),
        None => None,
    }
}

/// The opportunities of the routes that have one, in the order of the routes.
pub open spec fn evaluated_routes(
    graph: TokenGraph,
    fee: nat,
    gas_price: nat,
    iterations: nat,
    routes: Seq<(Seq<Token>, Seq<Address>)>,
) -> Seq<OpportunityView>
    decreases routes.len(),
{
    if routes.len() == 0 {
        Seq::empty()
    } else {
        let before = evaluated_routes(graph, fee, gas_price, iterations, routes.drop_last());
        match evaluated_route(graph, fee, gas_price, iterations, routes.last()) {
            Some(found) => before.push(found),
            None => before,
        }
    }
}

/// Computes `percentage_of` for a net profit that is less than 2^100 away from zero.
pub(crate) fn percentage(net: i128, input: u64) -> (share: i128)
    requires
        -0x10_0000_0000_0000_0000_0000_0000 <= net <= 0x10_0000_0000_0000_0000_0000_0000,
    ensures
        share == percentage_of(net as int, input as nat),
{
    if input == 0 {
        return 0;
    }
    if net >= 0 {
        let scaled: u128 = (net as u128) * 100_000_000;
        let share: u128 = scaled / (input as u128);
        assert(share <= scaled) by (nonlinear_arith)
            requires
                share == scaled / (input as u128),
                input > 0,
        ;
        share as i128
    } else {
        let scaled: u128 = ((-net) as u128) * 100_000_000;
        let share: u128 = scaled / (input as u128);
        assert(share <= scaled) by (nonlinear_arith)
            requires
                share == scaled / (input as u128),
                input > 0,
        ;
        -(share as i128)
    }
}

/// Whether the two texts are the same.
fn same_text(a: &str, b: &str) -> (same: bool)
    ensures
        same == (a@ == b@),
{
    String::from_str(a) == String::from_str(b)
}

/// Convert symbol string to Token enum
pub fn symbol_to_token(symbol: &str) -> (token: Option<Token>)
    ensures
        match token {
            Some(t) => names_token(symbol@, t),
            None => address_text(symbol@) is None,
        },
{
    proof {
        reveal_strlit("WMNT");
        reveal_strlit("MOE");
        reveal_strlit("JOE");
    }
    if same_text(symbol, "WMNT") {
        Some(Token::WMNT(wmnt_address()))
    } else if same_text(symbol, "MOE") {
        Some(Token::MOE(moe_address()))
    } else if same_text(symbol, "JOE") {
        Some(Token::JOE(joe_address()))
    } else {
        None
    }
}

/// The name of a pair: the two symbols with a hyphen between them.
pub open spec fn pair_name_of(first: Seq<char>, second: Seq<char>) -> Seq<char> {
    first + "-"@ + second
}

/// The three symbols that the engine knows.
pub open spec fn known_symbols() -> Seq<Seq<char>> {
    seq!["WMNT"@, "MOE"@, "JOE"@]
}

/// Whether `pair_name` is `first`, a hyphen and `second`.
fn is_pair_of(pair_name: &str, first: &str, second: &str) -> (same: bool)
    ensures
        same == (pair_name@ == pair_name_of(first@, second@)),
{
    let joined = String::from_str(first).concat("-").concat(second);
    joined == String::from_str(pair_name)
}

/// Parse token pair from pair name (e.g., "MOE-WMNT" -> (MOE, WMNT)): the name of a
/// pair is two known symbols with a hyphen between them.
pub fn parse_token_pair(pair_name: &str) -> (pair: Option<(Token, Token)>)
    ensures
        match pair {
            Some((a, b)) => names_pair(pair_name@, a, b),
            None => !names_known_pair(pair_name@),
        },
{
    let symbols: [&str; 3] = ["WMNT", "MOE", "JOE"];
    proof {
        reveal_strlit("WMNT");
        reveal_strlit("MOE");
        reveal_strlit("JOE");
        reveal_strlit("-");
        assert(symbols@ =~= seq!["WMNT", "MOE", "JOE"]);
    }
    let mut i: usize = 0;
    while i < 3
        invariant
            i <= 3,
            symbols@.len() == 3,
            forall|k: int| 0 <= k < 3 ==> (#[trigger] symbols@[k])@ == known_symbols()[k],
            forall|x: int, y: int|
                0 <= x < i && 0 <= y < 3 ==> pair_name@ != pair_name_of(
                    known_symbols()[x],
                    known_symbols()[y],
                ),
        decreases 3 - i,
    {
        let mut j: usize = 0;
        while j < 3
            invariant
                i < 3,
                j <= 3,
                symbols@.len() == 3,
                forall|k: int| 0 <= k < 3 ==> (#[trigger] symbols@[k])@ == known_symbols()[k],
                forall|y: int|
                    0 <= y < j ==> pair_name@ != pair_name_of(
                        known_symbols()[i as int],
                        known_symbols()[y],
                    ),
            decreases 3 - j,
        {
            if is_pair_of(pair_name, symbols[i], symbols[j]) {
                let first = symbol_to_token(symbols[i]);
                let second = symbol_to_token(symbols[j]);
                assert(is_known_pair_at(pair_name@, i as int, j as int));
                return match (first, second) {
                    (Some(a), Some(b)) => Some((a, b)),
                    _ => None,
                };
            }
            j = j + 1;
        }
        i = i + 1;
    }
    assert forall|x: int, y: int| !#[trigger] is_known_pair_at(pair_name@, x, y) by {}
    None
}

/// Multi-path arbitrage analyzer
pub struct MultiPathAnalyzer {
    graph: TokenGraph,
    wmnt_token: Token,
    dex_fee: u64,
    gas_price_gwei: u64,
}

impl MultiPathAnalyzer {
    /// The token graph that the analyzer keeps.
    pub closed spec fn graph(&self) -> TokenGraph {
        self.graph
    }

    /// Fee of a swap, in millionths of the input.
    pub closed spec fn fee(&self) -> u64 {
        self.dex_fee
    }

    /// Gas price, in millionths of a gwei.
    pub closed spec fn gas_price(&self) -> u64 {
        self.gas_price_gwei
    }

    /// The graph is well formed.
    pub closed spec fn wf(&self) -> bool {
        self.graph.wf() && self.graph.base() == self.wmnt_token && self.graph.charges(
            self.dex_fee,
        )
    }

    /// What a well-formed analyzer gives: its graph is well formed, and every pool of
    /// it charges the analyzer's fee.
    pub proof fn lemma_wf(&self)
        requires
            self.wf(),
        ensures
            self.graph().wf(),
            self.graph().charges(self.fee()),
    {
    }

    /// The graph has room for the two nodes and the two edges that a pool may add.
    pub open spec fn has_room(&self) -> bool {
        self.graph().nodes().len() + 2 <= INDEX_LIMIT && self.graph().edges().len() + 2
            <= INDEX_LIMIT
    }

    /// The opportunities that `find_all_opportunities` finds with this many rounds.
    pub open spec fn opportunities(&self, iterations: nat) -> Seq<OpportunityView> {
        evaluated_routes(
            self.graph(),
            self.fee() as nat,
            self.gas_price() as nat,
            iterations,
            self.graph().cycles(4),
        )
    }

    /// Create a new multi-path analyzer
    pub fn new(wmnt_token: Token, config: &Config) -> (analyzer: MultiPathAnalyzer)
        ensures
            analyzer.wf(),
            analyzer.graph().nodes().len() == 0,
            analyzer.graph().edges().len() == 0,
            analyzer.graph().base() == wmnt_token,
            analyzer.fee() == config.dex_fee,
            analyzer.gas_price() == config.gas_price_gwei,
    {
        MultiPathAnalyzer {
            graph: TokenGraph::new(wmnt_token),
            wmnt_token,
            dex_fee: config.dex_fee,
            gas_price_gwei: config.gas_price_gwei,
        }
    }

    /// Takes in one record of a pool list: the name of the pair, the address of the
    /// pool and its two raw reserves. The pool is added where the name is that of a pair
    /// of known symbols and the graph has room, and its two tokens, those that the
    /// symbols name, are returned in the order of the name. Other records are passed over.
    pub fn load_pool_record(
        &mut self,
        pair_name: &str,
        pool_address: Address,
        reserve_a: u128,
        reserve_b: u128,
    ) -> (loaded: Option<(Token, Token)>)
        requires
            old(self).wf(),
        ensures
            final(self).wf(),
            final(self).fee() == old(self).fee(),
            final(self).gas_price() == old(self).gas_price(),
            loaded is Some <==> old(self).has_room() && names_known_pair(pair_name@),
            loaded matches Some((token_a, token_b)) ==> names_pair(pair_name@, token_a, token_b),
            match loaded {
                Some((token_a, token_b)) => final(self).graph().grown_from(
                    old(self).graph(),
                    PoolEdge::priced(
                        pool_address,
                        token_a,
                        token_b,
                        crate::math::token_units(reserve_a as nat) as u64,
                        crate::math::token_units(reserve_b as nat) as u64,
                        old(self).fee(),
                    ),
                ),
                None => final(self).graph() == old(self).graph(),
            },
    {
        if self.graph.node_count() > INDEX_LIMIT - 2 || self.graph.edge_count() > INDEX_LIMIT - 2 {
            return None;
        }
        match parse_token_pair(pair_name) {
            Some((token_a, token_b)) => {
                let pool_reserves = PoolReserves::new(
                    token_a,
                    reserve_a,
                    token_b,
                    reserve_b,
                    0,
                    pool_address,
                );
                self.graph.add_pool(&pool_reserves, self.dex_fee);
                Some((token_a, token_b))
            },
            None => None,
        }
    }

    /// Update pool reserves with new data, one snapshot after the other.
    pub fn update_pool_reserves(&mut self, reserves: &[PoolReserves])
        requires
            old(self).wf(),
        ensures
            final(self).wf(),
            final(self).fee() == old(self).fee(),
            final(self).gas_price() == old(self).gas_price(),
            final(self).graph().nodes() == old(self).graph().nodes(),
            final(self).graph().ends() == old(self).graph().ends(),
            final(self).graph().base() == old(self).graph().base(),
            final(self).graph().edges() == updated_by_all(
                old(self).graph().nodes(),
                old(self).graph().ends(),
                old(self).graph().edges(),
                reserves@,
            ),
    {
        let mut i: usize = 0;
        while i < reserves.len()
            invariant
                i <= reserves@.len(),
                self.wf(),
                self.fee() == old(self).fee(),
                self.gas_price() == old(self).gas_price(),
                self.graph().nodes() == old(self).graph().nodes(),
                self.graph().ends() == old(self).graph().ends(),
                self.graph().base() == old(self).graph().base(),
                self.graph().edges() == updated_by_all(
                    old(self).graph().nodes(),
                    old(self).graph().ends(),
                    old(self).graph().edges(),
                    reserves@.take(i as int),
                ),
            decreases reserves@.len() - i,
        {
            assert(reserves@.take(i + 1).drop_last() == reserves@.take(i as int));
            self.graph.update_pool(&reserves[i]);
            i = i + 1;
        }
        assert(reserves@.take(i as int) == reserves@);
    }

    /// Convert arbitrage cycle to pools format for mathematical analysis
    pub fn cycle_to_pools(&self, cycle: &ArbitragePath) -> (pools: Option<Vec<(u64, u64)>>)
        requires
            self.wf(),
            cycle.tokens@.len() >= 1,
        ensures
            match pools {
                Some(found) => route_reserves(self.graph(), cycle.tokens@) == Some(found@),
                None => route_reserves(self.graph(), cycle.tokens@) is None,
            },
    {
        let mut pools: Vec<(u64, u64)> = Vec::new();
        let mut i: usize = 0;
        assert(cycle.tokens@.take(1).len() == 1);
        while i < cycle.tokens.len() - 1
            invariant
                self.wf(),
                cycle.tokens@.len() >= 1,
                i <= cycle.tokens@.len() - 1,
                hop_reserves(self.graph(), cycle.tokens@.take(i + 1)) == Some(pools@),
            decreases cycle.tokens@.len() - i,
        {
            let token_in = cycle.tokens[i];
            let token_out = cycle.tokens[i + 1];
            assert(cycle.tokens@.take(i + 2).drop_last() == cycle.tokens@.take(i + 1));
            match self.graph.get_pool_info(token_in, token_out) {
                Some(pool_info) => {
                    pools.push(Self::oriented_reserves(pool_info, token_in));
                },
                None => {
                    proof {
                        lemma_hop_reserves_stay_empty(self.graph(), cycle.tokens@, i + 2);
                    }
                    return None;
                },
            }
            i = i + 1;
        }
        assert(cycle.tokens@.take(i + 1) == cycle.tokens@);
        let last_token = cycle.tokens[cycle.tokens.len() - 1];
        if !(last_token == self.wmnt_token) {
            match self.graph.get_pool_info(last_token, self.wmnt_token) {
                Some(pool_info) => {
                    pools.push(Self::oriented_reserves(pool_info, last_token));
                },
                None => {
                    return None;
                },
            }
        }
        Some(pools)
    }

    fn oriented_reserves(pool_info: &PoolEdge, token_in: Token) -> (pair: (u64, u64))
        ensures
            pair == oriented(*pool_info, token_in),
    {
        if pool_info.token_a == token_in {
            (pool_info.reserves_a, pool_info.reserves_b)
        } else {
            (pool_info.reserves_b, pool_info.reserves_a)
        }
    }

    /// Calculate gas cost for a specific cycle, in millionths of the native token.
    pub fn calculate_gas_cost(&self, cycle: &ArbitragePath) -> (cost: u128)
        ensures
            cost == gas_cost_of(
                ArbitragePath::gas_units_of(cycle.path_type, cycle.tokens@.len()),
                self.gas_price() as nat,
            ),
            cost <= 0xffff_ffff_ffff_ffff * 0xffff_ffff_ffff_ffff / 1_000_000_000,
    {
        let gas_units = cycle.expected_gas_units();
        gas_cost_for(gas_units, self.gas_price_gwei)
    }

    /// Analyze a specific arbitrage cycle for profitability
    pub fn analyze_cycle(
        &self,
        cycle: &ArbitragePath,
        _input_range: (u64, u64),
        iterations: usize,
    ) -> (opportunity: Option<ArbitrageOpportunity>)
        requires
            self.wf(),
            cycle.tokens@.len() >= 2,
        ensures
            match opportunity {
                Some(found) => route_reserves(self.graph(), cycle.tokens@) matches Some(pools)
                    && found@ == evaluated(
                    pools,
                    self.fee() as nat,
                    self.gas_price() as nat,
                    iterations as nat,
                    cycle@,
                ),
                None => route_reserves(self.graph(), cycle.tokens@) is None,
            },
    {
        let pools = self.cycle_to_pools(cycle)?;
        proof {
            lemma_hop_reserves_len(self.graph(), cycle.tokens@);
        }
        let (optimal_input, gross_profit) = find_best_input(
            pools.as_slice(),
            self.dex_fee,
            iterations,
        );
        proof {
            lemma_chain_out_bound(pools@, optimal_input as nat, self.dex_fee as nat);
        }
        let final_output: i128 = (optimal_input as i128) + gross_profit;
        let gas_cost = self.calculate_gas_cost(cycle);
        let net_profit: i128 = gross_profit - (gas_cost as i128);
        let profit_percentage = percentage(net_profit, optimal_input);
        Some(
            ArbitrageOpportunity {
                optimal_input,
                final_output,
                gross_profit,
                net_profit,
                profit_percentage,
                search_method: String::from_str("multi_path_ternary"),
                path: Some(cycle.duplicate()),
            },
        )
    }

    /// Find all arbitrage opportunities across multiple paths: every cycle of up to
    /// four hops that the search finds is evaluated, in the order in which it was found.
    pub fn find_all_opportunities(&self, input_range: (u64, u64), iterations: usize) -> (result:
        MultiPathOpportunity)
        requires
            self.wf(),
        ensures
            views_of(result.opportunities@) == self.opportunities(iterations as nat),
            result.opportunities@.len() == self.graph().cycles(4).len(),
            result.total_profit == crate::types::profit_sum(
                views_of(result.opportunities@),
                result.opportunities@.len(),
            ),
            match crate::types::top_profit(
                views_of(result.opportunities@),
                result.opportunities@.len(),
            ) {
                Some(best) => result.best_opportunity matches Some(found) && found@
                    == result.opportunities@[best]@,
                None => result.best_opportunity is None,
            },
    {
        let start_time = now_millis();
        let cycles = self.graph.find_arbitrage_cycles(4);
        let ghost routes = self.graph().cycles(4);
        let mut opportunities: Vec<ArbitrageOpportunity> = Vec::new();
        let mut i: usize = 0;
        assert(views_of(opportunities@) =~= evaluated_routes(
            self.graph(),
            self.fee() as nat,
            self.gas_price() as nat,
            iterations as nat,
            routes.take(0),
        ));
        while i < cycles.len()
            invariant
                i <= cycles@.len(),
                self.wf(),
                routes == self.graph().cycles(4),
                cycles@.map_values(|p: ArbitragePath| p.route()) == routes,
                forall|k: int|
                    0 <= k < cycles@.len() ==> {
                        let p = #[trigger] cycles@[k];
                        &&& 4 <= p.tokens@.len()
                        &&& p.path_type == path_type_of(p.tokens@.len())
                        &&& p.tokens@.last().addr() == self.graph().base().addr()
                        &&& self.graph().serves(p.route())
                    },
                opportunities@.len() == i,
                views_of(opportunities@) == evaluated_routes(
                    self.graph(),
                    self.fee() as nat,
                    self.gas_price() as nat,
                    iterations as nat,
                    routes.take(i as int),
                ),
            decreases cycles@.len() - i,
        {
            let ghost before = opportunities@;
            assert(routes.take(i + 1).drop_last() == routes.take(i as int));
            assert(routes[i as int] == cycles@[i as int].route());
            proof {
                lemma_served_route_has_reserves(self.graph(), cycles@[i as int].route());
            }
            if let Some(opportunity) = self.analyze_cycle(&cycles[i], input_range, iterations) {
                opportunities.push(opportunity);
                assert(views_of(opportunities@) =~= views_of(before).push(opportunity@));
            }
            i = i + 1;
        }
        assert(routes.take(i as int) == routes);
        let end_time = now_millis();
        let analysis_time_ms: u64 = if end_time > start_time {
            ((end_time as i128) - (start_time as i128)) as u64
        } else {
            0
        };
        MultiPathOpportunity::new(opportunities, analysis_time_ms)
    }

    /// Get graph statistics
    pub fn get_graph_stats(&self) -> (stats: (usize, usize))
        requires
            self.wf(),
        ensures
            stats.0 == self.graph().nodes().len(),
            stats.1 == self.graph().edges().len(),
    {
        (self.graph.node_count(), self.graph.edge_count())
    }

    /// Get all available arbitrage paths
    pub fn get_all_paths(&self) -> (paths: Vec<ArbitragePath>)
        requires
            self.wf(),
        ensures
            paths@.map_values(|p: ArbitragePath| p.route()) == self.graph().cycles(4),
            forall|i: int|
                0 <= i < paths@.len() ==> {
                    let p = #[trigger] paths@[i];
                    &&& 4 <= p.tokens@.len() <= 5
                    &&& p.tokens@.first().addr() == self.graph().base().addr()
                    &&& p.tokens@.last().addr() == self.graph().base().addr()
                    &&& p.pools@.len() + 1 == p.tokens@.len()
                    &&& p.path_type == path_type_of(p.tokens@.len())
                    &&& self.graph().serves(p.route())
                },
    {
        self.graph.find_arbitrage_cycles(4)
    }
}

/// Batch reserves fetcher for all pools
pub struct BatchReservesFetcher {
    pool_addresses: Vec<Address>,
}

impl BatchReservesFetcher {
    /// The pool addresses, in the order in which they were added.
    pub closed spec fn addresses(&self) -> Seq<Address> {
        self.pool_addresses@
    }

    /// Create new batch fetcher
    pub fn new() -> (fetcher: BatchReservesFetcher)
        ensures
            fetcher.addresses().len() == 0,
    {
        BatchReservesFetcher { pool_addresses: Vec::new() }
    }

    /// Takes in the address column of one record of a pool list: an address is added,
    /// also where it is held already; another text is passed over.
    pub fn load_pool_address(&mut self, text: &str) -> (loaded: bool)
        ensures
            loaded == crate::hexcode::names_address(text.spec_bytes()),
            loaded ==> final(self).addresses().len() == old(self).addresses().len() + 1
                && final(self).addresses().drop_last() == old(self).addresses()
                && crate::hexcode::is_address_of(
                final(self).addresses().last(),
                text.spec_bytes(),
            ),
            !loaded ==> final(self).addresses() == old(self).addresses(),
    {
        match crate::hexcode::parse_address(text) {
            Some(address) => {
                self.pool_addresses.push(address);
                assert(self.pool_addresses@.drop_last() == old(self).pool_addresses@);
                true
            },
            None => false,
        }
    }

    /// Get all pool addresses
    pub fn get_pool_addresses(&self) -> (addresses: &[Address])
        ensures
            addresses@ == self.addresses(),
    {
        self.pool_addresses.as_slice()
    }

    /// Add individual pool address, unless it is held already.
    pub fn add_pool_address(&mut self, address: Address)
        ensures
            final(self).addresses() == if old(self).addresses().contains(address) {
                old(self).addresses()
            } else {
                old(self).addresses().push(address)
            },
    {
        if !crate::batch_fetcher::holds_address(&self.pool_addresses, address) {
            self.pool_addresses.push(address);
        }
    }
}

/// The edges after the snapshots have been taken in, one after the other.
pub open spec fn updated_by_all(
    nodes: Seq<crate::graph::TokenNode>,
    ends: Seq<(usize, usize)>,
    edges: Seq<crate::graph::DirectedEdge>,
    snapshots: Seq<PoolReserves>,
) -> Seq<crate::graph::DirectedEdge>
    decreases snapshots.len(),
{
    if snapshots.len() == 0 {
        edges
    } else {
        crate::graph::updated_edges(
            nodes,
            ends,
            updated_by_all(nodes, ends, edges, snapshots.drop_last()),
            snapshots.last(),
        )
    }
}

/// Strategy for selecting optimal arbitrage opportunity
#[derive(Debug, Clone, Copy, PartialEq, Eq, Structural)]
pub enum OptimizationStrategy {
    MaxProfit,
    MaxProfitPercent,
    MinRisk,
    BalancedRiskReturn,
}

/// Whether `item`, met later in the scan, takes the place of `best`: by net profit
/// and by percentage the later one wins a tie, by hop count the earlier one; the
/// balanced score is the net profit divided by the square of the hop count, compared
/// without rounding.
pub open spec fn replaces(strategy: OptimizationStrategy, best: OpportunityView, item: OpportunityView) -> bool {
    match strategy {
        OptimizationStrategy::MaxProfit => item.net_profit >= best.net_profit,
        OptimizationStrategy::MaxProfitPercent => item.profit_percentage >= best.profit_percentage,
        OptimizationStrategy::MinRisk => item.hops() < best.hops(),
        OptimizationStrategy::BalancedRiskReturn => item.net_profit * (best.hops() * best.hops())
            >= best.net_profit * (item.hops() * item.hops()),
    }
}

/// Place of the opportunity that the strategy selects among the first `n`: the scan
/// passes over what is not profitable.
pub open spec fn selected(opportunities: Seq<OpportunityView>, strategy: OptimizationStrategy, n: nat) -> Option<
    int,
>
    decreases n,
{
    if n == 0 {
        None
    } else {
        let before = selected(opportunities, strategy, (n - 1) as nat);
        if !opportunities[n - 1].profitable() {
            before
        } else {
            match before {
                Some(best) => if replaces(strategy, opportunities[best], opportunities[n - 1]) {
                    Some(n - 1)
                } else {
                    Some(best)
                },
                None => Some(n - 1),
            }
        }
    }
}

/// Multi-path strategy selector
pub struct StrategySelector;

impl StrategySelector {
    /// Select best opportunity based on strategy
    pub fn select_best(opportunities: &[ArbitrageOpportunity], strategy: OptimizationStrategy) -> (best:
        Option<&ArbitrageOpportunity>)
        ensures
            match selected(views_of(opportunities@), strategy, opportunities@.len()) {
                Some(place) => 0 <= place < opportunities@.len() && best == Some(
                    &opportunities@[place],
                ),
                None => best is None,
            },
    {
        let ghost views = views_of(opportunities@);
        let mut best: Option<usize> = None;
        let mut i: usize = 0;
        while i < opportunities.len()
            invariant
                i <= opportunities@.len(),
                views == views_of(opportunities@),
                match best {
                    Some(b) => selected(views, strategy, i as nat) == Some(b as int) && b < i
                        && views[b as int].profitable(),
                    None => selected(views, strategy, i as nat) is None,
                },
            decreases opportunities@.len() - i,
        {
            let item = &opportunities[i];
            assert(views[i as int] == item@);
            if item.is_profitable() {
                best = match best {
                    Some(b) => {
                        let held = &opportunities[b];
                        assert(views[b as int] == held@);
                        if Self::takes_place(strategy, held, item) {
                            Some(i)
                        } else {
                            Some(b)
                        }
                    },
                    None => Some(i),
                };
            }
            i = i + 1;
        }
        match best {
            Some(b) => Some(&opportunities[b]),
            None => None,
        }
    }

    /// Computes `replaces` for two profitable opportunities.
    fn takes_place(
        strategy: OptimizationStrategy,
        best: &ArbitrageOpportunity,
        item: &ArbitrageOpportunity,
    ) -> (yes: bool)
        requires
            best@.profitable(),
            item@.profitable(),
        ensures
            yes == replaces(strategy, best@, item@),
    {
        match strategy {
            OptimizationStrategy::MaxProfit => item.net_profit >= best.net_profit,
            OptimizationStrategy::MaxProfitPercent => item.profit_percentage
                >= best.profit_percentage,
            OptimizationStrategy::MinRisk => item.hop_count() < best.hop_count(),
            OptimizationStrategy::BalancedRiskReturn => {
                let best_hops = best.hop_count() as u128;
                let item_hops = item.hop_count() as u128;
                assert(best_hops * best_hops <= 0xffff_ffff_ffff_ffff * 0xffff_ffff_ffff_ffff)
                    by (nonlinear_arith)
                    requires
                        0 <= best_hops <= 0xffff_ffff_ffff_ffff,
                ;
                assert(item_hops * item_hops <= 0xffff_ffff_ffff_ffff * 0xffff_ffff_ffff_ffff)
                    by (nonlinear_arith)
                    requires
                        0 <= item_hops <= 0xffff_ffff_ffff_ffff,
                ;
                product_at_least(
                    item.net_profit as u128,
                    best_hops * best_hops,
                    best.net_profit as u128,
                    item_hops * item_hops,
                )
            },
        }
    }
}

/// With no profitable opportunity nothing is selected, whatever the strategy; with
/// one, something is.
pub proof fn lemma_selected_iff_profitable(
    opportunities: Seq<OpportunityView>,
    strategy: OptimizationStrategy,
    n: nat,
)
    requires
        n <= opportunities.len(),
    ensures
        selected(opportunities, strategy, n) is None <==> forall|i: int|
            0 <= i < n ==> !opportunities[i].profitable(),
        selected(opportunities, strategy, n) matches Some(place) ==> 0 <= place < n
            && opportunities[place].profitable(),
    decreases n,
{
    if n > 0 {
        lemma_selected_iff_profitable(opportunities, strategy, (n - 1) as nat);
    }
}

/// By `MaxProfit` the selected opportunity has the largest net profit of all that are
/// profitable.
pub proof fn lemma_max_profit_is_largest(opportunities: Seq<OpportunityView>, n: nat)
    requires
        n <= opportunities.len(),
    ensures
        selected(opportunities, OptimizationStrategy::MaxProfit, n) matches Some(place)
            ==> forall|i: int|
            0 <= i < n && opportunities[i].profitable() ==> opportunities[i].net_profit
                <= opportunities[place].net_profit,
    decreases n,
{
    if n > 0 {
        lemma_max_profit_is_largest(opportunities, (n - 1) as nat);
        lemma_selected_iff_profitable(
            opportunities,
            OptimizationStrategy::MaxProfit,
            (n - 1) as nat,
        );
    }
}

/// Of two opportunities with the same positive net profit, the balanced score favours
/// the one with fewer hops, whichever comes first.
pub proof fn lemma_balanced_favours_fewer_hops(short: OpportunityView, long: OpportunityView)
    requires
        short.net_profit == long.net_profit,
        short.net_profit > 0,
        0 < short.hops() < long.hops(),
    ensures
        selected(seq![short, long], OptimizationStrategy::BalancedRiskReturn, 2) == Some(0int),
        selected(seq![long, short], OptimizationStrategy::BalancedRiskReturn, 2) == Some(1int),
{
    let p = short.net_profit as int;
    let s = short.hops() as int;
    let l = long.hops() as int;
    assert(s * s < l * l) by (nonlinear_arith)
        requires
            0 < s < l,
    ;
    assert(p * (s * s) < p * (l * l)) by (nonlinear_arith)
        requires
            p > 0,
            s * s < l * l,
    ;
    let first = seq![short, long];
    let second = seq![long, short];
    assert(selected(first, OptimizationStrategy::BalancedRiskReturn, 0) is None);
    assert(selected(first, OptimizationStrategy::BalancedRiskReturn, 1) == Some(0int));
    assert(selected(second, OptimizationStrategy::BalancedRiskReturn, 0) is None);
    assert(selected(second, OptimizationStrategy::BalancedRiskReturn, 1) == Some(0int));
}

/// `name` is the name of the pair of the known symbols at the places `i` and `j`.
pub open spec fn is_known_pair_at(name: Seq<char>, i: int, j: int) -> bool {
    0 <= i < 3 && 0 <= j < 3 && name == pair_name_of(known_symbols()[i], known_symbols()[j])
}

/// `name` is the name of a pair of known symbols.
pub open spec fn names_known_pair(name: Seq<char>) -> bool {
    exists|i: int, j: int| #[trigger] is_known_pair_at(name, i, j)
}

/// `name` is the name of the pair of `first` and `second`: it is made of two known
/// symbols, of which the one in front names `first` and the other `second`.
pub open spec fn names_pair(name: Seq<char>, first: Token, second: Token) -> bool {
    exists|i: int, j: int|
        #[trigger] is_known_pair_at(name, i, j) && names_token(known_symbols()[i], first)
            && names_token(known_symbols()[j], second)
}

} // verus!
