//! Tokens, reserve snapshots, routes and evaluated opportunities.

use crate::clock::now_millis;
use crate::constants::{JOE_ADDRESS, MOE_ADDRESS, WMNT_ADDRESS};
use crate::hexcode::{is_address_of, parse_address};
use crate::constants::{GAS_UNITS_3_HOPS, GAS_UNITS_4_HOPS, GAS_UNITS_PER_TOKEN, GWEI_PER_MNT};
use vstd::prelude::*;
use vstd::std_specs::cmp::PartialEqSpecImpl;
use vstd::string::StringSliceAdditionalSpecFns;

verus! {

/// A 20-byte chain address.
#[derive(Clone, Copy, Debug, Eq, Hash)]
pub struct Address {
    pub bytes: [u8; 20],
}

impl PartialEq for Address {
    fn eq(&self, other: &Address) -> (same: bool) {
        let mut i: usize = 0;
        while i < 20
            invariant
                i <= 20,
                forall|k: int| 0 <= k < i ==> self.bytes[k] == other.bytes[k],
            decreases 20 - i,
        {
            if self.bytes[i] != other.bytes[i] {
                return false;
            }
            i = i + 1;
        }
        assert(self.bytes =~= other.bytes);
        true
    }
}

impl PartialEqSpecImpl for Address {
    open spec fn obeys_eq_spec() -> bool {
        true
    }

    open spec fn eq_spec(&self, other: &Address) -> bool {
        *self == *other
    }
}

impl Address {
    /// The address made of the given bytes.
    pub fn new(bytes: [u8; 20]) -> (address: Address)
        ensures
            address.bytes == bytes,
    {
        Address { bytes }
    }

    /// The address made of the 20 bytes of `bytes`; none for another number of bytes.
    pub fn from_slice(bytes: &[u8]) -> (address: Option<Address>)
        ensures
            match address {
                Some(a) => a.bytes@ == bytes@,
                None => bytes@.len() != 20,
            },
    {
        if bytes.len() != 20 {
            return None;
        }
        let mut out = [0u8; 20];
        let mut i: usize = 0;
        while i < 20
            invariant
                i <= 20,
                bytes@.len() == 20,
                forall|k: int| 0 <= k < i ==> out@[k] == bytes@[k],
            decreases 20 - i,
        {
            out[i] = bytes[i];
            i = i + 1;
        }
        assert(out@ =~= bytes@);
        Some(Address { bytes: out })
    }

    /// The all-zero address.
    pub fn zero() -> (address: Address)
        ensures
            address.bytes@ == Seq::new(20, |i: int| 0u8),
    {
        let address = Address { bytes: [0u8; 20] };
        assert(address.bytes@ =~= Seq::new(20, |i: int| 0u8));
        address
    }
}

/// A token the engine knows, tagged with its symbol. Two tokens are the same token
/// when they live at the same address.
#[derive(Clone, Copy, Debug, Eq)]
pub enum Token {
    WMNT(Address),
    MOE(Address),
    JOE(Address),
}

impl Token {
    /// Address the token lives at.
    pub open spec fn addr(self) -> Address {
        match self {
            Token::WMNT(a) => a,
            Token::MOE(a) => a,
            Token::JOE(a) => a,
        }
    }

    /// Ticker of the token.
    pub open spec fn ticker(self) -> Seq<char> {
        match self {
            Token::WMNT(_) => "WMNT"@,
            Token::MOE(_) => "MOE"@,
            Token::JOE(_) => "JOE"@,
        }
    }

    /// Get the address of the token.
    pub fn address(&self) -> (address: Address)
        ensures
            address == self.addr(),
    {
        match self {
            Token::WMNT(a) => *a,
            Token::MOE(a) => *a,
            Token::JOE(a) => *a,
        }
    }

    /// The token that lives at `addr`, if it is one of the three that the engine
    /// knows: the address is held against the address text of each, in this order.
    pub fn from_address(addr: Address) -> (token: Option<Token>)
        ensures
            match token {
                Some(t) => t.addr() == addr && (match t {
                    Token::WMNT(_) => is_address_of(addr, WMNT_ADDRESS.spec_bytes()),
                    Token::MOE(_) => is_address_of(addr, MOE_ADDRESS.spec_bytes()),
                    Token::JOE(_) => is_address_of(addr, JOE_ADDRESS.spec_bytes()),
                }),
                None => !is_address_of(addr, WMNT_ADDRESS.spec_bytes()) && !is_address_of(
                    addr,
                    MOE_ADDRESS.spec_bytes(),
                ) && !is_address_of(addr, JOE_ADDRESS.spec_bytes()),
            },
    {
        if Self::lives_at(addr, WMNT_ADDRESS) {
            Some(Token::WMNT(addr))
        } else if Self::lives_at(addr, MOE_ADDRESS) {
            Some(Token::MOE(addr))
        } else if Self::lives_at(addr, JOE_ADDRESS) {
            Some(Token::JOE(addr))
        } else {
            None
        }
    }

    /// Whether `text` is the address text of `addr`.
    fn lives_at(addr: Address, text: &str) -> (yes: bool)
        ensures
            yes == is_address_of(addr, text.spec_bytes()),
    {
        match parse_address(text) {
            Some(known) => {
                let same = known == addr;
                proof {
                    if !same && is_address_of(addr, text.spec_bytes()) {
                        assert(known.bytes =~= addr.bytes);
                    }
                }
                same
            },
            None => false,
        }
    }

    /// Get the symbol of the token.
    pub fn symbol(&self) -> (symbol: &'static str)
        ensures
            symbol@ == self.ticker(),
    {
        match self {
            Token::WMNT(_) => "WMNT",
            Token::MOE(_) => "MOE",
            Token::JOE(_) => "JOE",
        }
    }
}

impl PartialEq for Token {
    fn eq(&self, other: &Token) -> (same: bool) {
        self.address() == other.address()
    }
}

impl PartialEqSpecImpl for Token {
    open spec fn obeys_eq_spec() -> bool {
        true
    }

    open spec fn eq_spec(&self, other: &Token) -> bool {
        self.addr() == other.addr()
    }
}

/// Reserves of one pool as last seen on chain: raw integer balances of its two tokens.
#[derive(Debug, Clone, Copy, PartialEq)]
pub struct PoolReserves {
    pub token_a: Token,
    pub reserve_a: u128,
    pub token_b: Token,
    pub reserve_b: u128,
    pub block_number: u64,
    /// When the snapshot was taken, in milliseconds since the Unix epoch.
    pub timestamp: i64,
    pub pool_address: Address,
}

impl PoolReserves {
    /// Create new pool reserves, stamped with the current time.
    pub fn new(
        token_a: Token,
        reserve_a: u128,
        token_b: Token,
        reserve_b: u128,
        block_number: u64,
        pool_address: Address,
    ) -> (snapshot: PoolReserves)
        ensures
            snapshot.token_a == token_a,
            snapshot.reserve_a == reserve_a,
            snapshot.token_b == token_b,
            snapshot.reserve_b == reserve_b,
            snapshot.block_number == block_number,
            snapshot.pool_address == pool_address,
    {
        PoolReserves {
            token_a,
            reserve_a,
            token_b,
            reserve_b,
            block_number,
            timestamp: now_millis(),
            pool_address,
        }
    }

    /// The reserves seen from `token_in` to `token_out`, if these are the pool's tokens.
    pub open spec fn reserves_for(self, token_in: Token, token_out: Token) -> Option<(u128, u128)> {
        if self.token_a.addr() == token_in.addr() && self.token_b.addr() == token_out.addr() {
            Some((self.reserve_a, self.reserve_b))
        } else if self.token_a.addr() == token_out.addr() && self.token_b.addr()
            == token_in.addr() {
            Some((self.reserve_b, self.reserve_a))
        } else {
            None
        }
    }

    /// Get reserves for a specific token pair (returns None if tokens don't match)
    pub fn get_reserves_for_pair(&self, token_in: Token, token_out: Token) -> (reserves: Option<
        (u128, u128),
    >)
        ensures
            reserves == self.reserves_for(token_in, token_out),
    {
        if self.token_a == token_in && self.token_b == token_out {
            Some((self.reserve_a, self.reserve_b))
        } else if self.token_a == token_out && self.token_b == token_in {
            Some((self.reserve_b, self.reserve_a))
        } else {
            None
        }
    }
}

/// Path type classification
#[derive(Debug, Clone, Copy, PartialEq, Eq, Structural)]
pub enum PathType {
    ThreeHop,
    FourHop,
    Custom(usize),
}

/// Class of a route over `token_count` tokens: a route of `n` swaps visits `n + 1`
/// tokens, and a route that has neither three nor four swaps carries its token count.
pub open spec fn path_type_of(token_count: nat) -> PathType {
    if token_count == 4 {
        PathType::ThreeHop
    } else if token_count == 5 {
        PathType::FourHop
    } else {
        PathType::Custom(token_count as usize)
    }
}

/// The tickers of `tokens`, with `sep` between each two.
pub open spec fn joined_tickers(tokens: Seq<Token>, sep: Seq<char>) -> Seq<char>
    decreases tokens.len(),
{
    if tokens.len() == 0 {
        Seq::empty()
    } else if tokens.len() == 1 {
        tokens[0].ticker()
    } else {
        joined_tickers(tokens.drop_last(), sep) + sep + tokens.last().ticker()
    }
}

/// Joins the symbols of `tokens` with `sep`.
pub fn join_symbols(tokens: &[Token], sep: &str) -> (text: String)
    ensures
        text@ == joined_tickers(tokens@, sep@),
{
    let mut text = String::new();
    let mut i: usize = 0;
    while i < tokens.len()
        invariant
            i <= tokens.len(),
            text@ == joined_tickers(tokens@.take(i as int), sep@),
        decreases tokens.len() - i,
    {
        assert(tokens@.take(i + 1).drop_last() == tokens@.take(i as int));
        if i > 0 {
            text.append(sep);
        }
        text.append(tokens[i].symbol());
        i = i + 1;
    }
    assert(tokens@.take(i as int) == tokens@);
    text
}

/// A `Vec` with the same items.
pub fn copy_of<T: Copy>(items: &Vec<T>) -> (copy: Vec<T>)
    ensures
        copy@ == items@,
{
    let mut copy: Vec<T> = Vec::new();
    let mut i: usize = 0;
    while i < items.len()
        invariant
            i <= items@.len(),
            copy@ == items@.take(i as int),
        decreases items@.len() - i,
    {
        copy.push(items[i]);
        assert(copy@ =~= items@.take(i + 1));
        i = i + 1;
    }
    assert(items@.take(i as int) == items@);
    copy
}

/// What a route holds.
pub struct PathView {
    pub tokens: Seq<Token>,
    pub pools: Seq<Address>,
    pub path_type: PathType,
}

/// Arbitrage path representation
#[derive(Debug, Clone, PartialEq)]
pub struct ArbitragePath {
    pub tokens: Vec<Token>,
    pub pools: Vec<Address>,
    pub path_type: PathType,
}

impl View for ArbitragePath {
    type V = PathView;

    open spec fn view(&self) -> PathView {
        PathView { tokens: self.tokens@, pools: self.pools@, path_type: self.path_type }
    }
}

impl ArbitragePath {
    /// A route with the same tokens, pools and class.
    pub fn duplicate(&self) -> (copy: ArbitragePath)
        ensures
            copy@ == self@,
    {
        ArbitragePath {
            tokens: copy_of(&self.tokens),
            pools: copy_of(&self.pools),
            path_type: self.path_type,
        }
    }

    /// Gas that a route of this class and this many tokens is expected to use; a
    /// number that does not fit 64 bits counts as the largest that does.
    pub open spec fn gas_units_of(path_type: PathType, token_count: nat) -> nat {
        match path_type {
            PathType::ThreeHop => GAS_UNITS_3_HOPS as nat,
            PathType::FourHop => GAS_UNITS_4_HOPS as nat,
            PathType::Custom(_) => {
                let linear = GAS_UNITS_3_HOPS as nat + token_count * (GAS_UNITS_PER_TOKEN as nat);
                if linear > u64::MAX as nat {
                    u64::MAX as nat
                } else {
                    linear
                }
            },
        }
    }

    /// The tokens of the route, and the pools between them.
    pub open spec fn route(&self) -> (Seq<Token>, Seq<Address>) {
        (self.tokens@, self.pools@)
    }

    /// Create a new arbitrage path
    pub fn new(tokens: Vec<Token>, pools: Vec<Address>) -> (path: ArbitragePath)
        ensures
            path.tokens == tokens,
            path.pools == pools,
            path.path_type == path_type_of(tokens@.len()),
    {
        let path_type = if tokens.len() == 4 {
            PathType::ThreeHop
        } else if tokens.len() == 5 {
            PathType::FourHop
        } else {
            PathType::Custom(tokens.len())
        };
        ArbitragePath { tokens, pools, path_type }
    }

    /// Get path description as string
    pub fn description(&self) -> (text: String)
        ensures
            text@ == joined_tickers(self.tokens@, " -> "@),
    {
        join_symbols(self.tokens.as_slice(), " -> ")
    }

    /// Check if path starts and ends with the same token (cycle)
    pub fn is_cycle(&self) -> (closed: bool)
        ensures
            closed == (self.tokens@.len() == 0 || self.tokens@.first().addr()
                == self.tokens@.last().addr()),
    {
        let n = self.tokens.len();
        if n == 0 {
            true
        } else {
            self.tokens[0] == self.tokens[n - 1]
        }
    }

    /// Get expected gas cost for this path type
    pub fn expected_gas_units(&self) -> (units: u64)
        ensures
            units == Self::gas_units_of(self.path_type, self.tokens@.len()),
    {
        match self.path_type {
            PathType::ThreeHop => GAS_UNITS_3_HOPS,
            PathType::FourHop => GAS_UNITS_4_HOPS,
            PathType::Custom(_) => {
                let linear: u128 = (GAS_UNITS_3_HOPS as u128) + (self.tokens.len() as u128) * (
                GAS_UNITS_PER_TOKEN as u128);
                if linear > u64::MAX as u128 {
                    u64::MAX
                } else {
                    linear as u64
                }
            },
        }
    }
}

/// Cost of `gas_units` of gas at `gas_price_gwei` millionths of a gwei each, in
/// millionths of the native token, rounded down.
pub open spec fn gas_cost_of(gas_units: nat, gas_price_gwei: nat) -> nat {
    gas_units * gas_price_gwei / (GWEI_PER_MNT as nat)
}

/// Computes `gas_cost_of`.
pub fn gas_cost_for(gas_units: u64, gas_price_gwei: u64) -> (cost: u128)
    ensures
        cost == gas_cost_of(gas_units as nat, gas_price_gwei as nat),
        cost <= 0xffff_ffff_ffff_ffff * 0xffff_ffff_ffff_ffff / 1_000_000_000,
{
    assert((gas_units as int) * (gas_price_gwei as int) <= 0xffff_ffff_ffff_ffff
        * 0xffff_ffff_ffff_ffff) by (nonlinear_arith)
        requires
            0 <= gas_units <= 0xffff_ffff_ffff_ffff,
            0 <= gas_price_gwei <= 0xffff_ffff_ffff_ffff,
    ;
    (gas_units as u128) * (gas_price_gwei as u128) / (GWEI_PER_MNT as u128)
}

/// What an evaluated opportunity holds.
pub struct OpportunityView {
    pub optimal_input: u64,
    pub final_output: i128,
    pub gross_profit: i128,
    pub net_profit: i128,
    pub profit_percentage: i128,
    pub search_method: Seq<char>,
    pub path: Option<PathView>,
}

impl OpportunityView {
    /// Net profit is above zero.
    pub open spec fn profitable(self) -> bool {
        self.net_profit > 0
    }

    /// Number of swaps of the route; zero without a route.
    pub open spec fn hops(self) -> nat {
        match self.path {
            Some(path) => if path.tokens.len() == 0 {
                0
            } else {
                (path.tokens.len() - 1) as nat
            },
            None => 0,
        }
    }

    /// Gas that the route uses: that of four swaps for four, else that of three.
    pub open spec fn gas_units(self) -> nat {
        if self.hops() == 4 {
            GAS_UNITS_4_HOPS as nat
        } else {
            GAS_UNITS_3_HOPS as nat
        }
    }
}

/// Arbitrage opportunity result. Amounts and profits are in millionths of the base
/// token, the percentage in millionths of a percent.
#[derive(Debug, Clone)]
pub struct ArbitrageOpportunity {
    pub optimal_input: u64,
    pub final_output: i128,
    pub gross_profit: i128,
    pub net_profit: i128,
    pub profit_percentage: i128,
    pub search_method: String,
    pub path: Option<ArbitragePath>,
}

impl View for ArbitrageOpportunity {
    type V = OpportunityView;

    open spec fn view(&self) -> OpportunityView {
        OpportunityView {
            optimal_input: self.optimal_input,
            final_output: self.final_output,
            gross_profit: self.gross_profit,
            net_profit: self.net_profit,
            profit_percentage: self.profit_percentage,
            search_method: self.search_method@,
            path: match self.path {
                Some(path) => Some(path@),
                None => None,
            },
        }
    }
}

impl ArbitrageOpportunity {
    /// An opportunity that holds the same.
    pub fn duplicate(&self) -> (copy: ArbitrageOpportunity)
        ensures
            copy@ == self@,
    {
        ArbitrageOpportunity {
            optimal_input: self.optimal_input,
            final_output: self.final_output,
            gross_profit: self.gross_profit,
            net_profit: self.net_profit,
            profit_percentage: self.profit_percentage,
            search_method: self.search_method.clone(),
            path: match &self.path {
                Some(path) => Some(path.duplicate()),
                None => None,
            },
        }
    }

    /// Check if the opportunity is profitable
    pub fn is_profitable(&self) -> (profitable: bool)
        ensures
            profitable == self@.profitable(),
    {
        self.net_profit > 0
    }

    /// Get the number of hops in the arbitrage path
    pub fn hop_count(&self) -> (hops: usize)
        ensures
            hops == self@.hops(),
    {
        match &self.path {
            Some(path) => if path.tokens.len() == 0 {
                0
            } else {
                path.tokens.len() - 1
            },
            None => 0,
        }
    }

    /// Gas cost by hop count at the given gas price, in millionths of the native token.
    pub fn gas_cost(&self, gas_price_gwei: u64) -> (cost: u128)
        ensures
            cost == gas_cost_of(self@.gas_units(), gas_price_gwei as nat),
    {
        let gas_units = if self.hop_count() == 4 {
            GAS_UNITS_4_HOPS
        } else {
            GAS_UNITS_3_HOPS
        };
        gas_cost_for(gas_units, gas_price_gwei)
    }
}

/// What the opportunities hold, one by one.
pub open spec fn views_of(opportunities: Seq<ArbitrageOpportunity>) -> Seq<OpportunityView> {
    Seq::new(opportunities.len(), |i: int| opportunities[i]@)
}

/// Place of the opportunity with the largest net profit among the first `n`, the last
/// of them where several have it.
pub open spec fn top_profit(opportunities: Seq<OpportunityView>, n: nat) -> Option<int>
    decreases n,
{
    if n == 0 {
        None
    } else {
        match top_profit(opportunities, (n - 1) as nat) {
            Some(best) => if opportunities[n - 1].net_profit >= opportunities[best].net_profit {
                Some(n - 1)
            } else {
                Some(best)
            },
            None => Some(n - 1),
        }
    }
}

/// The opportunity at `top_profit` has the largest net profit, and none after it has as much.
pub proof fn lemma_top_profit(opportunities: Seq<OpportunityView>, n: nat)
    requires
        n <= opportunities.len(),
    ensures
        match top_profit(opportunities, n) {
            Some(best) => 0 <= best < n && (forall|j: int|
                0 <= j < n ==> opportunities[j].net_profit <= opportunities[best].net_profit)
                && (forall|j: int|
                best < j < n ==> opportunities[j].net_profit < opportunities[best].net_profit),
            None => n == 0,
        },
    decreases n,
{
    if n > 0 {
        lemma_top_profit(opportunities, (n - 1) as nat);
    }
}

/// Sum of the net profits of the profitable among the first `n` opportunities, held at
/// the largest 128-bit number once it is reached.
pub open spec fn profit_sum(opportunities: Seq<OpportunityView>, n: nat) -> int
    decreases n,
{
    if n == 0 {
        0
    } else {
        let before = profit_sum(opportunities, (n - 1) as nat);
        let item = opportunities[n - 1];
        if !item.profitable() {
            before
        } else if before + item.net_profit > i128::MAX {
            i128::MAX as int
        } else {
            before + item.net_profit
        }
    }
}

/// The profitable among the opportunities, in order.
pub open spec fn profitable_part(opportunities: Seq<ArbitrageOpportunity>) -> Seq<
    ArbitrageOpportunity,
>
    decreases opportunities.len(),
{
    if opportunities.len() == 0 {
        Seq::empty()
    } else {
        let before = profitable_part(opportunities.drop_last());
        if opportunities.last()@.profitable() {
            before.push(opportunities.last())
        } else {
            before
        }
    }
}

/// Multi-path arbitrage opportunity result
#[derive(Debug, Clone)]
pub struct MultiPathOpportunity {
    pub opportunities: Vec<ArbitrageOpportunity>,
    pub best_opportunity: Option<ArbitrageOpportunity>,
    pub total_profit: i128,
    pub analysis_time_ms: u64,
}

impl MultiPathOpportunity {
    /// Create new multi-path opportunity: the best is the opportunity of largest net
    /// profit, the total is the sum over the profitable ones.
    pub fn new(opportunities: Vec<ArbitrageOpportunity>, analysis_time_ms: u64) -> (result:
        MultiPathOpportunity)
        ensures
            result.opportunities == opportunities,
            result.analysis_time_ms == analysis_time_ms,
            result.total_profit == profit_sum(views_of(opportunities@), opportunities@.len()),
            match top_profit(views_of(opportunities@), opportunities@.len()) {
                Some(best) => result.best_opportunity matches Some(found) && found@
                    == opportunities@[best]@,
                None => result.best_opportunity is None,
            },
    {
        let ghost views = views_of(opportunities@);
        let mut best: Option<usize> = None;
        let mut total_profit: i128 = 0;
        let mut i: usize = 0;
        while i < opportunities.len()
            invariant
                i <= opportunities@.len(),
                views == views_of(opportunities@),
                match best {
                    Some(b) => top_profit(views, i as nat) == Some(b as int) && b < i,
                    None => top_profit(views, i as nat) is None,
                },
                total_profit == profit_sum(views, i as nat),
                total_profit >= 0,
            decreases opportunities@.len() - i,
        {
            let net = opportunities[i].net_profit;
            best = match best {
                Some(b) => if net >= opportunities[b].net_profit {
                    Some(i)
                } else {
                    Some(b)
                },
                None => Some(i),
            };
            if opportunities[i].is_profitable() {
                if total_profit > i128::MAX - net {
                    total_profit = i128::MAX;
                } else {
                    total_profit = total_profit + net;
                }
            }
            i = i + 1;
        }
        let best_opportunity = match best {
            Some(b) => Some(opportunities[b].duplicate()),
            None => None,
        };
        MultiPathOpportunity { opportunities, best_opportunity, total_profit, analysis_time_ms }
    }

    /// Get profitable opportunities only
    pub fn profitable_opportunities(&self) -> (profitable: Vec<&ArbitrageOpportunity>)
        ensures
            profitable@.map_values(|found: &ArbitrageOpportunity| *found) == profitable_part(
                self.opportunities@,
            ),
    {
        let mut profitable: Vec<&ArbitrageOpportunity> = Vec::new();
        let mut i: usize = 0;
        assert(profitable@.map_values(|found: &ArbitrageOpportunity| *found) =~= profitable_part(
            self.opportunities@.take(0),
        ));
        while i < self.opportunities.len()
            invariant
                i <= self.opportunities@.len(),
                profitable@.map_values(|found: &ArbitrageOpportunity| *found) == profitable_part(
                    self.opportunities@.take(i as int),
                ),
            decreases self.opportunities@.len() - i,
        {
            let ghost before = profitable@;
            assert(self.opportunities@.take(i + 1).drop_last() == self.opportunities@.take(
                i as int,
            ));
            if self.opportunities[i].is_profitable() {
                profitable.push(&self.opportunities[i]);
                assert(profitable@.map_values(|found: &ArbitrageOpportunity| *found)
                    =~= before.map_values(|found: &ArbitrageOpportunity| *found).push(
                    self.opportunities@[i as int],
                ));
            }
            i = i + 1;
        }
        assert(self.opportunities@.take(i as int) == self.opportunities@);
        profitable
    }

    /// Get number of profitable opportunities
    pub fn profitable_count(&self) -> (count: usize)
        ensures
            count == profitable_part(self.opportunities@).len(),
    {
        self.profitable_opportunities().len()
    }

    /// Check if any opportunity is profitable
    pub fn has_profitable_opportunities(&self) -> (any: bool)
        ensures
            any == (profitable_part(self.opportunities@).len() > 0),
    {
        self.profitable_count() > 0
    }
}

} // verus!
