//! The pools whose reserves are fetched, in batches, and the pools liquid enough to trade.

use crate::hexcode::{is_address_of, names_address, parse_address};
use crate::math::{token_units, u256_to_f64};
use crate::types::{Address, PoolReserves};
use vstd::prelude::*;
use vstd::string::StringSliceAdditionalSpecFns;

verus! {

/// Whether `items` holds `address`.
pub fn holds_address(items: &Vec<Address>, address: Address) -> (held: bool)
    ensures
        held == items@.contains(address),
{
    let mut i: usize = 0;
    while i < items.len()
        invariant
            i <= items@.len(),
            forall|k: int| 0 <= k < i ==> items@[k] != address,
        decreases items@.len() - i,
    {
        if items[i] == address {
            return true;
        }
        i = i + 1;
    }
    false
}

/// The addresses of the entries that `keep` holds of, in the order of the entries.
pub open spec fn kept_addresses(
    entries: Seq<(Address, PoolReserves)>,
    keep: spec_fn(PoolReserves) -> bool,
) -> Seq<Address>
    decreases entries.len(),
{
    if entries.len() == 0 {
        Seq::empty()
    } else {
        let before = kept_addresses(entries.drop_last(), keep);
        if keep(entries.last().1) {
            before.push(entries.last().0)
        } else {
            before
        }
    }
}

/// Half the sum of the two reserves, in token units, is at least `min_liquidity`.
pub open spec fn liquid_enough(reserves: PoolReserves, min_liquidity: u64) -> bool {
    token_units(reserves.reserve_a as nat) + token_units(reserves.reserve_b as nat) >= 2
        * min_liquidity
}

/// Each of the two reserves, in token units, is at least `min_liquidity`.
pub open spec fn both_sides_liquid(reserves: PoolReserves, min_liquidity: u64) -> bool {
    token_units(reserves.reserve_a as nat) >= min_liquidity && token_units(
        reserves.reserve_b as nat,
    ) >= min_liquidity
}

/// The batch of `size` addresses that starts at the place `start`, or what is left of
/// the addresses from there on.
pub open spec fn batch_of(addresses: Seq<Address>, start: nat, size: nat) -> Seq<Address> {
    if start >= addresses.len() {
        Seq::empty()
    } else if start + size <= addresses.len() {
        addresses.subrange(start as int, (start + size) as int)
    } else {
        addresses.subrange(start as int, addresses.len() as int)
    }
}

/// Batch fetcher for pool reserves
pub struct BatchReservesFetcher {
    pool_addresses: Vec<Address>,
    max_retries: usize,
    batch_size: usize,
}

impl BatchReservesFetcher {
    /// The pool addresses, in the order in which they were added.
    pub closed spec fn addresses(&self) -> Seq<Address> {
        self.pool_addresses@
    }

    /// How often a failed fetch is tried again.
    pub closed spec fn retries(&self) -> usize {
        self.max_retries
    }

    /// Number of pools fetched at once.
    pub closed spec fn size_of_batch(&self) -> usize {
        self.batch_size
    }

    /// Create new batch fetcher, with batches of 50 pools.
    pub fn new(max_retries: usize) -> (fetcher: BatchReservesFetcher)
        ensures
            fetcher.addresses().len() == 0,
            fetcher.retries() == max_retries,
            fetcher.size_of_batch() == 50,
    {
        BatchReservesFetcher { pool_addresses: Vec::new(), max_retries, batch_size: 50 }
    }

    /// Takes in the address column of one record of a pool list: an address is added,
    /// also where it is held already; another text is passed over.
    pub fn load_pool_address(&mut self, text: &str) -> (loaded: bool)
        ensures
            final(self).retries() == old(self).retries(),
            final(self).size_of_batch() == old(self).size_of_batch(),
            loaded == names_address(text.spec_bytes()),
            loaded ==> final(self).addresses().len() == old(self).addresses().len() + 1
                && final(self).addresses().drop_last() == old(self).addresses()
                && is_address_of(final(self).addresses().last(), text.spec_bytes()),
            !loaded ==> final(self).addresses() == old(self).addresses(),
    {
        match parse_address(text) {
            Some(address) => {
                self.pool_addresses.push(address);
                assert(self.pool_addresses@.drop_last() == old(self).pool_addresses@);
                true
            },
            None => false,
        }
    }

    /// Get all pool addresses
    pub fn get_pool_addresses(&self) -> (addresses: &[Address])
        ensures
            addresses@ == self.addresses(),
    {
        self.pool_addresses.as_slice()
    }

    /// Add individual pool address, unless it is held already.
    pub fn add_pool_address(&mut self, address: Address)
        ensures
            final(self).retries() == old(self).retries(),
            final(self).size_of_batch() == old(self).size_of_batch(),
            final(self).addresses() == if old(self).addresses().contains(address) {
                old(self).addresses()
            } else {
                old(self).addresses().push(address)
            },
    {
        if !holds_address(&self.pool_addresses, address) {
            self.pool_addresses.push(address);
        }
    }

    /// Get pool count
    pub fn pool_count(&self) -> (count: usize)
        ensures
            count == self.addresses().len(),
    {
        self.pool_addresses.len()
    }

    /// How often a failed fetch is tried again.
    pub fn max_retries(&self) -> (retries: usize)
        ensures
            retries == self.retries(),
    {
        self.max_retries
    }

    /// Number of pools fetched at once.
    pub fn batch_size(&self) -> (size: usize)
        ensures
            size == self.size_of_batch(),
    {
        self.batch_size
    }

    /// Set batch size for parallel processing; a batch holds at least one pool.
    pub fn set_batch_size(&mut self, batch_size: usize)
        ensures
            final(self).addresses() == old(self).addresses(),
            final(self).retries() == old(self).retries(),
            final(self).size_of_batch() == if batch_size == 0 {
                1
            } else {
                batch_size
            },
    {
        self.batch_size = if batch_size == 0 {
            1
        } else {
            batch_size
        };
    }

    /// The batch that starts at the place `start`: the addresses from there on, as many
    /// as a batch holds or as are left.
    pub fn batch_from(&self, start: usize) -> (batch: Vec<Address>)
        ensures
            batch@ == batch_of(self.addresses(), start as nat, self.size_of_batch() as nat),
    {
        let mut batch: Vec<Address> = Vec::new();
        if start >= self.pool_addresses.len() {
            return batch;
        }
        let end: usize = if self.batch_size <= self.pool_addresses.len() - start {
            start + self.batch_size
        } else {
            self.pool_addresses.len()
        };
        let mut i: usize = start;
        while i < end
            invariant
                start <= i <= end <= self.pool_addresses@.len(),
                batch@ == self.pool_addresses@.subrange(start as int, i as int),
            decreases end - i,
        {
            batch.push(self.pool_addresses[i]);
            assert(batch@ =~= self.pool_addresses@.subrange(start as int, i + 1));
            i = i + 1;
        }
        batch
    }

    /// Filter pools by minimum liquidity threshold: the mean of the two reserves, in
    /// token units, is at least `min_liquidity_usd`.
    pub fn filter_by_liquidity(&self, reserves: &[(Address, PoolReserves)], min_liquidity_usd: u64) -> (liquid:
        Vec<Address>)
        ensures
            liquid@ == kept_addresses(
                reserves@,
                |r: PoolReserves| liquid_enough(r, min_liquidity_usd),
            ),
    {
        let ghost keep = |r: PoolReserves| liquid_enough(r, min_liquidity_usd);
        let mut liquid: Vec<Address> = Vec::new();
        let mut i: usize = 0;
        while i < reserves.len()
            invariant
                i <= reserves@.len(),
                keep == (|r: PoolReserves| liquid_enough(r, min_liquidity_usd)),
                liquid@ == kept_addresses(reserves@.take(i as int), keep),
            decreases reserves@.len() - i,
        {
            assert(reserves@.take(i + 1).drop_last() == reserves@.take(i as int));
            let reserve_a = u256_to_f64(reserves[i].1.reserve_a) as u128;
            let reserve_b = u256_to_f64(reserves[i].1.reserve_b) as u128;
            if reserve_a + reserve_b >= 2 * (min_liquidity_usd as u128) {
                liquid.push(reserves[i].0);
            }
            i = i + 1;
        }
        assert(reserves@.take(i as int) == reserves@);
        liquid
    }
}

/// Liquidity of a pool: the sum of its two reserves, in token units.
pub open spec fn liquidity_of(reserves: PoolReserves) -> nat {
    token_units(reserves.reserve_a as nat) + token_units(reserves.reserve_b as nat)
}

/// `sorted`, which is in descending order, with `x` put behind everything that is at
/// least as large.
pub open spec fn placed(sorted: Seq<u128>, x: u128) -> Seq<u128>
    decreases sorted.len(),
{
    if sorted.len() == 0 {
        seq![x]
    } else if sorted.last() >= x {
        sorted.push(x)
    } else {
        placed(sorted.drop_last(), x).push(sorted.last())
    }
}

/// The liquidities of the pools in descending order.
pub open spec fn ranked(entries: Seq<(Address, PoolReserves)>) -> Seq<u128>
    decreases entries.len(),
{
    if entries.len() == 0 {
        Seq::empty()
    } else {
        placed(ranked(entries.drop_last()), liquidity_of(entries.last().1) as u128)
    }
}

/// Each number is at least as large as every number behind it.
pub open spec fn descending(items: Seq<u128>) -> bool {
    forall|i: int, j: int| 0 <= i < j < items.len() ==> items[i] >= items[j]
}

/// Sum of the liquidities of the pools, held at the largest 128-bit number.
pub open spec fn liquidity_sum(entries: Seq<(Address, PoolReserves)>) -> nat
    decreases entries.len(),
{
    if entries.len() == 0 {
        0
    } else {
        let sum = liquidity_sum(entries.drop_last()) + liquidity_of(entries.last().1);
        if sum > u128::MAX {
            u128::MAX as nat
        } else {
            sum
        }
    }
}

/// Putting a number in its place is putting it at the place behind which everything
/// is smaller and before which everything is at least as large.
pub proof fn lemma_placed_is_insert(sorted: Seq<u128>, x: u128, k: int)
    requires
        0 <= k <= sorted.len(),
        forall|j: int| k <= j < sorted.len() ==> sorted[j] < x,
        k > 0 ==> sorted[k - 1] >= x,
    ensures
        placed(sorted, x) == sorted.insert(k, x),
    decreases sorted.len() - k,
{
    if k == sorted.len() {
        assert(sorted.insert(k, x) =~= sorted.push(x));
    } else {
        let front = sorted.drop_last();
        lemma_placed_is_insert(front, x, k);
        assert(front.insert(k, x).push(sorted.last()) =~= sorted.insert(k, x));
    }
}

/// Putting a number in its place keeps the order and adds just this number.
pub proof fn lemma_placed(sorted: Seq<u128>, x: u128)
    requires
        descending(sorted),
    ensures
        descending(placed(sorted, x)),
        placed(sorted, x).len() == sorted.len() + 1,
        placed(sorted, x).to_multiset() == sorted.to_multiset().insert(x),
    decreases sorted.len(),
{
    broadcast use vstd::seq_lib::group_to_multiset_ensures;

    if sorted.len() > 0 && sorted.last() < x {
        let front = sorted.drop_last();
        assert(descending(front)) by {
            assert forall|i: int, j: int| 0 <= i < j < front.len() implies front[i]
                >= front[j] by {
                assert(front[i] == sorted[i] && front[j] == sorted[j]);
            }
        }
        lemma_placed(front, x);
        let inner = placed(front, x);
        assert(sorted == front.push(sorted.last()));
        assert(forall|i: int| 0 <= i < inner.len() ==> inner[i] >= sorted.last()) by {
            assert forall|i: int| 0 <= i < inner.len() implies inner[i] >= sorted.last() by {
                assert(inner.to_multiset().count(inner[i]) > 0);
                if inner[i] != x {
                    assert(front.to_multiset().count(inner[i]) > 0);
                    assert(front.contains(inner[i]));
                    let at = choose|at: int| 0 <= at < front.len() && front[at] == inner[i];
                    assert(sorted[at] >= sorted[sorted.len() - 1]);
                }
            }
        }
        assert(front.to_multiset().insert(x).insert(sorted.last()) =~= front.to_multiset().insert(
            sorted.last(),
        ).insert(x));
    }
}

/// The ranked liquidities are in descending order, one for each pool.
pub proof fn lemma_ranked(entries: Seq<(Address, PoolReserves)>)
    ensures
        descending(ranked(entries)),
        ranked(entries).len() == entries.len(),
    decreases entries.len(),
{
    if entries.len() > 0 {
        lemma_ranked(entries.drop_last());
        lemma_placed(ranked(entries.drop_last()), liquidity_of(entries.last().1) as u128);
    }
}

/// What the statistics say of a list of pools.
pub struct StatsView {
    pub total_pools: nat,
    pub total_liquidity: nat,
    pub mean_liquidity: nat,
    pub median_liquidity: nat,
    pub max_liquidity: nat,
    pub min_liquidity: nat,
    pub top_10_pools: Seq<u128>,
}

/// The statistics of the pools: their number, the sum of their liquidities, the
/// mean and the median rounded down, the largest and the smallest, and the ten
/// largest in descending order. The numbers of an empty list are zero.
pub open spec fn stats_of(entries: Seq<(Address, PoolReserves)>) -> StatsView {
    let sorted = ranked(entries);
    let count = entries.len();
    StatsView {
        total_pools: count,
        total_liquidity: liquidity_sum(entries),
        mean_liquidity: if count > 0 {
            liquidity_sum(entries) / count
        } else {
            0
        },
        median_liquidity: if count == 0 {
            0
        } else if count % 2 == 0 {
            ((sorted[count / 2 - 1] + sorted[count as int / 2]) / 2) as nat
        } else {
            sorted[count as int / 2] as nat
        },
        max_liquidity: if count > 0 {
            sorted[0] as nat
        } else {
            0
        },
        min_liquidity: if count > 0 {
            sorted[count - 1] as nat
        } else {
            0
        },
        top_10_pools: if count > 10 {
            sorted.take(10)
        } else {
            sorted
        },
    }
}

/// Liquidity statistics, in token units.
#[derive(Debug, Clone)]
pub struct LiquidityStats {
    pub total_pools: usize,
    pub total_liquidity: u128,
    pub mean_liquidity: u128,
    pub median_liquidity: u128,
    pub max_liquidity: u128,
    pub min_liquidity: u128,
    pub top_10_pools: Vec<u128>,
}

impl View for LiquidityStats {
    type V = StatsView;

    open spec fn view(&self) -> StatsView {
        StatsView {
            total_pools: self.total_pools as nat,
            total_liquidity: self.total_liquidity as nat,
            mean_liquidity: self.mean_liquidity as nat,
            median_liquidity: self.median_liquidity as nat,
            max_liquidity: self.max_liquidity as nat,
            min_liquidity: self.min_liquidity as nat,
            top_10_pools: self.top_10_pools@,
        }
    }
}

/// Pool liquidity analyzer
#[derive(Debug, Clone, Copy)]
pub struct LiquidityAnalyzer;

impl LiquidityAnalyzer {
    /// Analyze liquidity distribution across pools
    pub fn analyze_liquidity_distribution(reserves: &[(Address, PoolReserves)]) -> (stats:
        LiquidityStats)
        ensures
            stats@ == stats_of(reserves@),
    {
        let mut total_liquidity: u128 = 0;
        let mut sorted: Vec<u128> = Vec::new();
        let mut i: usize = 0;
        while i < reserves.len()
            invariant
                i <= reserves@.len(),
                total_liquidity == liquidity_sum(reserves@.take(i as int)),
                sorted@ == ranked(reserves@.take(i as int)),
            decreases reserves@.len() - i,
        {
            assert(reserves@.take(i + 1).drop_last() == reserves@.take(i as int));
            proof {
                lemma_ranked(reserves@.take(i as int));
            }
            let liquidity: u128 = (u256_to_f64(reserves[i].1.reserve_a) as u128) + (u256_to_f64(
                reserves[i].1.reserve_b,
            ) as u128);
            total_liquidity = if total_liquidity > u128::MAX - liquidity {
                u128::MAX
            } else {
                total_liquidity + liquidity
            };
            let mut k: usize = sorted.len();
            while k > 0 && sorted[k - 1] < liquidity
                invariant
                    k <= sorted@.len(),
                    forall|j: int| k <= j < sorted@.len() ==> sorted@[j] < liquidity,
                decreases k,
            {
                k = k - 1;
            }
            proof {
                lemma_placed_is_insert(sorted@, liquidity, k as int);
            }
            sorted.insert(k, liquidity);
            i = i + 1;
        }
        proof {
            assert(reserves@.take(i as int) == reserves@);
            lemma_ranked(reserves@);
        }
        let count = sorted.len();
        let mean_liquidity = if count > 0 {
            total_liquidity / (count as u128)
        } else {
            0
        };
        let median_liquidity = if count == 0 {
            0
        } else if count % 2 == 0 {
            let low = sorted[count / 2 - 1];
            let high = sorted[count / 2];
            low / 2 + high / 2 + (low % 2 + high % 2) / 2
        } else {
            sorted[count / 2]
        };
        let max_liquidity = if count > 0 {
            sorted[0]
        } else {
            0
        };
        let min_liquidity = if count > 0 {
            sorted[count - 1]
        } else {
            0
        };
        let mut top_10_pools: Vec<u128> = Vec::new();
        let mut k: usize = 0;
        while k < count && k < 10
            invariant
                k <= count,
                k <= 10,
                count == sorted@.len(),
                top_10_pools@ == sorted@.take(k as int),
            decreases count - k,
        {
            top_10_pools.push(sorted[k]);
            assert(top_10_pools@ =~= sorted@.take(k + 1));
            k = k + 1;
        }
        assert(count <= 10 ==> sorted@.take(k as int) == sorted@);
        LiquidityStats {
            total_pools: count,
            total_liquidity,
            mean_liquidity,
            median_liquidity,
            max_liquidity,
            min_liquidity,
            top_10_pools,
        }
    }

    /// Get pools with sufficient liquidity for arbitrage: both reserves, in token
    /// units, are at least `min_liquidity`.
    pub fn get_arbitrage_ready_pools(reserves: &[(Address, PoolReserves)], min_liquidity: u64) -> (ready:
        Vec<Address>)
        ensures
            ready@ == kept_addresses(
                reserves@,
                |r: PoolReserves| both_sides_liquid(r, min_liquidity),
            ),
    {
        let ghost keep = |r: PoolReserves| both_sides_liquid(r, min_liquidity);
        let mut ready: Vec<Address> = Vec::new();
        let mut i: usize = 0;
        while i < reserves.len()
            invariant
                i <= reserves@.len(),
                keep == (|r: PoolReserves| both_sides_liquid(r, min_liquidity)),
                ready@ == kept_addresses(reserves@.take(i as int), keep),
            decreases reserves@.len() - i,
        {
            assert(reserves@.take(i + 1).drop_last() == reserves@.take(i as int));
            let reserve_a = u256_to_f64(reserves[i].1.reserve_a);
            let reserve_b = u256_to_f64(reserves[i].1.reserve_b);
            if reserve_a >= min_liquidity && reserve_b >= min_liquidity {
                ready.push(reserves[i].0);
            }
            i = i + 1;
        }
        assert(reserves@.take(i as int) == reserves@);
        ready
    }
}

} // verus!
