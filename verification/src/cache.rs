//! The reserves that were seen last, by pool address.

use crate::types::{Address, PoolReserves};
use vstd::prelude::*;

verus! {

/// The reserves held for `address`: those of the first entry with this address.
pub open spec fn held_for(entries: Seq<(Address, PoolReserves)>, address: Address) -> Option<
    PoolReserves,
>
    decreases entries.len(),
{
    if entries.len() == 0 {
        None
    } else if entries[0].0 == address {
        Some(entries[0].1)
    } else {
        held_for(entries.drop_first(), address)
    }
}

/// No address is held twice.
pub open spec fn distinct_keys(entries: Seq<(Address, PoolReserves)>) -> bool {
    forall|i: int, j: int| 0 <= i < j < entries.len() ==> entries[i].0 != entries[j].0
}

/// The snapshot differs from what the cache holds: the cache has no reserves for its
/// address, or others.
pub open spec fn differs(entries: Seq<(Address, PoolReserves)>, snapshot: (Address, PoolReserves)) -> bool {
    match held_for(entries, snapshot.0) {
        Some(cached) => cached.reserve_a != snapshot.1.reserve_a || cached.reserve_b
            != snapshot.1.reserve_b,
        None => true,
    }
}

/// Cache structure for pool reserves to avoid unnecessary refetching
#[derive(Debug, Clone)]
pub struct ReservesCache {
    data: Vec<(Address, PoolReserves)>,
    last_block: u64,
}

impl ReservesCache {
    /// What the cache holds, in the order in which the addresses were first seen.
    pub closed spec fn entries(&self) -> Seq<(Address, PoolReserves)> {
        self.data@
    }

    /// Block of the last update.
    pub closed spec fn block(&self) -> u64 {
        self.last_block
    }

    /// No address is held twice.
    pub closed spec fn wf(&self) -> bool {
        distinct_keys(self.data@)
    }

    /// Create a new empty cache
    pub fn new() -> (cache: ReservesCache)
        ensures
            cache.wf(),
            cache.entries().len() == 0,
            cache.block() == 0,
    {
        ReservesCache { data: Vec::new(), last_block: 0 }
    }

    fn place_of(&self, address: &Address) -> (place: Option<usize>)
        ensures
            match place {
                Some(i) => i < self.entries().len() && self.entries()[i as int].0 == *address
                    && held_for(self.entries(), *address) == Some(self.entries()[i as int].1)
                    && forall|k: int| 0 <= k < i ==> self.entries()[k].0 != *address,
                None => held_for(self.entries(), *address) is None && forall|k: int|
                    0 <= k < self.entries().len() ==> self.entries()[k].0 != *address,
            },
    {
        let mut i: usize = 0;
        assert(self.data@.skip(0) == self.data@);
        while i < self.data.len()
            invariant
                i <= self.data@.len(),
                held_for(self.data@, *address) == held_for(self.data@.skip(i as int), *address),
                forall|k: int| 0 <= k < i ==> self.data@[k].0 != *address,
            decreases self.data@.len() - i,
        {
            assert(self.data@.skip(i as int).drop_first() == self.data@.skip(i + 1));
            assert(self.data@.skip(i as int)[0] == self.data@[i as int]);
            if self.data[i].0 == *address {
                return Some(i);
            }
            i = i + 1;
        }
        None
    }

    /// Get cached reserves for a pool address
    pub fn get(&self, address: &Address) -> (found: Option<&PoolReserves>)
        ensures
            match found {
                Some(reserves) => held_for(self.entries(), *address) == Some(*reserves),
                None => held_for(self.entries(), *address) is None,
            },
    {
        match self.place_of(address) {
            Some(i) => Some(&self.data[i].1),
            None => None,
        }
    }

    /// Update the cache with new reserves: they take the place of those held for the
    /// address, and the block of the cache becomes theirs.
    pub fn update(&mut self, address: Address, reserves: PoolReserves)
        requires
            old(self).wf(),
        ensures
            final(self).wf(),
            final(self).block() == reserves.block_number,
            held_for(final(self).entries(), address) == Some(reserves),
            forall|other: Address|
                other != address ==> held_for(final(self).entries(), other) == held_for(
                    old(self).entries(),
                    other,
                ),
            final(self).entries().len() == if held_for(old(self).entries(), address) is Some {
                old(self).entries().len()
            } else {
                old(self).entries().len() + 1
            },
    {
        self.last_block = reserves.block_number;
        match self.place_of(&address) {
            Some(i) => {
                self.data.set(i, (address, reserves));
                proof {
                    assert forall|other: Address| other != address implies held_for(
                        self.data@,
                        other,
                    ) == held_for(old(self).data@, other) by {
                        lemma_held_after_set(old(self).data@, i as int, reserves, other);
                    }
                    lemma_held_at(self.data@, i as int);
                }
            },
            None => {
                self.data.push((address, reserves));
                proof {
                    assert forall|other: Address| other != address implies held_for(
                        self.data@,
                        other,
                    ) == held_for(old(self).data@, other) by {
                        lemma_held_after_push(old(self).data@, (address, reserves), other);
                    }
                    lemma_held_after_push(old(self).data@, (address, reserves), address);
                }
            },
        }
    }

    /// Check if the block has changed since last update
    pub fn has_changed(&self, block_number: u64) -> (changed: bool)
        ensures
            changed == (block_number > self.block()),
    {
        block_number > self.last_block
    }

    /// Check if any reserves have actually changed compared to cache: the snapshots are
    /// not as many as the cache holds, or one of them differs from what is held.
    pub fn reserves_changed(&self, new_reserves: &[(Address, PoolReserves)]) -> (changed: bool)
        ensures
            changed == (self.entries().len() != new_reserves@.len() || exists|i: int|
                0 <= i < new_reserves@.len() && differs(self.entries(), #[trigger] new_reserves@[i])),
    {
        if self.data.len() != new_reserves.len() {
            return true;
        }
        let mut i: usize = 0;
        while i < new_reserves.len()
            invariant
                i <= new_reserves@.len(),
                forall|k: int| 0 <= k < i ==> !differs(self.data@, #[trigger] new_reserves@[k]),
            decreases new_reserves@.len() - i,
        {
            match self.get(&new_reserves[i].0) {
                Some(cached) => {
                    if cached.reserve_a != new_reserves[i].1.reserve_a || cached.reserve_b
                        != new_reserves[i].1.reserve_b {
                        return true;
                    }
                },
                None => {
                    return true;
                },
            }
            i = i + 1;
        }
        false
    }

    /// Update the last block number (used when reserves didn't change but block advanced)
    pub fn update_block_number(&mut self, block_number: u64)
        ensures
            final(self).block() == block_number,
            final(self).entries() == old(self).entries(),
            final(self).wf() == old(self).wf(),
    {
        self.last_block = block_number;
    }

    /// Get the last cached block number
    pub fn get_last_block(&self) -> (block: u64)
        ensures
            block == self.block(),
    {
        self.last_block
    }

    /// Clear the cache
    pub fn clear(&mut self)
        ensures
            final(self).wf(),
            final(self).entries().len() == 0,
            final(self).block() == 0,
    {
        self.data.clear();
        self.last_block = 0;
    }

    /// Get all cached reserves
    pub fn get_all(&self) -> (all: &Vec<(Address, PoolReserves)>)
        ensures
            all@ == self.entries(),
    {
        &self.data
    }
}

impl Default for ReservesCache {
    fn default() -> (cache: ReservesCache)
        ensures
            cache.wf(),
            cache.entries().len() == 0,
            cache.block() == 0,
    {
        ReservesCache::new()
    }
}

/// What is held at a place where the address stands first is found there.
proof fn lemma_held_at(entries: Seq<(Address, PoolReserves)>, i: int)
    requires
        0 <= i < entries.len(),
        forall|k: int| 0 <= k < i ==> (#[trigger] entries[k]).0 != entries[i].0,
    ensures
        held_for(entries, entries[i].0) == Some(entries[i].1),
    decreases i,
{
    if i > 0 {
        let rest = entries.drop_first();
        assert(rest[i - 1] == entries[i]);
        assert forall|k: int| 0 <= k < i - 1 implies (#[trigger] rest[k]).0 != rest[i - 1].0 by {
            assert(rest[k] == entries[k + 1]);
        }
        lemma_held_at(rest, i - 1);
    }
}

/// Putting other reserves at the place of an address changes nothing for other addresses.
proof fn lemma_held_after_set(
    entries: Seq<(Address, PoolReserves)>,
    i: int,
    reserves: PoolReserves,
    other: Address,
)
    requires
        0 <= i < entries.len(),
        other != entries[i].0,
    ensures
        held_for(entries.update(i, (entries[i].0, reserves)), other) == held_for(entries, other),
    decreases entries.len(),
{
    let changed = entries.update(i, (entries[i].0, reserves));
    if i == 0 {
        assert(changed.drop_first() == entries.drop_first());
    } else {
        assert(changed.drop_first() == entries.drop_first().update(
            i - 1,
            (entries[i].0, reserves),
        ));
        assert(entries.drop_first()[i - 1] == entries[i]);
        lemma_held_after_set(entries.drop_first(), i - 1, reserves, other);
    }
}

/// An entry at the end is found for its address where none was held for it, and
/// changes nothing for other addresses.
proof fn lemma_held_after_push(
    entries: Seq<(Address, PoolReserves)>,
    entry: (Address, PoolReserves),
    other: Address,
)
    ensures
        held_for(entries.push(entry), other) == if held_for(entries, other) is Some {
            held_for(entries, other)
        } else if other == entry.0 {
            Some(entry.1)
        } else {
            None
        },
    decreases entries.len(),
{
    let grown = entries.push(entry);
    if entries.len() == 0 {
        assert(grown[0] == entry);
        assert(grown.drop_first().len() == 0);
        assert(held_for(grown.drop_first(), other) is None);
    } else {
        assert(grown[0] == entries[0]);
        assert(grown.drop_first() == entries.drop_first().push(entry));
        lemma_held_after_push(entries.drop_first(), entry, other);
    }
}

} // verus!
