//! MOE DEX protocol implementation

use crate::constants::{
    DEFAULT_DEX_FEE, JOE_ADDRESS, JOE_MOE_POOL, JOE_WMNT_POOL, MOE_ADDRESS, MOE_WMNT_POOL,
    WMNT_ADDRESS,
};
use crate::hexcode::{
    is_address_of, joe_address, lemma_joe_moe_pool_text, lemma_joe_wmnt_pool_text,
    lemma_moe_wmnt_pool_text, moe_address, parse_known, wmnt_address,
};
use crate::types::{Address, Token};
use vstd::prelude::*;
use vstd::string::StringSliceAdditionalSpecFns;

verus! {

/// MOE DEX protocol implementation
pub struct MoeProtocol {
    name: String,
    default_fee: u64,
    known_pools: Vec<(Address, String, Token, Token)>,
}

impl MoeProtocol {
    /// The known pools: address, name and the two tokens of each.
    pub closed spec fn pools(&self) -> Seq<(Address, String, Token, Token)> {
        self.known_pools@
    }

    /// Name of the protocol.
    pub closed spec fn label(&self) -> Seq<char> {
        self.name@
    }

    /// Fee of a swap on this protocol, in millionths of the input.
    pub closed spec fn fee(&self) -> u64 {
        self.default_fee
    }

    /// What holds of every instance: it knows the three pools of the triangle, MOE-WMNT,
    /// JOE-MOE and JOE-WMNT in this order, each at the address of its address text
    /// and with its tokens at theirs.
    pub closed spec fn wf(&self) -> bool {
        &&& self.known_pools@.len() == 3
        &&& self.name@ == "MOE"@
        &&& self.default_fee == DEFAULT_DEX_FEE
        &&& is_address_of(self.known_pools@[0].0, MOE_WMNT_POOL.spec_bytes())
        &&& is_address_of(self.known_pools@[1].0, JOE_MOE_POOL.spec_bytes())
        &&& is_address_of(self.known_pools@[2].0, JOE_WMNT_POOL.spec_bytes())
        &&& self.known_pools@[0].1@ == "MOE-WMNT"@
        &&& self.known_pools@[1].1@ == "JOE-MOE"@
        &&& self.known_pools@[2].1@ == "JOE-WMNT"@
        &&& self.known_pools@[0].2 is MOE && self.known_pools@[0].3 is WMNT
        &&& self.known_pools@[1].2 is JOE && self.known_pools@[1].3 is MOE
        &&& self.known_pools@[2].2 is JOE && self.known_pools@[2].3 is WMNT
        &&& is_address_of(self.known_pools@[0].2.addr(), MOE_ADDRESS.spec_bytes())
        &&& is_address_of(self.known_pools@[0].3.addr(), WMNT_ADDRESS.spec_bytes())
        &&& is_address_of(self.known_pools@[1].2.addr(), JOE_ADDRESS.spec_bytes())
        &&& is_address_of(self.known_pools@[1].3.addr(), MOE_ADDRESS.spec_bytes())
        &&& is_address_of(self.known_pools@[2].2.addr(), JOE_ADDRESS.spec_bytes())
        &&& is_address_of(self.known_pools@[2].3.addr(), WMNT_ADDRESS.spec_bytes())
    }

    /// Create a new MOE protocol instance
    pub fn new() -> (protocol: MoeProtocol)
        ensures
            protocol.wf(),
            protocol.label() == "MOE"@,
            protocol.fee() == DEFAULT_DEX_FEE,
            protocol.pools().len() == 3,
    {
        let wmnt_addr = wmnt_address();
        let moe_addr = moe_address();
        let joe_addr = joe_address();
        proof {
            lemma_moe_wmnt_pool_text();
            lemma_joe_moe_pool_text();
            lemma_joe_wmnt_pool_text();
        }
        let mut known_pools: Vec<(Address, String, Token, Token)> = Vec::new();
        known_pools.push(
            (
                parse_known(MOE_WMNT_POOL),
                String::from_str("MOE-WMNT"),
                Token::MOE(moe_addr),
                Token::WMNT(wmnt_addr),
            ),
        );
        known_pools.push(
            (
                parse_known(JOE_MOE_POOL),
                String::from_str("JOE-MOE"),
                Token::JOE(joe_addr),
                Token::MOE(moe_addr),
            ),
        );
        known_pools.push(
            (
                parse_known(JOE_WMNT_POOL),
                String::from_str("JOE-WMNT"),
                Token::JOE(joe_addr),
                Token::WMNT(wmnt_addr),
            ),
        );
        MoeProtocol { name: String::from_str("MOE"), default_fee: DEFAULT_DEX_FEE, known_pools }
    }

    /// Place of the first known pool at `address`.
    pub open spec fn place_of(pools: Seq<(Address, String, Token, Token)>, address: Address) -> Option<
        int,
    >
        decreases pools.len(),
    {
        if pools.len() == 0 {
            None
        } else {
            match Self::place_of(pools.drop_last(), address) {
                Some(i) => Some(i),
                None => if pools.last().0 == address {
                    Some(pools.len() - 1)
                } else {
                    None
                },
            }
        }
    }

    fn find_pool(&self, address: Address) -> (place: Option<usize>)
        ensures
            match place {
                Some(i) => Self::place_of(self.pools(), address) == Some(i as int) && i
                    < self.pools().len(),
                None => Self::place_of(self.pools(), address) is None,
            },
    {
        let mut i: usize = 0;
        while i < self.known_pools.len()
            invariant
                i <= self.known_pools@.len(),
                Self::place_of(self.known_pools@.take(i as int), address) is None,
            decreases self.known_pools@.len() - i,
        {
            assert(self.known_pools@.take(i + 1).drop_last() == self.known_pools@.take(i as int));
            if self.known_pools[i].0 == address {
                proof {
                    Self::lemma_place_stays(self.known_pools@, address, i + 1);
                }
                return Some(i);
            }
            i = i + 1;
        }
        assert(self.known_pools@.take(i as int) == self.known_pools@);
        None
    }

    /// A place found in a part of the pools is the place in all of them.
    proof fn lemma_place_stays(pools: Seq<(Address, String, Token, Token)>, address: Address, n: int)
        requires
            0 <= n <= pools.len(),
            Self::place_of(pools.take(n), address) is Some,
        ensures
            Self::place_of(pools, address) == Self::place_of(pools.take(n), address),
        decreases pools.len() - n,
    {
        if n < pools.len() {
            assert(pools.take(n + 1).drop_last() == pools.take(n));
            Self::lemma_place_stays(pools, address, n + 1);
        } else {
            assert(pools.take(n) == pools);
        }
    }

    /// Get the pool addresses as a vector
    pub fn get_pool_addresses(&self) -> (addresses: Vec<Address>)
        ensures
            addresses@.len() == self.pools().len(),
            forall|i: int| 0 <= i < addresses@.len() ==> addresses@[i] == self.pools()[i].0,
    {
        let mut addresses: Vec<Address> = Vec::new();
        let mut i: usize = 0;
        while i < self.known_pools.len()
            invariant
                i <= self.known_pools@.len(),
                addresses@.len() == i,
                forall|k: int| 0 <= k < i ==> addresses@[k] == self.known_pools@[k].0,
            decreases self.known_pools@.len() - i,
        {
            addresses.push(self.known_pools[i].0);
            i = i + 1;
        }
        addresses
    }

    /// Get pool info by address
    pub fn get_pool_info(&self, address: Address) -> (info: Option<&(Address, String, Token, Token)>)
        ensures
            match info {
                Some(found) => Self::place_of(self.pools(), address) matches Some(i) && *found
                    == self.pools()[i],
                None => Self::place_of(self.pools(), address) is None,
            },
    {
        match self.find_pool(address) {
            Some(i) => Some(&self.known_pools[i]),
            None => None,
        }
    }

    /// Get all triangular arbitrage paths available in this protocol: the one round
    /// trip from the base token to MOE, to JOE and back.
    pub fn get_triangular_paths(&self) -> (paths: Vec<Vec<Token>>)
        ensures
            paths@.len() == 1,
            paths@[0]@.len() == 4,
            paths@[0]@[0] is WMNT && paths@[0]@[1] is MOE && paths@[0]@[2] is JOE
                && paths@[0]@[3] is WMNT,
            is_address_of(paths@[0]@[0].addr(), WMNT_ADDRESS.spec_bytes()),
            is_address_of(paths@[0]@[1].addr(), MOE_ADDRESS.spec_bytes()),
            is_address_of(paths@[0]@[2].addr(), JOE_ADDRESS.spec_bytes()),
            paths@[0]@[3] == paths@[0]@[0],
    {
        let wmnt_addr = wmnt_address();
        let moe_addr = moe_address();
        let joe_addr = joe_address();
        let mut path: Vec<Token> = Vec::new();
        path.push(Token::WMNT(wmnt_addr));
        path.push(Token::MOE(moe_addr));
        path.push(Token::JOE(joe_addr));
        path.push(Token::WMNT(wmnt_addr));
        let mut paths: Vec<Vec<Token>> = Vec::new();
        paths.push(path);
        paths
    }

    /// Check if an address is a known MOE pool
    pub fn is_moe_pool(&self, address: Address) -> (known: bool)
        ensures
            known == (Self::place_of(self.pools(), address) is Some),
    {
        self.find_pool(address).is_some()
    }

    /// Get the protocol name
    pub fn name(&self) -> (name: &str)
        ensures
            name@ == self.label(),
    {
        self.name.as_str()
    }

    /// Get the default fee for this DEX, in millionths of the input.
    pub fn default_fee(&self) -> (fee: u64)
        ensures
            fee == self.fee(),
    {
        self.default_fee
    }

    /// Get all known pool addresses for this DEX
    pub fn get_known_pools(&self) -> (pools: Vec<(Address, String, Token, Token)>)
        ensures
            pools@.len() == self.pools().len(),
            forall|i: int|
                0 <= i < pools@.len() ==> pools@[i].0 == self.pools()[i].0 && pools@[i].1@
                    == self.pools()[i].1@ && pools@[i].2 == self.pools()[i].2 && pools@[i].3
                    == self.pools()[i].3,
    {
        let mut pools: Vec<(Address, String, Token, Token)> = Vec::new();
        let mut i: usize = 0;
        while i < self.known_pools.len()
            invariant
                i <= self.known_pools@.len(),
                pools@.len() == i,
                forall|k: int|
                    0 <= k < i ==> pools@[k].0 == self.known_pools@[k].0 && pools@[k].1@
                        == self.known_pools@[k].1@ && pools@[k].2 == self.known_pools@[k].2
                        && pools@[k].3 == self.known_pools@[k].3,
            decreases self.known_pools@.len() - i,
        {
            let entry = &self.known_pools[i];
            pools.push((entry.0, entry.1.clone(), entry.2, entry.3));
            i = i + 1;
        }
        pools
    }

    /// Validate if a pool address belongs to this DEX
    pub fn is_valid_pool(&self, pool_address: Address) -> (known: bool)
        ensures
            known == (Self::place_of(self.pools(), pool_address) is Some),
    {
        self.is_moe_pool(pool_address)
    }

    /// Get the MOE-WMNT pool address
    pub fn moe_wmnt_pool(&self) -> (address: Address)
        ensures
            is_address_of(address, MOE_WMNT_POOL.spec_bytes()),
    {
        proof {
            lemma_moe_wmnt_pool_text();
        }
        parse_known(MOE_WMNT_POOL)
    }

    /// Get the JOE-MOE pool address
    pub fn joe_moe_pool(&self) -> (address: Address)
        ensures
            is_address_of(address, JOE_MOE_POOL.spec_bytes()),
    {
        proof {
            lemma_joe_moe_pool_text();
        }
        parse_known(JOE_MOE_POOL)
    }

    /// Get the JOE-WMNT pool address
    pub fn joe_wmnt_pool(&self) -> (address: Address)
        ensures
            is_address_of(address, JOE_WMNT_POOL.spec_bytes()),
    {
        proof {
            lemma_joe_wmnt_pool_text();
        }
        parse_known(JOE_WMNT_POOL)
    }

    /// Get all pool addresses for the main triangular arbitrage
    pub fn get_main_triangular_pools(&self) -> (pools: (Address, Address, Address))
        ensures
            is_address_of(pools.0, MOE_WMNT_POOL.spec_bytes()),
            is_address_of(pools.1, JOE_MOE_POOL.spec_bytes()),
            is_address_of(pools.2, JOE_WMNT_POOL.spec_bytes()),
    {
        (self.moe_wmnt_pool(), self.joe_moe_pool(), self.joe_wmnt_pool())
    }

    /// Validate that we have all required pools for triangular arbitrage, MOE-WMNT,
    /// JOE-MOE and JOE-WMNT: an error names the first of them that is not known.
    pub fn validate_triangular_setup(&self) -> (outcome: Result<(), String>)
        ensures
            match outcome {
                Ok(_) => self.first_missing() is None,
                Err(message) => self.first_missing() == Some(message@),
            },
            self.wf() ==> outcome is Ok,
    {
        let (moe_wmnt, joe_moe, joe_wmnt) = self.get_main_triangular_pools();
        proof {
            if self.wf() {
                Self::lemma_known_are_found(self.known_pools@, moe_wmnt, 0);
                Self::lemma_known_are_found(self.known_pools@, joe_moe, 1);
                Self::lemma_known_are_found(self.known_pools@, joe_wmnt, 2);
                assert(self.known_pools@[0].0.bytes =~= moe_wmnt.bytes);
                assert(self.known_pools@[1].0.bytes =~= joe_moe.bytes);
                assert(self.known_pools@[2].0.bytes =~= joe_wmnt.bytes);
            }
            self.lemma_knows_pool_at(moe_wmnt, MOE_WMNT_POOL.spec_bytes());
            self.lemma_knows_pool_at(joe_moe, JOE_MOE_POOL.spec_bytes());
            self.lemma_knows_pool_at(joe_wmnt, JOE_WMNT_POOL.spec_bytes());
        }
        if !self.is_valid_pool(moe_wmnt) {
            return Err(String::from_str("MOE-WMNT pool not found"));
        }
        if !self.is_valid_pool(joe_moe) {
            return Err(String::from_str("JOE-MOE pool not found"));
        }
        if !self.is_valid_pool(joe_wmnt) {
            return Err(String::from_str("JOE-WMNT pool not found"));
        }
        Ok(())
    }

    /// The protocol knows a pool at the address that `text` stands for.
    pub open spec fn knows_pool_at(&self, text: Seq<u8>) -> bool {
        exists|address: Address| #[trigger]
            is_address_of(address, text) && Self::place_of(self.pools(), address) is Some
    }

    /// What is said of the first pool of the triangle that the protocol does not
    /// know; nothing where it knows all three.
    pub open spec fn first_missing(&self) -> Option<Seq<char>> {
        if !self.knows_pool_at(MOE_WMNT_POOL.spec_bytes()) {
            Some("MOE-WMNT pool not found"@)
        } else if !self.knows_pool_at(JOE_MOE_POOL.spec_bytes()) {
            Some("JOE-MOE pool not found"@)
        } else if !self.knows_pool_at(JOE_WMNT_POOL.spec_bytes()) {
            Some("JOE-WMNT pool not found"@)
        } else {
            None
        }
    }

    /// A text stands for one address only: the protocol knows a pool at the address
    /// of a text where it has a pool at an address that the text stands for.
    proof fn lemma_knows_pool_at(&self, address: Address, text: Seq<u8>)
        requires
            is_address_of(address, text),
        ensures
            self.knows_pool_at(text) == (Self::place_of(self.pools(), address) is Some),
    {
        if self.knows_pool_at(text) {
            let other = choose|other: Address| #[trigger]
                is_address_of(other, text) && Self::place_of(self.pools(), other) is Some;
            assert(other.bytes =~= address.bytes);
        }
    }

    /// A pool that stands at some place among the pools is found.
    proof fn lemma_known_are_found(pools: Seq<(Address, String, Token, Token)>, address: Address, i: int)
        requires
            0 <= i < pools.len(),
        ensures
            pools[i].0.bytes@ == address.bytes@ ==> Self::place_of(pools, address) is Some,
        decreases pools.len(),
    {
        if pools[i].0.bytes@ == address.bytes@ {
            assert(pools[i].0.bytes =~= address.bytes);
            if i < pools.len() - 1 {
                Self::lemma_known_are_found(pools.drop_last(), address, i);
            }
        }
    }
}

impl Default for MoeProtocol {
    fn default() -> (protocol: MoeProtocol)
        ensures
            protocol.wf(),
    {
        MoeProtocol::new()
    }
}

} // verus!
