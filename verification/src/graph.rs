//! The token graph: tokens as nodes, and for every pool one directed edge each way.

use crate::cycles::{
    cycles_of, extract_negative_cycles, found_routes, hop_pools, lemma_found_routes_anchored,
    lemma_hop_pools_stay_empty, lemma_kept_walks_are_kept, resolved, walk_tokens, well_anchored,
};
use crate::math::{lemma_balanced_swap_loses, swap, swap_out, token_units, u256_to_f64, SCALE};
use crate::search::{edges_fit, spfa_detect_negative_cycles};
use crate::topology::{
    graph_edges, graph_node_count, lemma_newest_edge, newest_edge, topology_add_edge,
    topology_add_node, topology_edge_count, topology_find_edge, topology_new,
    topology_node_count, INDEX_LIMIT,
};
use crate::types::{path_type_of, Address, ArbitragePath, PoolReserves, Token};
use crate::weights::{direction_weight, rate_weight, Weight, WEIGHT_LIMIT};
use petgraph::graph::Graph;
use petgraph::Directed;
use vstd::prelude::*;

verus! {

/// Token graph node for arbitrage pathfinding
#[derive(Debug, Clone, Copy, PartialEq, Eq)]
pub struct TokenNode {
    pub token: Token,
    pub address: Address,
}

impl TokenNode {
    pub fn new(token: Token) -> (node: TokenNode)
        ensures
            node.token == token,
            node.address == token.addr(),
    {
        TokenNode { address: token.address(), token }
    }
}

/// One pool between two tokens, with the weight of each direction for the search.
#[derive(Debug, Clone, Copy)]
pub struct PoolEdge {
    pub pool_address: Address,
    pub token_a: Token,
    pub token_b: Token,
    /// Reserve of `token_a`, in millionths of a token.
    pub reserves_a: u64,
    /// Reserve of `token_b`, in millionths of a token.
    pub reserves_b: u64,
    /// Fee rate, in millionths of the input.
    pub fee: u64,
    /// Weight of the direction from `token_a` to `token_b`.
    pub weight_a_to_b: Weight,
    /// Weight of the direction from `token_b` to `token_a`.
    pub weight_b_to_a: Weight,
}

impl PoolEdge {
    /// The pool with these reserves and the weights that follow from them.
    pub open spec fn priced(
        pool_address: Address,
        token_a: Token,
        token_b: Token,
        reserves_a: u64,
        reserves_b: u64,
        fee: u64,
    ) -> PoolEdge {
        PoolEdge {
            pool_address,
            token_a,
            token_b,
            reserves_a,
            reserves_b,
            fee,
            weight_a_to_b: direction_weight(reserves_a as nat, reserves_b as nat, fee as nat),
            weight_b_to_a: direction_weight(reserves_b as nat, reserves_a as nat, fee as nat),
        }
    }

    /// The weights are those that follow from the reserves and the fee.
    pub open spec fn is_priced(self) -> bool {
        self == Self::priced(
            self.pool_address,
            self.token_a,
            self.token_b,
            self.reserves_a,
            self.reserves_b,
            self.fee,
        )
    }

    /// Weight of the direction that starts at `token`: from `token_a` to `token_b`
    /// where `token` is `token_a`, else the other way.
    pub open spec fn weight_from(self, token: Token) -> Weight {
        if token.addr() == self.token_a.addr() {
            self.weight_a_to_b
        } else {
            self.weight_b_to_a
        }
    }

    /// The pool is a pool of the two tokens, in one order or the other.
    pub open spec fn joins(self, first: Token, second: Token) -> bool {
        (self.token_a.addr() == first.addr() && self.token_b.addr() == second.addr()) || (
        self.token_a.addr() == second.addr() && self.token_b.addr() == first.addr())
    }

    /// The reserves of a snapshot, in token units and in the order of the pool's own
    /// tokens: as the snapshot has them where its first token is the pool's first,
    /// else the other way round.
    pub open spec fn turned(self, snapshot: PoolReserves) -> (u64, u64) {
        let reserves_a = token_units(snapshot.reserve_a as nat) as u64;
        let reserves_b = token_units(snapshot.reserve_b as nat) as u64;
        if snapshot.token_a.addr() == self.token_a.addr() {
            (reserves_a, reserves_b)
        } else {
            (reserves_b, reserves_a)
        }
    }

    /// The pool holds for each token of the snapshot what the snapshot says of it.
    pub open spec fn holds(self, snapshot: PoolReserves) -> bool {
        let reserves_a = token_units(snapshot.reserve_a as nat) as u64;
        let reserves_b = token_units(snapshot.reserve_b as nat) as u64;
        if self.token_a.addr() == snapshot.token_a.addr() {
            self.token_b.addr() == snapshot.token_b.addr() && self.reserves_a == reserves_a
                && self.reserves_b == reserves_b
        } else {
            self.token_a.addr() == snapshot.token_b.addr() && self.token_b.addr()
                == snapshot.token_a.addr() && self.reserves_a == reserves_b && self.reserves_b
                == reserves_a
        }
    }

    /// The same pool after its reserves have been replaced.
    pub open spec fn with_reserves(self, reserves_a: u64, reserves_b: u64) -> PoolEdge {
        Self::priced(
            self.pool_address,
            self.token_a,
            self.token_b,
            reserves_a,
            reserves_b,
            self.fee,
        )
    }

    /// What a swap of `input_amount` of `token_in` gives: nothing where the token is
    /// neither of the pool's two, or where a reserve or the input is zero.
    pub open spec fn output_for(self, input_amount: u64, token_in: Token) -> Option<u64> {
        if token_in.addr() == self.token_a.addr() {
            if self.reserves_a == 0 || self.reserves_b == 0 || input_amount == 0 {
                None
            } else {
                Some(
                    swap_out(
                        self.reserves_a as nat,
                        self.reserves_b as nat,
                        input_amount as nat,
                        self.fee as nat,
                    ) as u64,
                )
            }
        } else if token_in.addr() == self.token_b.addr() {
            if self.reserves_a == 0 || self.reserves_b == 0 || input_amount == 0 {
                None
            } else {
                Some(
                    swap_out(
                        self.reserves_b as nat,
                        self.reserves_a as nat,
                        input_amount as nat,
                        self.fee as nat,
                    ) as u64,
                )
            }
        } else {
            None
        }
    }

    /// Builds the pool and computes the weight of both directions.
    pub fn new(
        pool_address: Address,
        token_a: Token,
        token_b: Token,
        reserves_a: u64,
        reserves_b: u64,
        fee: u64,
    ) -> (pool: PoolEdge)
        ensures
            pool == Self::priced(pool_address, token_a, token_b, reserves_a, reserves_b, fee),
            pool.weights_bounded(),
    {
        let (weight_a_to_b, weight_b_to_a) = Self::calculate_log_weights(
            reserves_a,
            reserves_b,
            fee,
        );
        PoolEdge {
            pool_address,
            token_a,
            token_b,
            reserves_a,
            reserves_b,
            fee,
            weight_a_to_b,
            weight_b_to_a,
        }
    }

    /// Both weights are infinite or within the limit of a finite weight.
    pub open spec fn weights_bounded(self) -> bool {
        weight_bounded(self.weight_a_to_b) && weight_bounded(self.weight_b_to_a)
    }

    /// Weights of the two directions, `a` to `b` first.
    fn calculate_log_weights(reserves_a: u64, reserves_b: u64, fee: u64) -> (weights: (
        Weight,
        Weight,
    ))
        ensures
            weights.0 == direction_weight(reserves_a as nat, reserves_b as nat, fee as nat),
            weights.1 == direction_weight(reserves_b as nat, reserves_a as nat, fee as nat),
            weight_bounded(weights.0),
            weight_bounded(weights.1),
    {
        (rate_weight(reserves_a, reserves_b, fee), rate_weight(reserves_b, reserves_a, fee))
    }

    /// Replaces the reserves and computes both weights anew.
    pub fn update_reserves(&mut self, reserves_a: u64, reserves_b: u64)
        ensures
            *final(self) == old(self).with_reserves(reserves_a, reserves_b),
            final(self).weights_bounded(),
    {
        self.reserves_a = reserves_a;
        self.reserves_b = reserves_b;
        let (weight_a_to_b, weight_b_to_a) = Self::calculate_log_weights(
            reserves_a,
            reserves_b,
            self.fee,
        );
        self.weight_a_to_b = weight_a_to_b;
        self.weight_b_to_a = weight_b_to_a;
    }

    /// Price of `token_a` in `token_b` by the reserves alone, in millionths;
    /// zero for a pool without `token_a`.
    pub fn get_rate_a_to_b(&self) -> (rate: u128)
        ensures
            rate == if self.reserves_a > 0 {
                self.reserves_b as nat * (SCALE as nat) / (self.reserves_a as nat)
            } else {
                0
            },
    {
        spot_rate(self.reserves_a, self.reserves_b)
    }

    /// Price of `token_b` in `token_a` by the reserves alone, in millionths;
    /// zero for a pool without `token_b`.
    pub fn get_rate_b_to_a(&self) -> (rate: u128)
        ensures
            rate == if self.reserves_b > 0 {
                self.reserves_a as nat * (SCALE as nat) / (self.reserves_b as nat)
            } else {
                0
            },
    {
        spot_rate(self.reserves_b, self.reserves_a)
    }

    /// Calculate output amount for a given input considering fees
    pub fn calculate_output(&self, input_amount: u64, token_in: Token) -> (output: Option<u64>)
        ensures
            output == self.output_for(input_amount, token_in),
    {
        let (reserve_in, reserve_out) = if token_in == self.token_a {
            (self.reserves_a, self.reserves_b)
        } else if token_in == self.token_b {
            (self.reserves_b, self.reserves_a)
        } else {
            return None;
        };
        if reserve_in == 0 || reserve_out == 0 || input_amount == 0 {
            return None;
        }
        Some(swap(reserve_in, reserve_out, input_amount, self.fee))
    }
}

/// A weight is infinite or within the limit of a finite weight.
pub open spec fn weight_bounded(w: Weight) -> bool {
    w matches Weight::Finite(v) ==> -WEIGHT_LIMIT <= v <= WEIGHT_LIMIT
}

/// `reserve_out / reserve_in` in millionths, rounded down; zero where `reserve_in` is.
fn spot_rate(reserve_in: u64, reserve_out: u64) -> (rate: u128)
    ensures
        rate == if reserve_in > 0 {
            reserve_out as nat * (SCALE as nat) / (reserve_in as nat)
        } else {
            0
        },
{
    if reserve_in > 0 {
        assert((reserve_out as int) * 1_000_000 <= 0xffff_ffff_ffff_ffff * 1_000_000);
        (reserve_out as u128) * (SCALE as u128) / (reserve_in as u128)
    } else {
        0
    }
}

/// Directed edge of the search: one direction of one pool.
#[derive(Debug, Clone, Copy)]
pub struct DirectedEdge {
    pub pool_address: Address,
    pub from_token: Token,
    pub to_token: Token,
    pub weight: Weight,
    pub original_pool: PoolEdge,
}

impl DirectedEdge {
    pub fn new(pool: &PoolEdge, from_token: Token, to_token: Token, weight: Weight) -> (edge:
        DirectedEdge)
        ensures
            edge == (DirectedEdge {
                pool_address: pool.pool_address,
                from_token,
                to_token,
                weight,
                original_pool: *pool,
            }),
    {
        DirectedEdge {
            pool_address: pool.pool_address,
            from_token,
            to_token,
            weight,
            original_pool: *pool,
        }
    }

    /// The edge after its pool has taken the reserves of a snapshot, each for the token
    /// that the snapshot names; the edge carries the weight of its own direction.
    pub open spec fn refreshed(self, snapshot: PoolReserves) -> DirectedEdge {
        let own = self.original_pool.turned(snapshot);
        let pool = self.original_pool.with_reserves(own.0, own.1);
        DirectedEdge {
            pool_address: self.pool_address,
            from_token: self.from_token,
            to_token: self.to_token,
            weight: pool.weight_from(self.from_token),
            original_pool: pool,
        }
    }

    /// Computes `refreshed`.
    fn refresh(self, snapshot: &PoolReserves) -> (edge: DirectedEdge)
        ensures
            edge == self.refreshed(*snapshot),
            edge.original_pool.weights_bounded(),
            edge.original_pool.is_priced(),
            weight_bounded(edge.weight),
    {
        let reserves_a = u256_to_f64(snapshot.reserve_a);
        let reserves_b = u256_to_f64(snapshot.reserve_b);
        let mut edge = self;
        if snapshot.token_a == edge.original_pool.token_a {
            edge.original_pool.update_reserves(reserves_a, reserves_b);
        } else {
            edge.original_pool.update_reserves(reserves_b, reserves_a);
        }
        edge.weight = if edge.from_token == edge.original_pool.token_a {
            edge.original_pool.weight_a_to_b
        } else {
            edge.original_pool.weight_b_to_a
        };
        edge
    }
}

/// Index of the node that holds `token`, going by its address.
pub open spec fn node_index(nodes: Seq<TokenNode>, token: Token) -> Option<usize>
    decreases nodes.len(),
{
    if nodes.len() == 0 {
        None
    } else if nodes.last().token.addr() == token.addr() {
        Some((nodes.len() - 1) as usize)
    } else {
        node_index(nodes.drop_last(), token)
    }
}

/// The nodes once `token` is among them: unchanged where it is, else with it at the end.
pub open spec fn with_token(nodes: Seq<TokenNode>, token: Token) -> Seq<TokenNode> {
    if node_index(nodes, token) is Some {
        nodes
    } else {
        nodes.push(TokenNode { token, address: token.addr() })
    }
}

/// What `node_index` finds holds the token, and where it finds nothing no node does.
pub proof fn lemma_node_index(nodes: Seq<TokenNode>, token: Token)
    requires
        nodes.len() <= usize::MAX,
    ensures
        match node_index(nodes, token) {
            Some(i) => i < nodes.len() && nodes[i as int].token.addr() == token.addr(),
            None => forall|k: int| 0 <= k < nodes.len() ==> nodes[k].token.addr() != token.addr(),
        },
    decreases nodes.len(),
{
    if nodes.len() > 0 && nodes.last().token.addr() != token.addr() {
        let front = nodes.drop_last();
        lemma_node_index(front, token);
        if node_index(front, token) is None {
            assert forall|k: int| 0 <= k < nodes.len() implies nodes[k].token.addr()
                != token.addr() by {
                if k < front.len() {
                    assert(front[k] == nodes[k]);
                }
            }
        } else {
            let i = node_index(front, token).unwrap();
            assert(front[i as int] == nodes[i as int]);
        }
    }
}

/// No two nodes hold the same address.
pub open spec fn distinct_nodes(nodes: Seq<TokenNode>) -> bool {
    forall|i: int, j: int|
        0 <= i < nodes.len() && 0 <= j < nodes.len() && i != j ==> nodes[i].token.addr()
            != nodes[j].token.addr()
}

/// Among distinct nodes, the node that holds a token's address is the one that
/// `node_index` finds.
pub proof fn lemma_node_index_unique(nodes: Seq<TokenNode>, token: Token, i: int)
    requires
        nodes.len() <= usize::MAX,
        distinct_nodes(nodes),
        0 <= i < nodes.len(),
        nodes[i].token.addr() == token.addr(),
    ensures
        node_index(nodes, token) == Some(i as usize),
{
    lemma_node_index(nodes, token);
}

/// The pool that `add_pool` makes of a snapshot: its reserves in token units.
pub open spec fn pool_of_snapshot(snapshot: PoolReserves, fee: u64) -> PoolEdge {
    PoolEdge::priced(
        snapshot.pool_address,
        snapshot.token_a,
        snapshot.token_b,
        token_units(snapshot.reserve_a as nat) as u64,
        token_units(snapshot.reserve_b as nat) as u64,
        fee,
    )
}

/// The edges after the edge at `slot`, if there is one, has taken the snapshot's reserves.
pub open spec fn refresh_at(
    edges: Seq<DirectedEdge>,
    slot: Option<usize>,
    snapshot: PoolReserves,
) -> Seq<DirectedEdge> {
    match slot {
        Some(e) => if e < edges.len() {
            edges.update(e as int, edges[e as int].refreshed(snapshot))
        } else {
            edges
        },
        None => edges,
    }
}

/// The edges after a snapshot has been taken in: where the graph holds both tokens,
/// the newest edge from the first to the second and the newest edge back take the new
/// reserves, each reserve for the token that the snapshot names, and carry the new
/// weight of their direction. A snapshot of a token that the graph does not hold
/// changes nothing.
pub open spec fn updated_edges(
    nodes: Seq<TokenNode>,
    ends: Seq<(usize, usize)>,
    edges: Seq<DirectedEdge>,
    snapshot: PoolReserves,
) -> Seq<DirectedEdge> {
    match (node_index(nodes, snapshot.token_a), node_index(nodes, snapshot.token_b)) {
        (Some(ia), Some(ib)) => refresh_at(
            refresh_at(edges, newest_edge(ends, ia, ib), snapshot),
            newest_edge(ends, ib, ia),
            snapshot,
        ),
        _ => edges,
    }
}

/// The two tokens are the two tokens of the snapshot, in one order or the other.
pub open spec fn same_pair(snapshot: PoolReserves, first: Token, second: Token) -> bool {
    (first.addr() == snapshot.token_a.addr() && second.addr() == snapshot.token_b.addr()) || (
    first.addr() == snapshot.token_b.addr() && second.addr() == snapshot.token_a.addr())
}

/// The pool that serves swaps from `token_a` to `token_b`: that of the newest edge
/// between their nodes.
pub open spec fn pool_between(
    nodes: Seq<TokenNode>,
    ends: Seq<(usize, usize)>,
    edges: Seq<DirectedEdge>,
    token_a: Token,
    token_b: Token,
) -> Option<PoolEdge> {
    match (node_index(nodes, token_a), node_index(nodes, token_b)) {
        (Some(ia), Some(ib)) => match newest_edge(ends, ia, ib) {
            Some(e) => if e < edges.len() {
                Some(edges[e as int].original_pool)
            } else {
                None
            },
            None => None,
        },
        _ => None,
    }
}

/// What one swap from `token_in` to `token_out` gives for `amount`, if the graph has
/// a pool for it and the pool gives anything.
pub open spec fn hop_output(
    nodes: Seq<TokenNode>,
    ends: Seq<(usize, usize)>,
    edges: Seq<DirectedEdge>,
    token_in: Token,
    token_out: Token,
    amount: u64,
) -> Option<u64> {
    match pool_between(nodes, ends, edges, token_in, token_out) {
        Some(pool) => pool.output_for(amount, token_in),
        None => None,
    }
}

/// What is left of `amount` after it has been swapped along `tokens`, from each token
/// to the next; nothing once one swap gives nothing.
pub open spec fn walk_output(
    nodes: Seq<TokenNode>,
    ends: Seq<(usize, usize)>,
    edges: Seq<DirectedEdge>,
    tokens: Seq<Token>,
    amount: u64,
) -> Option<u64>
    decreases tokens.len(),
{
    if tokens.len() <= 1 {
        Some(amount)
    } else {
        match walk_output(nodes, ends, edges, tokens.drop_last(), amount) {
            Some(before) => hop_output(
                nodes,
                ends,
                edges,
                tokens[tokens.len() - 2],
                tokens.last(),
                before,
            ),
            None => None,
        }
    }
}

/// Profit of sending `amount` along `tokens` and, where the route does not end at the
/// base token, from its last token back to the base token. A route of fewer than
/// three tokens has none, nor one on which a swap gives nothing.
pub open spec fn path_profit(
    nodes: Seq<TokenNode>,
    ends: Seq<(usize, usize)>,
    edges: Seq<DirectedEdge>,
    base: Token,
    tokens: Seq<Token>,
    amount: u64,
) -> Option<int> {
    if tokens.len() < 3 {
        None
    } else {
        match walk_output(nodes, ends, edges, tokens, amount) {
            Some(left) => if tokens.last().addr() != base.addr() {
                match hop_output(nodes, ends, edges, tokens.last(), base, left) {
                    Some(back) => Some(back - amount),
                    None => None,
                }
            } else {
                Some(left - amount)
            },
            None => None,
        }
    }
}

/// Token graph for arbitrage pathfinding
pub struct TokenGraph {
    graph: Graph<(), (), Directed, u32>,
    nodes: Vec<TokenNode>,
    edges: Vec<DirectedEdge>,
    wmnt_token: Token,
}

impl TokenGraph {
    /// The nodes, by node index.
    pub closed spec fn nodes(&self) -> Seq<TokenNode> {
        self.nodes@
    }

    /// The directed edges, by edge index.
    pub closed spec fn edges(&self) -> Seq<DirectedEdge> {
        self.edges@
    }

    /// Source and target node of every edge, by edge index.
    pub closed spec fn ends(&self) -> Seq<(usize, usize)> {
        graph_edges(self.graph)
    }

    /// The base token, at which every cycle starts and ends.
    pub closed spec fn base(&self) -> Token {
        self.wmnt_token
    }

    /// The topology has as many nodes as the graph has node payloads.
    pub closed spec fn counted(&self) -> bool {
        graph_node_count(self.graph) == self.nodes@.len()
    }

    /// What holds of every graph: node and edge payloads stand beside the nodes and
    /// edges of the topology, no address is held twice, every edge joins the nodes of
    /// its two tokens, its pool is a pool of these two tokens with the weights of its
    /// reserves, and the edge carries the weight of its direction.
    pub open spec fn wf(&self) -> bool {
        &&& self.counted()
        &&& self.ends().len() == self.edges().len()
        &&& self.nodes().len() <= INDEX_LIMIT
        &&& self.edges().len() <= INDEX_LIMIT
        &&& distinct_nodes(self.nodes())
        &&& forall|i: int|
            0 <= i < self.nodes().len() ==> (#[trigger] self.nodes()[i]).address
                == self.nodes()[i].token.addr()
        &&& forall|e: int|
            0 <= e < self.edges().len() ==> edge_fits(
                self.nodes(),
                #[trigger] self.edges()[e],
                self.ends()[e],
            )
    }

    /// Every pool of the graph charges the fee `fee`.
    pub open spec fn charges(&self, fee: u64) -> bool {
        forall|e: int|
            0 <= e < self.edges().len() ==> (#[trigger] self.edges()[e]).original_pool.fee == fee
    }

    /// Create a new empty token graph
    pub fn new(wmnt_token: Token) -> (graph: TokenGraph)
        ensures
            graph.wf(),
            graph.nodes() == Seq::<TokenNode>::empty(),
            graph.edges() == Seq::<DirectedEdge>::empty(),
            graph.ends() == Seq::<(usize, usize)>::empty(),
            graph.base() == wmnt_token,
    {
        TokenGraph { graph: topology_new(), nodes: Vec::new(), edges: Vec::new(), wmnt_token }
    }

    /// Node index of `token`, if the graph holds it.
    pub fn find_token(&self, token: Token) -> (found: Option<usize>)
        ensures
            found == node_index(self.nodes(), token),
            found matches Some(i) ==> i < self.nodes().len(),
    {
        let mut i: usize = self.nodes.len();
        assert(self.nodes@.take(i as int) == self.nodes@);
        while i > 0
            invariant
                i <= self.nodes@.len(),
                node_index(self.nodes@, token) == node_index(self.nodes@.take(i as int), token),
            decreases i,
        {
            assert(self.nodes@.take(i as int).drop_last() == self.nodes@.take(i - 1));
            if self.nodes[i - 1].token == token {
                return Some(i - 1);
            }
            i = i - 1;
        }
        assert(self.nodes@.take(0).len() == 0);
        None
    }

    /// Add a token to the graph: the node that holds it is returned, a new one where
    /// there was none.
    pub fn add_token(&mut self, token: Token) -> (index: usize)
        requires
            old(self).wf(),
            with_token(old(self).nodes(), token).len() <= INDEX_LIMIT,
        ensures
            final(self).wf(),
            final(self).nodes() == with_token(old(self).nodes(), token),
            node_index(final(self).nodes(), token) == Some(index),
            index < final(self).nodes().len(),
            final(self).edges() == old(self).edges(),
            final(self).ends() == old(self).ends(),
            final(self).base() == old(self).base(),
    {
        if let Some(node_idx) = self.find_token(token) {
            return node_idx;
        }
        proof {
            lemma_node_index(self.nodes@, token);
        }
        let node = TokenNode::new(token);
        let node_idx = topology_add_node(&mut self.graph);
        self.nodes.push(node);
        proof {
            assert(self.nodes@.drop_last() == old(self).nodes@);
            assert forall|e: int| 0 <= e < self.edges@.len() implies edge_fits(
                self.nodes@,
                #[trigger] self.edges@[e],
                graph_edges(self.graph)[e],
            ) by {
                assert(edge_fits(old(self).nodes@, old(self).edges@[e], graph_edges(old(self).graph)[e]));
            }
        }
        node_idx
    }

    /// The graph is the graph `before` with `pool` added: the nodes of its two tokens
    /// where they were missing, and one edge each way, which carries the pool and the
    /// weight of its direction. (A pool of one token with itself has one direction.)
    pub open spec fn grown_from(&self, before: TokenGraph, pool: PoolEdge) -> bool {
        &&& self.base() == before.base()
        &&& self.nodes() == with_token(with_token(before.nodes(), pool.token_a), pool.token_b)
        &&& node_index(self.nodes(), pool.token_a) is Some
        &&& node_index(self.nodes(), pool.token_b) is Some
        &&& ({
            let ia = node_index(self.nodes(), pool.token_a).unwrap();
            let ib = node_index(self.nodes(), pool.token_b).unwrap();
            &&& self.ends() == before.ends().push((ia, ib)).push((ib, ia))
            &&& self.edges() == before.edges().push(
                DirectedEdge {
                    pool_address: pool.pool_address,
                    from_token: pool.token_a,
                    to_token: pool.token_b,
                    weight: pool.weight_a_to_b,
                    original_pool: pool,
                },
            ).push(
                DirectedEdge {
                    pool_address: pool.pool_address,
                    from_token: pool.token_b,
                    to_token: pool.token_a,
                    weight: pool.weight_from(pool.token_b),
                    original_pool: pool,
                },
            )
        })
    }

    /// Add a pool to the graph (creates directed edges in both directions)
    pub fn add_pool(&mut self, pool_reserves: &PoolReserves, fee: u64)
        requires
            old(self).wf(),
            with_token(
                with_token(old(self).nodes(), pool_reserves.token_a),
                pool_reserves.token_b,
            ).len() <= INDEX_LIMIT,
            old(self).edges().len() + 2 <= INDEX_LIMIT,
        ensures
            final(self).wf(),
            final(self).grown_from(*old(self), pool_of_snapshot(*pool_reserves, fee)),
            final(self).pool_for(pool_reserves.token_a, pool_reserves.token_b) == Some(
                pool_of_snapshot(*pool_reserves, fee),
            ),
            final(self).pool_for(pool_reserves.token_b, pool_reserves.token_a) == Some(
                pool_of_snapshot(*pool_reserves, fee),
            ),
            old(self).charges(fee) ==> final(self).charges(fee),
    {
        let token_a_idx = self.add_token(pool_reserves.token_a);
        let ghost nodes_a = self.nodes@;
        let token_b_idx = self.add_token(pool_reserves.token_b);
        proof {
            lemma_node_index(nodes_a, pool_reserves.token_a);
            lemma_node_index(self.nodes@, pool_reserves.token_b);
            assert(self.nodes@[token_a_idx as int] == nodes_a[token_a_idx as int]);
            lemma_node_index_unique(self.nodes@, pool_reserves.token_a, token_a_idx as int);
        }
        let reserves_a = u256_to_f64(pool_reserves.reserve_a);
        let reserves_b = u256_to_f64(pool_reserves.reserve_b);
        let pool_edge = PoolEdge::new(
            pool_reserves.pool_address,
            pool_reserves.token_a,
            pool_reserves.token_b,
            reserves_a,
            reserves_b,
            fee,
        );
        let ghost ends0 = graph_edges(self.graph);
        let ghost edges0 = self.edges@;
        let edge_a_to_b = DirectedEdge::new(
            &pool_edge,
            pool_reserves.token_a,
            pool_reserves.token_b,
            pool_edge.weight_a_to_b,
        );
        topology_add_edge(&mut self.graph, token_a_idx, token_b_idx);
        self.edges.push(edge_a_to_b);
        let weight_back = if pool_reserves.token_b == pool_reserves.token_a {
            pool_edge.weight_a_to_b
        } else {
            pool_edge.weight_b_to_a
        };
        let edge_b_to_a = DirectedEdge::new(
            &pool_edge,
            pool_reserves.token_b,
            pool_reserves.token_a,
            weight_back,
        );
        topology_add_edge(&mut self.graph, token_b_idx, token_a_idx);
        self.edges.push(edge_b_to_a);
        proof {
            assert forall|e: int| 0 <= e < self.edges@.len() implies edge_fits(
                self.nodes@,
                #[trigger] self.edges@[e],
                graph_edges(self.graph)[e],
            ) by {
                if e < edges0.len() {
                    assert(edge_fits(self.nodes@, edges0[e], ends0[e]));
                }
            }
            let ends = graph_edges(self.graph);
            assert(ends.drop_last() == ends0.push((token_a_idx, token_b_idx)));
            assert(ends.drop_last().last() == (token_a_idx, token_b_idx));
            assert(newest_edge(ends.drop_last(), token_a_idx, token_b_idx) == Some(
                (ends.len() - 2) as usize,
            ));
            assert(newest_edge(ends, token_a_idx, token_b_idx) == if token_a_idx == token_b_idx {
                Some((ends.len() - 1) as usize)
            } else {
                Some((ends.len() - 2) as usize)
            });
            assert(self.edges@[ends.len() - 2].original_pool == pool_edge);
            assert(self.edges@[ends.len() - 1].original_pool == pool_edge);
            if old(self).charges(fee) {
                assert forall|e: int| 0 <= e < self.edges@.len() implies (
                #[trigger] self.edges@[e]).original_pool.fee == fee by {
                    if e < edges0.len() {
                        assert(old(self).edges()[e] == edges0[e]);
                    }
                }
            }
        }
    }

    /// Update pool reserves and recalculate weights: both edges of the pair take the
    /// reserves of the snapshot, each reserve for the token that the snapshot names.
    /// The pools of other pairs stay as they are.
    pub fn update_pool(&mut self, pool_reserves: &PoolReserves)
        requires
            old(self).wf(),
        ensures
            final(self).wf(),
            final(self).base() == old(self).base(),
            final(self).nodes() == old(self).nodes(),
            final(self).ends() == old(self).ends(),
            final(self).edges() == updated_edges(
                old(self).nodes(),
                old(self).ends(),
                old(self).edges(),
                *pool_reserves,
            ),
            final(self).pool_for(pool_reserves.token_a, pool_reserves.token_b) matches Some(pool)
                ==> pool.holds(*pool_reserves),
            final(self).pool_for(pool_reserves.token_b, pool_reserves.token_a) matches Some(pool)
                ==> pool.holds(*pool_reserves),
            forall|first: Token, second: Token|
                !same_pair(*pool_reserves, first, second) ==> #[trigger] final(self).pool_for(
                    first,
                    second,
                ) == old(self).pool_for(first, second),
            forall|fee: u64| old(self).charges(fee) ==> #[trigger] final(self).charges(fee),
    {
        proof {
            lemma_update_then_lookup(*old(self), *old(self), *pool_reserves);
            assert forall|fee: u64| self.charges(fee) implies forall|e: int|
                0 <= e < self.edges@.len() ==> (#[trigger] updated_edges(
                    self.nodes@,
                    graph_edges(self.graph),
                    self.edges@,
                    *pool_reserves,
                )[e]).original_pool.fee == fee by {
                lemma_update_keeps_fees(
                    self.nodes@,
                    graph_edges(self.graph),
                    self.edges@,
                    *pool_reserves,
                    fee,
                );
            }
            assert forall|first: Token, second: Token|
                !same_pair(*pool_reserves, first, second) implies pool_between(
                self.nodes@,
                graph_edges(self.graph),
                updated_edges(self.nodes@, graph_edges(self.graph), self.edges@, *pool_reserves),
                first,
                second,
            ) == #[trigger] self.pool_for(first, second) by {
                lemma_other_pairs_stay(
                    self.nodes@,
                    graph_edges(self.graph),
                    self.edges@,
                    *pool_reserves,
                    first,
                    second,
                );
            }
        }
        let token_a_idx = match self.find_token(pool_reserves.token_a) {
            Some(idx) => idx,
            None => {
                return ;
            },
        };
        let token_b_idx = match self.find_token(pool_reserves.token_b) {
            Some(idx) => idx,
            None => {
                return ;
            },
        };
        proof {
            lemma_newest_edge(graph_edges(self.graph), token_a_idx, token_b_idx);
            lemma_newest_edge(graph_edges(self.graph), token_b_idx, token_a_idx);
        }
        if let Some(slot) = topology_find_edge(&self.graph, token_a_idx, token_b_idx) {
            let edge = self.edges[slot].refresh(pool_reserves);
            let ghost before = self.edges@;
            self.edges.set(slot, edge);
            proof {
                assert forall|e: int| 0 <= e < self.edges@.len() implies edge_fits(
                    self.nodes@,
                    #[trigger] self.edges@[e],
                    graph_edges(self.graph)[e],
                ) by {
                    assert(edge_fits(self.nodes@, before[e], graph_edges(self.graph)[e]));
                }
            }
        }
        if let Some(slot) = topology_find_edge(&self.graph, token_b_idx, token_a_idx) {
            let edge = self.edges[slot].refresh(pool_reserves);
            let ghost before = self.edges@;
            self.edges.set(slot, edge);
            proof {
                assert forall|e: int| 0 <= e < self.edges@.len() implies edge_fits(
                    self.nodes@,
                    #[trigger] self.edges@[e],
                    graph_edges(self.graph)[e],
                ) by {
                    assert(edge_fits(self.nodes@, before[e], graph_edges(self.graph)[e]));
                }
            }
        }
    }

    /// The pool that serves swaps from `token_a` to `token_b`.
    pub open spec fn pool_for(&self, token_a: Token, token_b: Token) -> Option<PoolEdge> {
        pool_between(self.nodes(), self.ends(), self.edges(), token_a, token_b)
    }

    /// Profit of sending `amount` along `tokens` and back to the base token.
    pub open spec fn profit_along(&self, tokens: Seq<Token>, amount: u64) -> Option<int> {
        path_profit(self.nodes(), self.ends(), self.edges(), self.base(), tokens, amount)
    }

    /// Get pool information for a token pair
    pub fn get_pool_info(&self, token_a: Token, token_b: Token) -> (pool: Option<&PoolEdge>)
        requires
            self.wf(),
        ensures
            match pool {
                Some(p) => self.pool_for(token_a, token_b) == Some(*p) && p.joins(token_a, token_b)
                    && p.is_priced(),
                None => self.pool_for(token_a, token_b) is None,
            },
    {
        let token_a_idx = self.find_token(token_a)?;
        let token_b_idx = self.find_token(token_b)?;
        proof {
            lemma_newest_edge(graph_edges(self.graph), token_a_idx, token_b_idx);
            lemma_node_index(self.nodes@, token_a);
            lemma_node_index(self.nodes@, token_b);
        }
        let slot = topology_find_edge(&self.graph, token_a_idx, token_b_idx)?;
        Some(&self.edges[slot].original_pool)
    }

    /// One swap of `amount` from `token_in` to `token_out` through the graph's pool.
    fn swap_through(&self, token_in: Token, token_out: Token, amount: u64) -> (output: Option<u64>)
        requires
            self.wf(),
        ensures
            output == hop_output(
                self.nodes(),
                self.ends(),
                self.edges(),
                token_in,
                token_out,
                amount,
            ),
    {
        match self.get_pool_info(token_in, token_out) {
            Some(pool) => pool.calculate_output(amount, token_in),
            None => None,
        }
    }

    /// Calculate the profit for a given arbitrage path
    pub fn calculate_path_profit(&self, path: &ArbitragePath, input_amount: u64) -> (profit:
        Option<i128>)
        requires
            self.wf(),
        ensures
            match profit {
                Some(p) => self.profit_along(path.tokens@, input_amount) == Some(p as int),
                None => self.profit_along(path.tokens@, input_amount) is None,
            },
    {
        if path.tokens.len() < 3 {
            return None;
        }
        let mut current_amount: u64 = input_amount;
        let mut i: usize = 0;
        while i < path.tokens.len() - 1
            invariant
                self.wf(),
                path.tokens@.len() >= 3,
                i <= path.tokens@.len() - 1,
                walk_output(
                    self.nodes(),
                    self.ends(),
                    self.edges(),
                    path.tokens@.take(i + 1),
                    input_amount,
                ) == Some(current_amount),
            ensures
                i == path.tokens@.len() - 1,
                walk_output(
                    self.nodes(),
                    self.ends(),
                    self.edges(),
                    path.tokens@.take(i + 1),
                    input_amount,
                ) == Some(current_amount),
            decreases path.tokens@.len() - i,
        {
            let token_in = path.tokens[i];
            let token_out = path.tokens[i + 1];
            assert(path.tokens@.take(i + 2).drop_last() == path.tokens@.take(i + 1));
            match self.swap_through(token_in, token_out, current_amount) {
                Some(amount) => {
                    current_amount = amount;
                },
                None => {
                    proof {
                        lemma_walk_stays_empty(
                            self.nodes(),
                            self.ends(),
                            self.edges(),
                            path.tokens@,
                            input_amount,
                            i + 2,
                        );
                    }
                    return None;
                },
            }
            i = i + 1;
        }
        assert(path.tokens@.take(i + 1) == path.tokens@);
        let last_token = path.tokens[path.tokens.len() - 1];
        if !(last_token == self.wmnt_token) {
            current_amount = self.swap_through(last_token, self.wmnt_token, current_amount)?;
        }
        Some((current_amount as i128) - (input_amount as i128))
    }

    /// The routes that `find_arbitrage_cycles` finds with this limit on the hops.
    pub open spec fn cycles(&self, max_hops: nat) -> Seq<(Seq<Token>, Seq<Address>)> {
        cycles_of(self.nodes(), self.ends(), self.edges(), self.base(), max_hops)
    }

    /// The graph serves the route: for every hop it has a pool from the token of the
    /// hop to the next, and this is the pool that the route names for the hop.
    pub open spec fn serves(&self, route: (Seq<Token>, Seq<Address>)) -> bool {
        &&& route.1.len() + 1 == route.0.len()
        &&& forall|k: int|
            0 <= k < route.1.len() ==> #[trigger] self.serves_hop(
                route.0[k],
                route.0[k + 1],
                route.1[k],
            )
    }

    /// The graph has a pool from `token_in` to `token_out`, and it is the pool at
    /// `pool_address`.
    pub open spec fn serves_hop(&self, token_in: Token, token_out: Token, pool_address: Address) -> bool {
        self.pool_for(token_in, token_out) matches Some(pool) && pool.pool_address == pool_address
    }

    /// Convert node path to ArbitragePath
    fn convert_node_path_to_arbitrage_path(&self, node_path: &Vec<usize>) -> (path: Option<
        ArbitragePath,
    >)
        requires
            self.wf(),
            forall|i: int| 0 <= i < node_path@.len() ==> node_path@[i] < self.nodes().len(),
        ensures
            match path {
                Some(p) => resolved(self.nodes(), self.ends(), self.edges(), node_path@) == Some(
                    p.route(),
                ) && p.path_type == path_type_of(p.tokens@.len()) && self.serves(p.route()),
                None => resolved(self.nodes(), self.ends(), self.edges(), node_path@) is None,
            },
    {
        if node_path.len() < 3 {
            return None;
        }
        let mut tokens: Vec<Token> = Vec::new();
        let mut i: usize = 0;
        while i < node_path.len()
            invariant
                i <= node_path@.len(),
                forall|k: int| 0 <= k < node_path@.len() ==> node_path@[k] < self.nodes@.len(),
                tokens@ == walk_tokens(self.nodes@, node_path@.take(i as int)),
            decreases node_path@.len() - i,
        {
            tokens.push(self.nodes[node_path[i]].token);
            assert(tokens@ =~= walk_tokens(self.nodes@, node_path@.take(i + 1)));
            i = i + 1;
        }
        assert(node_path@.take(i as int) == node_path@);
        let mut pools: Vec<Address> = Vec::new();
        let mut i: usize = 1;
        assert(node_path@.take(1).len() == 1);
        while i < node_path.len()
            invariant
                1 <= i <= node_path@.len(),
                self.wf(),
                forall|k: int| 0 <= k < node_path@.len() ==> node_path@[k] < self.nodes@.len(),
                hop_pools(graph_edges(self.graph), self.edges@, node_path@.take(i as int)) == Some(
                    pools@,
                ),
                tokens@ == walk_tokens(self.nodes@, node_path@),
                pools@.len() == i - 1,
                forall|k: int|
                    0 <= k < i - 1 ==> #[trigger] self.serves_hop(
                        tokens@[k],
                        tokens@[k + 1],
                        pools@[k],
                    ),
            decreases node_path@.len() - i,
        {
            assert(node_path@.take(i + 1).drop_last() == node_path@.take(i as int));
            proof {
                lemma_newest_edge(graph_edges(self.graph), node_path@[i - 1], node_path@[i as int]);
                lemma_node_index_unique(self.nodes@, tokens@[i - 1], node_path@[i - 1] as int);
                lemma_node_index_unique(self.nodes@, tokens@[i as int], node_path@[i as int] as int);
            }
            let ghost before = pools@;
            match topology_find_edge(&self.graph, node_path[i - 1], node_path[i]) {
                Some(slot) => {
                    pools.push(self.edges[slot].pool_address);
                    proof {
                        assert(edge_fits(
                            self.nodes@,
                            self.edges@[slot as int],
                            graph_edges(self.graph)[slot as int],
                        ));
                        assert forall|k: int| 0 <= k < i implies #[trigger] self.serves_hop(
                            tokens@[k],
                            tokens@[k + 1],
                            pools@[k],
                        ) by {
                            if k < i - 1 {
                                assert(pools@[k] == before[k]);
                                assert(self.serves_hop(tokens@[k], tokens@[k + 1], before[k]));
                            }
                        }
                    }
                },
                None => {
                    proof {
                        lemma_hop_pools_stay_empty(
                            graph_edges(self.graph),
                            self.edges@,
                            node_path@,
                            i + 1,
                        );
                    }
                    return None;
                },
            }
            i = i + 1;
        }
        assert(node_path@.take(i as int) == node_path@);
        Some(ArbitragePath::new(tokens, pools))
    }

    /// Find all arbitrage cycles from the base token: the search for nodes behind a
    /// cycle of negative weight, then for each such node the closed route at the base
    /// token that its cycle gives, where there is one of at most `max_hops` hops. A
    /// route runs with the edges of its cycle, from each token to the token that the
    /// search reached from it.
    pub fn find_arbitrage_cycles(&self, max_hops: usize) -> (cycles: Vec<ArbitragePath>)
        requires
            self.wf(),
        ensures
            cycles@.map_values(|p: ArbitragePath| p.route()) == self.cycles(max_hops as nat),
            forall|i: int|
                0 <= i < cycles@.len() ==> {
                    let p = #[trigger] cycles@[i];
                    &&& 4 <= p.tokens@.len() <= max_hops + 1
                    &&& p.tokens@.first().addr() == self.base().addr()
                    &&& p.tokens@.last().addr() == self.base().addr()
                    &&& p.pools@.len() + 1 == p.tokens@.len()
                    &&& p.path_type == path_type_of(p.tokens@.len())
                    &&& self.serves(p.route())
                },
    {
        let mut cycles: Vec<ArbitragePath> = Vec::new();
        let wmnt_node_idx = match self.find_token(self.wmnt_token) {
            Some(idx) => idx,
            None => {
                assert(cycles@.map_values(|p: ArbitragePath| p.route()) =~= self.cycles(
                    max_hops as nat,
                ));
                return cycles;
            },
        };
        proof {
            lemma_node_index(self.nodes@, self.wmnt_token);
            assert(edges_fit(self.nodes@.len(), graph_edges(self.graph), self.edges@)) by {
                assert forall|e: int| 0 <= e < self.edges@.len() implies graph_edges(
                    self.graph,
                )[e].0 < self.nodes@.len() && graph_edges(self.graph)[e].1 < self.nodes@.len()
                    && weight_bounded(self.edges@[e].weight) by {
                    assert(edge_fits(self.nodes@, self.edges@[e], graph_edges(self.graph)[e]));
                }
            }
        }
        let node_count = topology_node_count(&self.graph);
        let (negative_cycle_nodes, predecessor) = spfa_detect_negative_cycles(
            &self.graph,
            &self.edges,
            node_count,
            wmnt_node_idx,
        );
        let negative_cycles = extract_negative_cycles(
            &self.graph,
            &negative_cycle_nodes,
            &predecessor,
            wmnt_node_idx,
            max_hops,
        );
        let ghost walks = negative_cycles@.map_values(|walk: Vec<usize>| walk@);
        let mut i: usize = 0;
        assert(cycles@.map_values(|p: ArbitragePath| p.route()) =~= found_routes(
            self.nodes@,
            graph_edges(self.graph),
            self.edges@,
            walks.take(0),
        ));
        while i < negative_cycles.len()
            invariant
                i <= negative_cycles@.len(),
                self.wf(),
                walks == negative_cycles@.map_values(|walk: Vec<usize>| walk@),
                forall|j: int, k: int|
                    0 <= j < negative_cycles@.len() && 0 <= k < negative_cycles@[j]@.len()
                        ==> #[trigger] negative_cycles@[j]@[k] < self.nodes@.len(),
                cycles@.map_values(|p: ArbitragePath| p.route()) == found_routes(
                    self.nodes@,
                    graph_edges(self.graph),
                    self.edges@,
                    walks.take(i as int),
                ),
                forall|k: int|
                    0 <= k < cycles@.len() ==> (#[trigger] cycles@[k]).path_type == path_type_of(
                        cycles@[k].tokens@.len(),
                    ) && self.serves(cycles@[k].route()),
            decreases negative_cycles@.len() - i,
        {
            assert(walks.take(i + 1).drop_last() == walks.take(i as int));
            assert(walks[i as int] == negative_cycles@[i as int]@);
            let ghost before = cycles@;
            if let Some(arbitrage_path) = self.convert_node_path_to_arbitrage_path(
                &negative_cycles[i],
            ) {
                cycles.push(arbitrage_path);
                assert(cycles@.map_values(|p: ArbitragePath| p.route()) =~= before.map_values(
                    |p: ArbitragePath| p.route(),
                ).push(arbitrage_path.route()));
            }
            i = i + 1;
        }
        proof {
            assert(walks.take(i as int) == walks);
            lemma_kept_walks_are_kept(
                predecessor@,
                graph_edges(self.graph),
                negative_cycle_nodes@,
                wmnt_node_idx,
                max_hops as nat,
            );
            lemma_found_routes_anchored(
                self.nodes@,
                graph_edges(self.graph),
                self.edges@,
                walks,
                wmnt_node_idx,
                max_hops as nat,
            );
            assert forall|k: int| 0 <= k < cycles@.len() implies {
                let p = #[trigger] cycles@[k];
                &&& 4 <= p.tokens@.len() <= max_hops + 1
                &&& p.tokens@.first().addr() == self.base().addr()
                &&& p.tokens@.last().addr() == self.base().addr()
                &&& p.pools@.len() + 1 == p.tokens@.len()
            } by {
                let routes = cycles@.map_values(|p: ArbitragePath| p.route());
                assert(routes[k] == cycles@[k].route());
                assert(well_anchored(routes[k], self.nodes@, wmnt_node_idx, max_hops as nat));
            }
        }
        cycles
    }

    /// Get number of nodes in the graph
    pub fn node_count(&self) -> (n: usize)
        requires
            self.wf(),
        ensures
            n == self.nodes().len(),
    {
        topology_node_count(&self.graph)
    }

    /// Get number of edges in the graph
    pub fn edge_count(&self) -> (n: usize)
        requires
            self.wf(),
        ensures
            n == self.edges().len(),
    {
        topology_edge_count(&self.graph)
    }

    /// Get all tokens in the graph, in the order in which they were added.
    pub fn get_all_tokens(&self) -> (tokens: Vec<Token>)
        ensures
            tokens@ == self.nodes().map_values(|node: TokenNode| node.token),
    {
        let mut tokens: Vec<Token> = Vec::new();
        let mut i: usize = 0;
        while i < self.nodes.len()
            invariant
                i <= self.nodes@.len(),
                tokens@ == self.nodes@.take(i as int).map_values(|node: TokenNode| node.token),
            decreases self.nodes@.len() - i,
        {
            tokens.push(self.nodes[i].token);
            assert(self.nodes@.take(i + 1).map_values(|node: TokenNode| node.token)
                =~= self.nodes@.take(i as int).map_values(|node: TokenNode| node.token).push(
                self.nodes@[i as int].token,
            ));
            i = i + 1;
        }
        assert(self.nodes@.take(i as int) == self.nodes@);
        tokens
    }
}

/// Fee erosion on a pool: where the pool holds as much of one token as of the other, a
/// swap hands out strictly less than it takes in.
pub proof fn lemma_fee_erosion(pool: PoolEdge, input_amount: u64, token_in: Token)
    requires
        pool.reserves_a == pool.reserves_b,
    ensures
        pool.output_for(input_amount, token_in) matches Some(output) ==> output < input_amount,
{
    if input_amount > 0 {
        lemma_balanced_swap_loses(pool.reserves_a as nat, input_amount as nat, pool.fee as nat);
    }
}

/// Every pool of the graph holds as much of one token as of the other.
pub open spec fn balanced_pools(edges: Seq<DirectedEdge>) -> bool {
    forall|e: int|
        0 <= e < edges.len() ==> (#[trigger] edges[e]).original_pool.reserves_a
            == edges[e].original_pool.reserves_b
}

/// Along balanced pools every swap shrinks the amount: a route of two tokens or more
/// ends with less than it started with.
pub proof fn lemma_balanced_walk_shrinks(
    nodes: Seq<TokenNode>,
    ends: Seq<(usize, usize)>,
    edges: Seq<DirectedEdge>,
    tokens: Seq<Token>,
    amount: u64,
)
    requires
        balanced_pools(edges),
    ensures
        walk_output(nodes, ends, edges, tokens, amount) matches Some(left) ==> (if tokens.len()
            >= 2 {
            left < amount
        } else {
            left == amount
        }),
    decreases tokens.len(),
{
    if tokens.len() >= 2 {
        lemma_balanced_walk_shrinks(nodes, ends, edges, tokens.drop_last(), amount);
        match walk_output(nodes, ends, edges, tokens.drop_last(), amount) {
            Some(before) => {
                let token_in = tokens[tokens.len() - 2];
                match pool_between(nodes, ends, edges, token_in, tokens.last()) {
                    Some(pool) => {
                        lemma_fee_erosion(pool, before, token_in);
                    },
                    None => {},
                }
            },
            None => {},
        }
    }
}

/// No free arbitrage from fees alone: while every pool holds as much of one token as
/// of the other, the profit of any round trip that can be made is strictly negative.
pub proof fn lemma_balanced_round_trip_loses(
    graph: TokenGraph,
    tokens: Seq<Token>,
    amount: u64,
)
    requires
        balanced_pools(graph.edges()),
    ensures
        graph.profit_along(tokens, amount) matches Some(profit) ==> profit < 0,
{
    let nodes = graph.nodes();
    let ends = graph.ends();
    let edges = graph.edges();
    lemma_balanced_walk_shrinks(nodes, ends, edges, tokens, amount);
    if tokens.len() >= 3 {
        match walk_output(nodes, ends, edges, tokens, amount) {
            Some(left) => {
                match pool_between(nodes, ends, edges, tokens.last(), graph.base()) {
                    Some(pool) => {
                        lemma_fee_erosion(pool, left, tokens.last());
                    },
                    None => {},
                }
            },
            None => {},
        }
    }
}

/// After `update_pool` both directions show the latest reserves: whichever way the
/// pool of the snapshot's two tokens is looked up in the graph `after`, it holds for
/// each of the two tokens the reserve that the snapshot names for it, in whichever
/// order the snapshot names the tokens.
pub proof fn lemma_update_then_lookup(before: TokenGraph, after: TokenGraph, snapshot: PoolReserves)
    requires
        before.wf(),
    ensures
        pool_between(
            before.nodes(),
            before.ends(),
            updated_edges(before.nodes(), before.ends(), before.edges(), snapshot),
            snapshot.token_a,
            snapshot.token_b,
        ) matches Some(pool) ==> pool.holds(snapshot),
        pool_between(
            before.nodes(),
            before.ends(),
            updated_edges(before.nodes(), before.ends(), before.edges(), snapshot),
            snapshot.token_b,
            snapshot.token_a,
        ) matches Some(pool) ==> pool.holds(snapshot),
        after.nodes() == before.nodes() && after.ends() == before.ends() && after.edges()
            == updated_edges(before.nodes(), before.ends(), before.edges(), snapshot) ==> (
        after.pool_for(snapshot.token_a, snapshot.token_b) matches Some(pool) ==> pool.holds(
            snapshot,
        )) && (after.pool_for(snapshot.token_b, snapshot.token_a) matches Some(pool)
            ==> pool.holds(snapshot)),
{
    let nodes = before.nodes();
    let ends = before.ends();
    let edges = before.edges();
    match (node_index(nodes, snapshot.token_a), node_index(nodes, snapshot.token_b)) {
        (Some(ia), Some(ib)) => {
            lemma_newest_edge(ends, ia, ib);
            lemma_newest_edge(ends, ib, ia);
            lemma_node_index(nodes, snapshot.token_a);
            lemma_node_index(nodes, snapshot.token_b);
            match newest_edge(ends, ia, ib) {
                Some(e) => {
                    assert(edge_fits(nodes, edges[e as int], ends[e as int]));
                },
                None => {},
            }
            match newest_edge(ends, ib, ia) {
                Some(e) => {
                    assert(edge_fits(nodes, edges[e as int], ends[e as int]));
                },
                None => {},
            }
        },
        _ => {},
    }
}

/// A snapshot changes no fee.
pub proof fn lemma_update_keeps_fees(
    nodes: Seq<TokenNode>,
    ends: Seq<(usize, usize)>,
    edges: Seq<DirectedEdge>,
    snapshot: PoolReserves,
    fee: u64,
)
    requires
        forall|e: int| 0 <= e < edges.len() ==> (#[trigger] edges[e]).original_pool.fee == fee,
    ensures
        updated_edges(nodes, ends, edges, snapshot).len() == edges.len(),
        forall|e: int|
            0 <= e < edges.len() ==> (#[trigger] updated_edges(
                nodes,
                ends,
                edges,
                snapshot,
            )[e]).original_pool.fee == fee,
{
    match (node_index(nodes, snapshot.token_a), node_index(nodes, snapshot.token_b)) {
        (Some(ia), Some(ib)) => {
            let first = refresh_at(edges, newest_edge(ends, ia, ib), snapshot);
            assert forall|e: int| 0 <= e < first.len() implies (
            #[trigger] first[e]).original_pool.fee == fee by {
                assert(edges[e].original_pool.fee == fee);
            }
            let second = refresh_at(first, newest_edge(ends, ib, ia), snapshot);
            assert forall|e: int| 0 <= e < second.len() implies (
            #[trigger] second[e]).original_pool.fee == fee by {
                assert(first[e].original_pool.fee == fee);
            }
        },
        _ => {},
    }
}

/// A snapshot changes the pool of its own pair only: the pool that serves any other
/// pair of tokens is the same before and after.
pub proof fn lemma_other_pairs_stay(
    nodes: Seq<TokenNode>,
    ends: Seq<(usize, usize)>,
    edges: Seq<DirectedEdge>,
    snapshot: PoolReserves,
    first: Token,
    second: Token,
)
    requires
        nodes.len() <= usize::MAX,
        ends.len() == edges.len(),
        ends.len() <= usize::MAX,
        !same_pair(snapshot, first, second),
    ensures
        pool_between(nodes, ends, updated_edges(nodes, ends, edges, snapshot), first, second)
            == pool_between(nodes, ends, edges, first, second),
{
    lemma_node_index(nodes, snapshot.token_a);
    lemma_node_index(nodes, snapshot.token_b);
    lemma_node_index(nodes, first);
    lemma_node_index(nodes, second);
    match (
        node_index(nodes, snapshot.token_a),
        node_index(nodes, snapshot.token_b),
        node_index(nodes, first),
        node_index(nodes, second),
    ) {
        (Some(ia), Some(ib), Some(i), Some(j)) => {
            lemma_newest_edge(ends, ia, ib);
            lemma_newest_edge(ends, ib, ia);
            lemma_newest_edge(ends, i, j);
        },
        _ => {},
    }
}

/// A swap gives something exactly where both reserves and the input are above zero and
/// the input, after the fee, is large enough for one unit of output: amounts are whole
/// millionths, and what is less than one is nothing.
pub proof fn lemma_swap_gives_something(x: nat, y: nat, dx: nat, fee: nat)
    ensures
        swap_out(x, y, dx, fee) > 0 <==> x > 0 && y > 0 && dx > 0 && y * crate::math::after_fee(
            dx,
            fee,
        ) >= x + crate::math::after_fee(dx, fee),
{
    let d = crate::math::after_fee(dx, fee);
    if x > 0 && y > 0 && dx > 0 {
        assert((y * d / (x + d) > 0) == (y * d >= x + d)) by (nonlinear_arith)
            requires
                x > 0,
                d >= 0,
                y > 0,
        ;
    }
}

/// When the graph owes an answer for a hop: it has a pool for the two tokens, both
/// reserves of the pool are above zero, and so is the amount that goes in.
pub open spec fn hop_owed(
    nodes: Seq<TokenNode>,
    ends: Seq<(usize, usize)>,
    edges: Seq<DirectedEdge>,
    token_in: Token,
    token_out: Token,
    amount: u64,
) -> bool {
    pool_between(nodes, ends, edges, token_in, token_out) matches Some(pool) && pool.reserves_a > 0
        && pool.reserves_b > 0 && amount > 0
}

/// The hop at the place `k` of the route is owed an answer: the hops before it give
/// an amount, and at this amount the hop is owed one.
pub open spec fn hop_owed_at(graph: TokenGraph, tokens: Seq<Token>, amount: u64, k: int) -> bool {
    walk_output(graph.nodes(), graph.ends(), graph.edges(), tokens.take(k + 1), amount) matches Some(
        reached,
    ) && hop_owed(graph.nodes(), graph.ends(), graph.edges(), tokens[k], tokens[k + 1], reached)
}

/// The hop back from the end of the route to the base token is owed an answer.
pub open spec fn way_back_owed(graph: TokenGraph, tokens: Seq<Token>, amount: u64) -> bool {
    walk_output(graph.nodes(), graph.ends(), graph.edges(), tokens, amount) matches Some(reached)
        && hop_owed(
        graph.nodes(),
        graph.ends(),
        graph.edges(),
        tokens.last(),
        graph.base(),
        reached,
    )
}

/// When the graph owes a profit for a route of three tokens or more: every hop is owed
/// an answer at the amount that reaches it, which is the input for the first hop and
/// for every other hop what the hops before it give; and so is the hop back to the
/// base token, where the route does not end there.
pub open spec fn profit_owed(graph: TokenGraph, tokens: Seq<Token>, amount: u64) -> bool {
    &&& tokens.len() >= 3
    &&& forall|k: int| 0 <= k < tokens.len() - 1 ==> #[trigger] hop_owed_at(graph, tokens, amount, k)
    &&& tokens.last().addr() != graph.base().addr() ==> way_back_owed(graph, tokens, amount)
}

/// In a well-formed graph a hop gives an answer exactly where it is owed one: the
/// answer is missing only for a missing pool, an empty reserve or no input.
pub proof fn lemma_hop_answers(graph: TokenGraph, token_in: Token, token_out: Token, amount: u64)
    requires
        graph.wf(),
    ensures
        hop_output(graph.nodes(), graph.ends(), graph.edges(), token_in, token_out, amount)
            is Some <==> hop_owed(
            graph.nodes(),
            graph.ends(),
            graph.edges(),
            token_in,
            token_out,
            amount,
        ),
{
    let nodes = graph.nodes();
    let ends = graph.ends();
    let edges = graph.edges();
    lemma_node_index(nodes, token_in);
    lemma_node_index(nodes, token_out);
    match (node_index(nodes, token_in), node_index(nodes, token_out)) {
        (Some(i), Some(j)) => {
            lemma_newest_edge(ends, i, j);
            match newest_edge(ends, i, j) {
                Some(e) => {
                    assert(edge_fits(nodes, edges[e as int], ends[e as int]));
                },
                None => {},
            }
        },
        _ => {},
    }
}

/// A route's hops give something as far as they are owed an answer.
proof fn lemma_walk_answers(graph: TokenGraph, tokens: Seq<Token>, amount: u64, n: int)
    requires
        graph.wf(),
        1 <= n <= tokens.len(),
    ensures
        walk_output(graph.nodes(), graph.ends(), graph.edges(), tokens.take(n), amount)
            is Some <==> forall|k: int|
            0 <= k < n - 1 ==> #[trigger] hop_owed_at(graph, tokens, amount, k),
    decreases n,
{
    let nodes = graph.nodes();
    let ends = graph.ends();
    let edges = graph.edges();
    if n > 1 {
        lemma_walk_answers(graph, tokens, amount, n - 1);
        assert(tokens.take(n).drop_last() == tokens.take(n - 1));
        assert(tokens.take(n)[n - 2] == tokens[n - 2] && tokens.take(n).last() == tokens[n - 1]);
        match walk_output(nodes, ends, edges, tokens.take(n - 1), amount) {
            Some(before) => {
                lemma_hop_answers(graph, tokens[n - 2], tokens[n - 1], before);
            },
            None => {},
        }
        let last = n - 2;
        if walk_output(nodes, ends, edges, tokens.take(n), amount) is Some {
            assert(hop_owed_at(graph, tokens, amount, last));
        } else if walk_output(nodes, ends, edges, tokens.take(n - 1), amount) is Some {
            assert(!hop_owed_at(graph, tokens, amount, last));
        }
    }
}

/// When a result is owed: in a well-formed graph `calculate_path_profit` gives a profit
/// exactly where every hop of the route is owed an answer. So the profit of a route
/// of three tokens or more is missing only where a hop has no pool or an empty
/// reserve, or where the amount that reaches a hop is zero: the input itself, or what
/// the hops before have left of it once it is less than one millionth.
pub proof fn lemma_profit_is_owed(graph: TokenGraph, tokens: Seq<Token>, amount: u64)
    requires
        graph.wf(),
    ensures
        graph.profit_along(tokens, amount) is Some <==> profit_owed(graph, tokens, amount),
{
    if tokens.len() >= 3 {
        lemma_walk_answers(graph, tokens, amount, tokens.len() as int);
        assert(tokens.take(tokens.len() as int) == tokens);
        match walk_output(graph.nodes(), graph.ends(), graph.edges(), tokens, amount) {
            Some(left) => {
                lemma_hop_answers(graph, tokens.last(), graph.base(), left);
            },
            None => {},
        }
    }
}

/// Once a prefix of a route gives nothing, the whole route gives nothing.
pub proof fn lemma_walk_stays_empty(
    nodes: Seq<TokenNode>,
    ends: Seq<(usize, usize)>,
    edges: Seq<DirectedEdge>,
    tokens: Seq<Token>,
    amount: u64,
    n: int,
)
    requires
        0 <= n <= tokens.len(),
        walk_output(nodes, ends, edges, tokens.take(n), amount) is None,
    ensures
        walk_output(nodes, ends, edges, tokens, amount) is None,
    decreases tokens.len() - n,
{
    if n < tokens.len() {
        assert(tokens.take(n + 1).drop_last() == tokens.take(n));
        lemma_walk_stays_empty(nodes, ends, edges, tokens, amount, n + 1);
    } else {
        assert(tokens.take(n) == tokens);
    }
}

/// The edge joins the nodes that hold its two tokens, its pool is a pool of these two
/// tokens at the edge's address with the weights of its reserves, and the edge carries
/// the weight of its direction, which is within bounds.
pub open spec fn edge_fits(nodes: Seq<TokenNode>, edge: DirectedEdge, ends: (usize, usize)) -> bool {
    &&& ends.0 < nodes.len()
    &&& ends.1 < nodes.len()
    &&& nodes[ends.0 as int].token.addr() == edge.from_token.addr()
    &&& nodes[ends.1 as int].token.addr() == edge.to_token.addr()
    &&& weight_bounded(edge.weight)
    &&& edge.original_pool.weights_bounded()
    &&& edge.original_pool.is_priced()
    &&& edge.weight == edge.original_pool.weight_from(edge.from_token)
    &&& edge.pool_address == edge.original_pool.pool_address
    &&& ((edge.original_pool.token_a.addr() == edge.from_token.addr()
        && edge.original_pool.token_b.addr() == edge.to_token.addr()) || (
    edge.original_pool.token_a.addr() == edge.to_token.addr()
        && edge.original_pool.token_b.addr() == edge.from_token.addr()))
}

} // verus!
