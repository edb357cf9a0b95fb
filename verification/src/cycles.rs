//! From the nodes that the search flagged to closed routes at the base token.

use crate::graph::{node_index, DirectedEdge, TokenNode};
use crate::search::final_state;
use crate::topology::{graph_edges, graph_node_count, newest_edge, topology_find_edge};
use crate::types::{Address, Token};
use petgraph::graph::Graph;
use petgraph::Directed;
use vstd::prelude::*;

verus! {

/// Place of the first `x` in `path`; the length of `path` where there is none.
pub open spec fn first_position(path: Seq<usize>, x: usize) -> int
    decreases path.len(),
{
    if path.len() == 0 {
        0
    } else if path[0] == x {
        0
    } else {
        1 + first_position(path.drop_first(), x)
    }
}

/// `first_position` is the place before which there is no `x` and at which there is one.
pub proof fn lemma_first_position(path: Seq<usize>, x: usize, i: int)
    requires
        0 <= i <= path.len(),
        forall|k: int| 0 <= k < i ==> path[k] != x,
        i < path.len() ==> path[i] == x,
    ensures
        first_position(path, x) == i,
        path.contains(x) == (i < path.len()),
    decreases path.len(),
{
    if i > 0 {
        let rest = path.drop_first();
        assert forall|k: int| 0 <= k < i - 1 implies rest[k] != x by {
            assert(rest[k] == path[k + 1]);
        }
        if i < path.len() {
            assert(rest[i - 1] == path[i]);
        }
        lemma_first_position(rest, x, i - 1);
    }
    if i < path.len() {
        assert(path[i] == x);
    } else {
        assert(!path.contains(x));
    }
}

/// Where `x` first stands in `path`, if it does.
pub fn position_of(path: &Vec<usize>, x: usize) -> (place: Option<usize>)
    ensures
        match place {
            Some(i) => path@.contains(x) && i == first_position(path@, x) && i < path@.len()
                && path@[i as int] == x && forall|k: int| 0 <= k < i ==> path@[k] != x,
            None => !path@.contains(x),
        },
{
    let mut i: usize = 0;
    while i < path.len()
        invariant
            i <= path@.len(),
            forall|k: int| 0 <= k < i ==> path@[k] != x,
        decreases path@.len() - i,
    {
        if path[i] == x {
            proof {
                lemma_first_position(path@, x, i as int);
            }
            return Some(i);
        }
        i = i + 1;
    }
    proof {
        lemma_first_position(path@, x, i as int);
    }
    None
}

/// The walk read from its end.
pub open spec fn reversed(walk: Seq<usize>) -> Seq<usize> {
    Seq::new(walk.len(), |i: int| walk[walk.len() - 1 - i])
}

/// Walks back from `current` over the node before each node, with `path` the nodes
/// passed so far, until a node comes up that was passed already. The cycle is the part
/// of the walk from that node on, closed by the node itself and read from its end: so
/// each of its nodes is the node before the next, and the cycle runs with the edges
/// that the search went over. There is none where the walk runs out of nodes before,
/// or grows past twice `max_hops` nodes.
pub open spec fn traced_cycle(
    pred: Seq<Option<usize>>,
    path: Seq<usize>,
    current: usize,
    max_hops: nat,
) -> Option<Seq<usize>>
    decreases 2 * max_hops + 1 - path.len(),
{
    if path.contains(current) {
        Some(reversed(path.skip(first_position(path, current)).push(current)))
    } else {
        match pred[current as int] {
            None => None,
            Some(before) => if path.len() + 1 > 2 * max_hops {
                None
            } else {
                traced_cycle(pred, path.push(current), before, max_hops)
            },
        }
    }
}

/// A cycle, written with its first node again at the end, turned so that it starts
/// and ends at `base`, which is one of its nodes.
pub open spec fn rotated(cycle: Seq<usize>, base: usize) -> Seq<usize> {
    let round = cycle.drop_last();
    let place = first_position(round, base);
    round.skip(place) + round.take(place) + seq![base]
}

/// There is an edge from `a` to `b`.
pub open spec fn linked(ends: Seq<(usize, usize)>, a: usize, b: usize) -> bool {
    newest_edge(ends, a, b) is Some
}

/// A cycle that `base` is not on, entered from `base` and left to `base`: it can be had
/// where `base` has an edge to some node of the cycle and the last node of the cycle
/// has an edge to `base`, and the result has at most `max_hops + 1` nodes.
pub open spec fn spliced(ends: Seq<(usize, usize)>, cycle: Seq<usize>, base: usize, max_hops: nat) -> Option<
    Seq<usize>,
> {
    if (exists|i: int| 0 <= i < cycle.len() && linked(ends, base, #[trigger] cycle[i])) && linked(
        ends,
        cycle.last(),
        base,
    ) && cycle.len() + 2 <= max_hops + 1 {
        Some(seq![base] + cycle + seq![base])
    } else {
        None
    }
}

/// The closed walk at `base` that is made of the cycle found behind `start`.
pub open spec fn anchored_cycle(
    pred: Seq<Option<usize>>,
    ends: Seq<(usize, usize)>,
    start: usize,
    base: usize,
    max_hops: nat,
) -> Option<Seq<usize>> {
    match traced_cycle(pred, Seq::empty(), start, max_hops) {
        Some(cycle) => if cycle.contains(base) {
            Some(rotated(cycle, base))
        } else {
            spliced(ends, cycle, base, max_hops)
        },
        None => None,
    }
}

/// A walk is kept when it has from 4 to `max_hops + 1` nodes and starts and ends at `base`.
pub open spec fn kept(walk: Seq<usize>, base: usize, max_hops: nat) -> bool {
    4 <= walk.len() <= max_hops + 1 && walk.first() == base && walk.last() == base
}

/// Rearrange cycle to start and end with the base node
pub fn rearrange_cycle_with_wmnt(cycle: &Vec<usize>, wmnt_node: usize) -> (walk: Option<Vec<usize>>)
    requires
        cycle@.len() >= 2,
        cycle@.first() == cycle@.last(),
    ensures
        match walk {
            Some(w) => cycle@.contains(wmnt_node) && w@ == rotated(cycle@, wmnt_node),
            None => !cycle@.contains(wmnt_node),
        },
        walk matches Some(w) ==> forall|i: int|
            0 <= i < w@.len() ==> w@[i] == wmnt_node || cycle@.contains(#[trigger] w@[i]),
{
    match position_of(cycle, wmnt_node) {
        Some(place) => {
            let round_len = cycle.len() - 1;
            let ghost round = cycle@.drop_last();
            proof {
                assert forall|k: int| 0 <= k < place implies round[k] != wmnt_node by {
                    assert(round[k] == cycle@[k]);
                }
                assert(round[place as int] == cycle@[place as int]);
                lemma_first_position(round, wmnt_node, place as int);
            }
            let mut turned: Vec<usize> = Vec::new();
            let mut k: usize = place;
            while k < round_len
                invariant
                    place <= k <= round_len,
                    round_len == cycle@.len() - 1,
                    round == cycle@.drop_last(),
                    turned@ == round.subrange(place as int, k as int),
                decreases round_len - k,
            {
                turned.push(cycle[k]);
                assert(turned@ =~= round.subrange(place as int, k + 1));
                k = k + 1;
            }
            assert(turned@ =~= round.skip(place as int));
            let mut k: usize = 0;
            while k < place
                invariant
                    k <= place < round_len,
                    round_len == cycle@.len() - 1,
                    round == cycle@.drop_last(),
                    turned@ == round.skip(place as int) + round.take(k as int),
                decreases place - k,
            {
                turned.push(cycle[k]);
                assert(turned@ =~= round.skip(place as int) + round.take(k + 1));
                k = k + 1;
            }
            assert forall|i: int| 0 <= i < turned@.len() implies cycle@.contains(
                #[trigger] turned@[i],
            ) by {
                if i < round_len - place {
                    assert(turned@[i] == cycle@[place + i]);
                } else {
                    assert(turned@[i] == cycle@[i - (round_len - place)]);
                }
            }
            turned.push(wmnt_node);
            Some(turned)
        },
        None => None,
    }
}

/// Extend cycle to include the base node as start/end point
pub(crate) fn extend_cycle_to_wmnt(
    graph: &Graph<(), (), Directed, u32>,
    cycle: &Vec<usize>,
    wmnt_node: usize,
    max_hops: usize,
) -> (walk: Option<Vec<usize>>)
    requires
        wmnt_node < graph_node_count(*graph),
        forall|i: int| 0 <= i < cycle@.len() ==> cycle@[i] < graph_node_count(*graph),
        cycle@.len() > 0,
    ensures
        match walk {
            Some(w) => spliced(graph_edges(*graph), cycle@, wmnt_node, max_hops as nat) == Some(
                w@,
            ),
            None => spliced(graph_edges(*graph), cycle@, wmnt_node, max_hops as nat) is None,
        },
        walk matches Some(w) ==> forall|i: int|
            0 <= i < w@.len() ==> w@[i] == wmnt_node || cycle@.contains(#[trigger] w@[i]),
{
    let ghost ends = graph_edges(*graph);
    let last_node = cycle[cycle.len() - 1];
    let mut i: usize = 0;
    while i < cycle.len()
        invariant
            i <= cycle@.len(),
            cycle@.len() > 0,
            ends == graph_edges(*graph),
            wmnt_node < graph_node_count(*graph),
            last_node == cycle@.last(),
            forall|k: int| 0 <= k < cycle@.len() ==> cycle@[k] < graph_node_count(*graph),
            forall|k: int|
                0 <= k < i && linked(ends, wmnt_node, #[trigger] cycle@[k]) ==> !(linked(
                    ends,
                    last_node,
                    wmnt_node,
                ) && cycle@.len() + 2 <= max_hops + 1),
        decreases cycle@.len() - i,
    {
        if topology_find_edge(graph, wmnt_node, cycle[i]).is_some() {
            if topology_find_edge(graph, last_node, wmnt_node).is_some() {
                if cycle.len() < max_hops {
                    let mut extended: Vec<usize> = Vec::new();
                    extended.push(wmnt_node);
                    let mut k: usize = 0;
                    while k < cycle.len()
                        invariant
                            k <= cycle@.len(),
                            extended@ == seq![wmnt_node] + cycle@.take(k as int),
                        decreases cycle@.len() - k,
                    {
                        extended.push(cycle[k]);
                        assert(extended@ =~= seq![wmnt_node] + cycle@.take(k + 1));
                        k = k + 1;
                    }
                    extended.push(wmnt_node);
                    assert(extended@ =~= seq![wmnt_node] + cycle@ + seq![wmnt_node]);
                    assert forall|i: int| 0 <= i < extended@.len() implies extended@[i]
                        == wmnt_node || cycle@.contains(#[trigger] extended@[i]) by {
                        if 0 < i <= cycle@.len() {
                            assert(extended@[i] == cycle@[i - 1]);
                        }
                    }
                    return Some(extended);
                }
            }
        }
        i = i + 1;
    }
    None
}

/// Reconstruct cycle path from the nodes before each node
pub(crate) fn reconstruct_cycle(
    graph: &Graph<(), (), Directed, u32>,
    start_node: usize,
    predecessor: &Vec<Option<usize>>,
    wmnt_node: usize,
    max_hops: usize,
) -> (walk: Option<Vec<usize>>)
    requires
        predecessor@.len() == graph_node_count(*graph),
        start_node < predecessor@.len(),
        wmnt_node < predecessor@.len(),
        forall|v: int|
            0 <= v < predecessor@.len() ==> ((#[trigger] predecessor@[v]) matches Some(p) ==> p
                < predecessor@.len()),
    ensures
        match walk {
            Some(w) => anchored_cycle(
                predecessor@,
                graph_edges(*graph),
                start_node,
                wmnt_node,
                max_hops as nat,
            ) == Some(w@),
            None => anchored_cycle(
                predecessor@,
                graph_edges(*graph),
                start_node,
                wmnt_node,
                max_hops as nat,
            ) is None,
        },
        walk matches Some(w) ==> forall|i: int|
            0 <= i < w@.len() ==> #[trigger] w@[i] < predecessor@.len(),
{
    let mut path: Vec<usize> = Vec::new();
    let mut current: usize = start_node;
    loop
        invariant
            predecessor@.len() == graph_node_count(*graph),
            current < predecessor@.len(),
            wmnt_node < predecessor@.len(),
            forall|v: int|
                0 <= v < predecessor@.len() ==> ((#[trigger] predecessor@[v]) matches Some(p) ==> p
                    < predecessor@.len()),
            forall|k: int| 0 <= k < path@.len() ==> path@[k] < predecessor@.len(),
            path@.len() <= 2 * max_hops,
            traced_cycle(predecessor@, path@, current, max_hops as nat) == traced_cycle(
                predecessor@,
                Seq::empty(),
                start_node,
                max_hops as nat,
            ),
        decreases 2 * max_hops + 1 - path@.len(),
    {
        if let Some(cycle_start_pos) = position_of(&path, current) {
            let mut cycle_path: Vec<usize> = Vec::new();
            cycle_path.push(current);
            let mut k: usize = path.len();
            while k > cycle_start_pos
                invariant
                    cycle_start_pos <= k <= path@.len(),
                    cycle_path@.len() == path@.len() - k + 1,
                    cycle_path@[0] == current,
                    forall|i: int|
                        1 <= i < cycle_path@.len() ==> cycle_path@[i] == path@[path@.len() - i],
                decreases k,
            {
                k = k - 1;
                cycle_path.push(path[k]);
            }
            assert(cycle_path@ =~= reversed(
                path@.skip(cycle_start_pos as int).push(current),
            ));
            assert forall|i: int| 0 <= i < cycle_path@.len() implies cycle_path@[i]
                < predecessor@.len() by {
                if i >= 1 {
                    assert(cycle_path@[i] == path@[path@.len() - i]);
                }
            }
            return match rearrange_cycle_with_wmnt(&cycle_path, wmnt_node) {
                Some(walk) => Some(walk),
                None => extend_cycle_to_wmnt(graph, &cycle_path, wmnt_node, max_hops),
            };
        }
        let ghost passed = path@;
        let ghost node = current;
        path.push(current);
        match predecessor[current] {
            Some(prev) => {
                current = prev;
            },
            None => {
                return None;
            },
        }
        let passed_count = path.len();
        if max_hops <= usize::MAX / 2 && passed_count > max_hops * 2 {
            return None;
        }
        assert(traced_cycle(predecessor@, passed, node, max_hops as nat) == traced_cycle(
            predecessor@,
            passed.push(node),
            current,
            max_hops as nat,
        ));
    }
}

/// The pools of the hops of a walk, each that of the newest edge from one node to the
/// next; nothing where a hop has no edge.
pub open spec fn hop_pools(
    ends: Seq<(usize, usize)>,
    edges: Seq<DirectedEdge>,
    walk: Seq<usize>,
) -> Option<Seq<Address>>
    decreases walk.len(),
{
    if walk.len() <= 1 {
        Some(Seq::empty())
    } else {
        match hop_pools(ends, edges, walk.drop_last()) {
            Some(pools) => match newest_edge(ends, walk[walk.len() - 2], walk.last()) {
                Some(e) => Some(pools.push(edges[e as int].pool_address)),
                None => None,
            },
            None => None,
        }
    }
}

/// The tokens at the nodes of a walk.
pub open spec fn walk_tokens(nodes: Seq<TokenNode>, walk: Seq<usize>) -> Seq<Token> {
    Seq::new(walk.len(), |i: int| nodes[walk[i] as int].token)
}

/// A walk as a route: its tokens and the pools between them. A walk of fewer than
/// three nodes is no route, nor one with a hop that has no edge.
pub open spec fn resolved(
    nodes: Seq<TokenNode>,
    ends: Seq<(usize, usize)>,
    edges: Seq<DirectedEdge>,
    walk: Seq<usize>,
) -> Option<(Seq<Token>, Seq<Address>)> {
    if walk.len() < 3 {
        None
    } else {
        match hop_pools(ends, edges, walk) {
            Some(pools) => Some((walk_tokens(nodes, walk), pools)),
            None => None,
        }
    }
}

/// The walks that the flagged nodes lead to and that are kept, in the order of the
/// flagged nodes.
pub open spec fn kept_walks(
    pred: Seq<Option<usize>>,
    ends: Seq<(usize, usize)>,
    flagged: Seq<usize>,
    base: usize,
    max_hops: nat,
) -> Seq<Seq<usize>>
    decreases flagged.len(),
{
    if flagged.len() == 0 {
        Seq::empty()
    } else {
        let before = kept_walks(pred, ends, flagged.drop_last(), base, max_hops);
        match anchored_cycle(pred, ends, flagged.last(), base, max_hops) {
            Some(walk) => if kept(walk, base, max_hops) {
                before.push(walk)
            } else {
                before
            },
            None => before,
        }
    }
}

/// The walks that are routes, as routes, in the order of the walks.
pub open spec fn found_routes(
    nodes: Seq<TokenNode>,
    ends: Seq<(usize, usize)>,
    edges: Seq<DirectedEdge>,
    walks: Seq<Seq<usize>>,
) -> Seq<(Seq<Token>, Seq<Address>)>
    decreases walks.len(),
{
    if walks.len() == 0 {
        Seq::empty()
    } else {
        let before = found_routes(nodes, ends, edges, walks.drop_last());
        match resolved(nodes, ends, edges, walks.last()) {
            Some(route) => before.push(route),
            None => before,
        }
    }
}

/// All routes that the search from the base token finds: none where the graph does
/// not hold the base token.
pub open spec fn cycles_of(
    nodes: Seq<TokenNode>,
    ends: Seq<(usize, usize)>,
    edges: Seq<DirectedEdge>,
    base: Token,
    max_hops: nat,
) -> Seq<(Seq<Token>, Seq<Address>)> {
    match node_index(nodes, base) {
        Some(source) => {
            let rest = final_state(nodes.len(), source, ends, edges);
            found_routes(
                nodes,
                ends,
                edges,
                kept_walks(rest.pred, ends, rest.flagged, source, max_hops),
            )
        },
        None => Seq::empty(),
    }
}

/// A route has one pool for each hop.
pub proof fn lemma_hop_pools_len(ends: Seq<(usize, usize)>, edges: Seq<DirectedEdge>, walk: Seq<usize>)
    ensures
        hop_pools(ends, edges, walk) matches Some(pools) ==> pools.len() == if walk.len() == 0 {
            0
        } else {
            walk.len() - 1
        },
    decreases walk.len(),
{
    if walk.len() > 1 {
        lemma_hop_pools_len(ends, edges, walk.drop_last());
    }
}

/// Once a part of a walk has a hop without an edge, the walk has one.
pub proof fn lemma_hop_pools_stay_empty(
    ends: Seq<(usize, usize)>,
    edges: Seq<DirectedEdge>,
    walk: Seq<usize>,
    n: int,
)
    requires
        0 <= n <= walk.len(),
        hop_pools(ends, edges, walk.take(n)) is None,
    ensures
        hop_pools(ends, edges, walk) is None,
    decreases walk.len() - n,
{
    if n < walk.len() {
        assert(walk.take(n + 1).drop_last() == walk.take(n));
        lemma_hop_pools_stay_empty(ends, edges, walk, n + 1);
    } else {
        assert(walk.take(n) == walk);
    }
}

/// A route is well anchored when it has from 4 to `max_hops + 1` tokens, starts and
/// ends at the token of the node `base`, and has one pool for each hop.
pub open spec fn well_anchored(
    route: (Seq<Token>, Seq<Address>),
    nodes: Seq<TokenNode>,
    base: usize,
    max_hops: nat,
) -> bool {
    &&& 4 <= route.0.len() <= max_hops + 1
    &&& route.0.first() == nodes[base as int].token
    &&& route.0.last() == nodes[base as int].token
    &&& route.1.len() + 1 == route.0.len()
}

/// Every walk that is kept has from 4 to `max_hops + 1` nodes and starts and ends at `base`.
pub proof fn lemma_kept_walks_are_kept(
    pred: Seq<Option<usize>>,
    ends: Seq<(usize, usize)>,
    flagged: Seq<usize>,
    base: usize,
    max_hops: nat,
)
    ensures
        forall|i: int|
            0 <= i < kept_walks(pred, ends, flagged, base, max_hops).len() ==> kept(
                #[trigger] kept_walks(pred, ends, flagged, base, max_hops)[i],
                base,
                max_hops,
            ),
    decreases flagged.len(),
{
    if flagged.len() > 0 {
        let before = kept_walks(pred, ends, flagged.drop_last(), base, max_hops);
        let all = kept_walks(pred, ends, flagged, base, max_hops);
        lemma_kept_walks_are_kept(pred, ends, flagged.drop_last(), base, max_hops);
        assert forall|i: int| 0 <= i < all.len() implies kept(#[trigger] all[i], base, max_hops) by {
            if i < before.len() {
                assert(all[i] == before[i]);
            }
        }
    }
}

/// The search never hands out a route that is shorter than 4 tokens or longer than
/// `max_hops + 1`, or that does not start and end at the base: the routes of walks
/// that are kept are well anchored.
pub proof fn lemma_found_routes_anchored(
    nodes: Seq<TokenNode>,
    ends: Seq<(usize, usize)>,
    edges: Seq<DirectedEdge>,
    walks: Seq<Seq<usize>>,
    base: usize,
    max_hops: nat,
)
    requires
        forall|i: int| 0 <= i < walks.len() ==> kept(#[trigger] walks[i], base, max_hops),
    ensures
        forall|i: int|
            0 <= i < found_routes(nodes, ends, edges, walks).len() ==> well_anchored(
                #[trigger] found_routes(nodes, ends, edges, walks)[i],
                nodes,
                base,
                max_hops,
            ),
    decreases walks.len(),
{
    if walks.len() > 0 {
        let before = found_routes(nodes, ends, edges, walks.drop_last());
        let all = found_routes(nodes, ends, edges, walks);
        assert forall|i: int| 0 <= i < walks.drop_last().len() implies kept(
            #[trigger] walks.drop_last()[i],
            base,
            max_hops,
        ) by {
            assert(walks.drop_last()[i] == walks[i]);
        }
        lemma_found_routes_anchored(nodes, ends, edges, walks.drop_last(), base, max_hops);
        assert forall|i: int| 0 <= i < all.len() implies well_anchored(
            #[trigger] all[i],
            nodes,
            base,
            max_hops,
        ) by {
            if i < before.len() {
                assert(all[i] == before[i]);
            } else {
                let walk = walks.last();
                assert(kept(walks[walks.len() - 1], base, max_hops));
                lemma_hop_pools_len(ends, edges, walk);
                let route = resolved(nodes, ends, edges, walk).unwrap();
                assert(all[i] == route);
                assert(route.0 == walk_tokens(nodes, walk));
                assert(route.0.first() == nodes[walk.first() as int].token);
                assert(route.0.last() == nodes[walk.last() as int].token);
            }
        }
    }
}

/// Extract the closed walks at the base node from the flagged nodes: for each flagged
/// node the walk that its cycle gives, where it has from 4 to `max_hops + 1` nodes
/// and starts and ends at the base node.
pub(crate) fn extract_negative_cycles(
    graph: &Graph<(), (), Directed, u32>,
    negative_cycle_nodes: &Vec<usize>,
    predecessor: &Vec<Option<usize>>,
    wmnt_node: usize,
    max_hops: usize,
) -> (cycles: Vec<Vec<usize>>)
    requires
        predecessor@.len() == graph_node_count(*graph),
        wmnt_node < predecessor@.len(),
        forall|k: int|
            0 <= k < negative_cycle_nodes@.len() ==> negative_cycle_nodes@[k] < predecessor@.len(),
        forall|v: int|
            0 <= v < predecessor@.len() ==> ((#[trigger] predecessor@[v]) matches Some(p) ==> p
                < predecessor@.len()),
    ensures
        cycles@.map_values(|walk: Vec<usize>| walk@) == kept_walks(
            predecessor@,
            graph_edges(*graph),
            negative_cycle_nodes@,
            wmnt_node,
            max_hops as nat,
        ),
        forall|i: int, k: int|
            0 <= i < cycles@.len() && 0 <= k < cycles@[i]@.len() ==> #[trigger] cycles@[i]@[k]
                < predecessor@.len(),
{
    let mut cycles: Vec<Vec<usize>> = Vec::new();
    let mut i: usize = 0;
    assert(cycles@.map_values(|walk: Vec<usize>| walk@) =~= kept_walks(
        predecessor@,
        graph_edges(*graph),
        negative_cycle_nodes@.take(0),
        wmnt_node,
        max_hops as nat,
    ));
    while i < negative_cycle_nodes.len()
        invariant
            i <= negative_cycle_nodes@.len(),
            predecessor@.len() == graph_node_count(*graph),
            wmnt_node < predecessor@.len(),
            forall|k: int|
                0 <= k < negative_cycle_nodes@.len() ==> negative_cycle_nodes@[k]
                    < predecessor@.len(),
            forall|v: int|
                0 <= v < predecessor@.len() ==> ((#[trigger] predecessor@[v]) matches Some(p) ==> p
                    < predecessor@.len()),
            cycles@.map_values(|walk: Vec<usize>| walk@) == kept_walks(
                predecessor@,
                graph_edges(*graph),
                negative_cycle_nodes@.take(i as int),
                wmnt_node,
                max_hops as nat,
            ),
            forall|j: int, k: int|
                0 <= j < cycles@.len() && 0 <= k < cycles@[j]@.len() ==> #[trigger] cycles@[j]@[k]
                    < predecessor@.len(),
        decreases negative_cycle_nodes@.len() - i,
    {
        let cycle_node = negative_cycle_nodes[i];
        assert(negative_cycle_nodes@.take(i + 1).drop_last() == negative_cycle_nodes@.take(
            i as int,
        ));
        let ghost before = cycles@;
        if let Some(cycle_path) = reconstruct_cycle(
            graph,
            cycle_node,
            predecessor,
            wmnt_node,
            max_hops,
        ) {
            let len = cycle_path.len();
            if len >= 4 && len - 1 <= max_hops && cycle_path[0] == wmnt_node && cycle_path[len
                - 1] == wmnt_node {
                let ghost walk = cycle_path@;
                cycles.push(cycle_path);
                assert(cycles@.map_values(|walk: Vec<usize>| walk@) =~= before.map_values(
                    |walk: Vec<usize>| walk@,
                ).push(walk));
                assert forall|j: int, k: int|
                    0 <= j < cycles@.len() && 0 <= k < cycles@[j]@.len() implies #[trigger] cycles@[j]@[k]
                    < predecessor@.len() by {
                    if j < before.len() {
                        assert(cycles@[j] == before[j]);
                    }
                }
            }
        }
        i = i + 1;
    }
    assert(negative_cycle_nodes@.take(i as int) == negative_cycle_nodes@);
    cycles
}

} // verus!
