//! What a cycle among the predecessors of the search weighs.
//!
//! The search keeps, for every node that it has reached, the node before it on the
//! lightest walk found so far. Where these predecessors run in a circle, the circle
//! weighs less than nothing: it is a negative cycle of the graph. This holds after
//! every step of the search, for a graph with at most one edge from a node to another.

use crate::cycles::{
    anchored_cycle, first_position, reversed, rotated, spliced, traced_cycle, walk_tokens,
};
use crate::graph::{
    edge_fits, lemma_node_index_unique, node_index, weight_bounded, DirectedEdge, TokenGraph,
};
use crate::log_laws::{all_funded, weight_sum};
use crate::multi_path::{hop_reserves, oriented};
use crate::search::{
    edges_fit, final_state, initial_state, lemma_out_list, relax_all, relax_edge, state_after,
    SearchState,
};
use crate::topology::{lemma_newest_edge, newest_edge, out_list};
use crate::weights::{
    direction_weight, lemma_weight_within_limit, neg_log2_rate, to_micro_nat, Weight,
};
use vstd::prelude::*;

verus! {

/// No two edges lead from the same node to the same node.
pub open spec fn single_edged(ends: Seq<(usize, usize)>) -> bool {
    forall|i: int, j: int| 0 <= i < j < ends.len() ==> ends[i] != ends[j]
}

/// Weight of the hop from `u` to `v`: that of the newest edge from `u` to `v`, where
/// there is one and it is finite.
pub open spec fn hop_weight(
    ends: Seq<(usize, usize)>,
    edges: Seq<DirectedEdge>,
    u: usize,
    v: usize,
) -> Option<int> {
    match newest_edge(ends, u, v) {
        Some(e) => match edges[e as int].weight {
            Weight::Finite(w) => Some(w as int),
            Weight::Infinite => None,
        },
        None => None,
    }
}

/// The weight of the hop, nothing for a hop without a finite weight.
pub open spec fn hop_value(
    ends: Seq<(usize, usize)>,
    edges: Seq<DirectedEdge>,
    u: usize,
    v: usize,
) -> int {
    match hop_weight(ends, edges, u, v) {
        Some(w) => w,
        None => 0,
    }
}

/// Sum of the weights of the hops of a walk, from each node to the next.
pub open spec fn walk_weight(
    ends: Seq<(usize, usize)>,
    edges: Seq<DirectedEdge>,
    walk: Seq<usize>,
) -> int
    decreases walk.len(),
{
    if walk.len() <= 1 {
        0
    } else {
        walk_weight(ends, edges, walk.drop_last()) + hop_value(
            ends,
            edges,
            walk[walk.len() - 2],
            walk.last(),
        )
    }
}

/// The node at the place `i` of the walk is the node before the node at the next place.
pub open spec fn steps_along(pred: Seq<Option<usize>>, walk: Seq<usize>, i: int) -> bool {
    walk[i + 1] < pred.len() && pred[walk[i + 1] as int] == Some(walk[i])
}

/// The walk goes along the predecessors: each of its nodes is the node before the next.
pub open spec fn follows(pred: Seq<Option<usize>>, walk: Seq<usize>) -> bool {
    forall|i: int| 0 <= i < walk.len() - 1 ==> #[trigger] steps_along(pred, walk, i)
}

/// The walk is a cycle among the predecessors: it goes along them and ends where it starts.
pub open spec fn is_cycle(pred: Seq<Option<usize>>, walk: Seq<usize>) -> bool {
    walk.len() >= 2 && walk.first() == walk.last() && follows(pred, walk)
}

/// The walk comes to `v` by one of its hops.
pub open spec fn enters(walk: Seq<usize>, v: usize) -> bool
    decreases walk.len(),
{
    if walk.len() <= 1 {
        false
    } else {
        walk.last() == v || enters(walk.drop_last(), v)
    }
}

/// The distance of a node, nothing for a node without one.
pub open spec fn height(s: SearchState, x: usize) -> int {
    match s.dist[x as int] {
        Some(d) => d,
        None => 0,
    }
}

/// What holds of a node with a node before it: both have a distance, the hop between
/// them has a finite weight, and the distance of the node is at least that of the
/// node before it and the weight of the hop together.
pub open spec fn settled(
    s: SearchState,
    ends: Seq<(usize, usize)>,
    edges: Seq<DirectedEdge>,
    v: int,
) -> bool {
    s.pred[v] matches Some(u) ==> u < s.dist.len() && s.dist[v] is Some && s.dist[u as int] is Some
        && hop_weight(ends, edges, u, v as usize) is Some && height(s, v as usize) >= height(s, u)
        + hop_value(ends, edges, u, v as usize)
}

/// What holds of every state of the search on a graph of `n` nodes: what waits and
/// what is flagged are nodes, every node with a node before it is settled, and every
/// cycle among the predecessors weighs less than nothing.
pub open spec fn sound(
    s: SearchState,
    n: nat,
    ends: Seq<(usize, usize)>,
    edges: Seq<DirectedEdge>,
) -> bool {
    &&& s.dist.len() == n
    &&& s.pred.len() == n
    &&& forall|i: int| 0 <= i < s.queue.len() ==> #[trigger] s.queue[i] < n
    &&& forall|i: int| 0 <= i < s.flagged.len() ==> #[trigger] s.flagged[i] < n
    &&& forall|v: int| 0 <= v < n ==> #[trigger] settled(s, ends, edges, v)
    &&& forall|walk: Seq<usize>| #[trigger]
        is_cycle(s.pred, walk) ==> walk_weight(ends, edges, walk) < 0
}

/// A walk that does not come to `v` goes along the predecessors as they were before
/// the node before `v` was changed.
proof fn lemma_follows_elsewhere(
    pred: Seq<Option<usize>>,
    v: usize,
    u: usize,
    walk: Seq<usize>,
)
    requires
        v < pred.len(),
        follows(pred.update(v as int, Some(u)), walk),
        !enters(walk, v),
    ensures
        follows(pred, walk),
    decreases walk.len(),
{
    if walk.len() > 1 {
        let front = walk.drop_last();
        assert forall|i: int| 0 <= i < front.len() - 1 implies #[trigger] steps_along(
            pred.update(v as int, Some(u)),
            front,
            i,
        ) by {
            assert(steps_along(pred.update(v as int, Some(u)), walk, i));
        }
        lemma_follows_elsewhere(pred, v, u, front);
        assert forall|i: int| 0 <= i < walk.len() - 1 implies #[trigger] steps_along(
            pred,
            walk,
            i,
        ) by {
            assert(steps_along(pred.update(v as int, Some(u)), walk, i));
            if i < front.len() - 1 {
                assert(steps_along(pred, front, i));
            }
        }
    }
}

/// A walk that comes to `v` comes to it at some place.
proof fn lemma_enters_somewhere(walk: Seq<usize>, v: usize) -> (i: int)
    requires
        enters(walk, v),
    ensures
        0 <= i < walk.len() - 1,
        walk[i + 1] == v,
    decreases walk.len(),
{
    if walk.last() == v {
        walk.len() - 2
    } else {
        lemma_enters_somewhere(walk.drop_last(), v)
    }
}

/// Along the predecessors after `u` has become the node before `v`, by a hop that is
/// lighter than the distances of `u` and `v` are apart, a walk weighs at most what
/// the distances of its ends are apart, and less where it comes to `v`.
proof fn lemma_walk_bound(
    s: SearchState,
    ends: Seq<(usize, usize)>,
    edges: Seq<DirectedEdge>,
    v: usize,
    u: usize,
    walk: Seq<usize>,
)
    requires
        s.pred.len() == s.dist.len(),
        forall|x: int| 0 <= x < s.dist.len() ==> #[trigger] settled(s, ends, edges, x),
        v < s.dist.len(),
        u < s.dist.len(),
        height(s, v) > height(s, u) + hop_value(ends, edges, u, v),
        follows(s.pred.update(v as int, Some(u)), walk),
        walk.len() >= 1,
    ensures
        walk_weight(ends, edges, walk) <= height(s, walk.last()) - height(s, walk.first()),
        enters(walk, v) ==> walk_weight(ends, edges, walk) < height(s, walk.last()) - height(
            s,
            walk.first(),
        ),
    decreases walk.len(),
{
    if walk.len() > 1 {
        let next = s.pred.update(v as int, Some(u));
        let front = walk.drop_last();
        assert forall|i: int| 0 <= i < front.len() - 1 implies #[trigger] steps_along(
            next,
            front,
            i,
        ) by {
            assert(steps_along(next, walk, i));
        }
        lemma_walk_bound(s, ends, edges, v, u, front);
        let a = walk[walk.len() - 2];
        let b = walk.last();
        assert(steps_along(next, walk, walk.len() - 2));
        assert(front.last() == a && front.first() == walk.first());
        if b != v {
            assert(settled(s, ends, edges, b as int));
        }
    }
}

/// Looking at one edge keeps the state sound.
proof fn lemma_relax_edge_sound(
    s: SearchState,
    n: nat,
    ends: Seq<(usize, usize)>,
    edges: Seq<DirectedEdge>,
    u: usize,
    edge: (usize, usize),
)
    requires
        sound(s, n, ends, edges),
        edges_fit(n, ends, edges),
        single_edged(ends),
        u < n,
        edge.0 < ends.len(),
        ends[edge.0 as int] == (u, edge.1),
    ensures
        sound(relax_edge(s, n, edges, u, edge), n, ends, edges),
{
    let after = relax_edge(s, n, edges, u, edge);
    let v = edge.1;
    assert(v < n);
    if after.dist != s.dist || after.pred != s.pred {
        lemma_newest_edge(ends, u, v);
        assert(newest_edge(ends, u, v) == Some(edge.0));
        let du = s.dist[u as int].unwrap();
        let w = hop_value(ends, edges, u, v);
        assert(hop_weight(ends, edges, u, v) is Some);
        assert(after.dist == s.dist.update(v as int, Some(du + w)));
        assert(after.pred == s.pred.update(v as int, Some(u)));
        assert(forall|i: int| 0 <= i < after.queue.len() ==> #[trigger] after.queue[i] < n) by {
            if after.queue != s.queue {
                assert(after.queue == s.queue.push(v));
            }
        }
        assert(forall|i: int| 0 <= i < after.flagged.len() ==> #[trigger] after.flagged[i] < n) by {
            if after.flagged != s.flagged {
                assert(after.flagged == s.flagged.push(v));
            }
        }
        assert forall|x: int| 0 <= x < n implies #[trigger] settled(after, ends, edges, x) by {
            assert(settled(s, ends, edges, x));
            if x != v {
                match s.pred[x] {
                    Some(p) => {
                        if p == v {
                            assert(s.dist[v as int] is Some);
                        }
                    },
                    None => {},
                }
            }
        }
        assert forall|walk: Seq<usize>| #[trigger] is_cycle(after.pred, walk) implies walk_weight(
            ends,
            edges,
            walk,
        ) < 0 by {
            if enters(walk, v) {
                if s.dist[v as int] is Some {
                    lemma_walk_bound(s, ends, edges, v, u, walk);
                } else {
                    let i = lemma_enters_somewhere(walk, v);
                    let place = if i + 2 <= walk.len() - 1 {
                        i + 1
                    } else {
                        0int
                    };
                    assert(steps_along(after.pred, walk, place));
                    let behind = walk[place + 1];
                    assert(walk[place] == v);
                    if behind != v {
                        assert(settled(s, ends, edges, behind as int));
                    }
                    assert(false);
                }
            } else {
                lemma_follows_elsewhere(s.pred, v, u, walk);
                assert(is_cycle(s.pred, walk));
            }
        }
    } else {
        assert(forall|i: int| 0 <= i < after.queue.len() ==> #[trigger] after.queue[i] < n);
        assert(forall|i: int| 0 <= i < after.flagged.len() ==> #[trigger] after.flagged[i] < n);
        assert forall|x: int| 0 <= x < n implies #[trigger] settled(after, ends, edges, x) by {
            assert(settled(s, ends, edges, x));
        }
    }
}

/// Looking at the edges that leave a node keeps the state sound.
proof fn lemma_relax_all_sound(
    s: SearchState,
    n: nat,
    ends: Seq<(usize, usize)>,
    edges: Seq<DirectedEdge>,
    u: usize,
    outs: Seq<(usize, usize)>,
)
    requires
        sound(s, n, ends, edges),
        edges_fit(n, ends, edges),
        single_edged(ends),
        u < n,
        forall|i: int|
            0 <= i < outs.len() ==> (#[trigger] outs[i]).0 < ends.len() && ends[outs[i].0 as int]
                == (u, outs[i].1),
    ensures
        sound(relax_all(s, n, edges, u, outs), n, ends, edges),
    decreases outs.len(),
{
    if outs.len() > 0 {
        assert(outs[0].0 < ends.len() && ends[outs[0].0 as int] == (u, outs[0].1));
        lemma_relax_edge_sound(s, n, ends, edges, u, outs[0]);
        let rest = outs.drop_first();
        assert forall|i: int| 0 <= i < rest.len() implies (#[trigger] rest[i]).0 < ends.len()
            && ends[rest[i].0 as int] == (u, rest[i].1) by {
            assert(rest[i] == outs[i + 1]);
        }
        lemma_relax_all_sound(relax_edge(s, n, edges, u, outs[0]), n, ends, edges, u, rest);
    }
}

/// Every state of the search is sound.
pub proof fn lemma_search_is_sound(
    n: nat,
    source: usize,
    ends: Seq<(usize, usize)>,
    edges: Seq<DirectedEdge>,
    k: nat,
)
    requires
        edges_fit(n, ends, edges),
        single_edged(ends),
        source < n,
    ensures
        sound(state_after(n, source, ends, edges, k), n, ends, edges),
    decreases k,
{
    if k == 0 {
        let s = initial_state(n, source);
        assert forall|walk: Seq<usize>| #[trigger] is_cycle(s.pred, walk) implies walk_weight(
            ends,
            edges,
            walk,
        ) < 0 by {
            assert(steps_along(s.pred, walk, 0));
        }
        assert forall|v: int| 0 <= v < n implies #[trigger] settled(s, ends, edges, v) by {}
    } else {
        lemma_search_is_sound(n, source, ends, edges, (k - 1) as nat);
        let s = state_after(n, source, ends, edges, (k - 1) as nat);
        if s.queue.len() > 0 {
            let u = s.queue[0];
            assert(u < n);
            let popped = SearchState {
                queue: s.queue.drop_first(),
                in_queue: s.in_queue.update(u as int, false),
                ..s
            };
            assert(sound(popped, n, ends, edges)) by {
                assert forall|i: int| 0 <= i < popped.queue.len() implies #[trigger] popped.queue[i]
                    < n by {
                    assert(popped.queue[i] == s.queue[i + 1]);
                }
                assert forall|v: int| 0 <= v < n implies #[trigger] settled(
                    popped,
                    ends,
                    edges,
                    v,
                ) by {
                    assert(settled(s, ends, edges, v));
                }
            }
            if s.count[u as int] > n {
                let flagged = SearchState {
                    flagged: crate::search::insert_once(s.flagged, u),
                    ..popped
                };
                assert(forall|i: int|
                    0 <= i < flagged.flagged.len() ==> #[trigger] flagged.flagged[i] < n) by {
                    if flagged.flagged != s.flagged {
                        assert(flagged.flagged == s.flagged.push(u));
                    }
                }
                assert forall|v: int| 0 <= v < n implies #[trigger] settled(
                    flagged,
                    ends,
                    edges,
                    v,
                ) by {
                    assert(settled(popped, ends, edges, v));
                }
            } else {
                lemma_out_list(ends, u);
                lemma_relax_all_sound(popped, n, ends, edges, u, out_list(ends, u));
            }
        }
    }
}

/// The state in which the search comes to rest is sound: every cycle among its
/// predecessors weighs less than nothing.
pub proof fn lemma_final_state_is_sound(
    n: nat,
    source: usize,
    ends: Seq<(usize, usize)>,
    edges: Seq<DirectedEdge>,
)
    requires
        edges_fit(n, ends, edges),
        single_edged(ends),
        source < n,
    ensures
        sound(final_state(n, source, ends, edges), n, ends, edges),
{
    let k = choose|k: nat| crate::search::at_rest(n, source, ends, edges, k);
    lemma_search_is_sound(n, source, ends, edges, k);
}

/// The node at the place `i` of the walk has the node at the next place before it.
pub open spec fn steps_back(pred: Seq<Option<usize>>, path: Seq<usize>, i: int) -> bool {
    path[i] < pred.len() && pred[path[i] as int] == Some(path[i + 1])
}

/// Every node before a node is a node.
pub open spec fn within_nodes(pred: Seq<Option<usize>>) -> bool {
    forall|v: int| 0 <= v < pred.len() ==> ((#[trigger] pred[v]) matches Some(p) ==> p < pred.len())
}

/// The first place of a number that the walk holds is a place of the walk, and the
/// number stands there.
pub proof fn lemma_first_position_found(path: Seq<usize>, x: usize)
    requires
        path.contains(x),
    ensures
        0 <= first_position(path, x) < path.len(),
        path[first_position(path, x)] == x,
    decreases path.len(),
{
    let i = choose|i: int| 0 <= i < path.len() && path[i] == x;
    if path[0] != x {
        let rest = path.drop_first();
        assert(rest[i - 1] == x);
        lemma_first_position_found(rest, x);
        assert(rest[first_position(rest, x)] == path[first_position(rest, x) + 1]);
    }
}

/// The cycle that the walk back over the predecessors gives is a cycle among them.
pub proof fn lemma_traced_cycle_is_cycle(
    pred: Seq<Option<usize>>,
    path: Seq<usize>,
    current: usize,
    max_hops: nat,
)
    requires
        within_nodes(pred),
        current < pred.len(),
        forall|i: int| 0 <= i < path.len() - 1 ==> #[trigger] steps_back(pred, path, i),
        path.len() > 0 ==> path.last() < pred.len() && pred[path.last() as int] == Some(current),
    ensures
        traced_cycle(pred, path, current, max_hops) matches Some(cycle) ==> is_cycle(pred, cycle),
    decreases 2 * max_hops + 1 - path.len(),
{
    if path.contains(current) {
        lemma_first_position_found(path, current);
        let place = first_position(path, current);
        let raw = path.skip(place).push(current);
        let cycle = reversed(raw);
        let len = raw.len() as int;
        assert forall|i: int| 0 <= i < cycle.len() - 1 implies #[trigger] steps_along(
            pred,
            cycle,
            i,
        ) by {
            let j = len - 2 - i;
            assert(cycle[i + 1] == raw[j]);
            assert(cycle[i] == raw[j + 1]);
            assert(raw[j] == path[place + j]);
            if place + j + 1 < path.len() {
                assert(steps_back(pred, path, place + j));
                assert(raw[j + 1] == path[place + j + 1]);
            } else {
                assert(path[place + j] == path.last());
                assert(raw[j + 1] == current);
            }
        }
        assert(cycle.first() == raw[len - 1]);
        assert(cycle.last() == raw[0]);
    } else {
        match pred[current as int] {
            None => {},
            Some(before) => {
                if path.len() + 1 <= 2 * max_hops {
                    let longer = path.push(current);
                    assert forall|i: int| 0 <= i < longer.len() - 1 implies #[trigger] steps_back(
                        pred,
                        longer,
                        i,
                    ) by {
                        if i < path.len() - 1 {
                            assert(steps_back(pred, path, i));
                        }
                    }
                    lemma_traced_cycle_is_cycle(pred, longer, before, max_hops);
                }
            },
        }
    }
}

/// A cycle among the predecessors that is turned to start and end at one of its nodes
/// is a cycle among the predecessors.
pub proof fn lemma_rotated_is_cycle(pred: Seq<Option<usize>>, cycle: Seq<usize>, base: usize)
    requires
        is_cycle(pred, cycle),
        cycle.contains(base),
    ensures
        is_cycle(pred, rotated(cycle, base)),
{
    let round = cycle.drop_last();
    let count = round.len() as int;
    assert(round.contains(base)) by {
        let i = choose|i: int| 0 <= i < cycle.len() && cycle[i] == base;
        if i < count {
            assert(round[i] == base);
        } else {
            assert(round[0] == base);
        }
    }
    lemma_first_position_found(round, base);
    let place = first_position(round, base);
    let turned = rotated(cycle, base);
    assert(turned.len() == count + 1);
    assert forall|i: int| 0 <= i < turned.len() - 1 implies #[trigger] steps_along(
        pred,
        turned,
        i,
    ) by {
        // the place in the cycle of the node at the place `i` of the turned cycle
        let at = if i < count - place {
            place + i
        } else {
            i - (count - place)
        };
        assert(turned[i] == cycle[at]);
        assert(steps_along(pred, cycle, at));
        if i + 1 < count - place {
            assert(turned[i + 1] == cycle[at + 1]);
        } else if i + 1 < count {
            assert(turned[i + 1] == round[i + 1 - (count - place)]);
            if at + 1 == count {
                assert(cycle[at + 1] == cycle[0]);
            }
        } else {
            assert(turned[i + 1] == base);
            assert(round[place] == base);
        }
    }
}

/// What the closed walk at the base is made of: where the base lies on the cycle that
/// was found, the walk is this cycle, a cycle among the predecessors; else the walk
/// without its first and its last node is.
pub proof fn lemma_anchored_cycle_is_cycle(
    pred: Seq<Option<usize>>,
    ends: Seq<(usize, usize)>,
    start: usize,
    base: usize,
    max_hops: nat,
)
    requires
        within_nodes(pred),
        start < pred.len(),
    ensures
        anchored_cycle(pred, ends, start, base, max_hops) matches Some(walk) ==> (
        traced_cycle(pred, Seq::empty(), start, max_hops) matches Some(cycle) && is_cycle(
            pred,
            cycle,
        ) && if cycle.contains(base) {
            walk == rotated(cycle, base) && is_cycle(pred, walk)
        } else {
            walk.subrange(1, walk.len() - 1) == cycle
        }),
{
    lemma_traced_cycle_is_cycle(pred, Seq::empty(), start, max_hops);
    match traced_cycle(pred, Seq::empty(), start, max_hops) {
        Some(cycle) => {
            if cycle.contains(base) {
                lemma_rotated_is_cycle(pred, cycle, base);
            } else {
                match spliced(ends, cycle, base, max_hops) {
                    Some(walk) => {
                        assert(walk.subrange(1, walk.len() - 1) =~= cycle);
                    },
                    None => {},
                }
            }
        },
        None => {},
    }
}

/// The edges of a well-formed graph fit its nodes.
pub proof fn lemma_graph_edges_fit(graph: TokenGraph)
    requires
        graph.wf(),
    ensures
        edges_fit(graph.nodes().len(), graph.ends(), graph.edges()),
{
    assert forall|e: int| 0 <= e < graph.edges().len() implies graph.ends()[e].0
        < graph.nodes().len() && graph.ends()[e].1 < graph.nodes().len() && weight_bounded(
        graph.edges()[e].weight,
    ) by {
        assert(edge_fits(graph.nodes(), graph.edges()[e], graph.ends()[e]));
    }
}

/// Every hop of the walk has a finite weight.
pub open spec fn all_finite(
    ends: Seq<(usize, usize)>,
    edges: Seq<DirectedEdge>,
    walk: Seq<usize>,
) -> bool {
    forall|i: int|
        0 <= i < walk.len() - 1 ==> (#[trigger] hop_weight(ends, edges, walk[i], walk[i + 1]))
            is Some
}

/// A walk over nodes weighs what its route weighs. Where every hop of the walk has a
/// finite weight and every pool charges the same fee, the route of the walk has
/// reserves for every hop, all above zero, and the weights that these reserves give
/// add up to the weight of the walk.
pub proof fn lemma_route_weighs_as_walk(graph: TokenGraph, walk: Seq<usize>, fee: u64)
    requires
        graph.wf(),
        graph.charges(fee),
        forall|i: int| 0 <= i < walk.len() ==> #[trigger] walk[i] < graph.nodes().len(),
        all_finite(graph.ends(), graph.edges(), walk),
    ensures
        hop_reserves(graph, walk_tokens(graph.nodes(), walk)) matches Some(hops) && all_funded(
            hops,
        ) && hops.len() + 1 == (if walk.len() == 0 {
            1
        } else {
            walk.len()
        }) && weight_sum(hops, fee as nat) == walk_weight(graph.ends(), graph.edges(), walk),
    decreases walk.len(),
{
    let nodes = graph.nodes();
    let ends = graph.ends();
    let edges = graph.edges();
    let tokens = walk_tokens(nodes, walk);
    if walk.len() > 1 {
        let front = walk.drop_last();
        assert forall|i: int| 0 <= i < front.len() - 1 implies (#[trigger] hop_weight(
            ends,
            edges,
            front[i],
            front[i + 1],
        )) is Some by {
            assert(hop_weight(ends, edges, walk[i], walk[i + 1]) is Some);
        }
        lemma_route_weighs_as_walk(graph, front, fee);
        assert(tokens.drop_last() =~= walk_tokens(nodes, front));
        let before = hop_reserves(graph, tokens.drop_last()).unwrap();
        let last = walk.len() - 2;
        let (u, v) = (walk[last], walk[last + 1]);
        assert(tokens[tokens.len() - 2] == nodes[u as int].token);
        assert(tokens.last() == nodes[v as int].token);
        let (a, b) = (nodes[u as int].token, nodes[v as int].token);
        lemma_node_index_unique(nodes, a, u as int);
        lemma_node_index_unique(nodes, b, v as int);
        assert(hop_weight(ends, edges, u, v) is Some);
        lemma_newest_edge(ends, u, v);
        let e = newest_edge(ends, u, v).unwrap();
        let edge = edges[e as int];
        assert(edge_fits(nodes, edge, ends[e as int]));
        let pool = edge.original_pool;
        assert(graph.pool_for(a, b) == Some(pool));
        let sides = oriented(pool, a);
        assert(edge.weight == direction_weight(sides.0 as nat, sides.1 as nat, fee as nat));
        assert(edge.weight is Finite);
        assert(crate::weights::rate_is_tradable(sides.0 as nat, sides.1 as nat, fee as nat));
        let kept = crate::math::keep_rate(fee as nat);
        assert(kept > 0) by (nonlinear_arith)
            requires
                sides.1 * kept * 10_000_000_000 > sides.0 * 1_000_000,
                sides.0 >= 0,
                sides.1 >= 0,
                kept >= 0,
        ;
        assert(sides.0 >= 1 && sides.1 >= 1 && fee < crate::math::SCALE);
        lemma_weight_within_limit(sides.0 as nat, sides.1 as nat, fee as nat);
        assert(hop_value(ends, edges, u, v) == to_micro_nat(
            neg_log2_rate(sides.0 as nat, sides.1 as nat, fee as nat),
        ));
        let hops = before.push(sides);
        assert(hop_reserves(graph, tokens) == Some(hops));
        assert(hops.drop_last() =~= before);
        assert forall|i: int| 0 <= i < hops.len() implies (#[trigger] hops[i]).0 >= 1 && hops[i].1
            >= 1 by {
            if i < before.len() {
                assert(hops[i] == before[i]);
            }
        }
    }
}

/// The nodes before the nodes of a sound state are nodes, and the hops of a cycle
/// among them have finite weights.
proof fn lemma_cycle_is_finite(
    s: SearchState,
    n: nat,
    ends: Seq<(usize, usize)>,
    edges: Seq<DirectedEdge>,
    walk: Seq<usize>,
)
    requires
        sound(s, n, ends, edges),
        is_cycle(s.pred, walk),
    ensures
        all_finite(ends, edges, walk),
        forall|i: int| 0 <= i < walk.len() ==> #[trigger] walk[i] < n,
{
    assert forall|i: int| 0 <= i < walk.len() - 1 implies (#[trigger] hop_weight(
        ends,
        edges,
        walk[i],
        walk[i + 1],
    )) is Some by {
        assert(steps_along(s.pred, walk, i));
        assert(settled(s, ends, edges, walk[i + 1] as int));
    }
    assert forall|i: int| 0 <= i < walk.len() implies #[trigger] walk[i] < n by {
        if i >= 1 {
            assert(steps_along(s.pred, walk, i - 1));
        } else {
            assert(steps_along(s.pred, walk, walk.len() - 2));
            assert(walk[0] == walk[walk.len() - 1]);
        }
    }
}

/// The walk weighs less than nothing, and so does its route: the route has reserves
/// above zero for every hop of the walk, and the weights that these reserves give at
/// the fee `fee` add up to the weight of the walk.
pub open spec fn weighs_less_than_nothing(graph: TokenGraph, walk: Seq<usize>, fee: u64) -> bool {
    &&& walk_weight(graph.ends(), graph.edges(), walk) < 0
    &&& hop_reserves(graph, walk_tokens(graph.nodes(), walk)) is Some
    &&& ({
        let hops = hop_reserves(graph, walk_tokens(graph.nodes(), walk)).unwrap();
        &&& all_funded(hops)
        &&& hops.len() + 1 == walk.len()
        &&& weight_sum(hops, fee as nat) == walk_weight(graph.ends(), graph.edges(), walk)
        &&& weight_sum(hops, fee as nat) < 0
    })
}

/// A closed walk along the predecessors of the search weighs less than nothing, and
/// so does its route. This holds in a well-formed graph with at most one pool for
/// each pair of tokens, whose pools all charge `fee`, of every walk that goes along
/// the predecessors of the state in which the search from `source` comes to rest and
/// that ends where it starts.
pub proof fn lemma_walk_along_predecessors_is_negative(
    graph: TokenGraph,
    fee: u64,
    source: usize,
    walk: Seq<usize>,
)
    requires
        graph.wf(),
        single_edged(graph.ends()),
        graph.charges(fee),
        source < graph.nodes().len(),
        is_cycle(
            final_state(graph.nodes().len(), source, graph.ends(), graph.edges()).pred,
            walk,
        ),
    ensures
        weighs_less_than_nothing(graph, walk, fee),
{
    let n = graph.nodes().len();
    let ends = graph.ends();
    let edges = graph.edges();
    lemma_graph_edges_fit(graph);
    lemma_final_state_is_sound(n, source, ends, edges);
    let rest = final_state(n, source, ends, edges);
    lemma_cycle_is_finite(rest, n, ends, edges, walk);
    lemma_route_weighs_as_walk(graph, walk, fee);
}

/// The walk without its first and its last node.
pub open spec fn inner_walk(walk: Seq<usize>) -> Seq<usize> {
    walk.subrange(1, walk.len() - 1)
}

/// Every walk that the flagged nodes lead to holds a cycle among the predecessors:
/// the walk itself, where the base lies on the cycle that was found, else the walk
/// without its first and its last node, to which the base was joined.
pub proof fn lemma_kept_walks_hold_cycles(
    pred: Seq<Option<usize>>,
    ends: Seq<(usize, usize)>,
    flagged: Seq<usize>,
    base: usize,
    max_hops: nat,
)
    requires
        within_nodes(pred),
        forall|i: int| 0 <= i < flagged.len() ==> #[trigger] flagged[i] < pred.len(),
    ensures
        forall|i: int|
            0 <= i < crate::cycles::kept_walks(pred, ends, flagged, base, max_hops).len() ==> {
                let walk = #[trigger] crate::cycles::kept_walks(
                    pred,
                    ends,
                    flagged,
                    base,
                    max_hops,
                )[i];
                is_cycle(pred, walk) || is_cycle(pred, inner_walk(walk))
            },
    decreases flagged.len(),
{
    if flagged.len() > 0 {
        let front = flagged.drop_last();
        assert forall|i: int| 0 <= i < front.len() implies #[trigger] front[i] < pred.len() by {
            assert(front[i] == flagged[i]);
        }
        lemma_kept_walks_hold_cycles(pred, ends, front, base, max_hops);
        assert(flagged[flagged.len() - 1] < pred.len());
        lemma_anchored_cycle_is_cycle(pred, ends, flagged.last(), base, max_hops);
        let before = crate::cycles::kept_walks(pred, ends, front, base, max_hops);
        let all = crate::cycles::kept_walks(pred, ends, flagged, base, max_hops);
        assert forall|i: int| 0 <= i < all.len() implies {
            let walk = #[trigger] all[i];
            is_cycle(pred, walk) || is_cycle(pred, inner_walk(walk))
        } by {
            if i < before.len() {
                assert(all[i] == before[i]);
            }
        }
    }
}

/// A route that the search finds on a cycle through the base token weighs less than
/// nothing along its own hops. In a well-formed graph with at most one pool for each
/// pair of tokens, whose pools all charge `fee`: where the walk back from the node
/// `start` over the predecessors of the search finds a cycle that the base token
/// lies on, the closed walk at the base token that is made of it is this cycle turned
/// to the base token. It runs with the edges of the graph, the weights of its hops add
/// up to less than nothing, and its route has for every hop reserves above zero whose
/// weights add up to the same. Where they add up to less than minus the number of
/// hops, the rates along the route multiply to more than one
/// (`lemma_negative_weight_means_gain`).
pub proof fn lemma_cycle_route_is_negative(
    graph: TokenGraph,
    max_hops: nat,
    fee: u64,
    source: usize,
    start: usize,
)
    requires
        graph.wf(),
        single_edged(graph.ends()),
        graph.charges(fee),
        node_index(graph.nodes(), graph.base()) == Some(source),
        start < graph.nodes().len(),
        traced_cycle(
            final_state(graph.nodes().len(), source, graph.ends(), graph.edges()).pred,
            Seq::empty(),
            start,
            max_hops,
        ) matches Some(cycle) && cycle.contains(source),
    ensures
        ({
            let rest = final_state(graph.nodes().len(), source, graph.ends(), graph.edges());
            let found = anchored_cycle(rest.pred, graph.ends(), start, source, max_hops);
            &&& found is Some
            &&& is_cycle(rest.pred, found.unwrap())
            &&& weighs_less_than_nothing(graph, found.unwrap(), fee)
        }),
{
    let n = graph.nodes().len();
    let ends = graph.ends();
    let edges = graph.edges();
    crate::graph::lemma_node_index(graph.nodes(), graph.base());
    lemma_graph_edges_fit(graph);
    lemma_final_state_is_sound(n, source, ends, edges);
    let rest = final_state(n, source, ends, edges);
    assert(within_nodes(rest.pred)) by {
        assert forall|v: int| 0 <= v < rest.pred.len() implies ((#[trigger] rest.pred[v]) matches Some(
            p,
        ) ==> p < rest.pred.len()) by {
            assert(settled(rest, ends, edges, v));
        }
    }
    lemma_anchored_cycle_is_cycle(rest.pred, ends, start, source, max_hops);
    let walk = anchored_cycle(rest.pred, ends, start, source, max_hops).unwrap();
    lemma_walk_along_predecessors_is_negative(graph, fee, source, walk);
}

/// The closed walks at the base token that `find_arbitrage_cycles` makes routes of:
/// the walks that the flagged nodes of the search lead to and that are kept.
pub open spec fn cycle_walks(graph: TokenGraph, max_hops: nat) -> Seq<Seq<usize>> {
    match node_index(graph.nodes(), graph.base()) {
        Some(source) => {
            let rest = final_state(graph.nodes().len(), source, graph.ends(), graph.edges());
            crate::cycles::kept_walks(rest.pred, graph.ends(), rest.flagged, source, max_hops)
        },
        None => Seq::empty(),
    }
}

/// What the routes of the search weigh. In a well-formed graph with at most one pool
/// for each pair of tokens, whose pools all charge `fee`, every closed walk that the
/// search makes a route of holds a cycle that weighs less than nothing, and whose
/// route does: the walk itself, where the base token lies on the cycle that was
/// found, else the walk without its first and its last node. The routes of
/// `find_arbitrage_cycles` are the routes of these walks, in their order.
pub proof fn lemma_cycle_walks_are_negative(graph: TokenGraph, max_hops: nat, fee: u64)
    requires
        graph.wf(),
        single_edged(graph.ends()),
        graph.charges(fee),
    ensures
        graph.cycles(max_hops) == crate::cycles::found_routes(
            graph.nodes(),
            graph.ends(),
            graph.edges(),
            cycle_walks(graph, max_hops),
        ),
        forall|i: int|
            0 <= i < cycle_walks(graph, max_hops).len() ==> {
                let walk = #[trigger] cycle_walks(graph, max_hops)[i];
                weighs_less_than_nothing(graph, walk, fee) || weighs_less_than_nothing(
                    graph,
                    inner_walk(walk),
                    fee,
                )
            },
{
    let n = graph.nodes().len();
    let ends = graph.ends();
    let edges = graph.edges();
    crate::graph::lemma_node_index(graph.nodes(), graph.base());
    match node_index(graph.nodes(), graph.base()) {
        Some(source) => {
            lemma_graph_edges_fit(graph);
            lemma_final_state_is_sound(n, source, ends, edges);
            let rest = final_state(n, source, ends, edges);
            assert(within_nodes(rest.pred)) by {
                assert forall|v: int| 0 <= v < rest.pred.len() implies ((
                #[trigger] rest.pred[v]) matches Some(p) ==> p < rest.pred.len()) by {
                    assert(settled(rest, ends, edges, v));
                }
            }
            lemma_kept_walks_hold_cycles(rest.pred, ends, rest.flagged, source, max_hops);
            let walks = cycle_walks(graph, max_hops);
            assert forall|i: int| 0 <= i < walks.len() implies {
                let walk = #[trigger] walks[i];
                weighs_less_than_nothing(graph, walk, fee) || weighs_less_than_nothing(
                    graph,
                    inner_walk(walk),
                    fee,
                )
            } by {
                let walk = walks[i];
                if is_cycle(rest.pred, walk) {
                    lemma_walk_along_predecessors_is_negative(graph, fee, source, walk);
                } else {
                    lemma_walk_along_predecessors_is_negative(
                        graph,
                        fee,
                        source,
                        inner_walk(walk),
                    );
                }
            }
        },
        None => {},
    }
}

} // verus!
