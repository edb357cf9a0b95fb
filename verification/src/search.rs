//! Label-correcting shortest-path search from the base token. A node that is queued
//! more often than the graph has nodes lies on, or behind, a cycle of negative total
//! weight: a round trip whose rates multiply to more than one.

use crate::graph::{weight_bounded, DirectedEdge};
use crate::topology::{graph_edges, graph_node_count, out_list, topology_out_edges, INDEX_LIMIT};
use crate::weights::{Weight, WEIGHT_LIMIT};
use petgraph::graph::Graph;
use petgraph::Directed;
use std::collections::VecDeque;
use vstd::prelude::*;

verus! {

/// What the search knows at one moment.
pub struct SearchState {
    /// Least total weight found so far of a walk from the source, by node; `None`
    /// where no walk has been found.
    pub dist: Seq<Option<int>>,
    /// The node before, on the walk that gave `dist`.
    pub pred: Seq<Option<usize>>,
    /// Whether the node waits in the queue.
    pub in_queue: Seq<bool>,
    /// How often the node has been queued; it stops counting one above the number of nodes.
    pub count: Seq<u64>,
    /// The nodes that wait to be looked at, first in first out.
    pub queue: Seq<usize>,
    /// The nodes that were queued more often than the graph has nodes, in the order in
    /// which this was seen.
    pub flagged: Seq<usize>,
}

/// `items` with `x` at the end, unless it holds `x` already.
pub open spec fn insert_once(items: Seq<usize>, x: usize) -> Seq<usize> {
    if items.contains(x) {
        items
    } else {
        items.push(x)
    }
}

/// The state before the first step: only the source is reached, at distance zero, and
/// it waits in the queue.
pub open spec fn initial_state(n: nat, source: usize) -> SearchState {
    SearchState {
        dist: Seq::new(n, |v: int| if v == source { Some(0int) } else { None }),
        pred: Seq::new(n, |v: int| None),
        in_queue: Seq::new(n, |v: int| v == source),
        count: Seq::new(n, |v: int| if v == source { 1u64 } else { 0u64 }),
        queue: seq![source],
        flagged: Seq::empty(),
    }
}

/// Looks at one edge that leaves `u`, given as its index and its target `v`: where the
/// walk to `u` and on over the edge is strictly lighter than what is known of `v`, `v`
/// takes the new distance and `u` as the node before, and is queued unless it waits
/// already; a node queued more than `n` times is flagged.
pub open spec fn relax_edge(
    s: SearchState,
    n: nat,
    edges: Seq<DirectedEdge>,
    u: usize,
    edge: (usize, usize),
) -> SearchState {
    let v = edge.1 as int;
    match (s.dist[u as int], edges[edge.0 as int].weight) {
        (Some(du), Weight::Finite(w)) => {
            let candidate = du + w;
            if s.dist[v] is None || candidate < s.dist[v].unwrap() {
                let dist = s.dist.update(v, Some(candidate));
                let pred = s.pred.update(v, Some(u));
                if s.in_queue[v] {
                    SearchState { dist, pred, ..s }
                } else {
                    let count = if s.count[v] <= n {
                        (s.count[v] + 1) as u64
                    } else {
                        s.count[v]
                    };
                    SearchState {
                        dist,
                        pred,
                        in_queue: s.in_queue.update(v, true),
                        count: s.count.update(v, count),
                        queue: s.queue.push(edge.1),
                        flagged: if count > n {
                            insert_once(s.flagged, edge.1)
                        } else {
                            s.flagged
                        },
                    }
                }
            } else {
                s
            }
        },
        _ => s,
    }
}

/// Looks at the edges `outs` that leave `u`, one after the other.
pub open spec fn relax_all(
    s: SearchState,
    n: nat,
    edges: Seq<DirectedEdge>,
    u: usize,
    outs: Seq<(usize, usize)>,
) -> SearchState
    decreases outs.len(),
{
    if outs.len() == 0 {
        s
    } else {
        relax_all(relax_edge(s, n, edges, u, outs[0]), n, edges, u, outs.drop_first())
    }
}

/// One step of the search: the first node leaves the queue; if it has been queued
/// more than `n` times it is flagged and left alone, else all edges that leave it are
/// looked at, the newest first. With an empty queue nothing changes.
pub open spec fn step(
    s: SearchState,
    n: nat,
    ends: Seq<(usize, usize)>,
    edges: Seq<DirectedEdge>,
) -> SearchState {
    if s.queue.len() == 0 {
        s
    } else {
        let u = s.queue[0];
        let popped = SearchState {
            queue: s.queue.drop_first(),
            in_queue: s.in_queue.update(u as int, false),
            ..s
        };
        if s.count[u as int] > n {
            SearchState { flagged: insert_once(s.flagged, u), ..popped }
        } else {
            relax_all(popped, n, edges, u, out_list(ends, u))
        }
    }
}

/// The state after `k` steps from the initial state.
pub open spec fn state_after(
    n: nat,
    source: usize,
    ends: Seq<(usize, usize)>,
    edges: Seq<DirectedEdge>,
    k: nat,
) -> SearchState
    decreases k,
{
    if k == 0 {
        initial_state(n, source)
    } else {
        step(state_after(n, source, ends, edges, (k - 1) as nat), n, ends, edges)
    }
}

/// The search has come to rest after `k` steps: the queue is empty.
pub open spec fn at_rest(
    n: nat,
    source: usize,
    ends: Seq<(usize, usize)>,
    edges: Seq<DirectedEdge>,
    k: nat,
) -> bool {
    state_after(n, source, ends, edges, k).queue.len() == 0
}

/// The state in which the search comes to rest.
pub open spec fn final_state(
    n: nat,
    source: usize,
    ends: Seq<(usize, usize)>,
    edges: Seq<DirectedEdge>,
) -> SearchState {
    state_after(n, source, ends, edges, choose|k: nat| at_rest(n, source, ends, edges, k))
}

/// Once at rest the search stays as it is.
pub proof fn lemma_rest_is_stable(
    n: nat,
    source: usize,
    ends: Seq<(usize, usize)>,
    edges: Seq<DirectedEdge>,
    k: nat,
    later: nat,
)
    requires
        at_rest(n, source, ends, edges, k),
        k <= later,
    ensures
        state_after(n, source, ends, edges, later) == state_after(n, source, ends, edges, k),
    decreases later,
{
    if later > k {
        lemma_rest_is_stable(n, source, ends, edges, k, (later - 1) as nat);
    }
}

/// Whatever the number of steps after which the search is at rest, the state is the
/// final state.
pub proof fn lemma_rest_is_final(
    n: nat,
    source: usize,
    ends: Seq<(usize, usize)>,
    edges: Seq<DirectedEdge>,
    k: nat,
)
    requires
        at_rest(n, source, ends, edges, k),
    ensures
        state_after(n, source, ends, edges, k) == final_state(n, source, ends, edges),
{
    let chosen = choose|j: nat| at_rest(n, source, ends, edges, j);
    if chosen <= k {
        lemma_rest_is_stable(n, source, ends, edges, chosen, k);
    } else {
        lemma_rest_is_stable(n, source, ends, edges, k, chosen);
    }
}

/// Sum of the numbers of `items`.
pub open spec fn total(items: Seq<int>) -> int
    decreases items.len(),
{
    if items.len() == 0 {
        0
    } else {
        total(items.drop_last()) + items.last()
    }
}

proof fn lemma_total_update(items: Seq<int>, i: int, x: int)
    requires
        0 <= i < items.len(),
    ensures
        total(items.update(i, x)) == total(items) - items[i] + x,
    decreases items.len(),
{
    let changed = items.update(i, x);
    if i == items.len() - 1 {
        assert(changed.drop_last() == items.drop_last());
    } else {
        assert(changed.drop_last() == items.drop_last().update(i, x));
        lemma_total_update(items.drop_last(), i, x);
    }
}

proof fn lemma_total_bounds(items: Seq<int>, low: int, high: int)
    requires
        forall|i: int| 0 <= i < items.len() ==> low <= #[trigger] items[i] && items[i] <= high,
    ensures
        items.len() * low <= total(items) <= items.len() * high,
    decreases items.len(),
{
    if items.len() > 0 {
        lemma_total_bounds(items.drop_last(), low, high);
        assert((items.len() - 1) * low + low == items.len() * low) by (nonlinear_arith);
        assert((items.len() - 1) * high + high == items.len() * high) by (nonlinear_arith);
    }
}

/// How often a node can still leave the queue and have its edges looked at: a node
/// does so only while it has been queued at most `n` times.
pub open spec fn visits_left(count: u64, queued: bool, n: nat) -> int {
    if count > n {
        0
    } else if queued {
        n + 1 - count
    } else {
        n - count
    }
}

/// The visits that are left, by node.
pub open spec fn visits(s: SearchState, n: nat) -> Seq<int> {
    Seq::new(n, |v: int| visits_left(s.count[v], s.in_queue[v], n))
}

/// The shape that every state of the search has on a graph of `n` nodes.
pub open spec fn well_formed(s: SearchState, n: nat) -> bool {
    &&& s.dist.len() == n
    &&& s.pred.len() == n
    &&& s.in_queue.len() == n
    &&& s.count.len() == n
    &&& forall|i: int| 0 <= i < s.queue.len() ==> s.queue[i] < n && s.in_queue[s.queue[i] as int]
    &&& forall|i: int, j: int| 0 <= i < j < s.queue.len() ==> s.queue[i] != s.queue[j]
    &&& forall|v: int| 0 <= v < n ==> s.count[v] <= n + 1
    &&& forall|v: int| 0 <= v < n ==> ((#[trigger] s.pred[v]) matches Some(p) ==> p < n)
    &&& forall|i: int| 0 <= i < s.flagged.len() ==> s.flagged[i] < n
}

/// No distance is further from zero than `relaxed` edges of the heaviest weight.
pub open spec fn within(s: SearchState, relaxed: nat) -> bool {
    forall|v: int|
        0 <= v < s.dist.len() ==> ((#[trigger] s.dist[v]) matches Some(d) ==> -(relaxed * WEIGHT_LIMIT) <= d
            <= relaxed * WEIGHT_LIMIT)
}

/// The edges fit a graph of `n` nodes: one pair of ends for each, both ends nodes of
/// the graph, and every weight within the limit.
pub open spec fn edges_fit(n: nat, ends: Seq<(usize, usize)>, edges: Seq<DirectedEdge>) -> bool {
    &&& ends.len() == edges.len()
    &&& edges.len() <= INDEX_LIMIT
    &&& n <= INDEX_LIMIT
    &&& forall|e: int| 0 <= e < ends.len() ==> ends[e].0 < n && ends[e].1 < n
    &&& forall|e: int| 0 <= e < edges.len() ==> weight_bounded(edges[e].weight)
}

/// Every entry of `out_list` is an edge that leaves `a`, and there are no more of
/// them than edges.
pub proof fn lemma_out_list(ends: Seq<(usize, usize)>, a: usize)
    requires
        ends.len() <= usize::MAX,
    ensures
        out_list(ends, a).len() <= ends.len(),
        forall|i: int|
            0 <= i < out_list(ends, a).len() ==> {
                let entry = #[trigger] out_list(ends, a)[i];
                entry.0 < ends.len() && ends[entry.0 as int] == (a, entry.1)
            },
    decreases ends.len(),
{
    if ends.len() > 0 {
        let front = ends.drop_last();
        lemma_out_list(front, a);
        assert forall|i: int| 0 <= i < out_list(ends, a).len() implies {
            let entry = #[trigger] out_list(ends, a)[i];
            entry.0 < ends.len() && ends[entry.0 as int] == (a, entry.1)
        } by {
            let entry = out_list(ends, a)[i];
            if ends.last().0 == a {
                if i > 0 {
                    assert(entry == out_list(front, a)[i - 1]);
                    assert(front[entry.0 as int] == ends[entry.0 as int]);
                }
            } else {
                assert(entry == out_list(front, a)[i]);
                assert(front[entry.0 as int] == ends[entry.0 as int]);
            }
        }
    }
}

/// Looking at one edge keeps the shape of the state and the visits that are left, and
/// moves no distance further out than one more edge allows.
proof fn lemma_relax_edge(
    s: SearchState,
    n: nat,
    edges: Seq<DirectedEdge>,
    u: usize,
    edge: (usize, usize),
    relaxed: nat,
)
    requires
        well_formed(s, n),
        within(s, relaxed),
        n <= INDEX_LIMIT,
        u < n,
        edge.0 < edges.len(),
        edge.1 < n,
        weight_bounded(edges[edge.0 as int].weight),
    ensures
        well_formed(relax_edge(s, n, edges, u, edge), n),
        within(relax_edge(s, n, edges, u, edge), relaxed + 1),
        visits(relax_edge(s, n, edges, u, edge), n) == visits(s, n),
{
    let after = relax_edge(s, n, edges, u, edge);
    let v = edge.1 as int;
    assert(relaxed * WEIGHT_LIMIT + WEIGHT_LIMIT == (relaxed + 1) * WEIGHT_LIMIT)
        by (nonlinear_arith);
    assert(visits(after, n) =~= visits(s, n));
    if after.queue != s.queue {
        assert(after.queue == s.queue.push(edge.1));
        assert forall|i: int, j: int| 0 <= i < j < after.queue.len() implies after.queue[i]
            != after.queue[j] by {
            if j == s.queue.len() {
                assert(s.in_queue[s.queue[i] as int]);
            }
        }
    }
    if after.flagged != s.flagged {
        assert(after.flagged == s.flagged.push(edge.1));
    }
}

/// A `Vec` of `n` copies of `value`.
fn filled<T: Copy>(value: T, n: usize) -> (items: Vec<T>)
    ensures
        items@ == Seq::new(n as nat, |i: int| value),
{
    let mut items: Vec<T> = Vec::new();
    let mut i: usize = 0;
    while i < n
        invariant
            i <= n,
            items@ == Seq::new(i as nat, |k: int| value),
        decreases n - i,
    {
        items.push(value);
        assert(items@ =~= Seq::new((i + 1) as nat, |k: int| value));
        i = i + 1;
    }
    items
}

/// Appends `x` to `items` unless it is there already.
pub fn push_once(items: &mut Vec<usize>, x: usize)
    ensures
        final(items)@ == insert_once(old(items)@, x),
{
    let mut i: usize = 0;
    while i < items.len()
        invariant
            i <= items@.len(),
            *items == *old(items),
            forall|k: int| 0 <= k < i ==> items@[k] != x,
        decreases items@.len() - i,
    {
        if items[i] == x {
            return ;
        }
        i = i + 1;
    }
    items.push(x);
}

/// An executable distance stands for a distance of the state.
pub open spec fn same_distance(held: Option<i128>, known: Option<int>) -> bool {
    match held {
        Some(d) => known == Some(d as int),
        None => known is None,
    }
}

/// Runs the search from `source` until the queue is empty, and returns the nodes that
/// were flagged together with the node before each node.
pub(crate) fn spfa_detect_negative_cycles(
    graph: &Graph<(), (), Directed, u32>,
    edges: &Vec<DirectedEdge>,
    node_count: usize,
    source: usize,
) -> (found: (Vec<usize>, Vec<Option<usize>>))
    requires
        node_count == graph_node_count(*graph),
        edges_fit(node_count as nat, graph_edges(*graph), edges@),
        source < node_count,
    ensures
        found.0@ == final_state(node_count as nat, source, graph_edges(*graph), edges@).flagged,
        found.1@ == final_state(node_count as nat, source, graph_edges(*graph), edges@).pred,
        found.1@.len() == node_count,
        forall|i: int| 0 <= i < found.0@.len() ==> found.0@[i] < node_count,
        forall|v: int|
            0 <= v < node_count ==> ((#[trigger] found.1@[v]) matches Some(p) ==> p < node_count),
{
    let ghost n = node_count as nat;
    let ghost ends = graph_edges(*graph);
    let mut dist: Vec<Option<i128>> = filled(None, node_count);
    let mut predecessor: Vec<Option<usize>> = filled(None, node_count);
    let mut in_queue: Vec<bool> = filled(false, node_count);
    let mut queue_count: Vec<u64> = filled(0, node_count);
    dist.set(source, Some(0));
    let mut queue: VecDeque<usize> = VecDeque::new();
    queue.push_back(source);
    in_queue.set(source, true);
    queue_count.set(source, 1);
    let mut negative_cycle_nodes: Vec<usize> = Vec::new();

    let ghost mut s = initial_state(n, source);
    let ghost mut steps: nat = 0;
    let ghost mut relaxed: nat = 0;
    proof {
        assert(s.pred =~= predecessor@);
        assert(s.in_queue =~= in_queue@);
        assert(s.count =~= queue_count@);
        assert(s.queue =~= queue@);
        assert(s.flagged =~= negative_cycle_nodes@);
        assert forall|v: int| 0 <= v < n implies visits(s, n)[v] == n by {}
        lemma_total_bounds(visits(s, n), n as int, n as int);
        assert(0 * WEIGHT_LIMIT == 0) by (nonlinear_arith);
    }
    while queue.len() > 0
        invariant
            n == node_count,
            ends == graph_edges(*graph),
            node_count == graph_node_count(*graph),
            edges_fit(n, ends, edges@),
            s == state_after(n, source, ends, edges@, steps),
            well_formed(s, n),
            within(s, relaxed),
            0 <= total(visits(s, n)) <= n * n,
            relaxed <= (n * n - total(visits(s, n))) * edges@.len(),
            s.pred == predecessor@,
            s.in_queue == in_queue@,
            s.count == queue_count@,
            s.queue == queue@,
            s.flagged == negative_cycle_nodes@,
            dist@.len() == n,
            forall|v: int| 0 <= v < n ==> same_distance(#[trigger] dist@[v], s.dist[v]),
        decreases total(visits(s, n)), queue@.len(),
    {
        let ghost before = s;
        let current = queue.pop_front().unwrap();
        in_queue.set(current, false);
        let ghost popped = SearchState {
            queue: before.queue.drop_first(),
            in_queue: before.in_queue.update(current as int, false),
            ..before
        };
        proof {
            assert(before.queue.subrange(1, before.queue.len() as int)
                == before.queue.drop_first());
            assert(before.queue[0] < n && before.in_queue[before.queue[0] as int]);
            assert forall|i: int| 0 <= i < popped.queue.len() implies popped.queue[i] < n
                && popped.in_queue[popped.queue[i] as int] by {
                assert(popped.queue[i] == before.queue[i + 1]);
            }
            assert forall|i: int, j: int| 0 <= i < j < popped.queue.len() implies popped.queue[i]
                != popped.queue[j] by {
                assert(popped.queue[i] == before.queue[i + 1]);
                assert(popped.queue[j] == before.queue[j + 1]);
            }
            assert(visits(popped, n) =~= visits(before, n).update(
                current as int,
                visits_left(before.count[current as int], false, n),
            ));
            lemma_total_update(
                visits(before, n),
                current as int,
                visits_left(before.count[current as int], false, n),
            );
        }
        if queue_count[current] > node_count as u64 {
            push_once(&mut negative_cycle_nodes, current);
            proof {
                s = SearchState { flagged: insert_once(before.flagged, current), ..popped };
                steps = steps + 1;
                assert(visits(s, n) =~= visits(popped, n));
                if s.flagged != before.flagged {
                    assert(s.flagged == before.flagged.push(current));
                }
            }
        } else {
            let outs = topology_out_edges(graph, current);
            let ghost target = relax_all(popped, n, edges@, current, outs@);
            let ghost budget = total(visits(popped, n));
            proof {
                s = popped;
                lemma_out_list(ends, current);
                lemma_total_bounds(visits(popped, n), 0, (n + 1) as int);
                assert(outs@.skip(0) == outs@);
                assert(relaxed <= (n * n - budget - 1) * edges@.len()) by (nonlinear_arith)
                    requires
                        relaxed <= (n * n - (budget + 1)) * edges@.len(),
                ;
            }
            let mut j: usize = 0;
            while j < outs.len()
                invariant
                    j <= outs@.len(),
                    n == node_count,
                    current < n,
                    ends == graph_edges(*graph),
                    edges_fit(n, ends, edges@),
                    outs@ == out_list(ends, current),
                    outs@.len() <= ends.len(),
                    forall|i: int|
                        0 <= i < outs@.len() ==> {
                            let entry = #[trigger] outs@[i];
                            entry.0 < ends.len() && ends[entry.0 as int] == (current, entry.1)
                        },
                    relax_all(s, n, edges@, current, outs@.skip(j as int)) == target,
                    well_formed(s, n),
                    within(s, relaxed),
                    total(visits(s, n)) == budget,
                    0 <= budget < n * n,
                    relaxed <= (n * n - budget - 1) * edges@.len() + j,
                    s.pred == predecessor@,
                    s.in_queue == in_queue@,
                    s.count == queue_count@,
                    s.queue == queue@,
                    s.flagged == negative_cycle_nodes@,
                    dist@.len() == n,
                    forall|v: int| 0 <= v < n ==> same_distance(#[trigger] dist@[v], s.dist[v]),
                decreases outs@.len() - j,
            {
                let (slot, neighbor) = outs[j];
                let ghost prior = s;
                proof {
                    let entry = outs@[j as int];
                    assert(entry.0 < ends.len() && ends[entry.0 as int] == (current, entry.1));
                    assert(outs@.skip(j as int)[0] == outs@[j as int]);
                    assert(outs@.skip(j as int).drop_first() == outs@.skip(j + 1));
                    lemma_relax_edge(prior, n, edges@, current, (slot, neighbor), relaxed);
                    s = relax_edge(prior, n, edges@, current, (slot, neighbor));
                    lemma_distance_room(n, edges@.len(), budget, relaxed);
                    assert(same_distance(dist@[current as int], prior.dist[current as int]));
                    assert(same_distance(dist@[neighbor as int], prior.dist[neighbor as int]));
                }
                let weight = edges[slot].weight;
                match (dist[current], weight) {
                    (Some(du), Weight::Finite(w)) => {
                        let candidate: i128 = du + (w as i128);
                        let better = match dist[neighbor] {
                            None => true,
                            Some(dv) => candidate < dv,
                        };
                        if better {
                            dist.set(neighbor, Some(candidate));
                            predecessor.set(neighbor, Some(current));
                            if !in_queue[neighbor] {
                                queue.push_back(neighbor);
                                in_queue.set(neighbor, true);
                                if queue_count[neighbor] <= node_count as u64 {
                                    let queued = queue_count[neighbor] + 1;
                                    queue_count.set(neighbor, queued);
                                }
                                if queue_count[neighbor] > node_count as u64 {
                                    push_once(&mut negative_cycle_nodes, neighbor);
                                }
                            }
                        }
                    },
                    _ => {},
                }
                proof {
                    relaxed = relaxed + 1;
                    assert(s.pred =~= predecessor@);
                    assert(s.in_queue =~= in_queue@);
                    assert(s.count =~= queue_count@);
                    assert(s.queue =~= queue@);
                    assert(s.flagged =~= negative_cycle_nodes@);
                }
                j = j + 1;
            }
            proof {
                steps = steps + 1;
                assert(outs@.skip(j as int).len() == 0);
                assert(relaxed <= (n * n - budget) * edges@.len()) by (nonlinear_arith)
                    requires
                        relaxed <= (n * n - budget - 1) * edges@.len() + j,
                        j <= edges@.len(),
                ;
            }
        }
    }
    proof {
        lemma_rest_is_final(n, source, ends, edges@, steps);
    }
    (negative_cycle_nodes, predecessor)
}

/// With at most `INDEX_LIMIT` nodes and edges, the distances that the search can
/// reach are far inside the 128-bit range.
proof fn lemma_distance_room(n: nat, edge_count: nat, budget: int, relaxed: nat)
    requires
        n <= INDEX_LIMIT,
        edge_count <= INDEX_LIMIT,
        0 <= budget,
        relaxed <= (n * n - budget - 1) * edge_count + edge_count,
    ensures
        (relaxed + 1) * WEIGHT_LIMIT < 0x4000_0000_0000_0000_0000_0000_0000_0000,
{
    assert(n * n <= 4_294_967_295 * 4_294_967_295) by (nonlinear_arith)
        requires
            n <= 4_294_967_295,
    ;
    assert((n * n - budget - 1) * edge_count + edge_count <= 4_294_967_295 * 4_294_967_295
        * 4_294_967_295) by (nonlinear_arith)
        requires
            n * n <= 4_294_967_295 * 4_294_967_295,
            0 <= budget,
            edge_count <= 4_294_967_295,
    ;
    assert((relaxed + 1) * 100_000_000 <= (4_294_967_295 * 4_294_967_295 * 4_294_967_295 + 1)
        * 100_000_000) by (nonlinear_arith)
        requires
            relaxed <= 4_294_967_295 * 4_294_967_295 * 4_294_967_295,
    ;
}

} // verus!
