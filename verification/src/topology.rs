//! The directed graph that holds which node has an edge to which, kept in a
//! `petgraph::graph::Graph`. Nodes and edges carry no payload there: both are known by
//! their index, which is the order in which they were added.
//!
//! What is said here of the order of edges holds of a graph that has grown by
//! `add_node` and `add_edge` alone: once an edge is removed, `petgraph` no longer
//! keeps the edges of a node in the order of their indices. The functions of this
//! module remove nothing, they are the crate's only way to a graph, and the graph of
//! a `TokenGraph` is a private field: no other graph reaches them.

use petgraph::graph::Graph;
use petgraph::graph::NodeIndex;
use petgraph::visit::EdgeRef;
use petgraph::Directed;
use vstd::prelude::*;

verus! {

/// `petgraph::graph::Graph`, taken as it is: nothing is known of what a value holds
/// but what `graph_node_count` and `graph_edges` name.
#[verifier::external_type_specification]
#[verifier::external_body]
#[verifier::reject_recursive_types(N)]
#[verifier::reject_recursive_types(E)]
#[verifier::reject_recursive_types(Ty)]
#[verifier::reject_recursive_types(Ix)]
pub struct ExGraph<N, E, Ty, Ix>(Graph<N, E, Ty, Ix>);

/// `petgraph::Directed`, the marker of a graph whose edges have a direction.
#[verifier::external_type_specification]
#[verifier::external_body]
pub struct ExDirected(Directed);

/// Number of nodes that the graph holds.
pub uninterp spec fn graph_node_count(g: Graph<(), (), Directed, u32>) -> nat;

/// Source and target of every edge that the graph holds, by edge index.
pub uninterp spec fn graph_edges(g: Graph<(), (), Directed, u32>) -> Seq<(usize, usize)>;

/// Most nodes, and most edges, that a graph with 32-bit indices takes.
pub const INDEX_LIMIT: usize = 4_294_967_295;

/// The edge from `a` to `b` that was added last, if there is one.
pub open spec fn newest_edge(edges: Seq<(usize, usize)>, a: usize, b: usize) -> Option<usize>
    decreases edges.len(),
{
    if edges.len() == 0 {
        None
    } else if edges.last() == (a, b) {
        Some((edges.len() - 1) as usize)
    } else {
        newest_edge(edges.drop_last(), a, b)
    }
}

/// The edges that leave `a`, the one added last first, each as its index and its target.
pub open spec fn out_list(edges: Seq<(usize, usize)>, a: usize) -> Seq<(usize, usize)>
    decreases edges.len(),
{
    if edges.len() == 0 {
        Seq::empty()
    } else if edges.last().0 == a {
        seq![((edges.len() - 1) as usize, edges.last().1)] + out_list(edges.drop_last(), a)
    } else {
        out_list(edges.drop_last(), a)
    }
}

/// What `newest_edge` finds is an edge from `a` to `b`, and no later edge is one.
pub proof fn lemma_newest_edge(edges: Seq<(usize, usize)>, a: usize, b: usize)
    requires
        edges.len() <= usize::MAX,
    ensures
        match newest_edge(edges, a, b) {
            Some(e) => e < edges.len() && edges[e as int] == (a, b) && forall|k: int|
                e < k < edges.len() ==> edges[k] != (a, b),
            None => forall|k: int| 0 <= k < edges.len() ==> edges[k] != (a, b),
        },
    decreases edges.len(),
{
    if edges.len() > 0 && edges.last() != (a, b) {
        let front = edges.drop_last();
        lemma_newest_edge(front, a, b);
        match newest_edge(front, a, b) {
            Some(e) => {
                assert(front[e as int] == edges[e as int]);
                assert forall|k: int| e < k < edges.len() implies edges[k] != (a, b) by {
                    if k < front.len() {
                        assert(front[k] == edges[k]);
                    }
                }
            },
            None => {
                assert forall|k: int| 0 <= k < edges.len() implies edges[k] != (a, b) by {
                    if k < front.len() {
                        assert(front[k] == edges[k]);
                    }
                }
            },
        }
    }
}

/// `Graph::new`: a graph without nodes and edges.
#[verifier::external_body]
pub(crate) fn topology_new() -> (g: Graph<(), (), Directed, u32>)
    ensures
        graph_node_count(g) == 0,
        graph_edges(g) == Seq::<(usize, usize)>::empty(),
{
    Graph::new()
}

/// `Graph::node_count`: the number of nodes.
#[verifier::external_body]
pub(crate) fn topology_node_count(g: &Graph<(), (), Directed, u32>) -> (n: usize)
    ensures
        n == graph_node_count(*g),
{
    g.node_count()
}

/// `Graph::edge_count`: the number of edges.
#[verifier::external_body]
pub(crate) fn topology_edge_count(g: &Graph<(), (), Directed, u32>) -> (n: usize)
    ensures
        n == graph_edges(*g).len(),
{
    g.edge_count()
}

/// `Graph::add_node`: appends a node and returns its index, which is the number of
/// nodes before the call. The edges stay. It panics on a graph that is full, which
/// the precondition leaves out.
#[verifier::external_body]
pub(crate) fn topology_add_node(g: &mut Graph<(), (), Directed, u32>) -> (index: usize)
    requires
        graph_node_count(*old(g)) < INDEX_LIMIT,
    ensures
        index == graph_node_count(*old(g)),
        graph_node_count(*final(g)) == graph_node_count(*old(g)) + 1,
        graph_edges(*final(g)) == graph_edges(*old(g)),
{
    g.add_node(()).index()
}

/// `Graph::add_edge`: appends an edge from `a` to `b` and returns its index, which is
/// the number of edges before the call; parallel edges are kept. It panics when a
/// node is missing or the graph is full, which the precondition leaves out.
#[verifier::external_body]
pub(crate) fn topology_add_edge(g: &mut Graph<(), (), Directed, u32>, a: usize, b: usize) -> (index:
    usize)
    requires
        a < graph_node_count(*old(g)),
        b < graph_node_count(*old(g)),
        graph_edges(*old(g)).len() < INDEX_LIMIT,
    ensures
        index == graph_edges(*old(g)).len(),
        graph_edges(*final(g)) == graph_edges(*old(g)).push((a, b)),
        graph_node_count(*final(g)) == graph_node_count(*old(g)),
{
    g.add_edge(NodeIndex::new(a), NodeIndex::new(b), ()).index()
}

/// `Graph::find_edge`: walks the edges that leave `a`, newest first, and returns the
/// first whose target is `b`.
#[verifier::external_body]
pub(crate) fn topology_find_edge(g: &Graph<(), (), Directed, u32>, a: usize, b: usize) -> (found:
    Option<usize>)
    requires
        a < graph_node_count(*g),
        b < graph_node_count(*g),
    ensures
        found == newest_edge(graph_edges(*g), a, b),
{
    g.find_edge(NodeIndex::new(a), NodeIndex::new(b)).map(|e| e.index())
}

/// `Graph::edges`: the edges that leave `a`, newest first; each is handed out as its
/// index and the index of its target.
#[verifier::external_body]
pub(crate) fn topology_out_edges(g: &Graph<(), (), Directed, u32>, a: usize) -> (out: Vec<
    (usize, usize),
>)
    requires
        a < graph_node_count(*g),
    ensures
        out@ == out_list(graph_edges(*g), a),
{
    g.edges(NodeIndex::new(a)).map(|e| (e.id().index(), e.target().index())).collect()
}

} // verus!
