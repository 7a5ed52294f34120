//! The directed graph that a route table is computed on, and what this crate
//! relies on of the graph library's searches.
//!
//! A graph is described by two sequences: the peer stored at each node, and
//! the edges in insertion order. Walks are sequences of node indices.

use vstd::prelude::*;
use petgraph::algo::{all_simple_paths, astar, dijkstra};
use petgraph::graph::{Graph, NodeIndex};
use petgraph::Directed;
use crate::PeerId;

verus! {

/// `petgraph::Directed`, the marker of graphs with directed edges.
#[verifier::external_type_specification]
#[verifier::external_body]
pub struct ExDirected(Directed);

/// `petgraph::graph::Graph`, declared so that it can stand in signatures.
/// Nothing is known of its inside; its nodes and edges are named by
/// `graph_nodes` and `graph_edges`.
#[verifier::external_type_specification]
#[verifier::external_body]
#[verifier::reject_recursive_types(N)]
#[verifier::reject_recursive_types(E)]
#[verifier::reject_recursive_types(Ty)]
#[verifier::reject_recursive_types(Ix)]
pub struct ExGraph<N, E, Ty, Ix>(Graph<N, E, Ty, Ix>);

/// A directed graph whose nodes carry peer ids and whose edges carry costs.
pub type PeerGraph = Graph<PeerId, i32, Directed, u32>;

/// An edge: source node, target node, cost.
pub type EdgeView = (int, int, int);

/// The peer stored at each node, by node index.
pub uninterp spec fn graph_nodes(g: PeerGraph) -> Seq<PeerId>;

/// The edges in insertion order.
pub uninterp spec fn graph_edges(g: PeerGraph) -> Seq<EdgeView>;

/// Largest number of nodes or edges that a graph takes.
pub const GRAPH_LIMIT: usize = 0x7fff_ffff;

/// Whether `e` is the index of an edge from `a` to `b`.
pub open spec fn is_edge(edges: Seq<EdgeView>, e: int, a: int, b: int) -> bool {
    0 <= e < edges.len() && edges[e].0 == a && edges[e].1 == b
}

/// Whether there is an edge from `a` to `b`.
pub open spec fn has_edge(edges: Seq<EdgeView>, a: int, b: int) -> bool {
    exists|e: int| is_edge(edges, e, a, b)
}

/// Whether an edge joins node `i` of `p` to the next one.
pub open spec fn walk_step(edges: Seq<EdgeView>, p: Seq<int>, i: int) -> bool {
    has_edge(edges, p[i], p[i + 1])
}

/// Whether `p` is a walk: a non-empty sequence of nodes, each joined to the
/// next by an edge.
pub open spec fn is_walk(edges: Seq<EdgeView>, p: Seq<int>) -> bool {
    p.len() >= 1 && forall|i: int| 0 <= i < p.len() - 1 ==> #[trigger] walk_step(edges, p, i)
}

/// Whether `p` is a walk from `a` to `b`.
pub open spec fn walk_between(edges: Seq<EdgeView>, p: Seq<int>, a: int, b: int) -> bool {
    is_walk(edges, p) && p[0] == a && p.last() == b
}

/// Whether `b` can be reached from `a`.
pub open spec fn reachable(edges: Seq<EdgeView>, a: int, b: int) -> bool {
    exists|p: Seq<int>| walk_between(edges, p, a, b)
}

/// Whether the shortest walk from `a` to `b` has `d` edges.
pub open spec fn is_hop_distance(edges: Seq<EdgeView>, a: int, b: int, d: int) -> bool {
    &&& exists|p: Seq<int>| walk_between(edges, p, a, b) && p.len() == d + 1
    &&& forall|p: Seq<int>| walk_between(edges, p, a, b) ==> p.len() >= d + 1
}

/// The cost of some edge from `a` to `b`.
pub open spec fn weight_between(edges: Seq<EdgeView>, a: int, b: int) -> int {
    edges[choose|e: int| is_edge(edges, e, a, b)].2
}

/// The cost of a walk: the sum of the costs of its steps.
pub open spec fn walk_cost(edges: Seq<EdgeView>, p: Seq<int>) -> int
    decreases p.len(),
{
    if p.len() <= 1 {
        0
    } else {
        walk_cost(edges, p.drop_last()) + weight_between(edges, p[p.len() - 2], p.last())
    }
}

/// Whether all edges between the same two nodes cost the same.
pub open spec fn weights_consistent(edges: Seq<EdgeView>) -> bool {
    forall|e1: int, e2: int|
        0 <= e1 < edges.len() && 0 <= e2 < edges.len() && edges[e1].0 == edges[e2].0
            && edges[e1].1 == edges[e2].1 ==> #[trigger] edges[e1].2 == #[trigger] edges[e2].2
}

/// Whether no edge has a negative cost, as a least-cost search asks.
pub open spec fn weights_nonnegative(edges: Seq<EdgeView>) -> bool {
    forall|e: int| 0 <= e < edges.len() ==> 0 <= (#[trigger] edges[e]).2
}

/// The nodes of a path as mathematical integers.
pub open spec fn node_ints(p: Seq<u32>) -> Seq<int> {
    Seq::new(p.len(), |i: int| p[i] as int)
}

/// The cost that a hop-count search gives every edge.
pub(crate) fn unit_cost() -> (c: usize)
    ensures
        c == 1,
{
    1
}

/// The estimate that a plain least-cost search gives every node.
pub(crate) fn no_estimate() -> (c: i64)
    ensures
        c == 0,
{
    0
}

/// The cost of an edge in the wider type in which the search adds costs up.
pub(crate) fn wide_cost(weight: i32) -> (c: i64)
    ensures
        c == weight,
{
    weight as i64
}

/// Whether node index `a` is node `b`.
pub(crate) fn same_node(a: usize, b: u32) -> (r: bool)
    ensures
        r == (a == b),
{
    a == b as usize
}

/// `Graph::new`: a graph without nodes or edges.
#[verifier::external_body]
pub(crate) fn graph_new() -> (g: PeerGraph)
    ensures
        graph_nodes(g) =~= Seq::empty(),
        graph_edges(g) =~= Seq::empty(),
{
    Graph::new()
}

/// `Graph::add_node`: appends a node that stores `peer` and returns its
/// index. The graph library refuses a node beyond its index range, which the
/// precondition keeps away from.
#[verifier::external_body]
pub(crate) fn graph_add_node(g: &mut PeerGraph, peer: PeerId) -> (idx: u32)
    requires
        graph_nodes(*old(g)).len() < GRAPH_LIMIT,
    ensures
        graph_nodes(*final(g)) == graph_nodes(*old(g)).push(peer),
        graph_edges(*final(g)) == graph_edges(*old(g)),
        idx == graph_nodes(*old(g)).len(),
{
    g.add_node(peer).index() as u32
}

/// `Graph::add_edge`: appends an edge from node `a` to node `b`. The graph
/// library refuses an edge between nodes that do not exist and one beyond its
/// index range, which the preconditions keep away from.
#[verifier::external_body]
pub(crate) fn graph_add_edge(g: &mut PeerGraph, a: u32, b: u32, weight: i32)
    requires
        a < graph_nodes(*old(g)).len(),
        b < graph_nodes(*old(g)).len(),
        graph_edges(*old(g)).len() < GRAPH_LIMIT,
    ensures
        graph_nodes(*final(g)) == graph_nodes(*old(g)),
        graph_edges(*final(g)) == graph_edges(*old(g)).push((a as int, b as int, weight as int)),
{
    g.add_edge(NodeIndex::new(a as usize), NodeIndex::new(b as usize), weight);
}

/// `Graph::node_weight`: the peer stored at node `idx`, if there is such a
/// node.
#[verifier::external_body]
pub(crate) fn graph_node_weight(g: &PeerGraph, idx: u32) -> (peer: Option<PeerId>)
    ensures
        peer == (if idx < graph_nodes(*g).len() {
            Some(graph_nodes(*g)[idx as int])
        } else {
            None
        }),
{
    g.node_weight(NodeIndex::new(idx as usize)).copied()
}

/// `petgraph::algo::dijkstra` with every edge at cost one and no goal: for
/// each node that can be reached from `start`, once, the number of edges of
/// the shortest walk to it; other nodes do not occur. The order is not
/// specified.
#[verifier::external_body]
pub(crate) fn graph_hop_counts(g: &PeerGraph, start: u32) -> (hops: Vec<(u32, usize)>)
    requires
        start < graph_nodes(*g).len(),
    ensures
        forall|i: int, j: int| 0 <= i < j < hops@.len() ==> hops@[i].0 != hops@[j].0,
        forall|i: int|
            0 <= i < hops@.len() ==> (#[trigger] hops@[i]).0 < graph_nodes(*g).len()
                && is_hop_distance(
                graph_edges(*g),
                start as int,
                hops@[i].0 as int,
                hops@[i].1 as int,
            ),
        forall|v: int|
            reachable(graph_edges(*g), start as int, v) ==> exists|i: int|
                0 <= i < hops@.len() && (#[trigger] hops@[i]).0 == v,
{
    dijkstra(g, NodeIndex::new(start as usize), None, |_| unit_cost()).into_iter().map(
        |(k, v)| (k.index() as u32, v),
    ).collect()
}

/// `petgraph::algo::all_simple_paths` with the number of intermediate nodes
/// fixed: every walk from `from` to `to` that visits no node twice and has
/// `intermediate` nodes between its ends occurs in the result, and nothing
/// else does. The order is not specified.
#[verifier::external_body]
pub(crate) fn graph_simple_paths(g: &PeerGraph, from: u32, to: u32, intermediate: usize) -> (paths:
    Vec<Vec<u32>>)
    requires
        from < graph_nodes(*g).len(),
        to < graph_nodes(*g).len(),
        from != to,
        intermediate < GRAPH_LIMIT,
    ensures
        forall|i: int|
            0 <= i < paths@.len() ==> walk_between(
                graph_edges(*g),
                node_ints((#[trigger] paths@[i])@),
                from as int,
                to as int,
            ) && paths@[i]@.no_duplicates() && paths@[i]@.len() == intermediate + 2,
        forall|p: Seq<int>|
            walk_between(graph_edges(*g), p, from as int, to as int) && p.no_duplicates() && p.len()
                == intermediate + 2 ==> exists|i: int|
                0 <= i < paths@.len() && node_ints((#[trigger] paths@[i])@) == p,
{
    all_simple_paths::<Vec<_>, _>(
        g,
        NodeIndex::new(from as usize),
        NodeIndex::new(to as usize),
        intermediate,
        Some(intermediate),
    ).map(|p: Vec<NodeIndex>| p.into_iter().map(|n| n.index() as u32).collect()).collect()
}

/// `petgraph::algo::astar` with the edge costs of the graph, added up as
/// `i64`, and no estimate: `None` exactly when `goal` cannot be reached from
/// `start`; otherwise a walk from `start` to `goal` with its cost, which no
/// walk between the two undercuts. The graph library asks for costs that are
/// not negative. Its sums stay within an `i64`: each is the cost of a path
/// that visits no node twice, extended by one edge, so at most as many `i32`
/// costs as there are nodes.
#[verifier::external_body]
pub(crate) fn graph_least_cost_path(g: &PeerGraph, start: u32, goal: u32) -> (found: Option<
    (i64, Vec<u32>),
>)
    requires
        start < graph_nodes(*g).len(),
        goal < graph_nodes(*g).len(),
        start != goal,
        graph_nodes(*g).len() <= GRAPH_LIMIT,
        weights_consistent(graph_edges(*g)),
        weights_nonnegative(graph_edges(*g)),
    ensures
        found is None <==> !reachable(graph_edges(*g), start as int, goal as int),
        found matches Some(f) ==> walk_between(
            graph_edges(*g),
            node_ints(f.1@),
            start as int,
            goal as int,
        ) && f.0 == walk_cost(graph_edges(*g), node_ints(f.1@)) && forall|p: Seq<int>|
            walk_between(graph_edges(*g), p, start as int, goal as int) ==> f.0 <= walk_cost(
                graph_edges(*g),
                p,
            ),
{
    astar(
        g,
        NodeIndex::new(start as usize),
        |n| same_node(n.index(), goal),
        |e| wide_cost(*e.weight()),
        |_| no_estimate(),
    ).map(|(cost, path)| (cost, path.into_iter().map(|n| n.index() as u32).collect()))
}

} // verus!
