//! Choosing next hops: the searches over the graph, and what their results
//! mean for the routes through the overlay.

use vstd::prelude::*;
use crate::cost::{link_costs, RouteCostCalculatorInterface};
use crate::dash::{
    hop_entries, hop_map_insert, hop_map_new, id_entries, id_map_get, id_map_items, IdMap,
    NextHopMap,
};
use crate::graph::{
    graph_edges, graph_hop_counts, graph_least_cost_path, graph_node_weight, graph_nodes,
    graph_simple_paths, is_hop_distance, node_ints, reachable, walk_between, walk_cost,
    PeerGraph, GRAPH_LIMIT,
};
use crate::peer_graph::is_node_index;
use crate::topology::{
    graph_models, indices, labels, lemma_distinct_within, lemma_route_cost_nonnegative,
    lemma_route_is_walk,
    lemma_shortest_walk_simple, lemma_walk_is_route, lemma_weights, route_cost, LinkCosts,
    Topology,
};
use crate::PeerId;

verus! {

impl Topology {
    /// Whether `entry` names the second peer and the cost of a cheapest route
    /// from `from` to `to`.
    pub open spec fn least_cost_entry(
        self,
        costs: LinkCosts,
        from: PeerId,
        to: PeerId,
        entry: (PeerId, i32),
    ) -> bool {
        &&& exists|r: Seq<PeerId>|
            self.route_between(r, from, to) && r.len() >= 2 && r[1] == entry.0 && #[trigger] route_cost(
                costs,
                r,
            ) == entry.1
        &&& forall|r: Seq<PeerId>|
            self.route_between(r, from, to) ==> entry.1 <= #[trigger] route_cost(costs, r)
    }

    /// Whether `r` is a route from `from` to `to` with the fewest hops, and
    /// the cheapest of the routes of that length that visit no peer twice.
    pub open spec fn best_short_route(
        self,
        costs: LinkCosts,
        from: PeerId,
        to: PeerId,
        r: Seq<PeerId>,
    ) -> bool {
        &&& self.route_between(r, from, to)
        &&& r.no_duplicates()
        &&& forall|q: Seq<PeerId>| #[trigger] self.route_between(q, from, to) ==> q.len() >= r.len()
        &&& forall|q: Seq<PeerId>|
            #[trigger] self.route_between(q, from, to) && q.no_duplicates() && q.len() == r.len()
                ==> route_cost(costs, r) <= route_cost(costs, q)
    }

    /// Whether `entry` names the second peer and the number of hops of a
    /// route from `from` to `to` that has the fewest hops and is the cheapest
    /// among those.
    pub open spec fn least_hop_entry(
        self,
        costs: LinkCosts,
        from: PeerId,
        to: PeerId,
        entry: (PeerId, i32),
    ) -> bool {
        exists|r: Seq<PeerId>| #[trigger]
            self.best_short_route(costs, from, to, r) && r.len() >= 2 && r[1] == entry.0 && r.len()
                == entry.1 + 1
    }
}

/// The node at which `peer` is stored.
pub proof fn lemma_index_of(nodes: Seq<PeerId>, k: int)
    requires
        nodes.no_duplicates(),
        0 <= k < nodes.len(),
    ensures
        nodes.index_of(nodes[k]) == k,
{
    let i = nodes.index_of(nodes[k]);
    assert(0 <= i < nodes.len() && nodes[i] == nodes[k]);
}

/// Walks from one node of a graph to another stand for the routes between
/// their peers.
pub proof fn lemma_reach_is_connect(
    nodes: Seq<PeerId>,
    edges: Seq<crate::graph::EdgeView>,
    t: Topology,
    costs: LinkCosts,
    a: int,
    b: int,
)
    requires
        graph_models(nodes, edges, t, costs),
        0 <= a < nodes.len(),
        0 <= b < nodes.len(),
    ensures
        reachable(edges, a, b) <==> t.connects(nodes[a], nodes[b]),
{
    if reachable(edges, a, b) {
        let p = choose|p: Seq<int>| walk_between(edges, p, a, b);
        lemma_walk_is_route(nodes, edges, t, costs, p);
        assert(t.route_between(labels(nodes, p), nodes[a], nodes[b]));
    }
    if t.connects(nodes[a], nodes[b]) {
        let r = choose|r: Seq<PeerId>| t.route_between(r, nodes[a], nodes[b]);
        lemma_route_is_walk(nodes, edges, t, costs, r);
        lemma_index_of(nodes, a);
        lemma_index_of(nodes, b);
        assert(walk_between(edges, indices(nodes, r), a, b));
    }
}

/// The walk that a route stands for, with its ends and its cost.
pub proof fn lemma_route_walk(
    nodes: Seq<PeerId>,
    edges: Seq<crate::graph::EdgeView>,
    t: Topology,
    costs: LinkCosts,
    a: int,
    b: int,
    r: Seq<PeerId>,
)
    requires
        graph_models(nodes, edges, t, costs),
        0 <= a < nodes.len(),
        0 <= b < nodes.len(),
        t.route_between(r, nodes[a], nodes[b]),
    ensures
        walk_between(edges, indices(nodes, r), a, b),
        indices(nodes, r).len() == r.len(),
        walk_cost(edges, indices(nodes, r)) == route_cost(costs, r),
        indices(nodes, r).no_duplicates() <==> r.no_duplicates(),
{
    lemma_route_is_walk(nodes, edges, t, costs, r);
    lemma_index_of(nodes, a);
    lemma_index_of(nodes, b);
    lemma_walk_is_route(nodes, edges, t, costs, indices(nodes, r));
}

/// The cost of the route along a path through the graph, as the calculator
/// reports it link by link.
pub fn path_cost<C: RouteCostCalculatorInterface>(
    graph: &PeerGraph,
    path: &Vec<u32>,
    cost_calc: &C,
) -> (total: i128)
    requires
        path@.len() >= 1,
        forall|i: int| 0 <= i < path@.len() ==> path@[i] < graph_nodes(*graph).len(),
    ensures
        total == route_cost(link_costs(cost_calc), labels(graph_nodes(*graph), node_ints(path@))),
{
    let ghost route = labels(graph_nodes(*graph), node_ints(path@));
    let ghost costs = link_costs(cost_calc);
    let mut total: i128 = 0;
    let mut i: usize = 1;
    assert(route_cost(costs, route.take(1)) == 0);
    while i < path.len()
        invariant
            1 <= i <= path@.len(),
            route == labels(graph_nodes(*graph), node_ints(path@)),
            costs == link_costs(cost_calc),
            forall|k: int| 0 <= k < path@.len() ==> path@[k] < graph_nodes(*graph).len(),
            total == route_cost(costs, route.take(i as int)),
            -0x8000_0000 * i <= total <= 0x8000_0000 * i,
        decreases path@.len() - i,
    {
        let src = graph_node_weight(graph, path[i - 1]);
        let dst = graph_node_weight(graph, path[i]);
        match (src, dst) {
            (Some(a), Some(b)) => {
                let step = cost_calc.calculate_cost(a, b);
                proof {
                    let next = route.take(i + 1);
                    assert(next.drop_last() == route.take(i as int));
                    assert(next[next.len() - 2] == a);
                    assert(next.last() == b);
                }
                total = total + step as i128;
            },
            _ => {
                assert(false);
            },
        }
        i += 1;
    }
    assert(route.take(path@.len() as int) == route);
    total
}

/// The index of the cheapest of `costs`, the last one among equals.
pub fn pick_least_cost(costs: &Vec<i128>) -> (best: usize)
    requires
        costs@.len() >= 1,
    ensures
        best < costs@.len(),
        forall|i: int| 0 <= i < costs@.len() ==> costs@[best as int] <= costs@[i],
        forall|i: int| best < i < costs@.len() ==> costs@[best as int] < costs@[i],
{
    let mut best: usize = 0;
    let mut i: usize = 1;
    while i < costs.len()
        invariant
            1 <= i <= costs@.len(),
            best < i,
            forall|k: int| 0 <= k < i ==> costs@[best as int] <= costs@[k],
            forall|k: int| best < k < i ==> costs@[best as int] < costs@[k],
        decreases costs@.len() - i,
    {
        if costs[i] <= costs[best] {
            best = i;
        }
        i += 1;
    }
    best
}

/// Next hops for the least-cost policy: every peer that a route leads to from
/// `my_peer_id` gets the second peer and the cost of a cheapest route. The
/// costs are added up in a wider type; `None` says that the cheapest route
/// to some peer costs more than an `i32` holds.
pub(crate) fn gen_next_hop_map_with_least_cost(
    my_peer_id: PeerId,
    graph: &PeerGraph,
    idx_map: &IdMap,
    Ghost(t): Ghost<Topology>,
    Ghost(costs): Ghost<LinkCosts>,
) -> (found: Option<NextHopMap>)
    requires
        graph_models(graph_nodes(*graph), graph_edges(*graph), t, costs),
        is_node_index(id_entries(*idx_map), graph_nodes(*graph)),
        graph_nodes(*graph).len() <= GRAPH_LIMIT,
        t.admits(costs),
    ensures
        found is Some <==> t.affords(costs, my_peer_id),
        found matches Some(r) ==> {
            &&& forall|dst: PeerId|
                #[trigger] hop_entries(r).contains_key(dst) <==> dst != my_peer_id && t.connects(
                    my_peer_id,
                    dst,
                )
            &&& forall|dst: PeerId|
                #[trigger] hop_entries(r).contains_key(dst) ==> t.least_cost_entry(
                    costs,
                    my_peer_id,
                    dst,
                    hop_entries(r)[dst],
                )
        },
{
    let ghost nodes = graph_nodes(*graph);
    let ghost edges = graph_edges(*graph);
    let mut next_hop_map = hop_map_new();
    let start = match id_map_get(idx_map, my_peer_id) {
        Some(s) => s,
        None => {
            proof {
                assert forall|dst: PeerId| !t.connects(my_peer_id, dst) by {
                    if t.connects(my_peer_id, dst) {
                        assert(nodes.contains(my_peer_id));
                        let k = choose|k: int| 0 <= k < nodes.len() && nodes[k] == my_peer_id;
                        assert(id_entries(*idx_map).contains_key(nodes[k]));
                    }
                }
                assert(t.affords(costs, my_peer_id));
            }
            return Some(next_hop_map);
        },
    };
    proof {
        lemma_weights(nodes, edges, t, costs);
        assert(nodes.contains(my_peer_id));
        let k = choose|k: int| 0 <= k < nodes.len() && nodes[k] == my_peer_id;
        assert(id_entries(*idx_map)[nodes[k]] == k);
    }
    let items = id_map_items(idx_map);
    let mut i: usize = 0;
    while i < items.len()
        invariant
            i <= items@.len(),
            nodes == graph_nodes(*graph),
            edges == graph_edges(*graph),
            graph_models(nodes, edges, t, costs),
            is_node_index(id_entries(*idx_map), nodes),
            crate::graph::weights_consistent(edges),
            crate::graph::weights_nonnegative(edges),
            t.admits(costs),
            nodes.len() <= GRAPH_LIMIT,
            0 <= start < nodes.len(),
            nodes[start as int] == my_peer_id,
            forall|k: int, j: int| 0 <= k < j < items@.len() ==> items@[k].0 != items@[j].0,
            forall|k: int|
                0 <= k < items@.len() ==> id_entries(*idx_map).contains_key((#[trigger] items@[k]).0)
                    && id_entries(*idx_map)[items@[k].0] == items@[k].1,
            forall|dst: PeerId|
                #[trigger] hop_entries(next_hop_map).contains_key(dst) <==> dst != my_peer_id
                    && t.connects(my_peer_id, dst) && exists|k: int|
                    0 <= k < i && (#[trigger] items@[k]).0 == dst,
            forall|dst: PeerId|
                #[trigger] hop_entries(next_hop_map).contains_key(dst) ==> t.least_cost_entry(
                    costs,
                    my_peer_id,
                    dst,
                    hop_entries(next_hop_map)[dst],
                ),
        decreases items@.len() - i,
    {
        let peer = items[i].0;
        let node = items[i].1;
        let ghost before = hop_entries(next_hop_map);
        proof {
            assert(id_entries(*idx_map).contains_key(items@[i as int].0));
            assert(nodes.contains(peer));
            let k = choose|k: int| 0 <= k < nodes.len() && nodes[k] == peer;
            assert(id_entries(*idx_map)[nodes[k]] == k);
            assert(nodes[node as int] == peer);
            lemma_reach_is_connect(nodes, edges, t, costs, start as int, node as int);
        }
        if peer != my_peer_id {
            match graph_least_cost_path(graph, start, node) {
                None => {},
                Some(found) => {
                    let total = found.0;
                    let path = found.1;
                    let ghost p = node_ints(path@);
                    proof {
                        lemma_walk_is_route(nodes, edges, t, costs, p);
                        assert(p.len() >= 2);
                        assert(path@[1] == p[1]);
                        assert forall|q: Seq<PeerId>|
                            t.route_between(q, my_peer_id, peer) implies total
                            <= #[trigger] route_cost(costs, q) by {
                            lemma_route_walk(nodes, edges, t, costs, start as int, node as int, q);
                        }
                        lemma_route_cost_nonnegative(t, costs, labels(nodes, p));
                    }
                    if total > 0x7fff_ffff {
                        proof {
                            assert(t.connects(my_peer_id, peer));
                            assert(!t.affordable(costs, my_peer_id, peer));
                        }
                        return None;
                    }
                    let cost = total as i32;
                    match graph_node_weight(graph, path[1]) {
                        Some(hop) => {
                            hop_map_insert(&mut next_hop_map, peer, (hop, cost));
                            proof {
                                let r = labels(nodes, p);
                                assert(t.route_between(r, my_peer_id, peer));
                                assert(r[1] == hop);
                                assert forall|q: Seq<PeerId>|
                                    t.route_between(q, my_peer_id, peer) implies cost
                                    <= #[trigger] route_cost(costs, q) by {
                                    lemma_route_walk(
                                        nodes,
                                        edges,
                                        t,
                                        costs,
                                        start as int,
                                        node as int,
                                        q,
                                    );
                                }
                                assert(t.least_cost_entry(costs, my_peer_id, peer, (hop, cost)));
                            }
                        },
                        None => {
                            assert(false);
                        },
                    }
                },
            }
        }
        proof {
            let after = hop_entries(next_hop_map);
            assert forall|dst: PeerId| #[trigger]
                after.contains_key(dst) <==> dst != my_peer_id && t.connects(my_peer_id, dst)
                    && exists|k: int| 0 <= k < i + 1 && (#[trigger] items@[k]).0 == dst by {
                if after.contains_key(dst) {
                    if dst == peer {
                        assert(items@[i as int].0 == dst);
                    } else {
                        assert(before.contains_key(dst));
                        let k = choose|k: int| 0 <= k < i && (#[trigger] items@[k]).0 == dst;
                        assert(0 <= k < i + 1 && items@[k].0 == dst);
                    }
                }
                if dst != my_peer_id && t.connects(my_peer_id, dst) && exists|k: int|
                    0 <= k < i + 1 && (#[trigger] items@[k]).0 == dst {
                    let k = choose|k: int| 0 <= k < i + 1 && (#[trigger] items@[k]).0 == dst;
                    if k < i {
                        assert(before.contains_key(dst));
                    }
                }
            }
        }
        i += 1;
    }
    proof {
        assert forall|dst: PeerId| dst != my_peer_id && t.connects(my_peer_id, dst) implies exists|
            k: int,
        |
            0 <= k < items@.len() && (#[trigger] items@[k]).0 == dst by {
            let r = choose|r: Seq<PeerId>| t.route_between(r, my_peer_id, dst);
            crate::topology::lemma_route_peers(t, r, r.len() - 1);
            assert(nodes.contains(dst));
            let k = choose|k: int| 0 <= k < nodes.len() && nodes[k] == dst;
            assert(id_entries(*idx_map).contains_key(nodes[k]));
        }
        assert forall|to: PeerId| #[trigger] t.connects(my_peer_id, to) implies t.affordable(
            costs,
            my_peer_id,
            to,
        ) by {
            if to == my_peer_id {
                let here = seq![my_peer_id];
                assert(t.route_between(here, my_peer_id, my_peer_id));
                assert(route_cost(costs, here) == 0);
            } else {
                assert(hop_entries(next_hop_map).contains_key(to));
                assert(t.least_cost_entry(costs, my_peer_id, to, hop_entries(next_hop_map)[to]));
                let r = choose|r: Seq<PeerId>|
                    t.route_between(r, my_peer_id, to) && r.len() >= 2 && r[1] == hop_entries(
                        next_hop_map,
                    )[to].0 && #[trigger] route_cost(costs, r) == hop_entries(next_hop_map)[to].1;
                assert(route_cost(costs, r) <= i32::MAX);
            }
        }
    }
    Some(next_hop_map)
}

/// Next hops for the least-hop policy: every peer that a route leads to from
/// `my_peer_id` gets the number of hops of a shortest route and the second
/// peer of the cheapest among the shortest routes.
pub(crate) fn gen_next_hop_map_with_least_hop<C: RouteCostCalculatorInterface>(
    my_peer_id: PeerId,
    graph: &PeerGraph,
    idx_map: &IdMap,
    cost_calc: &C,
    Ghost(t): Ghost<Topology>,
) -> (r: NextHopMap)
    requires
        graph_models(graph_nodes(*graph), graph_edges(*graph), t, link_costs(cost_calc)),
        is_node_index(id_entries(*idx_map), graph_nodes(*graph)),
        graph_nodes(*graph).len() <= GRAPH_LIMIT,
    ensures
        forall|dst: PeerId|
            #[trigger] hop_entries(r).contains_key(dst) <==> dst != my_peer_id && t.connects(
                my_peer_id,
                dst,
            ),
        forall|dst: PeerId|
            #[trigger] hop_entries(r).contains_key(dst) ==> t.least_hop_entry(
                link_costs(cost_calc),
                my_peer_id,
                dst,
                hop_entries(r)[dst],
            ),
{
    let ghost nodes = graph_nodes(*graph);
    let ghost edges = graph_edges(*graph);
    let ghost costs = link_costs(cost_calc);
    let mut next_hop_map = hop_map_new();
    let start = match id_map_get(idx_map, my_peer_id) {
        Some(s) => s,
        None => {
            proof {
                assert forall|dst: PeerId| !t.connects(my_peer_id, dst) by {
                    if t.connects(my_peer_id, dst) {
                        assert(nodes.contains(my_peer_id));
                        let k = choose|k: int| 0 <= k < nodes.len() && nodes[k] == my_peer_id;
                        assert(id_entries(*idx_map).contains_key(nodes[k]));
                    }
                }
            }
            return next_hop_map;
        },
    };
    proof {
        assert(nodes.contains(my_peer_id));
        let k = choose|k: int| 0 <= k < nodes.len() && nodes[k] == my_peer_id;
        assert(id_entries(*idx_map)[nodes[k]] == k);
    }
    let res = graph_hop_counts(graph, start);
    let mut i: usize = 0;
    while i < res.len()
        invariant
            i <= res@.len(),
            nodes == graph_nodes(*graph),
            edges == graph_edges(*graph),
            costs == link_costs(cost_calc),
            graph_models(nodes, edges, t, costs),
            nodes.len() <= GRAPH_LIMIT,
            0 <= start < nodes.len(),
            nodes[start as int] == my_peer_id,
            forall|k: int, j: int| 0 <= k < j < res@.len() ==> res@[k].0 != res@[j].0,
            forall|k: int|
                0 <= k < res@.len() ==> (#[trigger] res@[k]).0 < nodes.len() && is_hop_distance(
                    edges,
                    start as int,
                    res@[k].0 as int,
                    res@[k].1 as int,
                ),
            forall|dst: PeerId|
                #[trigger] hop_entries(next_hop_map).contains_key(dst) <==> dst != my_peer_id
                    && exists|k: int| 0 <= k < i && nodes[(#[trigger] res@[k]).0 as int] == dst,
            forall|dst: PeerId|
                #[trigger] hop_entries(next_hop_map).contains_key(dst) ==> t.least_hop_entry(
                    costs,
                    my_peer_id,
                    dst,
                    hop_entries(next_hop_map)[dst],
                ),
        decreases res@.len() - i,
    {
        let node = res[i].0;
        let hops = res[i].1;
        let ghost before = hop_entries(next_hop_map);
        let ghost dst = nodes[node as int];
        proof {
            assert(is_hop_distance(edges, start as int, res@[i as int].0 as int, res@[i as int].1 as int));
            if node == start {
                let p = seq![start as int];
                assert(walk_between(edges, p, start as int, start as int));
                assert(hops == 0);
            } else {
                let p = choose|p: Seq<int>|
                    walk_between(edges, p, start as int, node as int) && p.len() == hops + 1;
                assert(hops != 0);
            }
        }
        if hops != 0 {
            let ghost shortest = choose|p: Seq<int>|
                walk_between(edges, p, start as int, node as int) && p.len() == hops + 1;
            proof {
                lemma_shortest_walk_simple(edges, shortest, start as int, node as int);
                lemma_walk_is_route(nodes, edges, t, costs, shortest);
                let all = Seq::new(nodes.len(), |k: int| k);
                assert forall|k: int| 0 <= k < shortest.len() implies all.contains(
                    #[trigger] shortest[k],
                ) by {
                    assert(all[shortest[k]] == shortest[k]);
                }
                lemma_distinct_within(shortest, all);
            }
            let all_paths = graph_simple_paths(graph, start, node, hops - 1);
            proof {
                let w = choose|k: int|
                    0 <= k < all_paths@.len() && node_ints((#[trigger] all_paths@[k])@) == shortest;
                assert(all_paths@.len() >= 1);
            }
            let mut path_costs: Vec<i128> = Vec::new();
            let mut k: usize = 0;
            while k < all_paths.len()
                invariant
                    k <= all_paths@.len(),
                    path_costs@.len() == k,
                    nodes == graph_nodes(*graph),
                    edges == graph_edges(*graph),
                    costs == link_costs(cost_calc),
                    graph_models(nodes, edges, t, costs),
                    0 <= start < nodes.len(),
                    forall|j: int|
                        0 <= j < all_paths@.len() ==> walk_between(
                            edges,
                            node_ints((#[trigger] all_paths@[j])@),
                            start as int,
                            node as int,
                        ) && all_paths@[j]@.len() == hops - 1 + 2,
                    forall|j: int|
                        0 <= j < k ==> #[trigger] path_costs@[j] == route_cost(
                            costs,
                            labels(nodes, node_ints(all_paths@[j]@)),
                        ),
                decreases all_paths@.len() - k,
            {
                proof {
                    let p = node_ints(all_paths@[k as int]@);
                    lemma_walk_is_route(nodes, edges, t, costs, p);
                    assert forall|j: int| 0 <= j < all_paths@[k as int]@.len() implies all_paths@[k as int]@[j]
                        < nodes.len() by {
                        assert(p[j] == all_paths@[k as int]@[j]);
                    }
                }
                let c = path_cost(graph, &all_paths[k], cost_calc);
                path_costs.push(c);
                k += 1;
            }
            let best = pick_least_cost(&path_costs);
            let min_path = &all_paths[best];
            let ghost p = node_ints(min_path@);
            proof {
                lemma_walk_is_route(nodes, edges, t, costs, p);
                assert(p[1] == min_path@[1]);
            }
            match (graph_node_weight(graph, node), graph_node_weight(graph, min_path[1])) {
                (Some(peer), Some(hop)) => {
                    hop_map_insert(&mut next_hop_map, peer, (hop, hops as i32));
                    proof {
                        let r = labels(nodes, p);
                        assert(p.no_duplicates()) by {
                            assert forall|a: int, b: int|
                                0 <= a < p.len() && 0 <= b < p.len() && a != b implies p[a]
                                != p[b] by {
                                assert(min_path@[a] != min_path@[b]);
                            }
                        }
                        assert(t.route_between(r, my_peer_id, peer));
                        assert forall|q: Seq<PeerId>| #[trigger]
                            t.route_between(q, my_peer_id, peer) implies q.len() >= r.len() by {
                            lemma_route_walk(nodes, edges, t, costs, start as int, node as int, q);
                        }
                        assert forall|q: Seq<PeerId>|
                            #[trigger] t.route_between(q, my_peer_id, peer) && q.no_duplicates()
                                && q.len() == r.len() implies route_cost(costs, r) <= route_cost(
                            costs,
                            q,
                        ) by {
                            lemma_route_walk(nodes, edges, t, costs, start as int, node as int, q);
                            let w = indices(nodes, q);
                            let j = choose|j: int|
                                0 <= j < all_paths@.len() && node_ints((#[trigger] all_paths@[j])@)
                                    == w;
                            lemma_route_is_walk(nodes, edges, t, costs, q);
                            assert(path_costs@[j] == route_cost(costs, q));
                            assert(path_costs@[best as int] == route_cost(costs, r));
                        }
                        assert(t.best_short_route(costs, my_peer_id, peer, r));
                        assert(r[1] == hop);
                        assert(t.least_hop_entry(costs, my_peer_id, peer, (hop, hops as i32)));
                    }
                },
                _ => {
                    assert(false);
                },
            }
        }
        proof {
            let after = hop_entries(next_hop_map);
            assert forall|d: PeerId| #[trigger]
                after.contains_key(d) <==> d != my_peer_id && exists|k: int|
                    0 <= k < i + 1 && nodes[(#[trigger] res@[k]).0 as int] == d by {
                if after.contains_key(d) {
                    if before.contains_key(d) {
                        let k = choose|k: int|
                            0 <= k < i && nodes[(#[trigger] res@[k]).0 as int] == d;
                        assert(0 <= k < i + 1 && nodes[res@[k].0 as int] == d);
                    } else {
                        assert(d == dst);
                        assert(nodes[res@[i as int].0 as int] == d);
                        assert(node != start);
                    }
                }
                if d != my_peer_id && exists|k: int|
                    0 <= k < i + 1 && nodes[(#[trigger] res@[k]).0 as int] == d {
                    let k = choose|k: int|
                        0 <= k < i + 1 && nodes[(#[trigger] res@[k]).0 as int] == d;
                    if k < i {
                        assert(before.contains_key(d));
                    } else {
                        assert(node != start);
                    }
                }
            }
        }
        i += 1;
    }
    proof {
        assert forall|dst: PeerId| #[trigger]
            hop_entries(next_hop_map).contains_key(dst) <==> dst != my_peer_id && t.connects(
                my_peer_id,
                dst,
            ) by {
            if hop_entries(next_hop_map).contains_key(dst) {
                let k = choose|k: int|
                    0 <= k < res@.len() && nodes[(#[trigger] res@[k]).0 as int] == dst;
                assert(is_hop_distance(edges, start as int, res@[k].0 as int, res@[k].1 as int));
                lemma_reach_is_connect(nodes, edges, t, costs, start as int, res@[k].0 as int);
            }
            if dst != my_peer_id && t.connects(my_peer_id, dst) {
                let r = choose|r: Seq<PeerId>| t.route_between(r, my_peer_id, dst);
                crate::topology::lemma_route_peers(t, r, r.len() - 1);
                assert(nodes.contains(dst));
                let y = choose|y: int| 0 <= y < nodes.len() && nodes[y] == dst;
                lemma_reach_is_connect(nodes, edges, t, costs, start as int, y);
                let k = choose|k: int| 0 <= k < res@.len() && (#[trigger] res@[k]).0 == y;
                assert(nodes[res@[k].0 as int] == dst);
            }
        }
    }
    next_hop_map
}

} // verus!
