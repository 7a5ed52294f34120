//! Building the graph that a route table is computed on.

use vstd::prelude::*;
use std::collections::BTreeSet;
use crate::cost::{link_costs, RouteCostCalculatorInterface};
use crate::dash::{id_entries, id_map_get, id_map_insert, id_map_new, IdMap};
use crate::graph::{
    graph_add_edge, graph_add_node, graph_edges, graph_new, graph_nodes, has_edge, is_edge,
    weights_nonnegative, EdgeView, PeerGraph, GRAPH_LIMIT,
};
use crate::peer_set::set_members;
use crate::synced_info::SyncedRouteInfo;
use crate::topology::{
    edge_link, edge_links, edges_sound, graph_models, lemma_link_count, lemma_weights, LinkCosts,
    Topology,
};
use crate::PeerId;

verus! {

/// Whether `m` maps each peer of `nodes` to its index and nothing else.
pub open spec fn is_node_index(m: Map<u32, u32>, nodes: Seq<PeerId>) -> bool {
    &&& forall|k: int| 0 <= k < nodes.len() ==> m.contains_key(#[trigger] nodes[k]) && m[nodes[k]] == k
    &&& forall|p: PeerId| #[trigger] m.contains_key(p) ==> nodes.contains(p)
}

/// Whether no two edges join the same nodes in the same direction.
pub open spec fn edges_distinct(edges: Seq<EdgeView>) -> bool {
    forall|e1: int, e2: int|
        0 <= e1 < e2 < edges.len() ==> (#[trigger] edges[e1]).0 != (#[trigger] edges[e2]).0
            || edges[e1].1 != edges[e2].1
}

/// Whether every link that starts at one of the first `rows` nodes has its
/// edge.
pub open spec fn rows_complete(nodes: Seq<PeerId>, edges: Seq<EdgeView>, t: Topology, rows: int) -> bool {
    forall|x: int, y: int|
        0 <= x < rows && 0 <= y < nodes.len() && t.links.contains((nodes[x], nodes[y]))
            ==> #[trigger] has_edge(edges, x, y)
}

/// Whether every one of the first `done` members that is a node has its edge
/// from node `row`.
pub open spec fn row_started(
    nodes: Seq<PeerId>,
    edges: Seq<EdgeView>,
    members: Seq<PeerId>,
    row: int,
    done: int,
) -> bool {
    forall|j: int, y: int|
        0 <= j < done && 0 <= y < nodes.len() && #[trigger] members[j] == #[trigger] nodes[y]
            ==> has_edge(edges, row, y)
}

/// Whether every edge starts at one of the first `row` nodes or leads from
/// node `row` to one of the first `done` members.
pub open spec fn edges_within(
    nodes: Seq<PeerId>,
    edges: Seq<EdgeView>,
    members: Seq<PeerId>,
    row: int,
    done: int,
) -> bool {
    forall|e: int|
        0 <= e < edges.len() ==> (#[trigger] edges[e]).0 < row || (edges[e].0 == row && exists|
            j: int,
        |
            0 <= j < done && #[trigger] members[j] == nodes[edges[e].1])
}

/// Appending an edge keeps the edges that were there and adds the new one.
proof fn lemma_push_edge(edges: Seq<EdgeView>, edge: EdgeView)
    ensures
        forall|x: int, y: int| has_edge(edges, x, y) ==> #[trigger] has_edge(edges.push(edge), x, y),
        has_edge(edges.push(edge), edge.0, edge.1),
{
    let after = edges.push(edge);
    assert forall|x: int, y: int| has_edge(edges, x, y) implies #[trigger] has_edge(after, x, y) by {
        let e = choose|e: int| is_edge(edges, e, x, y);
        assert(is_edge(after, e, x, y));
    }
    assert(is_edge(after, edges.len() as int, edge.0, edge.1));
}

/// The edge for a link that has none yet can be appended without repeating
/// an edge, and shows that there is one more link than there are edges.
proof fn lemma_one_link_more(
    nodes: Seq<PeerId>,
    edges: Seq<EdgeView>,
    t: Topology,
    costs: LinkCosts,
    members: Seq<PeerId>,
    row: int,
    done: int,
    target: int,
)
    requires
        nodes.no_duplicates(),
        members.no_duplicates(),
        edges_sound(nodes, edges, t, costs),
        edges_distinct(edges),
        edges_within(nodes, edges, members, row, done),
        0 <= row < nodes.len(),
        0 <= target < nodes.len(),
        0 <= done < members.len(),
        members[done] == nodes[target],
        t.links.contains((nodes[row], nodes[target])),
    ensures
        t.has_links(edges.len() as int + 1),
        edges_distinct(edges.push((row, target, costs(nodes[row], nodes[target])))),
        edges_within(
            nodes,
            edges.push((row, target, costs(nodes[row], nodes[target]))),
            members,
            row,
            done + 1,
        ),
{
    let edge = (row, target, costs(nodes[row], nodes[target]));
    let after = edges.push(edge);
    assert forall|e: int| 0 <= e < edges.len() implies (#[trigger] edges[e]).0 != row || edges[e].1
        != target by {
        if edges[e].0 == row {
            let j = choose|j: int| 0 <= j < done && #[trigger] members[j] == nodes[edges[e].1];
            if edges[e].1 == target {
                assert(members[j] == members[done]);
            }
        }
    }
    assert(edges_distinct(after)) by {
        assert forall|e1: int, e2: int| 0 <= e1 < e2 < after.len() implies (#[trigger] after[e1]).0
            != (#[trigger] after[e2]).0 || after[e1].1 != after[e2].1 by {
            if e2 < edges.len() {
                assert(edges[e1].0 != edges[e2].0 || edges[e1].1 != edges[e2].1);
            } else {
                assert(edges[e1].0 != row || edges[e1].1 != target);
            }
        }
    }
    assert(edges_within(nodes, after, members, row, done + 1)) by {
        assert forall|e: int| 0 <= e < after.len() implies (#[trigger] after[e]).0 < row || (
        after[e].0 == row && exists|j: int|
            0 <= j < done + 1 && #[trigger] members[j] == nodes[after[e].1]) by {
            if e < edges.len() {
                assert(after[e] == edges[e]);
                if edges[e].0 == row {
                    let j = choose|j: int|
                        0 <= j < done && #[trigger] members[j] == nodes[edges[e].1];
                    assert(0 <= j < done + 1 && members[j] == nodes[after[e].1]);
                }
            } else {
                assert(members[done] == nodes[after[e].1]);
            }
        }
    }
    let s = edge_links(nodes, after);
    assert(t.distinct_links(s)) by {
        assert forall|i: int, j: int| 0 <= i < s.len() && 0 <= j < s.len() && i != j implies s[i]
            != s[j] by {
            let (lo, hi) = if i < j {
                (i, j)
            } else {
                (j, i)
            };
            assert(after[lo].0 != after[hi].0 || after[lo].1 != after[hi].1);
            if lo < edges.len() {
                assert(0 <= edges[lo].0 < nodes.len() && 0 <= edges[lo].1 < nodes.len());
            }
            if hi < edges.len() {
                assert(0 <= edges[hi].0 < nodes.len() && 0 <= edges[hi].1 < nodes.len());
            }
        }
        assert forall|i: int| 0 <= i < s.len() implies t.links.contains(#[trigger] s[i]) by {
            if i < edges.len() {
                assert(t.links.contains(edge_link(nodes, edges[i])));
            }
        }
    }
    assert(s.len() == edges.len() as int + 1);
}

/// Builds the graph over `peers`: a node for each of them, and an edge from
/// `a` to `b`, at the cost that the calculator reports, wherever `a` lists
/// `b`. Beside the graph it returns the node of each peer, and whether no
/// link has a negative cost. A topology that the graph library cannot
/// hold gives `None`.
pub fn build_peer_graph_from_synced_info<C: RouteCostCalculatorInterface>(
    peers: &Vec<PeerId>,
    synced_info: &SyncedRouteInfo,
    cost_calc: &C,
) -> (r: Option<(PeerGraph, IdMap, bool)>)
    requires
        peers@.no_duplicates(),
    ensures
        r is Some <==> synced_info@.topology_over(peers@.to_set()).fits(),
        r matches Some(built) ==> {
            &&& graph_nodes(built.0) == peers@
            &&& graph_models(
                peers@,
                graph_edges(built.0),
                synced_info@.topology_over(peers@.to_set()),
                link_costs(cost_calc),
            )
            &&& is_node_index(id_entries(built.1), peers@)
            &&& built.2 == synced_info@.topology_over(peers@.to_set()).admits(link_costs(cost_calc))
        },
{
    broadcast use vstd::seq_lib::seq_to_set_is_finite;

    let ghost t = synced_info@.topology_over(peers@.to_set());
    let ghost costs = link_costs(cost_calc);
    let n = peers.len();
    proof {
        peers@.unique_seq_to_set();
    }
    if n > GRAPH_LIMIT {
        return None;
    }
    let mut graph = graph_new();
    let mut idx_map = id_map_new();
    let mut k: usize = 0;
    while k < n
        invariant
            k <= n,
            n == peers@.len(),
            n <= GRAPH_LIMIT,
            peers@.no_duplicates(),
            graph_nodes(graph) == peers@.take(k as int),
            graph_edges(graph).len() == 0,
            is_node_index(id_entries(idx_map), peers@.take(k as int)),
        decreases n - k,
    {
        let ghost before = id_entries(idx_map);
        let node = graph_add_node(&mut graph, peers[k]);
        id_map_insert(&mut idx_map, peers[k], node);
        proof {
            let done = peers@.take(k as int);
            let next = peers@.take(k + 1);
            assert(next == done.push(peers@[k as int]));
            assert forall|i: int| 0 <= i < next.len() implies id_entries(idx_map).contains_key(
                #[trigger] next[i],
            ) && id_entries(idx_map)[next[i]] == i by {
                if i < k {
                    assert(done[i] == next[i]);
                    assert(before.contains_key(done[i]));
                    assert(peers@[i] != peers@[k as int]);
                }
            }
            assert forall|p: PeerId| #[trigger]
                id_entries(idx_map).contains_key(p) implies next.contains(p) by {
                if p == peers@[k as int] {
                    assert(next[k as int] == p);
                } else {
                    assert(before.contains_key(p));
                    let i = choose|i: int| 0 <= i < done.len() && done[i] == p;
                    assert(next[i] == p);
                }
            }
        }
        k += 1;
    }
    assert(peers@.take(n as int) == peers@);

    let mut admissible = true;
    let mut edge_count: usize = 0;
    let mut row: usize = 0;
    let ghost no_members = Seq::<PeerId>::empty();
    while row < n
        invariant
            row <= n,
            n == peers@.len(),
            n <= GRAPH_LIMIT,
            peers@.no_duplicates(),
            t == synced_info@.topology_over(peers@.to_set()),
            costs == link_costs(cost_calc),
            graph_nodes(graph) == peers@,
            is_node_index(id_entries(idx_map), peers@),
            graph_edges(graph).len() <= GRAPH_LIMIT,
            graph_edges(graph).len() == edge_count,
            edges_sound(peers@, graph_edges(graph), t, costs),
            edges_distinct(graph_edges(graph)),
            edges_within(peers@, graph_edges(graph), no_members, row as int, 0),
            rows_complete(peers@, graph_edges(graph), t, row as int),
            admissible == weights_nonnegative(graph_edges(graph)),
        decreases n - row,
    {
        let src = peers[row];
        let connected = match synced_info.get_connected_peers(src) {
            Some(set) => set,
            None => BTreeSet::new(),
        };
        let members = set_members(&connected);
        let mut j: usize = 0;
        proof {
            assert(edges_within(peers@, graph_edges(graph), members@, row as int, 0));
        }
        while j < members.len()
            invariant
                j <= members.len(),
                row < n,
                n == peers@.len(),
                n <= GRAPH_LIMIT,
                src == peers@[row as int],
                peers@.no_duplicates(),
                members@.no_duplicates(),
                forall|p: PeerId| members@.contains(p) ==> synced_info@.lists(src, p),
                t == synced_info@.topology_over(peers@.to_set()),
                costs == link_costs(cost_calc),
                graph_nodes(graph) == peers@,
                is_node_index(id_entries(idx_map), peers@),
                graph_edges(graph).len() <= GRAPH_LIMIT,
                graph_edges(graph).len() == edge_count,
                edges_sound(peers@, graph_edges(graph), t, costs),
                edges_distinct(graph_edges(graph)),
                edges_within(peers@, graph_edges(graph), members@, row as int, j as int),
                rows_complete(peers@, graph_edges(graph), t, row as int),
                row_started(peers@, graph_edges(graph), members@, row as int, j as int),
                admissible == weights_nonnegative(graph_edges(graph)),
            decreases members.len() - j,
        {
            let dst = members[j];
            let ghost edges = graph_edges(graph);
            assert(members@.contains(dst));
            match id_map_get(&idx_map, dst) {
                None => {
                    proof {
                        assert forall|i: int, y: int|
                            0 <= i < j + 1 && 0 <= y < peers@.len() && #[trigger] members@[i]
                                == #[trigger] peers@[y] implies has_edge(edges, row as int, y) by {
                            if i == j {
                                assert(id_entries(idx_map).contains_key(peers@[y]));
                            }
                        }
                        assert forall|e: int| 0 <= e < edges.len() implies (#[trigger] edges[e]).0
                            < row || (edges[e].0 == row && exists|i: int|
                            0 <= i < j + 1 && #[trigger] members@[i] == peers@[edges[e].1]) by {
                            if edges[e].0 >= row {
                                let i = choose|i: int|
                                    0 <= i < j && #[trigger] members@[i] == peers@[edges[e].1];
                                assert(0 <= i < j + 1 && members@[i] == peers@[edges[e].1]);
                            }
                        }
                    }
                },
                Some(target) => {
                    proof {
                        assert(peers@.contains(dst));
                        let y = choose|y: int| 0 <= y < peers@.len() && peers@[y] == dst;
                        assert(id_entries(idx_map)[peers@[y]] == y);
                        assert(target == y);
                        assert(peers@.to_set().contains(src) && peers@.to_set().contains(dst)) by {
                            assert(peers@.contains(peers@[row as int]));
                        }
                        assert(t.links.contains((peers@[row as int], peers@[target as int])));
                        lemma_one_link_more(
                            peers@,
                            edges,
                            t,
                            costs,
                            members@,
                            row as int,
                            j as int,
                            target as int,
                        );
                    }
                    if edge_count >= GRAPH_LIMIT {
                        return None;
                    }
                    let weight = cost_calc.calculate_cost(src, dst);
                    graph_add_edge(&mut graph, row as u32, target, weight);
                    edge_count += 1;
                    if weight < 0 {
                        admissible = false;
                    }
                    proof {
                        let edge = (row as int, target as int, weight as int);
                        let after = graph_edges(graph);
                        assert(after == edges.push(edge));
                        lemma_push_edge(edges, edge);
                        assert(edges_sound(peers@, after, t, costs)) by {
                            assert forall|e: int| 0 <= e < after.len() implies {
                                &&& 0 <= (#[trigger] after[e]).0 < peers@.len()
                                &&& 0 <= after[e].1 < peers@.len()
                                &&& t.links.contains(edge_link(peers@, after[e]))
                                &&& after[e].2 == costs(peers@[after[e].0], peers@[after[e].1])
                            } by {
                                if e < edges.len() {
                                    assert(after[e] == edges[e]);
                                }
                            }
                        }
                        assert(weights_nonnegative(after) <==> (weights_nonnegative(edges) && 0
                            <= weight)) by {
                            if weights_nonnegative(after) {
                                assert(after[edges.len() as int] == edge);
                                assert forall|e: int| 0 <= e < edges.len() implies 0 <= (
                                #[trigger] edges[e]).2 by {
                                    assert(after[e] == edges[e]);
                                }
                            }
                            if weights_nonnegative(edges) && 0 <= weight {
                                assert forall|e: int| 0 <= e < after.len() implies 0 <= (
                                #[trigger] after[e]).2 by {
                                    if e < edges.len() {
                                        assert(after[e] == edges[e]);
                                    }
                                }
                            }
                        }
                        assert forall|i: int, y: int|
                            0 <= i < j + 1 && 0 <= y < peers@.len() && #[trigger] members@[i]
                                == #[trigger] peers@[y] implies has_edge(after, row as int, y) by {
                            if i < j {
                                assert(has_edge(edges, row as int, y));
                            } else {
                                assert(y == target);
                            }
                        }
                    }
                },
            }
            j += 1;
        }
        proof {
            let edges = graph_edges(graph);
            assert forall|x: int, y: int|
                0 <= x < row + 1 && 0 <= y < peers@.len() && t.links.contains(
                    (peers@[x], peers@[y]),
                ) implies #[trigger] has_edge(edges, x, y) by {
                if x == row {
                    assert(synced_info@.lists(src, peers@[y]));
                    assert(members@.contains(peers@[y]));
                    let i = choose|i: int| 0 <= i < members@.len() && members@[i] == peers@[y];
                    assert(members@[i] == peers@[y]);
                }
            }
            assert forall|e: int| 0 <= e < edges.len() implies (#[trigger] edges[e]).0 < row + 1 || (
            edges[e].0 == row + 1 && exists|i: int|
                0 <= i < 0 && #[trigger] no_members[i] == peers@[edges[e].1]) by {
                assert(edges[e].0 < row || edges[e].0 == row);
            }
        }
        row += 1;
    }
    proof {
        assert(t.closed());
        assert forall|p: PeerId| peers@.contains(p) <==> t.peers.contains(p) by {}
        assert(graph_models(peers@, graph_edges(graph), t, costs));
        lemma_link_count(peers@, graph_edges(graph), t, costs, GRAPH_LIMIT + 1);
        lemma_weights(peers@, graph_edges(graph), t, costs);
    }
    Some((graph, idx_map, admissible))
}

} // verus!
