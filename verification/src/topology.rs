//! Routes through the overlay, stated over the database alone, and how the
//! graph that is searched relates to them.

use vstd::prelude::*;
use crate::graph::{
    has_edge, is_edge, is_walk, walk_between, walk_cost, walk_step, weight_between,
    weights_consistent, weights_nonnegative, EdgeView, GRAPH_LIMIT,
};
use crate::synced_info::DbView;
use crate::PeerId;

verus! {

/// The peers that take part in routing and the directed links between them.
pub struct Topology {
    pub peers: Set<PeerId>,
    pub links: Set<(PeerId, PeerId)>,
}

/// The cost of each directed link.
pub type LinkCosts = spec_fn(PeerId, PeerId) -> int;

impl DbView {
    /// Whether a real descriptor of `peer` is stored, not only a placeholder.
    pub open spec fn known(self, peer: PeerId) -> bool {
        self.infos.contains_key(peer) && self.infos[peer].version != 0
    }

    /// The peers of `among` with the links that their adjacency sets give: a
    /// link leads from `a` to `b` where `a` lists `b`.
    pub open spec fn topology_over(self, among: Set<PeerId>) -> Topology {
        Topology {
            peers: among,
            links: Set::new(
                |l: (PeerId, PeerId)|
                    among.contains(l.0) && among.contains(l.1) && self.lists(l.0, l.1),
            ),
        }
    }

    /// The peers whose descriptor is known, with the links between them.
    pub open spec fn topology(self) -> Topology {
        self.topology_over(Set::new(|p: PeerId| self.known(p)))
    }
}

impl Topology {
    /// Whether every link joins two of the peers.
    pub open spec fn closed(self) -> bool {
        forall|a: PeerId, b: PeerId| #[trigger]
            self.links.contains((a, b)) ==> self.peers.contains(a) && self.peers.contains(b)
    }

    /// Whether a link joins peer `i` of `r` to the next one.
    pub open spec fn route_step(self, r: Seq<PeerId>, i: int) -> bool {
        self.links.contains((r[i], r[i + 1]))
    }

    /// Whether `r` is a route: a non-empty sequence of peers, each linked to
    /// the next.
    pub open spec fn is_route(self, r: Seq<PeerId>) -> bool {
        &&& r.len() >= 1
        &&& self.peers.contains(r[0])
        &&& forall|i: int| 0 <= i < r.len() - 1 ==> #[trigger] self.route_step(r, i)
    }

    /// Whether `r` is a route from `a` to `b`.
    pub open spec fn route_between(self, r: Seq<PeerId>, a: PeerId, b: PeerId) -> bool {
        self.is_route(r) && r[0] == a && r.last() == b
    }

    /// Whether some route leads from `a` to `b`.
    pub open spec fn connects(self, a: PeerId, b: PeerId) -> bool {
        exists|r: Seq<PeerId>| self.route_between(r, a, b)
    }

    /// Whether `s` lists links without listing one twice.
    pub open spec fn distinct_links(self, s: Seq<(PeerId, PeerId)>) -> bool {
        s.no_duplicates() && forall|i: int| 0 <= i < s.len() ==> self.links.contains(#[trigger] s[i])
    }

    /// Whether there are at least `k` links.
    pub open spec fn has_links(self, k: int) -> bool {
        exists|s: Seq<(PeerId, PeerId)>| self.distinct_links(s) && s.len() == k
    }

    /// Whether the graph library can hold the topology.
    pub open spec fn fits(self) -> bool {
        self.peers.finite() && self.peers.len() <= GRAPH_LIMIT && !self.has_links(GRAPH_LIMIT + 1)
    }

    /// Whether the costs suit a least-cost search: no link has a negative
    /// cost.
    pub open spec fn admits(self, costs: LinkCosts) -> bool {
        forall|a: PeerId, b: PeerId| self.links.contains((a, b)) ==> 0 <= #[trigger] costs(a, b)
    }

    /// Whether a route from `from` to `to` costs so little that an `i32`
    /// holds the cost.
    pub open spec fn affordable(self, costs: LinkCosts, from: PeerId, to: PeerId) -> bool {
        exists|r: Seq<PeerId>|
            self.route_between(r, from, to) && #[trigger] route_cost(costs, r) <= i32::MAX
    }

    /// Whether an `i32` holds the cost of a cheapest route from `from` to
    /// every peer that a route leads to.
    pub open spec fn affords(self, costs: LinkCosts, from: PeerId) -> bool {
        forall|to: PeerId| #[trigger] self.connects(from, to) ==> self.affordable(costs, from, to)
    }
}

/// The cost of a route: the sum of the costs of its links.
pub open spec fn route_cost(costs: LinkCosts, r: Seq<PeerId>) -> int
    decreases r.len(),
{
    if r.len() <= 1 {
        0
    } else {
        route_cost(costs, r.drop_last()) + costs(r[r.len() - 2], r.last())
    }
}

/// Where no link has a negative cost, no route has one.
pub proof fn lemma_route_cost_nonnegative(t: Topology, costs: LinkCosts, r: Seq<PeerId>)
    requires
        t.is_route(r),
        t.admits(costs),
    ensures
        route_cost(costs, r) >= 0,
    decreases r.len(),
{
    if r.len() > 1 {
        let front = r.drop_last();
        assert(t.is_route(front)) by {
            assert forall|i: int| 0 <= i < front.len() - 1 implies #[trigger] t.route_step(
                front,
                i,
            ) by {
                assert(t.route_step(r, i));
            }
        }
        lemma_route_cost_nonnegative(t, costs, front);
        assert(t.route_step(r, r.len() - 2));
        assert(0 <= costs(r[r.len() - 2], r.last()));
    }
}

/// The peers at the nodes of a walk.
pub open spec fn labels(nodes: Seq<PeerId>, p: Seq<int>) -> Seq<PeerId> {
    Seq::new(p.len(), |i: int| nodes[p[i]])
}

/// The nodes at which the peers of a route are stored.
pub open spec fn indices(nodes: Seq<PeerId>, r: Seq<PeerId>) -> Seq<int> {
    Seq::new(r.len(), |i: int| nodes.index_of(r[i]))
}

/// The link that an edge stands for.
pub open spec fn edge_link(nodes: Seq<PeerId>, e: EdgeView) -> (PeerId, PeerId) {
    (nodes[e.0], nodes[e.1])
}

/// The links that the edges stand for, in the order of the edges.
pub open spec fn edge_links(nodes: Seq<PeerId>, edges: Seq<EdgeView>) -> Seq<(PeerId, PeerId)> {
    Seq::new(edges.len(), |e: int| edge_link(nodes, edges[e]))
}

/// Whether each edge joins two nodes and stands for a link at its cost.
pub open spec fn edges_sound(
    nodes: Seq<PeerId>,
    edges: Seq<EdgeView>,
    t: Topology,
    costs: LinkCosts,
) -> bool {
    forall|e: int|
        0 <= e < edges.len() ==> {
            &&& 0 <= (#[trigger] edges[e]).0 < nodes.len()
            &&& 0 <= edges[e].1 < nodes.len()
            &&& t.links.contains(edge_link(nodes, edges[e]))
            &&& edges[e].2 == costs(nodes[edges[e].0], nodes[edges[e].1])
        }
}

/// Whether the graph stands for the topology: its nodes are the peers, each
/// once, and its edges are the links at their costs.
pub open spec fn graph_models(
    nodes: Seq<PeerId>,
    edges: Seq<EdgeView>,
    t: Topology,
    costs: LinkCosts,
) -> bool {
    &&& t.closed()
    &&& nodes.no_duplicates()
    &&& forall|p: PeerId| nodes.contains(p) <==> t.peers.contains(p)
    &&& edges_sound(nodes, edges, t, costs)
    &&& forall|x: int, y: int|
        0 <= x < nodes.len() && 0 <= y < nodes.len() && t.links.contains((nodes[x], nodes[y]))
            ==> #[trigger] has_edge(edges, x, y)
}

/// A sequence without repetitions, drawn from the members of another, is at
/// most as long as that one.
pub proof fn lemma_distinct_within<T>(s: Seq<T>, all: Seq<T>)
    requires
        s.no_duplicates(),
        forall|i: int| 0 <= i < s.len() ==> all.contains(#[trigger] s[i]),
    ensures
        s.len() <= all.len(),
{
    broadcast use vstd::seq_lib::seq_to_set_is_finite;

    s.unique_seq_to_set();
    all.lemma_cardinality_of_set();
    assert(s.to_set().subset_of(all.to_set())) by {
        assert forall|x: T| s.to_set().contains(x) implies all.to_set().contains(x) by {
            let i = choose|i: int| 0 <= i < s.len() && s[i] == x;
            assert(all.contains(s[i]));
        }
    }
    vstd::set_lib::lemma_len_subset(s.to_set(), all.to_set());
}

/// In a graph that stands for a topology there are as many nodes as peers.
pub proof fn lemma_node_count(nodes: Seq<PeerId>, edges: Seq<EdgeView>, t: Topology, costs: LinkCosts)
    requires
        graph_models(nodes, edges, t, costs),
    ensures
        t.peers.finite(),
        t.peers.len() == nodes.len(),
{
    broadcast use vstd::seq_lib::seq_to_set_is_finite;

    nodes.unique_seq_to_set();
    assert(nodes.to_set() =~= t.peers);
}

/// In a graph that stands for a topology the cost of an edge between two
/// nodes is the cost of the link between their peers.
pub proof fn lemma_weight_between(
    nodes: Seq<PeerId>,
    edges: Seq<EdgeView>,
    t: Topology,
    costs: LinkCosts,
    a: int,
    b: int,
)
    requires
        graph_models(nodes, edges, t, costs),
        has_edge(edges, a, b),
    ensures
        0 <= a < nodes.len(),
        0 <= b < nodes.len(),
        t.links.contains((nodes[a], nodes[b])),
        weight_between(edges, a, b) == costs(nodes[a], nodes[b]),
{
    let e = choose|e: int| is_edge(edges, e, a, b);
    assert(t.links.contains(edge_link(nodes, edges[e])));
}

/// A graph that stands for a topology has consistent costs, and costs that
/// are not negative exactly when the topology admits the costs.
pub proof fn lemma_weights(nodes: Seq<PeerId>, edges: Seq<EdgeView>, t: Topology, costs: LinkCosts)
    requires
        graph_models(nodes, edges, t, costs),
    ensures
        weights_consistent(edges),
        weights_nonnegative(edges) <==> t.admits(costs),
{
    if weights_nonnegative(edges) {
        assert forall|a: PeerId, b: PeerId| t.links.contains((a, b)) implies 0 <= #[trigger] costs(
            a,
            b,
        ) by {
            assert(nodes.contains(a) && nodes.contains(b));
            let x = nodes.index_of(a);
            let y = nodes.index_of(b);
            assert(has_edge(edges, x, y));
            let e = choose|e: int| is_edge(edges, e, x, y);
            assert(0 <= edges[e].2);
        }
    }
    if t.admits(costs) {
        assert forall|e: int| 0 <= e < edges.len() implies 0 <= (#[trigger] edges[e]).2 by {
            assert(t.links.contains(edge_link(nodes, edges[e])));
            assert(0 <= costs(nodes[edges[e].0], nodes[edges[e].1]));
        }
    }
}

/// A walk through a graph that stands for a topology visits the peers of a
/// route of the same cost.
pub proof fn lemma_walk_is_route(
    nodes: Seq<PeerId>,
    edges: Seq<EdgeView>,
    t: Topology,
    costs: LinkCosts,
    p: Seq<int>,
)
    requires
        graph_models(nodes, edges, t, costs),
        is_walk(edges, p),
        0 <= p[0] < nodes.len(),
    ensures
        forall|i: int| 0 <= i < p.len() ==> 0 <= #[trigger] p[i] < nodes.len(),
        t.is_route(labels(nodes, p)),
        route_cost(costs, labels(nodes, p)) == walk_cost(edges, p),
        p.no_duplicates() <==> labels(nodes, p).no_duplicates(),
    decreases p.len(),
{
    let r = labels(nodes, p);
    assert(nodes.contains(nodes[p[0]]));
    if p.len() > 1 {
        let q = p.drop_last();
        assert(is_walk(edges, q)) by {
            assert forall|i: int| 0 <= i < q.len() - 1 implies #[trigger] walk_step(edges, q, i) by {
                assert(walk_step(edges, p, i));
            }
        }
        lemma_walk_is_route(nodes, edges, t, costs, q);
        let last = p.len() - 1;
        assert(walk_step(edges, p, last - 1));
        lemma_weight_between(nodes, edges, t, costs, p[last - 1], p[last]);
        assert(labels(nodes, q) =~= r.drop_last());
        assert forall|i: int| 0 <= i < p.len() implies 0 <= #[trigger] p[i] < nodes.len() by {
            if i < q.len() {
                assert(q[i] == p[i]);
            }
        }
        assert forall|i: int| 0 <= i < r.len() - 1 implies #[trigger] t.route_step(r, i) by {
            assert(walk_step(edges, p, i));
            lemma_weight_between(nodes, edges, t, costs, p[i], p[i + 1]);
        }
    }
    if p.no_duplicates() {
        assert forall|i: int, j: int| 0 <= i < r.len() && 0 <= j < r.len() && i != j implies r[i]
            != r[j] by {
            assert(p[i] != p[j]);
        }
    }
    if r.no_duplicates() {
        assert forall|i: int, j: int| 0 <= i < p.len() && 0 <= j < p.len() && i != j implies p[i]
            != p[j] by {
            assert(r[i] != r[j]);
        }
    }
}

/// Every peer of a route is one of the peers of the topology.
pub proof fn lemma_route_peers(t: Topology, r: Seq<PeerId>, i: int)
    requires
        t.closed(),
        t.is_route(r),
        0 <= i < r.len(),
    ensures
        t.peers.contains(r[i]),
{
    if i > 0 {
        assert(t.route_step(r, i - 1));
    }
}

/// A route through a topology is visited by a walk through a graph that
/// stands for it.
pub proof fn lemma_route_is_walk(
    nodes: Seq<PeerId>,
    edges: Seq<EdgeView>,
    t: Topology,
    costs: LinkCosts,
    r: Seq<PeerId>,
)
    requires
        graph_models(nodes, edges, t, costs),
        t.is_route(r),
    ensures
        is_walk(edges, indices(nodes, r)),
        labels(nodes, indices(nodes, r)) == r,
        forall|i: int| 0 <= i < r.len() ==> 0 <= #[trigger] indices(nodes, r)[i] < nodes.len(),
        indices(nodes, r).len() == r.len(),
{
    let p = indices(nodes, r);
    assert forall|i: int| 0 <= i < r.len() implies 0 <= #[trigger] p[i] < nodes.len() && nodes[p[i]]
        == r[i] by {
        lemma_route_peers(t, r, i);
        assert(nodes.contains(r[i]));
    }
    assert forall|i: int| 0 <= i < p.len() - 1 implies #[trigger] walk_step(edges, p, i) by {
        assert(t.route_step(r, i));
        assert(nodes[p[i]] == r[i]);
        assert(nodes[p[i + 1]] == r[i + 1]);
        assert(has_edge(edges, p[i], p[i + 1]));
    }
    assert(labels(nodes, p) =~= r);
}

/// In a graph that stands for a topology without repeated edges, there are as
/// many links as edges.
pub proof fn lemma_link_count(
    nodes: Seq<PeerId>,
    edges: Seq<EdgeView>,
    t: Topology,
    costs: LinkCosts,
    k: int,
)
    requires
        graph_models(nodes, edges, t, costs),
        k > edges.len(),
    ensures
        !t.has_links(k),
{
    if t.has_links(k) {
        let s = choose|s: Seq<(PeerId, PeerId)>| t.distinct_links(s) && s.len() == k;
        let all = edge_links(nodes, edges);
        assert forall|i: int| 0 <= i < s.len() implies all.contains(#[trigger] s[i]) by {
            let (a, b) = s[i];
            assert(t.links.contains(s[i]));
            assert(nodes.contains(a) && nodes.contains(b));
            let x = nodes.index_of(a);
            let y = nodes.index_of(b);
            assert(has_edge(edges, x, y));
            let e = choose|e: int| is_edge(edges, e, x, y);
            assert(all[e] == s[i]);
        }
        lemma_distinct_within(s, all);
    }
}

/// A shortest walk visits no node twice.
pub proof fn lemma_shortest_walk_simple(edges: Seq<EdgeView>, p: Seq<int>, a: int, b: int)
    requires
        walk_between(edges, p, a, b),
        forall|q: Seq<int>| walk_between(edges, q, a, b) ==> q.len() >= p.len(),
    ensures
        p.no_duplicates(),
{
    if !p.no_duplicates() {
        let (i, j) = choose|i: int, j: int|
            0 <= i < p.len() && 0 <= j < p.len() && i != j && p[i] == p[j];
        let lo = if i < j {
            i
        } else {
            j
        };
        let hi = if i < j {
            j
        } else {
            i
        };
        let q = p.subrange(0, lo + 1) + p.subrange(hi + 1, p.len() as int);
        assert(q.len() == p.len() - (hi - lo));
        assert forall|k: int| 0 <= k < q.len() - 1 implies #[trigger] walk_step(edges, q, k) by {
            if k < lo {
                assert(q[k] == p[k] && q[k + 1] == p[k + 1]);
                assert(walk_step(edges, p, k));
            } else if k == lo {
                assert(q[k] == p[lo]);
                assert(q[k + 1] == p[hi + 1]);
                assert(walk_step(edges, p, hi));
            } else {
                let m = k - lo + hi;
                assert(q[k] == p[m] && q[k + 1] == p[m + 1]);
                assert(walk_step(edges, p, m));
            }
        }
        assert(q[0] == p[0]);
        assert(q.last() == p.last()) by {
            if hi == p.len() - 1 {
                assert(q.last() == p[lo]);
            } else {
                assert(q.last() == p[q.len() - 1 - lo + hi]);
            }
        }
        assert(walk_between(edges, q, a, b));
    }
}

} // verus!
