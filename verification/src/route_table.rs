//! The route table: next hops towards every peer that can be reached, and
//! the indexes from overlay addresses and proxied networks to peers.

use vstd::prelude::*;
use crate::cost::{link_costs, NextHopPolicy, RouteCostCalculatorInterface};
use crate::dash::{
    cidr_entries, cidr_map_insert, cidr_map_items, cidr_map_new, hop_entries, hop_map_get,
    hop_map_insert, hop_map_new, id_entries, id_map_get,
    id_map_insert, id_map_new, info_entries, info_map_get, info_map_insert, info_map_keys,
    info_map_new, CidrKey, CidrMap, IdMap, InfoMap, NextHopMap,
};
use crate::graph::graph_edges;
use crate::nat_type::{nat_type_of_code, NatType};
use crate::next_hop::{gen_next_hop_map_with_least_cost, gen_next_hop_map_with_least_hop};
use crate::peer_graph::build_peer_graph_from_synced_info;
use crate::peer_info::PeerInfoView;
use crate::peer_set::seen;
use crate::proxy_cidr::{cidr_contains, cidr_covers, parse_cidr, parsed_cidr};
use crate::synced_info::{DbView, SyncedRouteInfo};
use crate::topology::{lemma_node_count, route_cost, LinkCosts, Topology};
use crate::PeerId;

verus! {

/// Next hops and address indexes computed from the database.
pub struct RouteTable {
    /// The descriptors that were known when the table was built.
    pub peer_infos: InfoMap,
    /// The next hop towards each peer that can be reached, with the cost.
    pub next_hop_map: NextHopMap,
    /// The peer at each overlay address.
    pub ipv4_peer_id_map: IdMap,
    /// The peer that forwards to each proxied network.
    pub cidr_peer_id_map: CidrMap,
}

/// Mathematical content of a route table.
pub struct TableView {
    pub infos: Map<PeerId, PeerInfoView>,
    pub next_hops: Map<PeerId, (PeerId, i32)>,
    pub ipv4: Map<u32, PeerId>,
    pub cidrs: Map<CidrKey, PeerId>,
}

impl View for RouteTable {
    type V = TableView;

    open spec fn view(&self) -> TableView {
        TableView {
            infos: info_entries(self.peer_infos),
            next_hops: hop_entries(self.next_hop_map),
            ipv4: id_entries(self.ipv4_peer_id_map),
            cidrs: cidr_entries(self.cidr_peer_id_map),
        }
    }
}

impl TableView {
    /// Whether the table holds nothing.
    pub open spec fn is_empty(self) -> bool {
        &&& self.infos == Map::<PeerId, PeerInfoView>::empty()
        &&& self.next_hops == Map::<PeerId, (PeerId, i32)>::empty()
        &&& self.ipv4 == Map::<u32, PeerId>::empty()
        &&& self.cidrs == Map::<CidrKey, PeerId>::empty()
    }

    /// Whether every descriptor of the table is held under the id of the
    /// peer that it describes.
    pub open spec fn keyed(self) -> bool {
        forall|k: PeerId| #[trigger] self.infos.contains_key(k) ==> self.infos[k].peer_id == k
    }

    /// Whether `peer` can be reached: the table has a next hop towards it.
    pub open spec fn reaches(self, peer: PeerId) -> bool {
        self.next_hops.contains_key(peer)
    }

    /// Whether `peer` can be reached and its descriptor is at hand.
    pub open spec fn serves(self, peer: PeerId) -> bool {
        self.next_hops.contains_key(peer) && self.infos.contains_key(peer)
    }

    /// Whether the table holds exactly the descriptors of the database that
    /// are no placeholders.
    pub open spec fn holds_known(self, db: DbView) -> bool {
        &&& forall|p: PeerId| #[trigger] self.infos.contains_key(p) <==> db.known(p)
        &&& forall|p: PeerId| #[trigger] self.infos.contains_key(p) ==> self.infos[p] == db.infos[p]
    }

    /// Whether the next hops are those that `policy` chooses: the local peer
    /// leads to itself at cost 0, and every other peer has an entry exactly
    /// when a route leads to it from the local peer.
    pub open spec fn hops_follow(
        self,
        t: Topology,
        my_peer_id: PeerId,
        policy: NextHopPolicy,
        costs: LinkCosts,
    ) -> bool {
        &&& self.next_hops.contains_key(my_peer_id)
        &&& self.next_hops[my_peer_id] == (my_peer_id, 0i32)
        &&& forall|dst: PeerId|
            dst != my_peer_id ==> (#[trigger] self.next_hops.contains_key(dst) <==> t.connects(
                my_peer_id,
                dst,
            ))
        &&& forall|dst: PeerId|
            dst != my_peer_id && #[trigger] self.next_hops.contains_key(dst) ==> match policy {
                NextHopPolicy::LeastHop => t.least_hop_entry(
                    costs,
                    my_peer_id,
                    dst,
                    self.next_hops[dst],
                ),
                NextHopPolicy::LeastCost => t.least_cost_entry(
                    costs,
                    my_peer_id,
                    dst,
                    self.next_hops[dst],
                ),
            }
    }

    /// Whether `peer` advertises the network `key`.
    pub open spec fn advertises(self, peer: PeerId, key: CidrKey) -> bool {
        self.infos.contains_key(peer) && exists|i: int|
            0 <= i < self.infos[peer].proxy_cidrs.len() && parsed_cidr(
                #[trigger] self.infos[peer].proxy_cidrs[i],
            ) == Some(key)
    }

    /// Whether the address index leads only to peers that can be reached and
    /// have the address, and knows the address of every such peer.
    pub open spec fn ipv4_indexed(self) -> bool {
        &&& forall|a: u32| #[trigger]
            self.ipv4.contains_key(a) ==> self.serves(self.ipv4[a])
                && self.infos[self.ipv4[a]].ipv4_addr == Some(a)
        &&& forall|p: PeerId, a: u32|
            self.serves(p) && self.infos[p].ipv4_addr == Some(a) ==> #[trigger] self.ipv4.contains_key(
                a,
            ) || #[trigger] self.infos[p].ipv4_addr != Some(a)
    }

    /// Whether the network index leads only to peers that can be reached and
    /// advertise the network, and knows every network of every such peer.
    pub open spec fn cidrs_indexed(self) -> bool {
        &&& forall|c: CidrKey| #[trigger]
            self.cidrs.contains_key(c) ==> self.reaches(self.cidrs[c]) && self.advertises(
                self.cidrs[c],
                c,
            )
        &&& forall|p: PeerId, c: CidrKey|
            self.reaches(p) && #[trigger] self.advertises(p, c) ==> self.cidrs.contains_key(c)
    }

    /// Whether the table is the one built from `db` for the local peer.
    pub open spec fn describes(
        self,
        db: DbView,
        my_peer_id: PeerId,
        policy: NextHopPolicy,
        costs: LinkCosts,
    ) -> bool {
        if forall|p: PeerId| !db.known(p) {
            self.is_empty()
        } else {
            &&& self.holds_known(db)
            &&& self.hops_follow(db.topology(), my_peer_id, policy, costs)
            &&& self.ipv4_indexed()
            &&& self.cidrs_indexed()
        }
    }
}

/// A table that describes a database in which descriptors are stored under
/// the ids of their peers holds its descriptors under those ids too.
pub proof fn lemma_table_keyed(
    table: TableView,
    db: DbView,
    my_peer_id: PeerId,
    policy: NextHopPolicy,
    costs: LinkCosts,
)
    requires
        table.describes(db, my_peer_id, policy, costs),
        db.keyed(),
    ensures
        table.keyed(),
{
    assert forall|k: PeerId| #[trigger] table.infos.contains_key(k) implies table.infos[k].peer_id
        == k by {
        if forall|p: PeerId| !db.known(p) {
            assert(table.is_empty());
        } else {
            assert(db.known(k));
        }
    }
}

/// A table describes every database that has the same known descriptors and
/// the same adjacency among peers: placeholders and empty adjacency sets
/// make no difference.
pub proof fn lemma_same_routing_content(
    table: TableView,
    a: DbView,
    b: DbView,
    my_peer_id: PeerId,
    policy: NextHopPolicy,
    costs: LinkCosts,
)
    requires
        forall|p: PeerId| a.known(p) == b.known(p),
        forall|p: PeerId| a.known(p) ==> a.infos[p] == b.infos[p],
        forall|x: PeerId, y: PeerId| a.lists(x, y) == b.lists(x, y),
    ensures
        a.topology() == b.topology(),
        table.describes(a, my_peer_id, policy, costs) == table.describes(
            b,
            my_peer_id,
            policy,
            costs,
        ),
{
    assert(a.topology().peers =~= b.topology().peers);
    assert(a.topology().links =~= b.topology().links);
    if forall|p: PeerId| !a.known(p) {
        assert forall|p: PeerId| !b.known(p) by {
            assert(!a.known(p));
        }
    } else {
        let w = choose|p: PeerId| a.known(p);
        assert(b.known(w));
    }
    if forall|p: PeerId| !b.known(p) {
        assert forall|p: PeerId| !a.known(p) by {
            assert(!b.known(p));
        }
    }
    if table.holds_known(a) {
        assert(table.holds_known(b));
    }
    if table.holds_known(b) {
        assert(table.holds_known(a)) by {
            assert forall|p: PeerId| #[trigger] table.infos.contains_key(p) implies table.infos[p]
                == a.infos[p] by {
                assert(b.known(p));
            }
        }
    }
}

/// Under the least-hop policy the cost recorded for a peer is the number of
/// hops of a shortest route to it: a route of that length exists, and none is
/// shorter.
pub proof fn lemma_least_hop_is_distance(
    t: Topology,
    costs: LinkCosts,
    from: PeerId,
    to: PeerId,
    entry: (PeerId, i32),
)
    requires
        t.least_hop_entry(costs, from, to, entry),
    ensures
        exists|r: Seq<PeerId>| #[trigger] t.route_between(r, from, to) && r.len() == entry.1 + 1,
        forall|q: Seq<PeerId>| #[trigger] t.route_between(q, from, to) ==> q.len() >= entry.1 + 1,
{
    let r = choose|r: Seq<PeerId>| #[trigger]
        t.best_short_route(costs, from, to, r) && r.len() >= 2 && r[1] == entry.0 && r.len()
            == entry.1 + 1;
    assert(t.route_between(r, from, to));
}

/// Under the least-cost policy the cost recorded for a peer is the cost of a
/// cheapest route to it: a route of that cost exists, and none is cheaper.
pub proof fn lemma_least_cost_is_shortest(
    t: Topology,
    costs: LinkCosts,
    from: PeerId,
    to: PeerId,
    entry: (PeerId, i32),
)
    requires
        t.least_cost_entry(costs, from, to, entry),
    ensures
        exists|r: Seq<PeerId>|
            t.route_between(r, from, to) && #[trigger] route_cost(costs, r) == entry.1,
        forall|q: Seq<PeerId>|
            t.route_between(q, from, to) ==> entry.1 <= #[trigger] route_cost(costs, q),
{
    let r = choose|r: Seq<PeerId>|
        t.route_between(r, from, to) && r.len() >= 2 && r[1] == entry.0 && #[trigger] route_cost(
            costs,
            r,
        ) == entry.1;
    assert(t.route_between(r, from, to) && route_cost(costs, r) == entry.1);
}

/// In a table built under the least-hop policy, every peer other than the
/// local one is held with the number of hops of a shortest route to it, which
/// is at least 1, and with the second peer of such a route.
pub proof fn lemma_table_holds_hop_distances(
    table: TableView,
    db: DbView,
    my_peer_id: PeerId,
    costs: LinkCosts,
    dst: PeerId,
)
    requires
        table.describes(db, my_peer_id, NextHopPolicy::LeastHop, costs),
        table.reaches(dst),
        dst != my_peer_id,
    ensures
        table.next_hops[dst].1 >= 1,
        exists|r: Seq<PeerId>| #[trigger]
            db.topology().route_between(r, my_peer_id, dst) && r.len() == table.next_hops[dst].1 + 1
                && r[1] == table.next_hops[dst].0,
        forall|q: Seq<PeerId>| #[trigger]
            db.topology().route_between(q, my_peer_id, dst) ==> q.len() >= table.next_hops[dst].1
                + 1,
{
    let t = db.topology();
    let entry = table.next_hops[dst];
    if forall|p: PeerId| !db.known(p) {
        assert(table.is_empty());
    } else {
        assert(table.next_hops.contains_key(dst));
        assert(t.least_hop_entry(costs, my_peer_id, dst, entry));
        let r = choose|r: Seq<PeerId>| #[trigger]
            t.best_short_route(costs, my_peer_id, dst, r) && r.len() >= 2 && r[1] == entry.0
                && r.len() == entry.1 + 1;
        assert(t.route_between(r, my_peer_id, dst) && r.len() == entry.1 + 1 && r[1] == entry.0);
    }
}

/// In a table built under the least-cost policy, every peer other than the
/// local one is held with the cost of a cheapest route to it and with the
/// second peer of such a route.
pub proof fn lemma_table_holds_cheapest_costs(
    table: TableView,
    db: DbView,
    my_peer_id: PeerId,
    costs: LinkCosts,
    dst: PeerId,
)
    requires
        table.describes(db, my_peer_id, NextHopPolicy::LeastCost, costs),
        table.reaches(dst),
        dst != my_peer_id,
    ensures
        exists|r: Seq<PeerId>|
            db.topology().route_between(r, my_peer_id, dst) && r.len() >= 2 && r[1]
                == table.next_hops[dst].0 && #[trigger] route_cost(costs, r)
                == table.next_hops[dst].1,
        forall|q: Seq<PeerId>|
            db.topology().route_between(q, my_peer_id, dst) ==> table.next_hops[dst].1
                <= #[trigger] route_cost(costs, q),
{
    let t = db.topology();
    let entry = table.next_hops[dst];
    if forall|p: PeerId| !db.known(p) {
        assert(table.is_empty());
    } else {
        assert(table.next_hops.contains_key(dst));
        assert(t.least_cost_entry(costs, my_peer_id, dst, entry));
    }
}

/// A peer whose descriptor is in the table and carries an address that no
/// other descriptor of the table carries can be reached exactly when the
/// address index leads to it.
pub proof fn lemma_reachable_iff_indexed(table: TableView, peer: PeerId, addr: u32)
    requires
        table.ipv4_indexed(),
        table.infos.contains_key(peer),
        table.infos[peer].ipv4_addr == Some(addr),
        forall|q: PeerId|
            table.infos.contains_key(q) && table.infos[q].ipv4_addr == Some(addr) ==> q == peer,
    ensures
        table.reaches(peer) <==> table.ipv4.contains_key(addr) && table.ipv4[addr] == peer,
{
    if table.reaches(peer) {
        assert(table.serves(peer));
        assert(table.ipv4.contains_key(addr) || table.infos[peer].ipv4_addr != Some(addr));
    }
}

/// A peer whose descriptor is in the table and advertises a network that no
/// other descriptor of the table advertises can be reached exactly when the
/// network index leads to it.
pub proof fn lemma_reachable_iff_proxied(table: TableView, peer: PeerId, key: CidrKey)
    requires
        table.cidrs_indexed(),
        table.advertises(peer, key),
        forall|q: PeerId| table.advertises(q, key) ==> q == peer,
    ensures
        table.reaches(peer) <==> table.cidrs.contains_key(key) && table.cidrs[key] == peer,
{
}

/// A peer without an address and without networks occurs in neither index.
pub proof fn lemma_unaddressed_not_indexed(table: TableView, peer: PeerId)
    requires
        table.ipv4_indexed(),
        table.cidrs_indexed(),
        table.infos.contains_key(peer),
        table.infos[peer].ipv4_addr is None,
        table.infos[peer].proxy_cidrs.len() == 0,
    ensures
        forall|a: u32| table.ipv4.contains_key(a) ==> table.ipv4[a] != peer,
        forall|c: CidrKey| table.cidrs.contains_key(c) ==> table.cidrs[c] != peer,
{
    assert forall|c: CidrKey| table.cidrs.contains_key(c) implies table.cidrs[c] != peer by {
        if table.cidrs[c] == peer {
            assert(table.advertises(peer, c));
        }
    }
}

impl RouteTable {
    /// An empty table.
    pub fn new() -> (r: Self)
        ensures
            r@.is_empty(),
    {
        RouteTable {
            peer_infos: info_map_new(),
            next_hop_map: hop_map_new(),
            ipv4_peer_id_map: id_map_new(),
            cidr_peer_id_map: cidr_map_new(),
        }
    }

    /// The next hop towards `dst_peer_id` and the cost of the route.
    pub fn get_next_hop(&self, dst_peer_id: PeerId) -> (r: Option<(PeerId, i32)>)
        ensures
            r == (if self@.next_hops.contains_key(dst_peer_id) {
                Some(self@.next_hops[dst_peer_id])
            } else {
                None
            }),
    {
        hop_map_get(&self.next_hop_map, dst_peer_id)
    }

    /// Whether the table has a next hop towards `peer_id`.
    pub fn peer_reachable(&self, peer_id: PeerId) -> (r: bool)
        ensures
            r == self@.reaches(peer_id),
    {
        hop_map_get(&self.next_hop_map, peer_id).is_some()
    }

    /// The NAT type that `peer_id` advertises; `None` for a peer whose
    /// descriptor is not in the table and for a code that stands for no NAT
    /// type.
    pub fn get_nat_type(&self, peer_id: PeerId) -> (r: Option<NatType>)
        ensures
            r == (if self@.infos.contains_key(peer_id) {
                nat_type_of_code(self@.infos[peer_id].udp_stun_info as int)
            } else {
                None
            }),
    {
        match info_map_get(&self.peer_infos, peer_id) {
            Some(info) => NatType::try_from_code(info.udp_stun_info as i32),
            None => None,
        }
    }

    /// The descriptor of `peer_id` as the table holds it.
    pub fn get_peer_info(&self, peer_id: PeerId) -> (r: Option<crate::peer_info::RoutePeerInfo>)
        ensures
            match r {
                Some(info) => self@.infos.contains_key(peer_id) && info@ == self@.infos[peer_id],
                None => !self@.infos.contains_key(peer_id),
            },
    {
        info_map_get(&self.peer_infos, peer_id)
    }

    /// The peers whose descriptors the table holds, each once.
    pub fn list_peers(&self) -> (r: Vec<PeerId>)
        ensures
            r@.no_duplicates(),
            forall|p: PeerId| r@.contains(p) <==> self@.infos.contains_key(p),
    {
        info_map_keys(&self.peer_infos)
    }

    /// The peer at the overlay address `ipv4`.
    pub fn get_peer_id_by_address(&self, ipv4: u32) -> (r: Option<PeerId>)
        ensures
            r == (if self@.ipv4.contains_key(ipv4) {
                Some(self@.ipv4[ipv4])
            } else {
                None
            }),
    {
        id_map_get(&self.ipv4_peer_id_map, ipv4)
    }

    /// A peer that forwards to a network which holds the address `ipv4`;
    /// `None` exactly when no network of the index holds it.
    pub fn get_peer_id_for_proxy(&self, ipv4: u32) -> (r: Option<PeerId>)
        ensures
            match r {
                Some(p) => exists|c: CidrKey| #[trigger]
                    self@.cidrs.contains_key(c) && cidr_covers(c, ipv4) && self@.cidrs[c] == p,
                None => forall|c: CidrKey| #[trigger]
                    self@.cidrs.contains_key(c) ==> !cidr_covers(c, ipv4),
            },
    {
        let items = cidr_map_items(&self.cidr_peer_id_map);
        let mut i: usize = 0;
        while i < items.len()
            invariant
                i <= items@.len(),
                forall|k: int|
                    0 <= k < items@.len() ==> self@.cidrs.contains_key((#[trigger] items@[k]).0)
                        && self@.cidrs[items@[k].0] == items@[k].1,
                forall|k: int| 0 <= k < i ==> !cidr_covers((#[trigger] items@[k]).0, ipv4),
            decreases items@.len() - i,
        {
            if cidr_contains(&items[i].0, ipv4) {
                assert(self@.cidrs.contains_key(items@[i as int].0));
                return Some(items[i].1);
            }
            i += 1;
        }
        assert forall|c: CidrKey| #[trigger] self@.cidrs.contains_key(c) implies !cidr_covers(
            c,
            ipv4,
        ) by {
            let k = choose|k: int| 0 <= k < items@.len() && (#[trigger] items@[k]).0 == c;
            assert(!cidr_covers(items@[k].0, ipv4));
        }
        None
    }

    /// Rebuilds the table from the database for the local peer `my_peer_id`.
    ///
    /// The table takes the descriptors that are no placeholders, the next
    /// hops that `policy` chooses among the routes through them, and the
    /// indexes of the addresses and networks of the peers that can be
    /// reached. A network that does not parse is left out of the index. A
    /// local peer whose descriptor is not known reaches nobody but itself.
    ///
    /// Nothing is built, and the table stays as it is, where the graph
    /// library cannot hold the topology or, under the least-cost policy, a
    /// link has a negative cost or the cheapest route to some peer costs more
    /// than an `i32` holds.
    pub fn build_from_synced_info<C: RouteCostCalculatorInterface>(
        &mut self,
        my_peer_id: PeerId,
        synced_info: &SyncedRouteInfo,
        policy: NextHopPolicy,
        cost_calc: &C,
    ) -> (built: bool)
        ensures
            built == (synced_info@.topology().fits() && (policy == NextHopPolicy::LeastCost
                ==> synced_info@.topology().admits(link_costs(cost_calc))
                && synced_info@.topology().affords(link_costs(cost_calc), my_peer_id))),
            built ==> final(self)@.describes(
                synced_info@,
                my_peer_id,
                policy,
                link_costs(cost_calc),
            ),
            built && synced_info@.keyed() ==> final(self)@.keyed(),
            !built ==> final(self)@ == old(self)@,
    {
        let ghost db = synced_info@;
        let ghost costs = link_costs(cost_calc);
        let keys = info_map_keys(&synced_info.peer_infos);
        let mut infos = info_map_new();
        let mut peers: Vec<PeerId> = Vec::new();
        let mut i: usize = 0;
        while i < keys.len()
            invariant
                i <= keys@.len(),
                db == synced_info@,
                keys@.no_duplicates(),
                forall|k: PeerId| keys@.contains(k) <==> db.infos.contains_key(k),
                peers@.no_duplicates(),
                forall|p: PeerId|
                    #[trigger] peers@.contains(p) <==> db.known(p) && seen(keys@, i as int, p),
                forall|p: PeerId| #[trigger] info_entries(infos).contains_key(p) <==> peers@.contains(p),
                forall|p: PeerId| #[trigger]
                    info_entries(infos).contains_key(p) ==> db.infos.contains_key(p)
                        && info_entries(infos)[p] == db.infos[p],
            decreases keys@.len() - i,
        {
            let peer = keys[i];
            let ghost old_peers = peers@;
            let ghost old_infos = info_entries(infos);
            assert(keys@.contains(peer));
            match info_map_get(&synced_info.peer_infos, peer) {
                Some(info) => {
                    if info.version != 0 {
                        info_map_insert(&mut infos, peer, info);
                        peers.push(peer);
                        proof {
                            assert(!old_peers.contains(peer)) by {
                                if old_peers.contains(peer) {
                                    assert(seen(keys@, i as int, peer));
                                    let k = choose|k: int| 0 <= k < i && #[trigger] keys@[k] == peer;
                                    assert(keys@[k] == keys@[i as int]);
                                }
                            }
                            assert forall|a: int, b: int|
                                0 <= a < peers@.len() && 0 <= b < peers@.len() && a
                                    != b implies peers@[a] != peers@[b] by {
                                if a < old_peers.len() {
                                    assert(old_peers.contains(old_peers[a]));
                                }
                                if b < old_peers.len() {
                                    assert(old_peers.contains(old_peers[b]));
                                }
                            }
                        }
                    }
                },
                None => {},
            }
            proof {
                assert forall|p: PeerId|
                    #[trigger] peers@.contains(p) <==> db.known(p) && seen(keys@, i + 1, p) by {
                    if peers@.contains(p) {
                        let j = choose|j: int| 0 <= j < peers@.len() && peers@[j] == p;
                        if j < old_peers.len() {
                            assert(old_peers[j] == p);
                            assert(old_peers.contains(p));
                            assert(seen(keys@, i as int, p));
                            let k = choose|k: int| 0 <= k < i && #[trigger] keys@[k] == p;
                            assert(0 <= k < i + 1 && keys@[k] == p);
                        } else {
                            assert(keys@[i as int] == p);
                        }
                    }
                    if db.known(p) && seen(keys@, i + 1, p) {
                        let k = choose|k: int| 0 <= k < i + 1 && #[trigger] keys@[k] == p;
                        if k < i {
                            assert(seen(keys@, i as int, p));
                            assert(old_peers.contains(p));
                            let j = choose|j: int| 0 <= j < old_peers.len() && old_peers[j] == p;
                            assert(peers@[j] == p);
                        } else {
                            assert(peers@[peers@.len() - 1] == p);
                        }
                    }
                }
                assert forall|p: PeerId| #[trigger]
                    info_entries(infos).contains_key(p) <==> peers@.contains(p) by {
                    if old_peers.contains(p) {
                        let j = choose|j: int| 0 <= j < old_peers.len() && old_peers[j] == p;
                        assert(peers@[j] == p);
                    }
                    if peers@.contains(p) && p != peer {
                        let j = choose|j: int| 0 <= j < peers@.len() && peers@[j] == p;
                        assert(old_peers[j] == p);
                    }
                    if p == peer && peers@.len() > old_peers.len() {
                        assert(peers@[peers@.len() - 1] == p);
                    }
                }
            }
            i += 1;
        }
        proof {
            assert forall|p: PeerId| peers@.contains(p) <==> db.known(p) by {
                if db.known(p) {
                    assert(keys@.contains(p));
                    let k = choose|k: int| 0 <= k < keys@.len() && keys@[k] == p;
                    assert(seen(keys@, keys@.len() as int, p));
                }
            }
        }
        if peers.len() == 0 {
            proof {
                assert forall|p: PeerId| !db.known(p) by {
                    if db.known(p) {
                        assert(peers@.contains(p));
                    }
                }
                let t = db.topology();
                assert(t.peers =~= Set::<PeerId>::empty());
                assert(!t.has_links(crate::graph::GRAPH_LIMIT + 1)) by {
                    if t.has_links(crate::graph::GRAPH_LIMIT + 1) {
                        let s = choose|s: Seq<(PeerId, PeerId)>|
                            t.distinct_links(s) && s.len() == crate::graph::GRAPH_LIMIT + 1;
                        assert(t.links.contains(s[0]));
                    }
                }
            }
            self.peer_infos = info_map_new();
            self.next_hop_map = hop_map_new();
            self.ipv4_peer_id_map = id_map_new();
            self.cidr_peer_id_map = cidr_map_new();
            proof {
                assert(self@.is_empty());
                assert(self@.keyed());
            }
            return true;
        }
        let ghost t = db.topology();
        proof {
            assert(peers@.to_set() =~= Set::new(|p: PeerId| db.known(p)));
            assert(db.known(peers@[0])) by {
                assert(peers@.contains(peers@[0]));
            }
        }
        let (graph, idx_map, admissible) = match build_peer_graph_from_synced_info(
            &peers,
            synced_info,
            cost_calc,
        ) {
            Some(b) => b,
            None => {
                return false;
            },
        };
        proof {
            lemma_node_count(peers@, graph_edges(graph), t, costs);
        }
        let mut hops = match policy {
            NextHopPolicy::LeastHop => gen_next_hop_map_with_least_hop(
                my_peer_id,
                &graph,
                &idx_map,
                cost_calc,
                Ghost(t),
            ),
            NextHopPolicy::LeastCost => {
                if !admissible {
                    return false;
                }
                match gen_next_hop_map_with_least_cost(
                    my_peer_id,
                    &graph,
                    &idx_map,
                    Ghost(t),
                    Ghost(costs),
                ) {
                    Some(hops) => hops,
                    None => {
                        return false;
                    },
                }
            },
        };
        hop_map_insert(&mut hops, my_peer_id, (my_peer_id, 0));

        let mut ipv4_map = id_map_new();
        let mut cidr_map = cidr_map_new();
        let ghost table = TableView {
            infos: info_entries(infos),
            next_hops: hop_entries(hops),
            ipv4: Map::empty(),
            cidrs: Map::empty(),
        };
        let mut k: usize = 0;
        while k < peers.len()
            invariant
                k <= peers@.len(),
                peers@.no_duplicates(),
                forall|p: PeerId| #[trigger] info_entries(infos).contains_key(p) <==> peers@.contains(p),
                table.infos == info_entries(infos),
                table.next_hops == hop_entries(hops),
                forall|a: u32| #[trigger]
                    id_entries(ipv4_map).contains_key(a) ==> table.serves(id_entries(ipv4_map)[a])
                        && table.infos[id_entries(ipv4_map)[a]].ipv4_addr == Some(a),
                forall|j: int, a: u32|
                    0 <= j < k && table.serves(#[trigger] peers@[j]) && table.infos[peers@[j]].ipv4_addr
                        == Some(a) ==> #[trigger] id_entries(ipv4_map).contains_key(a),
                forall|c: CidrKey| #[trigger]
                    cidr_entries(cidr_map).contains_key(c) ==> table.reaches(
                        cidr_entries(cidr_map)[c],
                    ) && table.advertises(cidr_entries(cidr_map)[c], c),
                forall|j: int, c: CidrKey|
                    0 <= j < k && table.reaches(#[trigger] peers@[j]) && #[trigger] table.advertises(
                        peers@[j],
                        c,
                    ) ==> cidr_entries(cidr_map).contains_key(c),
            decreases peers@.len() - k,
        {
            let peer = peers[k];
            assert(peers@.contains(peer));
            if hop_map_get(&hops, peer).is_some() {
                match info_map_get(&infos, peer) {
                    Some(info) => {
                        match info.ipv4_addr {
                            Some(addr) => {
                                id_map_insert(&mut ipv4_map, addr, peer);
                            },
                            None => {},
                        }
                        let mut j: usize = 0;
                        while j < info.proxy_cidrs.len()
                            invariant
                                j <= info.proxy_cidrs@.len(),
                                k < peers@.len(),
                                table.reaches(peer),
                                table.infos.contains_key(peer),
                                table.infos[peer] == info@,
                                forall|c: CidrKey| #[trigger]
                                    cidr_entries(cidr_map).contains_key(c) ==> table.reaches(
                                        cidr_entries(cidr_map)[c],
                                    ) && table.advertises(cidr_entries(cidr_map)[c], c),
                                forall|m: int, c: CidrKey|
                                    0 <= m < k && table.reaches(#[trigger] peers@[m])
                                        && #[trigger] table.advertises(peers@[m], c)
                                        ==> cidr_entries(cidr_map).contains_key(c),
                                forall|m: int|
                                    0 <= m < j ==> (parsed_cidr(
                                        #[trigger] info@.proxy_cidrs[m],
                                    ) matches Some(c) ==> cidr_entries(cidr_map).contains_key(c)),
                            decreases info.proxy_cidrs@.len() - j,
                        {
                            assert(info@.proxy_cidrs[j as int] == info.proxy_cidrs@[j as int]@);
                            match parse_cidr(info.proxy_cidrs[j].as_str()) {
                                Some(key) => {
                                    cidr_map_insert(&mut cidr_map, key, peer);
                                    assert(table.advertises(peer, key));
                                },
                                None => {},
                            }
                            j += 1;
                        }
                        proof {
                            assert forall|c: CidrKey| #[trigger]
                                table.advertises(peer, c) implies cidr_entries(
                                cidr_map,
                            ).contains_key(c) by {
                                let m = choose|m: int|
                                    0 <= m < table.infos[peer].proxy_cidrs.len() && parsed_cidr(
                                        #[trigger] table.infos[peer].proxy_cidrs[m],
                                    ) == Some(c);
                                assert(parsed_cidr(info@.proxy_cidrs[m]) == Some(c));
                            }
                        }
                    },
                    None => {
                        assert(false);
                    },
                }
            }
            k += 1;
        }
        self.peer_infos = infos;
        self.next_hop_map = hops;
        self.ipv4_peer_id_map = ipv4_map;
        self.cidr_peer_id_map = cidr_map;
        proof {
            let fin = self@;
            assert(fin.infos == table.infos && fin.next_hops == table.next_hops);
            assert(fin.holds_known(db));
            assert(fin.ipv4_indexed()) by {
                assert forall|p: PeerId, a: u32|
                    fin.serves(p) && fin.infos[p].ipv4_addr == Some(a) implies #[trigger] fin.ipv4.contains_key(
                    a,
                ) || #[trigger] fin.infos[p].ipv4_addr != Some(a) by {
                    assert(peers@.contains(p));
                    let j = choose|j: int| 0 <= j < peers@.len() && peers@[j] == p;
                    assert(table.serves(peers@[j]));
                }
            }
            assert(fin.cidrs_indexed()) by {
                assert forall|p: PeerId, c: CidrKey|
                    fin.reaches(p) && #[trigger] fin.advertises(p, c) implies fin.cidrs.contains_key(
                    c,
                ) by {
                    assert(peers@.contains(p));
                    let j = choose|j: int| 0 <= j < peers@.len() && peers@[j] == p;
                    assert(table.reaches(peers@[j]) && table.advertises(peers@[j], c));
                }
            }
            assert(fin.hops_follow(t, my_peer_id, policy, costs));
            if db.keyed() {
                lemma_table_keyed(fin, db, my_peer_id, policy, costs);
            }
        }
        true
    }
}

} // verus!
