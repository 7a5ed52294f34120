//! The routing core as the rest of a node sees it.

use vstd::prelude::*;
use crate::cost::{DefaultRouteCostCalculator, NextHopPolicy, RouteCostCalculatorInterface};
use crate::peer_info::{LocalContext, PeerInfoView};
use crate::peer_set::{seen, PeerSet};
use crate::proxy_cidr::cidr_covers;
use crate::dash::CidrKey;
use crate::route::{Route, RouteView};
use crate::route_table::TableView;
use crate::service::{PeerRouteServiceImpl, RebuildOutcome};
use crate::session_mgr::RouteSessionManager;
use crate::synced_info::DbView;
use crate::topology::LinkCosts;
use crate::{PeerId, Timestamp};

verus! {

/// Version of the route protocol that `open` reports.
pub const PROTOCOL_VERSION: u8 = 1;

/// The routing core of one node.
pub struct PeerRoute<C: RouteCostCalculatorInterface> {
    pub my_peer_id: PeerId,
    pub session_mgr: RouteSessionManager<C>,
}

/// The route record of `key` in a table.
pub open spec fn listed_route(table: TableView, key: PeerId, build_version: Seq<char>) -> RouteView {
    RouteView {
        next_hop_peer_id: table.next_hops[key].0,
        cost: table.next_hops[key].1,
        ..table.infos[key].as_route(build_version)
    }
}

/// Whether `routes` are the records of `keys`, one for each key in turn.
pub open spec fn routes_of_keys(
    routes: Seq<Route>,
    keys: Seq<PeerId>,
    table: TableView,
    build_version: Seq<char>,
) -> bool {
    &&& routes.len() == keys.len()
    &&& forall|i: int|
        0 <= i < keys.len() ==> (#[trigger] routes[i])@ == listed_route(
            table,
            keys[i],
            build_version,
        )
}

/// Whether `keys` lists, each once, the peers other than the local one that
/// can be reached and whose descriptor is at hand.
pub open spec fn is_listed_keys(keys: Seq<PeerId>, table: TableView, my_peer_id: PeerId) -> bool {
    &&& keys.no_duplicates()
    &&& forall|k: PeerId| keys.contains(k) <==> k != my_peer_id && table.serves(k)
}

/// Where descriptors are stored under the ids of their peers, every listed
/// route names a peer other than the local one that can be reached and whose
/// descriptor is stored at a version of at least 1: the id of a placeholder
/// is never listed.
pub proof fn lemma_listed_routes_name_known_peers(
    routes: Seq<Route>,
    keys: Seq<PeerId>,
    table: TableView,
    db: DbView,
    my_peer_id: PeerId,
    costs: LinkCosts,
    build_version: Seq<char>,
    i: int,
)
    requires
        table.describes(db, my_peer_id, NextHopPolicy::LeastHop, costs),
        db.keyed(),
        routes_of_keys(routes, keys, table, build_version),
        is_listed_keys(keys, table, my_peer_id),
        0 <= i < routes.len(),
    ensures
        routes[i].peer_id != my_peer_id,
        table.reaches(routes[i].peer_id),
        db.infos.contains_key(routes[i].peer_id),
        db.infos[routes[i].peer_id].version >= 1,
{
    crate::route_table::lemma_table_keyed(table, db, my_peer_id, NextHopPolicy::LeastHop, costs);
    assert(keys.contains(keys[i]));
    assert(routes[i]@ == listed_route(table, keys[i], build_version));
    lemma_no_placeholder_listed(table, db, my_peer_id, NextHopPolicy::LeastHop, costs, keys[i]);
}

/// A table that describes a database holds no placeholder: whatever is
/// listed from it carries a version of at least 1.
pub proof fn lemma_no_placeholder_listed(
    table: TableView,
    db: DbView,
    my_peer_id: PeerId,
    policy: NextHopPolicy,
    costs: LinkCosts,
    peer: PeerId,
)
    requires
        table.describes(db, my_peer_id, policy, costs),
        table.infos.contains_key(peer),
    ensures
        db.infos.contains_key(peer),
        table.infos[peer] == db.infos[peer],
        table.infos[peer].version >= 1,
{
    if forall|p: PeerId| !db.known(p) {
        assert(table.is_empty());
        assert(table.infos.contains_key(peer));
    } else {
        assert(db.known(peer));
    }
}

impl PeerRoute<DefaultRouteCostCalculator> {
    /// The routing core of the local peer `my_peer_id`, with every link at
    /// cost 1.
    pub fn new(my_peer_id: PeerId, global_ctx: LocalContext) -> (r: Self)
        ensures
            r.my_peer_id == my_peer_id,
            r.session_mgr.cur_dst_peer_id_to_initiate is None,
            r.session_mgr.service_impl matches Some(service) && service.my_peer_id == my_peer_id
                && service.global_ctx == global_ctx && service.route_table@.is_empty()
                && service.route_table_with_cost@.is_empty() && service.session_views()
                == Map::<PeerId, crate::session::SessionView>::empty()
                && service.synced_route_info@.infos == Map::<PeerId, PeerInfoView>::empty(),
            r.keyed(),
    {
        Self::with_cost_calculator(my_peer_id, global_ctx, DefaultRouteCostCalculator)
    }
}

impl<C: RouteCostCalculatorInterface> PeerRoute<C> {
    /// The routing core of the local peer `my_peer_id` with the calculator
    /// given.
    pub fn with_cost_calculator(my_peer_id: PeerId, global_ctx: LocalContext, cost_calculator: C) -> (r:
        Self)
        ensures
            r.my_peer_id == my_peer_id,
            r.session_mgr.cur_dst_peer_id_to_initiate is None,
            r.session_mgr.service_impl matches Some(service) && service.my_peer_id == my_peer_id
                && service.global_ctx == global_ctx && service.cost_calculator == cost_calculator
                && service.route_table@.is_empty() && service.route_table_with_cost@.is_empty()
                && service.session_views() == Map::<PeerId, crate::session::SessionView>::empty()
                && service.synced_route_info@.infos == Map::<PeerId, PeerInfoView>::empty(),
            r.keyed(),
    {
        let service = PeerRouteServiceImpl::new(my_peer_id, global_ctx, cost_calculator);
        PeerRoute { my_peer_id, session_mgr: RouteSessionManager::new(service) }
    }

    /// Whether the service, while there is one, holds every descriptor that
    /// is no placeholder under the id of the peer that it describes. A new
    /// routing core has it so, and no function of it gives it up.
    pub open spec fn keyed(&self) -> bool {
        self.session_mgr.keyed()
    }

    /// The table of `policy`; an empty one once the service was shut down.
    pub open spec fn table(&self, policy: NextHopPolicy) -> TableView {
        match self.session_mgr.service_impl {
            Some(service) => match policy {
                NextHopPolicy::LeastHop => service.route_table@,
                NextHopPolicy::LeastCost => service.route_table_with_cost@,
            },
            None => TableView {
                infos: Map::empty(),
                next_hops: Map::empty(),
                ipv4: Map::empty(),
                cidrs: Map::empty(),
            },
        }
    }

    /// Takes the routing core into service and reports the version of the
    /// route protocol.
    pub fn open(&self) -> (r: Result<u8, ()>)
        ensures
            r == Ok::<u8, ()>(PROTOCOL_VERSION),
    {
        Ok(PROTOCOL_VERSION)
    }

    /// Takes the routing core out of service. Nothing is torn down here.
    pub fn close(&self) {
    }

    /// The next hop towards `dst_peer_id` under the least-hop policy.
    pub fn get_next_hop(&self, dst_peer_id: PeerId) -> (r: Option<PeerId>)
        ensures
            r == (if self.table(NextHopPolicy::LeastHop).next_hops.contains_key(dst_peer_id) {
                Some(self.table(NextHopPolicy::LeastHop).next_hops[dst_peer_id].0)
            } else {
                None
            }),
    {
        self.get_next_hop_with_policy(dst_peer_id, NextHopPolicy::LeastHop)
    }

    /// The next hop towards `dst_peer_id` under `policy`.
    pub fn get_next_hop_with_policy(&self, dst_peer_id: PeerId, policy: NextHopPolicy) -> (r: Option<
        PeerId,
    >)
        ensures
            r == (if self.table(policy).next_hops.contains_key(dst_peer_id) {
                Some(self.table(policy).next_hops[dst_peer_id].0)
            } else {
                None
            }),
    {
        match &self.session_mgr.service_impl {
            Some(service) => {
                let hop = match policy {
                    NextHopPolicy::LeastCost => service.route_table_with_cost.get_next_hop(
                        dst_peer_id,
                    ),
                    NextHopPolicy::LeastHop => service.route_table.get_next_hop(dst_peer_id),
                };
                match hop {
                    Some(h) => Some(h.0),
                    None => None,
                }
            },
            None => None,
        }
    }

    /// The routes of the least-hop table to every peer but the local one
    /// that can be reached and whose descriptor is at hand: one record for
    /// each, in some order, with its next hop and cost. `build_version` is
    /// the version of the program that lists the routes.
    pub fn list_routes(&self, build_version: &str) -> (routes: Vec<Route>)
        ensures
            exists|keys: Seq<PeerId>| #[trigger]
                routes_of_keys(
                    routes@,
                    keys,
                    self.table(NextHopPolicy::LeastHop),
                    build_version@,
                ) && is_listed_keys(keys, self.table(NextHopPolicy::LeastHop), self.my_peer_id),
            self.keyed() ==> forall|i: int|
                0 <= i < routes@.len() ==> (#[trigger] routes@[i]).peer_id != self.my_peer_id
                    && self.table(NextHopPolicy::LeastHop).serves(routes@[i].peer_id),
    {
        let mut routes: Vec<Route> = Vec::new();
        let ghost mut picked: Seq<PeerId> = Seq::empty();
        let service = match &self.session_mgr.service_impl {
            Some(s) => s,
            None => {
                proof {
                    let table = self.table(NextHopPolicy::LeastHop);
                    assert(routes_of_keys(routes@, picked, table, build_version@));
                    assert(is_listed_keys(picked, table, self.my_peer_id));
                }
                return routes;
            },
        };
        let ghost table = service.route_table@;
        let ghost me = self.my_peer_id;
        let ghost bv = build_version@;
        let keys = service.route_table.list_peers();
        let mut i: usize = 0;
        while i < keys.len()
            invariant
                i <= keys@.len(),
                table == service.route_table@,
                me == self.my_peer_id,
                bv == build_version@,
                keys@.no_duplicates(),
                forall|p: PeerId| keys@.contains(p) <==> table.infos.contains_key(p),
                routes_of_keys(routes@, picked, table, bv),
                picked.no_duplicates(),
                forall|k: PeerId|
                    #[trigger] picked.contains(k) <==> k != me && table.serves(k) && seen(
                        keys@,
                        i as int,
                        k,
                    ),
            decreases keys@.len() - i,
        {
            let key = keys[i];
            let ghost before = routes@;
            let ghost picked_before = picked;
            assert(keys@.contains(key));
            proof {
                assert(!seen(keys@, i as int, key)) by {
                    if seen(keys@, i as int, key) {
                        let k = choose|k: int| 0 <= k < i && #[trigger] keys@[k] == key;
                        assert(keys@[k] == keys@[i as int]);
                    }
                }
                assert forall|k: PeerId|
                    seen(keys@, i + 1, k) <==> seen(keys@, i as int, k) || k == key by {
                    crate::peer_set::lemma_seen_step(keys@, i as int, k);
                }
            }
            if key != self.my_peer_id {
                match service.route_table.get_next_hop(key) {
                    Some(next_hop_peer) => {
                        match service.route_table.get_peer_info(key) {
                            Some(info) => {
                                let mut route = info.into(build_version);
                                route.next_hop_peer_id = next_hop_peer.0;
                                route.cost = next_hop_peer.1;
                                assert(route@ == listed_route(table, key, bv));
                                routes.push(route);
                                proof {
                                    picked = picked.push(key);
                                    assert forall|j: int| 0 <= j < picked.len() implies (
                                    #[trigger] routes@[j])@ == listed_route(table, picked[j], bv) by {
                                        if j < before.len() {
                                            assert(routes@[j] == before[j]);
                                            assert(picked[j] == picked_before[j]);
                                        }
                                    }
                                    assert forall|k: PeerId| #[trigger]
                                        picked.contains(k) <==> picked_before.contains(k) || k
                                            == key by {
                                        if picked.contains(k) {
                                            let j = choose|j: int|
                                                0 <= j < picked.len() && picked[j] == k;
                                            if j < picked_before.len() {
                                                assert(picked_before[j] == k);
                                            }
                                        }
                                        if picked_before.contains(k) {
                                            let j = choose|j: int|
                                                0 <= j < picked_before.len() && picked_before[j]
                                                    == k;
                                            assert(picked[j] == k);
                                        }
                                        if k == key {
                                            assert(picked[picked_before.len() as int] == k);
                                        }
                                    }
                                    assert forall|a: int, b: int|
                                        0 <= a < picked.len() && 0 <= b < picked.len() && a
                                            != b implies picked[a] != picked[b] by {
                                        if a < picked_before.len() {
                                            assert(picked_before.contains(picked_before[a]));
                                        }
                                        if b < picked_before.len() {
                                            assert(picked_before.contains(picked_before[b]));
                                        }
                                    }
                                }
                            },
                            None => {
                                assert(false);
                            },
                        }
                    },
                    None => {},
                }
            }
            i += 1;
        }
        proof {
            assert forall|k: PeerId| picked.contains(k) <==> k != me && table.serves(k) by {
                if k != me && table.serves(k) {
                    assert(keys@.contains(k));
                    let j = choose|j: int| 0 <= j < keys@.len() && keys@[j] == k;
                    assert(seen(keys@, keys@.len() as int, k));
                }
            }
            assert(is_listed_keys(picked, table, me));
            assert(self.session_mgr.service_impl == Some(*service));
            assert(table == self.table(NextHopPolicy::LeastHop));
            assert(routes_of_keys(routes@, picked, self.table(NextHopPolicy::LeastHop), bv));
            if table.keyed() {
                assert forall|i: int| 0 <= i < routes@.len() implies (#[trigger] routes@[i]).peer_id
                    != me && table.serves(routes@[i].peer_id) by {
                    assert(routes@[i]@ == listed_route(table, picked[i], bv));
                    assert(picked.contains(picked[i]));
                    assert(table.infos.contains_key(picked[i]));
                }
            }
        }
        routes
    }

    /// The peer to which traffic for the address `ipv4_addr` goes: the peer
    /// with that overlay address, or else a peer that forwards to a network
    /// which holds the address.
    pub fn get_peer_id_by_ipv4(&self, ipv4_addr: u32) -> (r: Option<PeerId>)
        ensures
            ({
                let table = self.table(NextHopPolicy::LeastHop);
                if table.ipv4.contains_key(ipv4_addr) {
                    r == Some(table.ipv4[ipv4_addr])
                } else {
                    match r {
                        Some(p) => exists|c: CidrKey| #[trigger]
                            table.cidrs.contains_key(c) && cidr_covers(c, ipv4_addr)
                                && table.cidrs[c] == p,
                        None => forall|c: CidrKey| #[trigger]
                            table.cidrs.contains_key(c) ==> !cidr_covers(c, ipv4_addr),
                    }
                }
            }),
    {
        let service = match &self.session_mgr.service_impl {
            Some(s) => s,
            None => {
                return None;
            },
        };
        match service.route_table.get_peer_id_by_address(ipv4_addr) {
            Some(peer_id) => Some(peer_id),
            None => service.route_table.get_peer_id_for_proxy(ipv4_addr),
        }
    }

    /// Drops what expired from the database, as the periodic sweep does.
    pub fn clear_expired_peer(&mut self, now: Timestamp)
        ensures
            final(self).my_peer_id == old(self).my_peer_id,
            final(self).session_mgr.cur_dst_peer_id_to_initiate == old(self).session_mgr.cur_dst_peer_id_to_initiate,
            old(self).session_mgr.service_impl is None ==> final(self).session_mgr.service_impl is None,
            old(self).session_mgr.service_impl matches Some(before) ==> (final(self).session_mgr.service_impl matches Some(after) && after.synced_route_info@
                == before.synced_route_info@.expire(now) && after.session_views()
                == before.session_views() && after.route_table == before.route_table
                && after.route_table_with_cost == before.route_table_with_cost),
            old(self).keyed() ==> final(self).keyed(),
    {
        match self.session_mgr.service_impl.take() {
            Some(mut service) => {
                service.clear_expired_peer(now);
                self.session_mgr.service_impl = Some(service);
            },
            None => {},
        }
    }

    /// One round of the routine that keeps the local records fresh: the
    /// local descriptor and the local adjacency set are refreshed, and the
    /// route tables are rebuilt where the calculator asks for it. Says
    /// whether a local record changed, which calls for an exchange at once.
    pub fn update_my_peer_info_routine(&mut self, connected_peers: PeerSet, now: Timestamp) -> (changed:
        bool)
        requires
            old(self).session_mgr.service_impl matches Some(service)
                ==> (service.synced_route_info@.local_before(service.my_peer_id, now).refresh_bumps(
                service.my_peer_id,
                service.global_ctx@,
                now,
            ) ==> service.synced_route_info@.stored_version(service.my_peer_id) < u32::MAX),
        ensures
            final(self).my_peer_id == old(self).my_peer_id,
            final(self).session_mgr.cur_dst_peer_id_to_initiate == old(self).session_mgr.cur_dst_peer_id_to_initiate,
            old(self).session_mgr.service_impl is None ==> !changed && final(self).session_mgr.service_impl is None,
            old(self).session_mgr.service_impl matches Some(before) ==> (final(self).session_mgr.service_impl matches Some(after) && {
                let refreshed = before.synced_route_info@.refresh_self(
                    before.my_peer_id,
                    before.global_ctx@,
                    now,
                );
                &&& after.synced_route_info@ == refreshed.refresh_self_neighbors(
                    before.my_peer_id,
                    connected_peers@,
                    now,
                )
                &&& changed == (before.synced_route_info@.local_before(
                    before.my_peer_id,
                    now,
                ).refresh_bumps(before.my_peer_id, before.global_ctx@, now)
                    || refreshed.local_conns_before(before.my_peer_id).0 != connected_peers@)
                &&& after.session_views() == before.session_views()
                &&& after.my_peer_id == before.my_peer_id
                &&& changed ==> after.rebuilt_tables()
                &&& !changed ==> after.cached_local_conn_map == before.cached_local_conn_map
                &&& !changed ==> (after.route_table@ == before.route_table@
                    && after.route_table_with_cost@ == before.route_table_with_cost@)
                    || after.rebuilt_tables()
            }),
            old(self).keyed() ==> final(self).keyed(),
    {
        match self.session_mgr.service_impl.take() {
            Some(mut service) => {
                let changed = service.update_my_infos(connected_peers, now);
                if service.cost_calculator_need_update() {
                    let outcome = service.update_route_table();
                    proof {
                        assert(service.tables_rebuilt(outcome));
                    }
                }
                self.session_mgr.service_impl = Some(service);
                changed
            },
            None => false,
        }
    }

    /// Installs another cost calculator and rebuilds both route tables under
    /// the costs that it reports after its `begin_update`. `None` once the
    /// service was shut down.
    pub fn set_route_cost_fn(&mut self, cost_fn: C) -> (r: Option<RebuildOutcome>)
        ensures
            r is Some <==> old(self).session_mgr.service_impl is Some,
            final(self).my_peer_id == old(self).my_peer_id,
            final(self).session_mgr.cur_dst_peer_id_to_initiate == old(self).session_mgr.cur_dst_peer_id_to_initiate,
            old(self).session_mgr.service_impl matches Some(before) ==> (final(self).session_mgr.service_impl matches Some(after) && r matches Some(outcome)
                && after.rebuilt_with(cost_fn, outcome) && after.tables_rebuilt(outcome)
                && outcome.least_hop_built == before.synced_route_info@.topology().fits()
                && (!outcome.least_hop_built ==> after.route_table@ == before.route_table@) && (
            !outcome.least_cost_built ==> after.route_table_with_cost@
                == before.route_table_with_cost@) && after.synced_route_info
                == before.synced_route_info && after.session_views() == before.session_views()
                && after.my_peer_id == before.my_peer_id && after.cached_local_conn_map
                == before.cached_local_conn_map && after.last_rebuild == r),
            old(self).keyed() ==> final(self).keyed(),
    {
        let mut service = match self.session_mgr.service_impl.take() {
            Some(s) => s,
            None => {
                return None;
            },
        };
        service.cost_calculator = cost_fn;
        let outcome = service.update_route_table();
        self.session_mgr.service_impl = Some(service);
        Some(outcome)
    }
}

} // verus!
