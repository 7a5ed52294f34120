//! The routing service of one node: it owns the database, both route tables,
//! the sessions and the adjacency matrix that is sent to neighbours, and
//! keeps them in step.

use vstd::prelude::*;
use std::collections::BTreeSet;
use crate::conn_bitmap::RouteConnBitmap;
use crate::cost::{link_costs, NextHopPolicy, RouteCostCalculatorInterface};
use crate::dash::{
    conn_map_get, conn_map_keys, id_map_get, info_map_get, info_map_keys, session_entries,
    session_map_contains_key, session_map_get, session_map_insert, session_map_keys,
    session_map_new, session_map_remove, SessionMap,
};
use crate::error::Error;
use crate::peer_info::{LocalContext, PeerInfoView, RoutePeerInfo};
use crate::peer_set::{
    ascending, seen, set_contains, set_insert_all, set_members, sorted_peers, PeerSet,
};
use crate::route_table::{lemma_same_routing_content, RouteTable, TableView};
use crate::session::{info_labels, raise_versions, SessionView, SyncRouteSession};
use crate::synced_info::{label_ids, DbView, SyncedRouteInfo};
use crate::topology::{lemma_distinct_within, LinkCosts};
use crate::{PeerId, SessionId, Timestamp, Version};

verus! {

/// What one node sends to a neighbour in one exchange.
pub struct SyncRequest {
    pub my_peer_id: PeerId,
    pub my_session_id: SessionId,
    pub is_initiator: bool,
    pub peer_infos: Option<Vec<RoutePeerInfo>>,
    pub conn_bitmap: Option<RouteConnBitmap>,
}

/// What the neighbour answers.
#[derive(Debug, Clone, Copy, PartialEq, Eq, Structural)]
pub struct SyncRouteInfoResponse {
    pub is_initiator: bool,
    pub session_id: SessionId,
}

/// How an exchange with a neighbour ended.
#[derive(Debug, Clone, Copy, PartialEq, Eq, Structural)]
pub enum SyncOutcome {
    /// The neighbour took the request and answered.
    Done(SyncRouteInfoResponse),
    /// The neighbour refused the request.
    Rejected(Error),
    /// The request or the answer was lost, or the deadline passed.
    Failed,
}

/// What a rebuild of the derived state achieved.
#[derive(Debug, Clone, Copy, PartialEq, Eq, Structural)]
pub struct RebuildOutcome {
    /// Whether the table of the least-hop policy was rebuilt.
    pub least_hop_built: bool,
    /// Whether the table of the least-cost policy was rebuilt.
    pub least_cost_built: bool,
    /// Whether the adjacency matrix was rebuilt.
    pub bitmap_built: bool,
}

/// Whether some peer lists `p` as a direct neighbour.
pub open spec fn mentioned(db: DbView, p: PeerId) -> bool {
    exists|k: PeerId| #[trigger] db.lists(k, p)
}

/// Whether `p` labels a row of the adjacency matrix that is sent out: its
/// adjacency set is stored, and somebody lists it or a route leads to it.
pub open spec fn is_label(db: DbView, table: TableView, p: PeerId) -> bool {
    db.conns.contains_key(p) && (mentioned(db, p) || table.reaches(p))
}

/// Whether a matrix over as many labels as there are can be allocated.
pub open spec fn labels_fit(db: DbView, table: TableView) -> bool {
    forall|s: Seq<PeerId>|
        s.no_duplicates() && (forall|i: int| 0 <= i < s.len() ==> is_label(db, table, #[trigger] s[i]))
            ==> #[trigger] s.len() * s.len() + 7 <= usize::MAX
}

/// Whether `bitmap` is the adjacency matrix that is sent out: its labels are
/// the peers that `is_label` admits, in ascending order and each with the
/// version of its adjacency set; it has exactly the length that the labels
/// call for; its bit for a pair of labels says whether the row's peer lists
/// the column's peer; and the bits left over in the last byte are 0.
pub open spec fn is_local_bitmap(bitmap: RouteConnBitmap, db: DbView, table: TableView) -> bool {
    &&& ascending(label_ids(bitmap.peer_ids@))
    &&& forall|p: PeerId| label_ids(bitmap.peer_ids@).contains(p) <==> is_label(db, table, p)
    &&& forall|i: int|
        0 <= i < bitmap.size() ==> db.conns.contains_key((#[trigger] bitmap.peer_ids@[i]).0)
            && bitmap.peer_ids@[i].1 == db.conns[bitmap.peer_ids@[i].0].1
    &&& bitmap.exact()
    &&& bitmap.padding_clear()
    &&& forall|row: int, col: int|
        0 <= row < bitmap.size() && 0 <= col < bitmap.size() ==> (#[trigger] bitmap.connected(
            row,
            col,
        ) <==> db.lists(bitmap.peer_ids@[row].0, bitmap.peer_ids@[col].0))
}

/// The database and the peers that can be reached fix the adjacency matrix
/// that is sent out, labels and bytes: two matrices that both are it are the
/// same.
pub proof fn lemma_local_bitmap_unique(
    a: RouteConnBitmap,
    b: RouteConnBitmap,
    db: DbView,
    table: TableView,
)
    requires
        is_local_bitmap(a, db, table),
        is_local_bitmap(b, db, table),
    ensures
        a.peer_ids@ == b.peer_ids@,
        a.bitmap@ == b.bitmap@,
{
    let ids_a = label_ids(a.peer_ids@);
    let ids_b = label_ids(b.peer_ids@);
    assert forall|p: PeerId| ids_a.contains(p) <==> ids_b.contains(p) by {
        assert(ids_a.contains(p) <==> is_label(db, table, p));
        assert(ids_b.contains(p) <==> is_label(db, table, p));
    }
    crate::peer_set::lemma_ascending_unique(ids_a, ids_b);
    assert(a.peer_ids@.len() == ids_a.len());
    assert(b.peer_ids@.len() == ids_b.len());
    assert forall|i: int| 0 <= i < a.peer_ids@.len() implies a.peer_ids@[i] == b.peer_ids@[i] by {
        assert(ids_a[i] == ids_b[i]);
        assert(a.peer_ids@[i].1 == db.conns[a.peer_ids@[i].0].1);
        assert(b.peer_ids@[i].1 == db.conns[b.peer_ids@[i].0].1);
    }
    assert(a.peer_ids@ =~= b.peer_ids@);
    let n = a.size();
    assert(a.bitmap@.len() == b.bitmap@.len());
    assert forall|i: int| 0 <= i < 8 * a.bitmap@.len() implies #[trigger] crate::conn_bitmap::packed_bit(
        a.bitmap@,
        i,
    ) == crate::conn_bitmap::packed_bit(b.bitmap@, i) by {
        if i < n * n {
            crate::conn_bitmap::lemma_index_is_cell(n, i);
            let row = i / n;
            let col = i % n;
            assert(a.connected(row, col) == db.lists(a.peer_ids@[row].0, a.peer_ids@[col].0));
            assert(b.connected(row, col) == db.lists(b.peer_ids@[row].0, b.peer_ids@[col].0));
            assert(a.bit(row * n + col) == b.bit(row * n + col));
        } else {
            assert(!a.bit(i));
            assert(!b.bit(i));
        }
    }
    crate::conn_bitmap::lemma_packed_bits_unique(a.bitmap@, b.bitmap@);
}

/// Two peers with the same id and the same database send out the same
/// adjacency matrix, labels and bytes, whatever their links cost: the
/// least-hop tables of both reach the same peers.
pub proof fn lemma_bitmap_follows_database(
    a: RouteConnBitmap,
    b: RouteConnBitmap,
    db: DbView,
    my_peer_id: PeerId,
    table_a: TableView,
    costs_a: LinkCosts,
    table_b: TableView,
    costs_b: LinkCosts,
)
    requires
        table_a.describes(db, my_peer_id, NextHopPolicy::LeastHop, costs_a),
        table_b.describes(db, my_peer_id, NextHopPolicy::LeastHop, costs_b),
        is_local_bitmap(a, db, table_a),
        is_local_bitmap(b, db, table_b),
    ensures
        a.peer_ids@ == b.peer_ids@,
        a.bitmap@ == b.bitmap@,
{
    assert forall|p: PeerId| table_a.reaches(p) == table_b.reaches(p) by {
        if forall|q: PeerId| !db.known(q) {
            assert(table_a.is_empty() && table_b.is_empty());
        } else if p != my_peer_id {
            assert(table_a.next_hops.contains_key(p) <==> db.topology().connects(my_peer_id, p));
            assert(table_b.next_hops.contains_key(p) <==> db.topology().connects(my_peer_id, p));
        }
    }
    assert forall|p: PeerId| label_ids(b.peer_ids@).contains(p) <==> is_label(db, table_a, p) by {
        assert(label_ids(b.peer_ids@).contains(p) <==> is_label(db, table_b, p));
        assert(table_a.reaches(p) == table_b.reaches(p));
    }
    lemma_local_bitmap_unique(a, b, db, table_a);
}

/// Whether the descriptor stored under `key` is due to be sent over
/// `session`: the neighbour is not known to hold it, and a route leads to
/// its peer.
pub open spec fn wants_info(db: DbView, table: TableView, session: SessionView, key: PeerId) -> bool {
    &&& db.infos.contains_key(key)
    &&& !session.up_to_date(db.infos[key].peer_id, db.infos[key].version)
    &&& table.reaches(db.infos[key].peer_id)
}

/// Whether the neighbour of `session` is not known to hold row `i` of the
/// adjacency matrix at its present version.
pub open spec fn row_is_news(labels: Seq<(PeerId, Version)>, session: SessionView, i: int) -> bool {
    !session.saved_conn_versions.contains_key(labels[i].0)
        || session.saved_conn_versions[labels[i].0] != labels[i].1
}

/// Whether the adjacency matrix is due to be sent over `session`.
pub open spec fn wants_bitmap(labels: Seq<(PeerId, Version)>, session: SessionView) -> bool {
    exists|i: int| 0 <= i < labels.len() && #[trigger] row_is_news(labels, session, i)
}

/// Whether `infos` are the descriptors stored under `keys`, one for each key
/// in turn.
pub open spec fn infos_of_keys(infos: Seq<RoutePeerInfo>, keys: Seq<PeerId>, db: DbView) -> bool {
    &&& infos.len() == keys.len()
    &&& forall|i: int|
        0 <= i < keys.len() ==> db.infos.contains_key(#[trigger] keys[i]) && infos[i]@
            == db.infos[keys[i]]
}

/// Whether `keys` lists, each once, the keys of the descriptors that are due
/// to be sent over `session`.
pub open spec fn is_wanted_keys(
    keys: Seq<PeerId>,
    db: DbView,
    table: TableView,
    session: SessionView,
) -> bool {
    &&& keys.no_duplicates()
    &&& forall|k: PeerId| keys.contains(k) <==> wants_info(db, table, session, k)
}

/// Whether `infos` is what is due to be sent of descriptors over `session`:
/// the descriptor under every key that `wants_info` admits, once each, in
/// some order, and nothing else; `None` stands for no descriptor at all. No
/// descriptor among them is a placeholder.
pub open spec fn is_info_delta(
    infos: Option<Vec<RoutePeerInfo>>,
    db: DbView,
    table: TableView,
    session: SessionView,
) -> bool {
    &&& infos is None <==> forall|key: PeerId| !wants_info(db, table, session, key)
    &&& infos matches Some(v) ==> {
        &&& forall|i: int| 0 <= i < v@.len() ==> (#[trigger] v@[i]).version >= 1
        &&& exists|keys: Seq<PeerId>| #[trigger]
            infos_of_keys(v@, keys, db) && is_wanted_keys(keys, db, table, session)
    }
}

/// Whatever is sent of descriptors is stored in the database at a version of
/// at least 1: a placeholder is never sent.
pub proof fn lemma_delta_has_no_placeholder(
    infos: Vec<RoutePeerInfo>,
    db: DbView,
    table: TableView,
    session: SessionView,
    i: int,
)
    requires
        is_info_delta(Some(infos), db, table, session),
        0 <= i < infos@.len(),
    ensures
        infos@[i].version >= 1,
        exists|key: PeerId|
            #[trigger] db.infos.contains_key(key) && db.infos[key] == infos@[i]@
                && db.infos[key].version >= 1,
{
    let keys = choose|keys: Seq<PeerId>| #[trigger]
        infos_of_keys(infos@, keys, db) && is_wanted_keys(keys, db, table, session);
    assert(db.infos.contains_key(keys[i]));
}

/// Whether `bitmap` is what is due to be sent of the adjacency matrix over
/// `session`: the whole matrix `cached` where `wants_bitmap` holds, nothing
/// otherwise.
pub open spec fn is_bitmap_delta(
    bitmap: Option<RouteConnBitmap>,
    cached: RouteConnBitmap,
    session: SessionView,
) -> bool {
    &&& bitmap is Some <==> wants_bitmap(cached.peer_ids@, session)
    &&& bitmap matches Some(b) ==> b.peer_ids@ == cached.peer_ids@ && b.bitmap@ == cached.bitmap@
}

impl SessionView {
    /// The session after an exchange that the neighbour answered with
    /// `response`: the counter of sent requests advances, the neighbour's
    /// role and session id are adopted, and what was sent counts as held by
    /// the neighbour.
    pub open spec fn acknowledged(
        self,
        response: SyncRouteInfoResponse,
        sent_infos: Option<Seq<(PeerId, Version)>>,
        sent_rows: Option<Seq<(PeerId, Version)>>,
    ) -> SessionView {
        let counted = SessionView {
            rpc_tx_count: if self.rpc_tx_count == u32::MAX {
                0u32
            } else {
                (self.rpc_tx_count + 1) as u32
            },
            dst_is_initiator: response.is_initiator,
            ..self
        };
        let adopted = counted.with_dst_session_id(response.session_id);
        let infos_done = match sent_infos {
            Some(labels) => SessionView {
                saved_info_versions: raise_versions(adopted.saved_info_versions, labels),
                ..adopted
            },
            None => adopted,
        };
        match sent_rows {
            Some(labels) => SessionView {
                saved_conn_versions: raise_versions(infos_done.saved_conn_versions, labels),
                ..infos_done
            },
            None => infos_done,
        }
    }
}

/// The labels of the descriptors of a request.
pub open spec fn sent_info_labels(request: SyncRequest) -> Option<Seq<(PeerId, Version)>> {
    match request.peer_infos {
        Some(infos) => Some(info_labels(infos@)),
        None => None,
    }
}

/// The labels of the adjacency matrix of a request.
pub open spec fn sent_row_labels(request: SyncRequest) -> Option<Seq<(PeerId, Version)>> {
    match request.conn_bitmap {
        Some(bitmap) => Some(bitmap.peer_ids@),
        None => None,
    }
}

/// The routing service of one node.
pub struct PeerRouteServiceImpl<C: RouteCostCalculatorInterface> {
    pub my_peer_id: PeerId,
    pub global_ctx: LocalContext,
    pub sessions: SessionMap,
    pub cost_calculator: C,
    /// Table of the least-hop policy.
    pub route_table: RouteTable,
    /// Table of the least-cost policy.
    pub route_table_with_cost: RouteTable,
    pub synced_route_info: SyncedRouteInfo,
    /// The adjacency matrix as it was last assembled.
    pub cached_local_conn_map: RouteConnBitmap,
    /// What the last rebuild of the derived state achieved, for the caller
    /// to report; `None` while there was no rebuild.
    pub last_rebuild: Option<RebuildOutcome>,
}

impl<C: RouteCostCalculatorInterface> PeerRouteServiceImpl<C> {
    /// Whether every descriptor that is no placeholder is held under the id
    /// of the peer that it describes, in the database and in both tables.
    /// A new service has it so, and no function of the service gives it up.
    pub open spec fn keyed(&self) -> bool {
        &&& self.synced_route_info@.keyed()
        &&& self.route_table@.keyed()
        &&& self.route_table_with_cost@.keyed()
    }

    /// The sessions, by neighbour.
    pub open spec fn session_views(&self) -> Map<PeerId, SessionView> {
        session_entries(self.sessions)
    }

    /// Whether the tables that were rebuilt are the ones that the database
    /// gives under the link costs `costs`.
    pub open spec fn tables_follow(&self, costs: LinkCosts, outcome: RebuildOutcome) -> bool {
        &&& outcome.least_hop_built ==> self.route_table@.describes(
            self.synced_route_info@,
            self.my_peer_id,
            NextHopPolicy::LeastHop,
            costs,
        )
        &&& outcome.least_cost_built ==> self.route_table_with_cost@.describes(
            self.synced_route_info@,
            self.my_peer_id,
            NextHopPolicy::LeastCost,
            costs,
        )
        &&& outcome.least_cost_built == (outcome.least_hop_built
            && self.synced_route_info@.topology().admits(costs)
            && self.synced_route_info@.topology().affords(costs, self.my_peer_id))
    }

    /// Whether both tables are as the rebuild on record left them: each one
    /// either follows the database or could not be built.
    pub open spec fn rebuilt_tables(&self) -> bool {
        self.last_rebuild matches Some(outcome) && self.tables_rebuilt(outcome)
            && outcome.least_hop_built == self.synced_route_info@.topology().fits()
    }

    /// Whether `self` is what a rebuild with the outcome `outcome` leaves of
    /// `before`: the tables that were rebuilt follow the database under the
    /// costs of the calculator of `before`, the adjacency matrix, if it was
    /// rebuilt, is the one to send out, and what was not rebuilt is as
    /// before.
    pub open spec fn derived_after(&self, before: &Self, outcome: RebuildOutcome) -> bool {
        &&& outcome.least_hop_built == self.synced_route_info@.topology().fits()
        &&& self.rebuilt_with(before.cost_calculator, outcome)
        &&& self.tables_rebuilt(outcome)
        &&& !outcome.least_hop_built ==> self.route_table@ == before.route_table@
        &&& !outcome.least_cost_built ==> self.route_table_with_cost@
            == before.route_table_with_cost@
        &&& outcome.bitmap_built == labels_fit(self.synced_route_info@, self.route_table@)
        &&& outcome.bitmap_built ==> is_local_bitmap(
            self.cached_local_conn_map,
            self.synced_route_info@,
            self.route_table@,
        )
        &&& !outcome.bitmap_built ==> self.cached_local_conn_map == before.cached_local_conn_map
    }

    /// Whether `self` is what a rebuild leaves of `before`, with the outcome
    /// that `self` has on record.
    pub open spec fn rebuilt_since(&self, before: &Self) -> bool {
        self.last_rebuild matches Some(outcome) && self.derived_after(before, outcome)
    }

    /// Whether the tables that were rebuilt are the ones that the database
    /// gives under the costs of the calculator `handed` as they stand after
    /// its `begin_update`, and the installed calculator is what its
    /// `end_update` left of it.
    pub open spec fn rebuilt_with(&self, handed: C, outcome: RebuildOutcome) -> bool {
        exists|begun: C| #[trigger]
            begun.follows(&handed) && self.cost_calculator.follows(&begun) && self.tables_follow(
                link_costs(&begun),
                outcome,
            )
    }

    /// Whether the tables that were rebuilt are the ones that the database
    /// gives under some assignment of link costs, the same for both.
    pub open spec fn tables_rebuilt(&self, outcome: RebuildOutcome) -> bool {
        exists|costs: LinkCosts| #[trigger] self.tables_follow(costs, outcome)
    }

    /// A service for the local peer `my_peer_id` that knows nobody yet.
    pub fn new(my_peer_id: PeerId, global_ctx: LocalContext, cost_calculator: C) -> (r: Self)
        ensures
            r.my_peer_id == my_peer_id,
            r.global_ctx == global_ctx,
            r.cost_calculator == cost_calculator,
            r.session_views() == Map::<PeerId, SessionView>::empty(),
            r.synced_route_info@.infos == Map::<PeerId, PeerInfoView>::empty(),
            r.synced_route_info@.conns == Map::<PeerId, (Set<PeerId>, Version)>::empty(),
            r.route_table@.is_empty(),
            r.route_table_with_cost@.is_empty(),
            r.cached_local_conn_map.peer_ids@.len() == 0,
            r.cached_local_conn_map.bitmap@.len() == 0,
            r.last_rebuild is None,
            r.keyed(),
    {
        PeerRouteServiceImpl {
            my_peer_id,
            global_ctx,
            sessions: session_map_new(),
            cost_calculator,
            route_table: RouteTable::new(),
            route_table_with_cost: RouteTable::new(),
            synced_route_info: SyncedRouteInfo::new(),
            cached_local_conn_map: RouteConnBitmap::new(),
            last_rebuild: None,
        }
    }

    /// The session with `dst_peer_id`, which is created where there is none.
    pub fn get_or_create_session(&mut self, dst_peer_id: PeerId) -> (r: SyncRouteSession)
        ensures
            final(self).session_views().contains_key(dst_peer_id),
            final(self).session_views()[dst_peer_id] == r@,
            final(self).session_views() == old(self).session_views().insert(dst_peer_id, r@),
            old(self).session_views().contains_key(dst_peer_id) ==> r@ == old(self).session_views()[dst_peer_id],
            !old(self).session_views().contains_key(dst_peer_id) ==> r@ == SessionView::fresh(
                dst_peer_id,
                r.my_session_id,
            ),
            final(self).my_peer_id == old(self).my_peer_id,
            final(self).synced_route_info == old(self).synced_route_info,
            final(self).route_table == old(self).route_table,
            final(self).route_table_with_cost == old(self).route_table_with_cost,
            final(self).cached_local_conn_map == old(self).cached_local_conn_map,
            final(self).cost_calculator == old(self).cost_calculator,
            final(self).global_ctx == old(self).global_ctx,
            final(self).last_rebuild == old(self).last_rebuild,
            old(self).keyed() ==> final(self).keyed(),
    {
        match session_map_get(&self.sessions, dst_peer_id) {
            Some(session) => {
                assert(self.session_views() =~= self.session_views().insert(dst_peer_id, session@));
                session
            },
            None => {
                let session = SyncRouteSession::new(dst_peer_id);
                let copy = session.clone();
                session_map_insert(&mut self.sessions, dst_peer_id, session);
                copy
            },
        }
    }

    /// A copy of the session with `dst_peer_id`.
    pub fn get_session(&self, dst_peer_id: PeerId) -> (r: Option<SyncRouteSession>)
        ensures
            match r {
                Some(s) => self.session_views().contains_key(dst_peer_id) && s@
                    == self.session_views()[dst_peer_id],
                None => !self.session_views().contains_key(dst_peer_id),
            },
    {
        session_map_get(&self.sessions, dst_peer_id)
    }

    /// Whether a session is held with `dst_peer_id`.
    pub fn has_session(&self, dst_peer_id: PeerId) -> (r: bool)
        ensures
            r == self.session_views().contains_key(dst_peer_id),
    {
        session_map_contains_key(&self.sessions, dst_peer_id)
    }

    /// Ends the session with `dst_peer_id`.
    pub fn remove_session(&mut self, dst_peer_id: PeerId)
        ensures
            final(self).session_views() == old(self).session_views().remove(dst_peer_id),
            final(self).my_peer_id == old(self).my_peer_id,
            final(self).synced_route_info == old(self).synced_route_info,
            final(self).route_table == old(self).route_table,
            final(self).route_table_with_cost == old(self).route_table_with_cost,
            final(self).cached_local_conn_map == old(self).cached_local_conn_map,
            final(self).cost_calculator == old(self).cost_calculator,
            final(self).global_ctx == old(self).global_ctx,
            final(self).last_rebuild == old(self).last_rebuild,
            old(self).keyed() ==> final(self).keyed(),
    {
        let _ = session_map_remove(&mut self.sessions, dst_peer_id);
    }

    /// The neighbours with which a session is held, each once.
    pub fn list_session_peers(&self) -> (r: Vec<PeerId>)
        ensures
            r@.no_duplicates(),
            forall|p: PeerId| r@.contains(p) <==> self.session_views().contains_key(p),
    {
        session_map_keys(&self.sessions)
    }

    /// The answer of the installed calculator's `need_update`, passed on as it is.
    pub fn cost_calculator_need_update(&self) -> (r: bool)
        ensures
            self.calculator_reports(r),
    {
        self.cost_calculator.need_update()
    }

    /// Whether `answer` is what the installed calculator may report when it
    /// is asked whether the costs changed.
    pub open spec fn calculator_reports(&self, answer: bool) -> bool {
        call_ensures(C::need_update, (&self.cost_calculator,), answer)
    }

    /// Rebuilds both route tables from the database, between the
    /// calculator's `begin_update` and `end_update`, under the costs that the
    /// calculator reports in between. Each table is rebuilt where
    /// `RouteTable::build_from_synced_info` builds it, and stays as it is
    /// otherwise.
    pub fn update_route_table(&mut self) -> (outcome: RebuildOutcome)
        ensures
            outcome.least_hop_built == old(self).synced_route_info@.topology().fits(),
            final(self).rebuilt_with(old(self).cost_calculator, outcome),
            final(self).tables_rebuilt(outcome),
            !outcome.least_hop_built ==> final(self).route_table@ == old(self).route_table@,
            !outcome.least_cost_built ==> final(self).route_table_with_cost@ == old(self).route_table_with_cost@,
            !outcome.bitmap_built,
            final(self).last_rebuild == Some(outcome),
            final(self).session_views() == old(self).session_views(),
            final(self).my_peer_id == old(self).my_peer_id,
            final(self).synced_route_info == old(self).synced_route_info,
            final(self).cached_local_conn_map == old(self).cached_local_conn_map,
            final(self).global_ctx == old(self).global_ctx,
            old(self).keyed() ==> final(self).keyed(),
    {
        self.cost_calculator.begin_update();
        let ghost begun = self.cost_calculator;
        let ghost costs = link_costs(&begun);
        let least_hop_built = self.route_table.build_from_synced_info(
            self.my_peer_id,
            &self.synced_route_info,
            NextHopPolicy::LeastHop,
            &self.cost_calculator,
        );
        let least_cost_built = self.route_table_with_cost.build_from_synced_info(
            self.my_peer_id,
            &self.synced_route_info,
            NextHopPolicy::LeastCost,
            &self.cost_calculator,
        );
        self.cost_calculator.end_update();
        let outcome = RebuildOutcome { least_hop_built, least_cost_built, bitmap_built: false };
        self.last_rebuild = Some(outcome);
        proof {
            assert(self.tables_follow(costs, outcome));
            assert(begun.follows(&old(self).cost_calculator) && self.cost_calculator.follows(&begun)
                && self.tables_follow(link_costs(&begun), outcome));
        }
        outcome
    }

    /// The peers that some stored adjacency set lists.
    fn collect_mentioned(&self, keys: &Vec<PeerId>) -> (all_dst: PeerSet)
        requires
            forall|k: PeerId| keys@.contains(k) <==> self.synced_route_info@.conns.contains_key(k),
        ensures
            forall|p: PeerId| all_dst@.contains(p) <==> mentioned(self.synced_route_info@, p),
    {
        let ghost db = self.synced_route_info@;
        let mut all_dst: PeerSet = BTreeSet::new();
        let mut i: usize = 0;
        while i < keys.len()
            invariant
                i <= keys@.len(),
                db == self.synced_route_info@,
                forall|k: PeerId| keys@.contains(k) <==> db.conns.contains_key(k),
                forall|p: PeerId|
                    all_dst@.contains(p) <==> exists|k: int|
                        0 <= k < i && #[trigger] db.lists(keys@[k], p),
            decreases keys@.len() - i,
        {
            let key = keys[i];
            assert(keys@.contains(key));
            let ghost outer = all_dst@;
            match self.synced_route_info.get_connected_peers(key) {
                Some(set) => {
                    let members = set_members(&set);
                    set_insert_all(&mut all_dst, &members);
                    proof {
                        assert forall|p: PeerId|
                            all_dst@.contains(p) <==> exists|k: int|
                                0 <= k < i + 1 && #[trigger] db.lists(keys@[k], p) by {
                            if all_dst@.contains(p) {
                                if outer.contains(p) {
                                    let k = choose|k: int|
                                        0 <= k < i && #[trigger] db.lists(keys@[k], p);
                                    assert(0 <= k < i + 1 && db.lists(keys@[k], p));
                                } else {
                                    assert(members@.contains(p));
                                    assert(db.lists(keys@[i as int], p));
                                }
                            }
                            if exists|k: int| 0 <= k < i + 1 && #[trigger] db.lists(keys@[k], p) {
                                let k = choose|k: int|
                                    0 <= k < i + 1 && #[trigger] db.lists(keys@[k], p);
                                if k < i {
                                    assert(outer.contains(p));
                                } else {
                                    assert(members@.contains(p));
                                }
                            }
                        }
                    }
                },
                None => {
                    assert(false);
                },
            }
            i += 1;
        }
        proof {
            assert forall|p: PeerId| all_dst@.contains(p) <==> mentioned(db, p) by {
                if all_dst@.contains(p) {
                    let k = choose|k: int| 0 <= k < keys@.len() && #[trigger] db.lists(keys@[k], p);
                    assert(db.lists(keys@[k], p));
                }
                if mentioned(db, p) {
                    let key = choose|key: PeerId| #[trigger] db.lists(key, p);
                    assert(keys@.contains(key));
                    let k = choose|k: int| 0 <= k < keys@.len() && keys@[k] == key;
                    assert(db.lists(keys@[k], p));
                }
            }
        }
        all_dst
    }

    /// Rebuilds the adjacency matrix that is sent out, from the database and
    /// the least-hop table as they are. A matrix too large to allocate is not
    /// built, and the last one stays.
    pub fn rebuild_local_conn_bitmap(&mut self) -> (built: bool)
        ensures
            built == labels_fit(old(self).synced_route_info@, old(self).route_table@),
            built ==> is_local_bitmap(
                final(self).cached_local_conn_map,
                old(self).synced_route_info@,
                old(self).route_table@,
            ),
            !built ==> final(self).cached_local_conn_map == old(self).cached_local_conn_map,
            final(self).session_views() == old(self).session_views(),
            final(self).my_peer_id == old(self).my_peer_id,
            final(self).synced_route_info == old(self).synced_route_info,
            final(self).route_table == old(self).route_table,
            final(self).route_table_with_cost == old(self).route_table_with_cost,
            final(self).cost_calculator == old(self).cost_calculator,
            final(self).global_ctx == old(self).global_ctx,
            final(self).last_rebuild == old(self).last_rebuild,
            old(self).keyed() ==> final(self).keyed(),
    {
        let ghost db = self.synced_route_info@;
        let ghost table = self.route_table@;
        let keys = conn_map_keys(&self.synced_route_info.conn_map);
        let all_dst = self.collect_mentioned(&keys);
        let mut candidates: Vec<PeerId> = Vec::new();
        let mut i: usize = 0;
        while i < keys.len()
            invariant
                i <= keys@.len(),
                db == self.synced_route_info@,
                table == self.route_table@,
                keys@.no_duplicates(),
                forall|k: PeerId| keys@.contains(k) <==> db.conns.contains_key(k),
                forall|p: PeerId| all_dst@.contains(p) <==> mentioned(db, p),
                candidates@.no_duplicates(),
                forall|p: PeerId|
                    #[trigger] candidates@.contains(p) <==> is_label(db, table, p)
                        && seen(keys@, i as int, p),
            decreases keys@.len() - i,
        {
            let key = keys[i];
            let ghost before = candidates@;
            assert(keys@.contains(key));
            if set_contains(&all_dst, key) || self.route_table.peer_reachable(key) {
                proof {
                    if before.contains(key) {
                        assert(seen(keys@, i as int, key));
                        let k = choose|k: int| 0 <= k < i && #[trigger] keys@[k] == key;
                        assert(keys@[k] == keys@[i as int]);
                    }
                }
                candidates.push(key);
                proof {
                    assert forall|a: int, b: int|
                        0 <= a < candidates@.len() && 0 <= b < candidates@.len() && a
                            != b implies candidates@[a] != candidates@[b] by {
                        if a < before.len() {
                            assert(before.contains(before[a]));
                        }
                        if b < before.len() {
                            assert(before.contains(before[b]));
                        }
                    }
                }
            }
            proof {
                assert forall|p: PeerId| #[trigger]
                    candidates@.contains(p) <==> is_label(db, table, p) && seen(
                        keys@,
                        i + 1,
                        p,
                    ) by {
                    if candidates@.contains(p) {
                        let j = choose|j: int| 0 <= j < candidates@.len() && candidates@[j] == p;
                        if j < before.len() {
                            assert(before[j] == p);
                            assert(before.contains(p));
                            assert(seen(keys@, i as int, p));
                            let k = choose|k: int| 0 <= k < i && #[trigger] keys@[k] == p;
                            assert(0 <= k < i + 1 && keys@[k] == p);
                        } else {
                            assert(keys@[i as int] == p);
                        }
                    }
                    if is_label(db, table, p) && seen(keys@, i + 1, p) {
                        let k = choose|k: int| 0 <= k < i + 1 && #[trigger] keys@[k] == p;
                        if k < i {
                            assert(seen(keys@, i as int, p));
                            assert(before.contains(p));
                            let j = choose|j: int| 0 <= j < before.len() && before[j] == p;
                            assert(candidates@[j] == p);
                        } else {
                            assert(candidates@[candidates@.len() - 1] == p);
                        }
                    }
                }
            }
            i += 1;
        }
        proof {
            assert forall|p: PeerId| candidates@.contains(p) <==> is_label(db, table, p) by {
                if is_label(db, table, p) {
                    assert(keys@.contains(p));
                    let k = choose|k: int| 0 <= k < keys@.len() && keys@[k] == p;
                    assert(seen(keys@, keys@.len() as int, p));
                }
            }
        }
        let ids = sorted_peers(&candidates);
        let n = ids.len();
        proof {
            assert(ids@.no_duplicates()) by {
                assert forall|a: int, b: int|
                    0 <= a < ids@.len() && 0 <= b < ids@.len() && a != b implies ids@[a]
                    != ids@[b] by {
                    if a < b {
                        assert(ids@[a] < ids@[b]);
                    } else {
                        assert(ids@[b] < ids@[a]);
                    }
                }
            }
            assert forall|k: int| 0 <= k < ids@.len() implies is_label(db, table, #[trigger] ids@[k]) by {
                assert(ids@.contains(ids@[k]));
            }
        }
        let fits = match n.checked_mul(n) {
            Some(cells) => cells <= usize::MAX - 7,
            None => false,
        };
        if !fits {
            return false;
        }
        proof {
            assert forall|s: Seq<PeerId>|
                s.no_duplicates() && (forall|k: int|
                    0 <= k < s.len() ==> is_label(db, table, #[trigger] s[k])) implies #[trigger] s.len()
                * s.len() + 7 <= usize::MAX by {
                assert forall|k: int| 0 <= k < s.len() implies ids@.contains(#[trigger] s[k]) by {
                    assert(is_label(db, table, s[k]));
                }
                lemma_distinct_within(s, ids@);
                assert(s.len() * s.len() <= n * n) by (nonlinear_arith)
                    requires
                        0 <= s.len() <= n,
                ;
            }
        }
        let mut labels: Vec<(PeerId, Version)> = Vec::new();
        let mut rows: Vec<PeerSet> = Vec::new();
        let mut k: usize = 0;
        while k < n
            invariant
                k <= n,
                n == ids@.len(),
                db == self.synced_route_info@,
                forall|j: int| 0 <= j < ids@.len() ==> db.conns.contains_key(#[trigger] ids@[j]),
                labels@.len() == k,
                rows@.len() == k,
                forall|j: int|
                    0 <= j < k ==> (#[trigger] labels@[j]).0 == ids@[j] && labels@[j].1
                        == db.conns[ids@[j]].1,
                forall|j: int| 0 <= j < k ==> (#[trigger] rows@[j])@ == db.conns[ids@[j]].0,
            decreases n - k,
        {
            match conn_map_get(&self.synced_route_info.conn_map, ids[k]) {
                Some(rec) => {
                    labels.push((ids[k], rec.1.get()));
                    rows.push(rec.0);
                },
                None => {
                    assert(false);
                },
            }
            k += 1;
        }
        let ghost label_seq = labels@;
        let ghost row_seq = rows@;
        let bitmap = RouteConnBitmap::build(labels, &rows);
        proof {
            assert(label_ids(bitmap.peer_ids@) =~= ids@);
            assert forall|row: int, col: int|
                0 <= row < bitmap.size() && 0 <= col < bitmap.size() implies (
            #[trigger] bitmap.connected(row, col) <==> db.lists(
                bitmap.peer_ids@[row].0,
                bitmap.peer_ids@[col].0,
            )) by {
                assert(row_seq[row]@ == db.conns[ids@[row]].0);
                assert(label_seq[row].0 == ids@[row]);
                assert(label_seq[col].0 == ids@[col]);
            }
            assert forall|j: int| 0 <= j < bitmap.size() implies db.conns.contains_key(
                (#[trigger] bitmap.peer_ids@[j]).0,
            ) && bitmap.peer_ids@[j].1 == db.conns[bitmap.peer_ids@[j].0].1 by {
                assert(label_seq[j].0 == ids@[j]);
            }
        }
        self.cached_local_conn_map = bitmap;
        true
    }

    /// Rebuilds what is derived from the database: first both route tables,
    /// then the adjacency matrix that is sent out, which takes the peers
    /// that the least-hop table reaches.
    pub fn update_route_table_and_cached_local_conn_bitmap(&mut self) -> (outcome: RebuildOutcome)
        ensures
            final(self).derived_after(old(self), outcome),
            final(self).last_rebuild == Some(outcome),
            final(self).session_views() == old(self).session_views(),
            final(self).my_peer_id == old(self).my_peer_id,
            final(self).synced_route_info == old(self).synced_route_info,
            final(self).global_ctx == old(self).global_ctx,
            old(self).keyed() ==> final(self).keyed(),
    {
        let tables = self.update_route_table();
        let ghost mid = *self;
        let bitmap_built = self.rebuild_local_conn_bitmap();
        let outcome = RebuildOutcome { bitmap_built, ..tables };
        self.last_rebuild = Some(outcome);
        proof {
            let costs = choose|costs: LinkCosts| #[trigger] mid.tables_follow(costs, tables);
            assert(self.tables_follow(costs, outcome));
        }
        outcome
    }

    /// Refreshes the local peer's own descriptor at `now`; where its version
    /// advanced, what is derived from the database is rebuilt. Says whether
    /// the version advanced.
    pub fn update_my_peer_info(&mut self, now: Timestamp) -> (r: bool)
        requires
            old(self).synced_route_info@.local_before(old(self).my_peer_id, now).refresh_bumps(
                old(self).my_peer_id,
                old(self).global_ctx@,
                now,
            ) ==> old(self).synced_route_info@.stored_version(old(self).my_peer_id) < u32::MAX,
        ensures
            final(self).synced_route_info@ == old(self).synced_route_info@.refresh_self(
                old(self).my_peer_id,
                old(self).global_ctx@,
                now,
            ),
            r == old(self).synced_route_info@.local_before(old(self).my_peer_id, now).refresh_bumps(
                old(self).my_peer_id,
                old(self).global_ctx@,
                now,
            ),
            final(self).session_views() == old(self).session_views(),
            final(self).my_peer_id == old(self).my_peer_id,
            final(self).global_ctx == old(self).global_ctx,
            r ==> final(self).rebuilt_since(old(self)),
            !r ==> final(self).route_table == old(self).route_table
                && final(self).route_table_with_cost == old(self).route_table_with_cost
                && final(self).cached_local_conn_map == old(self).cached_local_conn_map
                && final(self).last_rebuild == old(self).last_rebuild,
            old(self).keyed() ==> final(self).keyed(),
    {
        if self.synced_route_info.update_my_peer_info(self.my_peer_id, &self.global_ctx, now) {
            let ghost mid = *self;
            let outcome = self.update_route_table_and_cached_local_conn_bitmap();
            proof {
                assert(self.derived_after(&mid, outcome));
                assert(self.derived_after(old(self), outcome));
            }
            return true;
        }
        false
    }

    /// Takes `connected_peers` as the local peer's direct neighbours; where
    /// that changed its adjacency set, what is derived from the database is
    /// rebuilt. Says whether the set changed.
    pub fn update_my_conn_info(&mut self, connected_peers: PeerSet, now: Timestamp) -> (r: bool)
        ensures
            final(self).synced_route_info@ == old(self).synced_route_info@.refresh_self_neighbors(
                old(self).my_peer_id,
                connected_peers@,
                now,
            ),
            r == (old(self).synced_route_info@.local_conns_before(old(self).my_peer_id).0
                != connected_peers@),
            final(self).session_views() == old(self).session_views(),
            final(self).my_peer_id == old(self).my_peer_id,
            final(self).global_ctx == old(self).global_ctx,
            r ==> final(self).rebuilt_since(old(self)),
            !r ==> final(self).route_table == old(self).route_table
                && final(self).route_table_with_cost == old(self).route_table_with_cost
                && final(self).cached_local_conn_map == old(self).cached_local_conn_map
                && final(self).last_rebuild == old(self).last_rebuild,
            old(self).keyed() ==> final(self).keyed(),
    {
        let updated = self.synced_route_info.update_my_conn_info(
            self.my_peer_id,
            connected_peers,
            now,
        );
        if updated {
            let ghost mid = *self;
            let outcome = self.update_route_table_and_cached_local_conn_bitmap();
            proof {
                assert(self.derived_after(&mid, outcome));
                assert(self.derived_after(old(self), outcome));
            }
        }
        updated
    }

    /// Refreshes the local descriptor and the local adjacency set, and says
    /// whether either changed. What is derived from the database is rebuilt
    /// after each of the two that changed: where only the descriptor did, the
    /// adjacency matrix is the one of the database as it was before the
    /// neighbours were made known.
    pub fn update_my_infos(&mut self, connected_peers: PeerSet, now: Timestamp) -> (r: bool)
        requires
            old(self).synced_route_info@.local_before(old(self).my_peer_id, now).refresh_bumps(
                old(self).my_peer_id,
                old(self).global_ctx@,
                now,
            ) ==> old(self).synced_route_info@.stored_version(old(self).my_peer_id) < u32::MAX,
        ensures
            final(self).synced_route_info@ == old(self).synced_route_info@.refresh_self(
                old(self).my_peer_id,
                old(self).global_ctx@,
                now,
            ).refresh_self_neighbors(old(self).my_peer_id, connected_peers@, now),
            final(self).session_views() == old(self).session_views(),
            final(self).my_peer_id == old(self).my_peer_id,
            final(self).global_ctx == old(self).global_ctx,
            !r ==> final(self).route_table == old(self).route_table
                && final(self).route_table_with_cost == old(self).route_table_with_cost
                && final(self).cached_local_conn_map == old(self).cached_local_conn_map
                && final(self).last_rebuild == old(self).last_rebuild,
            r == (old(self).synced_route_info@.local_before(old(self).my_peer_id, now).refresh_bumps(
                old(self).my_peer_id,
                old(self).global_ctx@,
                now,
            ) || old(self).synced_route_info@.refresh_self(
                old(self).my_peer_id,
                old(self).global_ctx@,
                now,
            ).local_conns_before(old(self).my_peer_id).0 != connected_peers@),
            r ==> final(self).rebuilt_tables(),
            old(self).synced_route_info@.local_conns_before(old(self).my_peer_id).0
                != connected_peers@ ==> exists|outcome: RebuildOutcome|
                #[trigger] final(self).tables_rebuilt(outcome) && outcome.least_hop_built == final(self).synced_route_info@.topology().fits() && outcome.bitmap_built == labels_fit(
                    final(self).synced_route_info@,
                    final(self).route_table@,
                ) && (outcome.bitmap_built ==> is_local_bitmap(
                    final(self).cached_local_conn_map,
                    final(self).synced_route_info@,
                    final(self).route_table@,
                )),
            r && old(self).synced_route_info@.refresh_self(
                old(self).my_peer_id,
                old(self).global_ctx@,
                now,
            ).local_conns_before(old(self).my_peer_id).0 == connected_peers@ ==> {
                let refreshed = old(self).synced_route_info@.refresh_self(
                    old(self).my_peer_id,
                    old(self).global_ctx@,
                    now,
                );
                &&& final(self).last_rebuild matches Some(outcome) && outcome.bitmap_built
                    == labels_fit(refreshed, final(self).route_table@)
                &&& labels_fit(refreshed, final(self).route_table@) ==> is_local_bitmap(
                    final(self).cached_local_conn_map,
                    refreshed,
                    final(self).route_table@,
                )
                &&& !labels_fit(refreshed, final(self).route_table@)
                    ==> final(self).cached_local_conn_map == old(self).cached_local_conn_map
            },
            old(self).keyed() ==> final(self).keyed(),
    {
        let mut ret = self.update_my_peer_info(now);
        let ghost mid = *self;
        let conn_changed = self.update_my_conn_info(connected_peers, now);
        proof {
            if conn_changed {
                let outcome = self.last_rebuild->0;
                assert(self.derived_after(&mid, outcome));
                assert(self.tables_rebuilt(outcome));
            } else if ret {
                // the tables were built for the database as it was before the
                // neighbours were made known, which adds nothing to route over
                let outcome = mid.last_rebuild->0;
                assert(mid.derived_after(old(self), outcome));
                let costs = choose|costs: LinkCosts| #[trigger] mid.tables_follow(costs, outcome);
                let a = mid.synced_route_info@;
                let b = self.synced_route_info@;
                assert forall|x: PeerId, y: PeerId| a.lists(x, y) == b.lists(x, y) by {}
                lemma_same_routing_content(
                    self.route_table@,
                    a,
                    b,
                    self.my_peer_id,
                    NextHopPolicy::LeastHop,
                    costs,
                );
                lemma_same_routing_content(
                    self.route_table_with_cost@,
                    a,
                    b,
                    self.my_peer_id,
                    NextHopPolicy::LeastCost,
                    costs,
                );
                assert(self.tables_follow(costs, outcome));
                assert(self.tables_rebuilt(outcome));
            }
        }
        ret = ret || conn_changed;
        ret
    }

    /// The descriptors that are due to be sent over `session`: those that the
    /// neighbour is not known to hold and whose peer a route leads to. No
    /// placeholder is among them. `None` stands for no descriptor at all.
    pub fn build_route_info(&self, session: &SyncRouteSession) -> (r: Option<Vec<RoutePeerInfo>>)
        ensures
            is_info_delta(r, self.synced_route_info@, self.route_table@, session@),
    {
        let ghost db = self.synced_route_info@;
        let ghost table = self.route_table@;
        let keys = info_map_keys(&self.synced_route_info.peer_infos);
        let mut route_infos: Vec<RoutePeerInfo> = Vec::new();
        let ghost mut picked: Seq<PeerId> = Seq::empty();
        let mut i: usize = 0;
        while i < keys.len()
            invariant
                i <= keys@.len(),
                db == self.synced_route_info@,
                table == self.route_table@,
                keys@.no_duplicates(),
                forall|k: PeerId| keys@.contains(k) <==> db.infos.contains_key(k),
                infos_of_keys(route_infos@, picked, db),
                picked.no_duplicates(),
                forall|j: int| 0 <= j < route_infos@.len() ==> (#[trigger] route_infos@[j]).version >= 1,
                forall|k: PeerId|
                    #[trigger] picked.contains(k) <==> wants_info(db, table, session@, k) && seen(
                        keys@,
                        i as int,
                        k,
                    ),
            decreases keys@.len() - i,
        {
            let key = keys[i];
            let ghost before = route_infos@;
            let ghost picked_before = picked;
            assert(keys@.contains(key));
            proof {
                assert(!seen(keys@, i as int, key)) by {
                    if seen(keys@, i as int, key) {
                        let k = choose|k: int| 0 <= k < i && #[trigger] keys@[k] == key;
                        assert(keys@[k] == keys@[i as int]);
                    }
                }
                assert forall|k: PeerId|
                    seen(keys@, i + 1, k) <==> seen(keys@, i as int, k) || k == key by {
                    crate::peer_set::lemma_seen_step(keys@, i as int, k);
                }
            }
            match info_map_get(&self.synced_route_info.peer_infos, key) {
                Some(info) => {
                    if !session.check_saved_peer_info_update_to_date(info.peer_id, info.version)
                        && self.route_table.peer_reachable(info.peer_id) {
                        assert(wants_info(db, table, session@, key));
                        route_infos.push(info);
                        proof {
                            picked = picked.push(key);
                            assert forall|j: int| 0 <= j < picked.len() implies db.infos.contains_key(
                                #[trigger] picked[j],
                            ) && route_infos@[j]@ == db.infos[picked[j]] by {
                                if j < before.len() {
                                    assert(route_infos@[j] == before[j]);
                                    assert(picked[j] == picked_before[j]);
                                }
                            }
                            assert forall|j: int|
                                0 <= j < route_infos@.len() implies (
                            #[trigger] route_infos@[j]).version >= 1 by {
                                if j < before.len() {
                                    assert(route_infos@[j] == before[j]);
                                }
                            }
                            assert forall|k: PeerId| #[trigger]
                                picked.contains(k) <==> picked_before.contains(k) || k == key by {
                                if picked.contains(k) {
                                    let j = choose|j: int| 0 <= j < picked.len() && picked[j] == k;
                                    if j < picked_before.len() {
                                        assert(picked_before[j] == k);
                                    }
                                }
                                if picked_before.contains(k) {
                                    let j = choose|j: int|
                                        0 <= j < picked_before.len() && picked_before[j] == k;
                                    assert(picked[j] == k);
                                }
                                if k == key {
                                    assert(picked[picked_before.len() as int] == k);
                                }
                            }
                            assert forall|a: int, b: int|
                                0 <= a < picked.len() && 0 <= b < picked.len() && a
                                    != b implies picked[a] != picked[b] by {
                                if a < picked_before.len() {
                                    assert(picked_before.contains(picked_before[a]));
                                }
                                if b < picked_before.len() {
                                    assert(picked_before.contains(picked_before[b]));
                                }
                            }
                        }
                    }
                },
                None => {
                    assert(false);
                },
            }
            i += 1;
        }
        proof {
            assert forall|k: PeerId| picked.contains(k) <==> wants_info(db, table, session@, k) by {
                if wants_info(db, table, session@, k) {
                    assert(keys@.contains(k));
                    let j = choose|j: int| 0 <= j < keys@.len() && keys@[j] == k;
                    assert(seen(keys@, keys@.len() as int, k));
                }
            }
            assert(is_wanted_keys(picked, db, table, session@));
        }
        if route_infos.len() == 0 {
            proof {
                assert forall|key: PeerId| !wants_info(db, table, session@, key) by {
                    if wants_info(db, table, session@, key) {
                        assert(picked.contains(key));
                    }
                }
            }
            None
        } else {
            proof {
                assert(picked.contains(picked[0]));
                assert(wants_info(db, table, session@, picked[0]));
            }
            Some(route_infos)
        }
    }

    /// The adjacency matrix, where it is due to be sent over `session`: the
    /// whole matrix as it was last assembled, as soon as the neighbour is not
    /// known to hold one of its rows at the present version.
    pub fn build_conn_bitmap(&self, session: &SyncRouteSession) -> (r: Option<RouteConnBitmap>)
        ensures
            is_bitmap_delta(r, self.cached_local_conn_map, session@),
    {
        let ghost labels = self.cached_local_conn_map.peer_ids@;
        let mut need_update = false;
        let mut i: usize = 0;
        while i < self.cached_local_conn_map.peer_ids.len() && !need_update
            invariant
                i <= labels.len(),
                labels == self.cached_local_conn_map.peer_ids@,
                need_update ==> wants_bitmap(labels, session@),
                !need_update ==> forall|k: int|
                    0 <= k < i ==> !#[trigger] row_is_news(labels, session@, k),
            decreases labels.len() - i + (if need_update { 0int } else { 1int }),
        {
            let peer_id = self.cached_local_conn_map.peer_ids[i].0;
            let local_version = self.cached_local_conn_map.peer_ids[i].1;
            let differs = match id_map_get(&session.dst_saved_conn_bitmap_version, peer_id) {
                Some(v) => v != local_version,
                None => true,
            };
            if differs {
                assert(row_is_news(labels, session@, i as int));
                need_update = true;
            } else {
                i += 1;
            }
        }
        if !need_update {
            return None;
        }
        Some(self.cached_local_conn_map.clone())
    }

    /// What is due to be sent over `session`.
    pub fn build_sync_request(&self, session: &SyncRouteSession) -> (r: (
        Option<Vec<RoutePeerInfo>>,
        Option<RouteConnBitmap>,
    ))
        ensures
            is_info_delta(r.0, self.synced_route_info@, self.route_table@, session@),
            is_bitmap_delta(r.1, self.cached_local_conn_map, session@),
    {
        let route_infos = self.build_route_info(session);
        let conn_bitmap = self.build_conn_bitmap(session);
        (route_infos, conn_bitmap)
    }

    /// Drops every descriptor that was not refreshed for longer than the
    /// expiry threshold, with the adjacency set of its peer.
    pub fn clear_expired_peer(&mut self, now: Timestamp)
        ensures
            final(self).synced_route_info@ == old(self).synced_route_info@.expire(now),
            final(self).session_views() == old(self).session_views(),
            final(self).my_peer_id == old(self).my_peer_id,
            final(self).route_table == old(self).route_table,
            final(self).route_table_with_cost == old(self).route_table_with_cost,
            final(self).cached_local_conn_map == old(self).cached_local_conn_map,
            final(self).cost_calculator == old(self).cost_calculator,
            final(self).global_ctx == old(self).global_ctx,
            final(self).last_rebuild == old(self).last_rebuild,
            old(self).keyed() ==> final(self).keyed(),
    {
        let ghost db = self.synced_route_info@;
        let keys = info_map_keys(&self.synced_route_info.peer_infos);
        let mut to_remove: Vec<PeerId> = Vec::new();
        let mut i: usize = 0;
        while i < keys.len()
            invariant
                i <= keys@.len(),
                db == self.synced_route_info@,
                forall|k: PeerId| keys@.contains(k) <==> db.infos.contains_key(k),
                forall|j: int| 0 <= j < to_remove@.len() ==> db.expired(#[trigger] to_remove@[j], now),
                forall|k: int|
                    0 <= k < i && db.expired(#[trigger] keys@[k], now) ==> to_remove@.contains(
                        keys@[k],
                    ),
            decreases keys@.len() - i,
        {
            let key = keys[i];
            let ghost before = to_remove@;
            assert(keys@.contains(key));
            match info_map_get(&self.synced_route_info.peer_infos, key) {
                Some(info) => {
                    match crate::clock::elapsed(now, info.last_update) {
                        Some(d) => {
                            if d > crate::REMOVE_DEAD_PEER_INFO_AFTER {
                                to_remove.push(key);
                                proof {
                                    assert(to_remove@[before.len() as int] == key);
                                    assert forall|k: int|
                                        0 <= k < i + 1 && db.expired(
                                            #[trigger] keys@[k],
                                            now,
                                        ) implies to_remove@.contains(keys@[k]) by {
                                        if k < i {
                                            let j = choose|j: int|
                                                0 <= j < before.len() && before[j] == keys@[k];
                                            assert(to_remove@[j] == keys@[k]);
                                        }
                                    }
                                }
                            }
                        },
                        None => {},
                    }
                },
                None => {
                    assert(false);
                },
            }
            i += 1;
        }
        let mut j: usize = 0;
        while j < to_remove.len()
            invariant
                j <= to_remove@.len(),
                forall|m: int| 0 <= m < to_remove@.len() ==> db.expired(#[trigger] to_remove@[m], now),
                forall|p: PeerId|
                    #[trigger] self.synced_route_info@.infos.contains_key(p) <==> db.infos.contains_key(
                        p,
                    ) && !to_remove@.take(j as int).contains(p),
                forall|p: PeerId|
                    #[trigger] self.synced_route_info@.conns.contains_key(p) <==> db.conns.contains_key(
                        p,
                    ) && !to_remove@.take(j as int).contains(p),
                forall|p: PeerId|
                    #[trigger] self.synced_route_info@.infos.contains_key(p)
                        ==> self.synced_route_info@.infos[p] == db.infos[p],
                forall|p: PeerId|
                    #[trigger] self.synced_route_info@.conns.contains_key(p)
                        ==> self.synced_route_info@.conns[p] == db.conns[p],
                self.sessions == old(self).sessions,
                self.my_peer_id == old(self).my_peer_id,
                self.route_table == old(self).route_table,
                self.route_table_with_cost == old(self).route_table_with_cost,
                self.cached_local_conn_map == old(self).cached_local_conn_map,
                self.cost_calculator == old(self).cost_calculator,
                self.global_ctx == old(self).global_ctx,
                self.last_rebuild == old(self).last_rebuild,
            decreases to_remove@.len() - j,
        {
            let ghost done = to_remove@.take(j as int);
            self.synced_route_info.remove_peer(to_remove[j]);
            proof {
                let next = to_remove@.take(j + 1);
                assert(next == done.push(to_remove@[j as int]));
                assert forall|p: PeerId| next.contains(p) <==> done.contains(p) || p
                    == to_remove@[j as int] by {
                    if next.contains(p) {
                        let m = choose|m: int| 0 <= m < next.len() && next[m] == p;
                        if m < done.len() {
                            assert(done[m] == p);
                        }
                    }
                    if done.contains(p) {
                        let m = choose|m: int| 0 <= m < done.len() && done[m] == p;
                        assert(next[m] == p);
                    }
                    if p == to_remove@[j as int] {
                        assert(next[done.len() as int] == p);
                    }
                }
            }
            j += 1;
        }
        proof {
            assert(to_remove@.take(to_remove@.len() as int) == to_remove@);
            let want = db.expire(now);
            assert forall|p: PeerId| db.expired(p, now) <==> to_remove@.contains(p) by {
                if db.expired(p, now) {
                    assert(keys@.contains(p));
                    let k = choose|k: int| 0 <= k < keys@.len() && keys@[k] == p;
                    assert(db.expired(keys@[k], now));
                }
                if to_remove@.contains(p) {
                    let m = choose|m: int| 0 <= m < to_remove@.len() && to_remove@[m] == p;
                    assert(db.expired(to_remove@[m], now));
                }
            }
            assert(self.synced_route_info@.infos =~= want.infos);
            assert(self.synced_route_info@.conns =~= want.conns);
        }
    }

    /// Whether an exchange with `dst_peer_id` is due: a session is held with
    /// it, and a descriptor or the adjacency matrix is due to be sent, or the
    /// neighbour has to be told who initiates.
    pub open spec fn sync_due(&self, dst_peer_id: PeerId) -> bool {
        &&& self.session_views().contains_key(dst_peer_id)
        &&& {
            let session = self.session_views()[dst_peer_id];
            ||| session.need_sync_initiator_info
            ||| exists|key: PeerId| #[trigger]
                wants_info(self.synced_route_info@, self.route_table@, session, key)
            ||| wants_bitmap(self.cached_local_conn_map.peer_ids@, session)
        }
    }

    /// Prepares the next exchange with `dst_peer_id`: the request to send,
    /// or `None` where no exchange is due. With a request in hand the session
    /// no longer owes the neighbour word of who initiates.
    pub fn prepare_sync(&mut self, dst_peer_id: PeerId) -> (r: Option<SyncRequest>)
        ensures
            r is Some <==> old(self).sync_due(dst_peer_id),
            r is None ==> final(self).session_views() == old(self).session_views(),
            r matches Some(request) ==> {
                let session = old(self).session_views()[dst_peer_id];
                &&& request.my_peer_id == old(self).my_peer_id
                &&& request.my_session_id == session.my_session_id
                &&& request.is_initiator == session.we_are_initiator
                &&& is_info_delta(
                    request.peer_infos,
                    old(self).synced_route_info@,
                    old(self).route_table@,
                    session,
                )
                &&& is_bitmap_delta(
                    request.conn_bitmap,
                    old(self).cached_local_conn_map,
                    session,
                )
                &&& final(self).session_views() == old(self).session_views().insert(
                    dst_peer_id,
                    SessionView { need_sync_initiator_info: false, ..session },
                )
            },
            final(self).my_peer_id == old(self).my_peer_id,
            final(self).synced_route_info == old(self).synced_route_info,
            final(self).route_table == old(self).route_table,
            final(self).route_table_with_cost == old(self).route_table_with_cost,
            final(self).cached_local_conn_map == old(self).cached_local_conn_map,
            final(self).cost_calculator == old(self).cost_calculator,
            final(self).global_ctx == old(self).global_ctx,
            final(self).last_rebuild == old(self).last_rebuild,
            old(self).keyed() ==> final(self).keyed(),
    {
        let mut session = match session_map_remove(&mut self.sessions, dst_peer_id) {
            Some(s) => s,
            None => {
                assert(self.session_views() =~= old(self).session_views());
                return None;
            },
        };
        let (peer_infos, conn_bitmap) = self.build_sync_request(&session);
        if peer_infos.is_none() && conn_bitmap.is_none() && !session.need_sync_initiator_info {
            session_map_insert(&mut self.sessions, dst_peer_id, session);
            assert(self.session_views() =~= old(self).session_views());
            return None;
        }
        session.need_sync_initiator_info = false;
        let request = SyncRequest {
            my_peer_id: self.my_peer_id,
            my_session_id: session.my_session_id,
            is_initiator: session.we_are_initiator,
            peer_infos,
            conn_bitmap,
        };
        session_map_insert(&mut self.sessions, dst_peer_id, session);
        proof {
            assert(self.session_views() =~= old(self).session_views().insert(
                dst_peer_id,
                SessionView {
                    need_sync_initiator_info: false,
                    ..old(self).session_views()[dst_peer_id]
                },
            ));
        }
        Some(request)
    }

    /// Takes note of how the exchange of `request` with `dst_peer_id` ended.
    /// An answer is recorded in the session; a refusal or a loss leaves the
    /// session owing the neighbour word of who initiates, so that the next
    /// round sends again. A session that ended in between stays ended.
    pub fn finish_sync(&mut self, dst_peer_id: PeerId, request: &SyncRequest, outcome: SyncOutcome)
        requires
            outcome != SyncOutcome::Rejected(Error::DuplicatePeerId),
        ensures
            !old(self).session_views().contains_key(dst_peer_id) ==> final(self).session_views()
                == old(self).session_views(),
            old(self).session_views().contains_key(dst_peer_id) ==> final(self).session_views()
                == old(self).session_views().insert(
                dst_peer_id,
                match outcome {
                    SyncOutcome::Done(response) => old(self).session_views()[dst_peer_id].acknowledged(
                        response,
                        sent_info_labels(*request),
                        sent_row_labels(*request),
                    ),
                    _ => SessionView {
                        need_sync_initiator_info: true,
                        ..old(self).session_views()[dst_peer_id]
                    },
                },
            ),
            final(self).my_peer_id == old(self).my_peer_id,
            final(self).synced_route_info == old(self).synced_route_info,
            final(self).route_table == old(self).route_table,
            final(self).route_table_with_cost == old(self).route_table_with_cost,
            final(self).cached_local_conn_map == old(self).cached_local_conn_map,
            final(self).cost_calculator == old(self).cost_calculator,
            final(self).global_ctx == old(self).global_ctx,
            final(self).last_rebuild == old(self).last_rebuild,
            old(self).keyed() ==> final(self).keyed(),
    {
        let mut session = match session_map_remove(&mut self.sessions, dst_peer_id) {
            Some(s) => s,
            None => {
                assert(self.session_views() =~= old(self).session_views());
                return ;
            },
        };
        match outcome {
            SyncOutcome::Done(response) => {
                session.rpc_tx_count = session.rpc_tx_count.wrapping_add(1);
                session.dst_is_initiator = response.is_initiator;
                session.update_dst_session_id(response.session_id);
                match &request.peer_infos {
                    Some(infos) => {
                        session.update_dst_saved_peer_info_version(infos);
                    },
                    None => {},
                }
                match &request.conn_bitmap {
                    Some(bitmap) => {
                        session.update_dst_saved_conn_bitmap_version(bitmap);
                    },
                    None => {},
                }
            },
            _ => {
                session.need_sync_initiator_info = true;
            },
        }
        session_map_insert(&mut self.sessions, dst_peer_id, session);
    }
}

} // verus!
