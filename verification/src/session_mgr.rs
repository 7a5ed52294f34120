//! The protocol between neighbours: handling what a neighbour sends, and
//! electing the neighbour towards which this node initiates.

use vstd::prelude::*;
use crate::conn_bitmap::RouteConnBitmap;
use crate::cost::RouteCostCalculatorInterface;
use crate::error::Error;
use crate::nat_type::{nat_type_of_code, NatType};
use crate::peer_info::RoutePeerInfo;
use crate::peer_set::{
    ascending, seen, set_contains, set_from_members, sorted_peers, PeerSet,
};
use crate::route_table::TableView;
use crate::service::{PeerRouteServiceImpl, SyncRouteInfoResponse};
use crate::session::{info_labels, raise_versions, SessionView, SyncRouteSession};
use crate::synced_info::info_views;
use crate::{PeerId, SessionId, Timestamp, Version};

verus! {

/// The sessions of a node and the neighbour towards which it initiates.
pub struct ElectionView {
    pub sessions: Map<PeerId, SessionView>,
    pub target: Option<PeerId>,
}

/// What a round of session maintenance did.
pub struct MaintainOutcome {
    /// The sessions that were ended, for which no task is to run any more.
    pub stopped: Vec<PeerId>,
    /// The neighbour towards which this node initiates after the round.
    pub target: Option<PeerId>,
    /// Whether this node took up initiating towards another neighbour, which
    /// calls for an exchange at once.
    pub initiator_changed: bool,
    /// How long to wait before the next round, in milliseconds.
    pub next_sleep_ms: u64,
}

/// Pause between two rounds of session maintenance, in milliseconds.
pub const MAINTAIN_PERIOD_MS: u64 = 1000;

impl SessionView {
    /// The session after a request of the neighbour was counted and its
    /// session id adopted.
    pub open spec fn greeted(self, from_session_id: SessionId) -> SessionView {
        SessionView {
            rpc_rx_count: if self.rpc_rx_count == u32::MAX {
                0u32
            } else {
                (self.rpc_rx_count + 1) as u32
            },
            task_running: true,
            ..self
        }.with_dst_session_id(from_session_id)
    }

    /// The session after a request of the neighbour was handled: what it sent
    /// counts as held by it, and its role is adopted.
    pub open spec fn received(
        self,
        from_session_id: SessionId,
        is_initiator: bool,
        sent_infos: Option<Seq<(PeerId, Version)>>,
        sent_rows: Option<Seq<(PeerId, Version)>>,
    ) -> SessionView {
        let greeted = self.greeted(from_session_id);
        let infos_done = match sent_infos {
            Some(labels) => SessionView {
                saved_info_versions: raise_versions(greeted.saved_info_versions, labels),
                ..greeted
            },
            None => greeted,
        };
        let rows_done = match sent_rows {
            Some(labels) => SessionView {
                saved_conn_versions: raise_versions(infos_done.saved_conn_versions, labels),
                ..infos_done
            },
            None => infos_done,
        };
        SessionView { dst_is_initiator: is_initiator, ..rows_done }
    }

    /// Whether the session serves no purpose: neither end initiates, and
    /// nothing is owed to the neighbour.
    pub open spec fn idle(self) -> bool {
        !self.dst_is_initiator && !self.we_are_initiator && !self.need_sync_initiator_info
    }

    /// The session after this node took or gave up initiating.
    pub open spec fn with_initiator_flag(self, is_initiator: bool) -> SessionView {
        SessionView { we_are_initiator: is_initiator, need_sync_initiator_info: true, ..self }
    }
}

/// The labels of an optional batch of descriptors.
pub open spec fn opt_info_labels(infos: Option<Vec<RoutePeerInfo>>) -> Option<Seq<(PeerId, Version)>> {
    match infos {
        Some(v) => Some(info_labels(v@)),
        None => None,
    }
}

/// The labels of an optional adjacency matrix.
pub open spec fn opt_row_labels(bitmap: Option<RouteConnBitmap>) -> Option<Seq<(PeerId, Version)>> {
    match bitmap {
        Some(b) => Some(b.peer_ids@),
        None => None,
    }
}

/// Whether `peer` may become the neighbour towards which this node
/// initiates: it does not initiate towards this node already.
pub open spec fn is_candidate(sessions: Map<PeerId, SessionView>, peer: PeerId) -> bool {
    !sessions.contains_key(peer) || !sessions[peer].dst_is_initiator
}

/// Whether `peer` advertises a NAT type through which it is reached without
/// hole punching.
pub open spec fn is_friendly(table: TableView, peer: PeerId) -> bool {
    table.infos.contains_key(peer) && (nat_type_of_code(table.infos[peer].udp_stun_info as int)
        == Some(NatType::NoPat) || nat_type_of_code(table.infos[peer].udp_stun_info as int) == Some(
        NatType::OpenInternet,
    ))
}

/// Whether `peer` is the neighbour to initiate towards: the candidate with
/// the lowest id among those with a friendly NAT type, or, where no
/// candidate has one, among all.
pub open spec fn is_elected(
    table: TableView,
    sessions: Map<PeerId, SessionView>,
    present: Set<PeerId>,
    peer: PeerId,
) -> bool {
    &&& present.contains(peer)
    &&& is_candidate(sessions, peer)
    &&& if exists|q: PeerId|
        present.contains(q) && is_candidate(sessions, q) && #[trigger] is_friendly(table, q) {
        is_friendly(table, peer) && forall|q: PeerId|
            present.contains(q) && is_candidate(sessions, q) && #[trigger] is_friendly(table, q)
                ==> peer <= q
    } else {
        forall|q: PeerId| present.contains(q) && #[trigger] is_candidate(sessions, q) ==> peer <= q
    }
}

impl ElectionView {
    /// The state after the sessions with peers that are no neighbours any
    /// more were ended.
    pub open spec fn without_absent(self, present: Set<PeerId>) -> ElectionView {
        ElectionView {
            sessions: self.sessions.restrict(present),
            target: match self.target {
                Some(t) => if self.sessions.contains_key(t) && !present.contains(t) {
                    None
                } else {
                    self.target
                },
                None => None,
            },
        }
    }

    /// The state after this node took up initiating towards `elected`, under
    /// the session id `id` where the session is new.
    pub open spec fn switched(self, elected: PeerId, id: SessionId) -> ElectionView {
        if self.target == Some(elected) {
            self
        } else {
            let released = match self.target {
                Some(t) => if self.sessions.contains_key(t) {
                    self.sessions.insert(t, self.sessions[t].with_initiator_flag(false))
                } else {
                    self.sessions
                },
                None => self.sessions,
            };
            let base = if released.contains_key(elected) {
                released[elected]
            } else {
                SessionView::fresh(elected, id)
            };
            ElectionView {
                sessions: released.insert(
                    elected,
                    SessionView { task_running: true, ..base }.with_initiator_flag(true),
                ),
                target: Some(elected),
            }
        }
    }

    /// The state after the idle sessions among `examined` were ended, but for
    /// the one with `keep`.
    pub open spec fn collected(self, examined: Set<PeerId>, keep: PeerId) -> ElectionView {
        ElectionView {
            sessions: Map::new(
                |p: PeerId|
                    self.sessions.contains_key(p) && !(examined.contains(p) && p != keep
                        && self.sessions[p].idle()),
                |p: PeerId| self.sessions[p],
            ),
            ..self
        }
    }
}

/// The sessions and the elected neighbour of a node, with the service that
/// they belong to.
pub struct RouteSessionManager<C: RouteCostCalculatorInterface> {
    /// The routing service; `None` once it was shut down.
    pub service_impl: Option<PeerRouteServiceImpl<C>>,
    /// The neighbour towards which this node initiates.
    pub cur_dst_peer_id_to_initiate: Option<PeerId>,
}

impl<C: RouteCostCalculatorInterface> RouteSessionManager<C> {
    /// Whether the service, while there is one, holds every descriptor that
    /// is no placeholder under the id of the peer that it describes.
    pub open spec fn keyed(&self) -> bool {
        self.service_impl matches Some(service) ==> service.keyed()
    }

    /// The sessions and the elected neighbour; without a service there are
    /// no sessions.
    pub open spec fn election(&self) -> ElectionView {
        ElectionView {
            sessions: match self.service_impl {
                Some(service) => service.session_views(),
                None => Map::empty(),
            },
            target: self.cur_dst_peer_id_to_initiate,
        }
    }

    /// A manager for `service_impl` that initiates towards nobody yet.
    pub fn new(service_impl: PeerRouteServiceImpl<C>) -> (r: Self)
        ensures
            r.service_impl == Some(service_impl),
            r.cur_dst_peer_id_to_initiate is None,
            r.keyed() == service_impl.keyed(),
    {
        RouteSessionManager { service_impl: Some(service_impl), cur_dst_peer_id_to_initiate: None }
    }

    /// Shuts the routing service down: from now on every request is answered
    /// with `Stopped`.
    pub fn shut_down(&mut self)
        ensures
            final(self).service_impl is None,
            final(self).cur_dst_peer_id_to_initiate == old(self).cur_dst_peer_id_to_initiate,
            old(self).keyed() ==> final(self).keyed(),
    {
        self.service_impl = None;
    }

    /// Ends the session with `peer_id`.
    pub fn stop_session(&mut self, peer_id: PeerId) -> (r: Result<(), Error>)
        ensures
            old(self).service_impl is None ==> r == Err::<(), Error>(Error::Stopped) && final(self).service_impl is None,
            old(self).service_impl is Some ==> r is Ok && final(self).election().sessions == old(self).election().sessions.remove(peer_id) && final(self).service_impl is Some,
            old(self).service_impl matches Some(before) ==> (final(self).service_impl matches Some(
                after,
            ) && same_but_sessions(after, before)),
            final(self).cur_dst_peer_id_to_initiate == old(self).cur_dst_peer_id_to_initiate,
            old(self).keyed() ==> final(self).keyed(),
    {
        let mut service = match self.service_impl.take() {
            Some(s) => s,
            None => {
                return Err(Error::Stopped);
            },
        };
        service.remove_session(peer_id);
        self.service_impl = Some(service);
        Ok(())
    }

    /// The session with `peer_id`, created where there is none; either way a
    /// task is to drive it from now on.
    pub fn get_or_start_session(&mut self, peer_id: PeerId) -> (r: Result<SyncRouteSession, Error>)
        ensures
            old(self).service_impl is None ==> r == Err::<SyncRouteSession, Error>(Error::Stopped)
                && final(self).service_impl is None,
            old(self).service_impl is Some ==> r is Ok && final(self).service_impl is Some,
            r matches Ok(session) ==> {
                let before = old(self).election().sessions;
                &&& session.task_running
                &&& final(self).election().sessions == before.insert(peer_id, session@)
                &&& before.contains_key(peer_id) ==> session@ == (SessionView {
                    task_running: true,
                    ..before[peer_id]
                })
                &&& !before.contains_key(peer_id) ==> session@ == (SessionView {
                    task_running: true,
                    ..SessionView::fresh(peer_id, session.my_session_id)
                })
            },
            old(self).service_impl matches Some(before) ==> (final(self).service_impl matches Some(
                after,
            ) && same_but_sessions(after, before)),
            final(self).cur_dst_peer_id_to_initiate == old(self).cur_dst_peer_id_to_initiate,
            old(self).keyed() ==> final(self).keyed(),
    {
        let mut service = match self.service_impl.take() {
            Some(s) => s,
            None => {
                return Err(Error::Stopped);
            },
        };
        let mut session = service.get_or_create_session(peer_id);
        session.task_running = true;
        let copy = session.clone();
        crate::dash::session_map_insert(&mut service.sessions, peer_id, session);
        proof {
            assert(service.session_views() =~= old(self).election().sessions.insert(peer_id, copy@));
        }
        self.service_impl = Some(service);
        Ok(copy)
    }

    /// The neighbours with which a session is held; none without a service.
    pub fn list_session_peers(&self) -> (r: Vec<PeerId>)
        ensures
            r@.no_duplicates(),
            forall|p: PeerId| r@.contains(p) <==> self.election().sessions.contains_key(p),
    {
        match &self.service_impl {
            Some(service) => service.list_session_peers(),
            None => Vec::new(),
        }
    }

    /// One round of session maintenance, given the peers that are direct
    /// neighbours at present.
    ///
    /// Sessions with peers that are no neighbours any more are ended. Among
    /// the neighbours that do not initiate towards this node, one is elected
    /// to initiate towards (`is_elected`); where that is another than
    /// before, the old session gives the role up, the new one, created if
    /// need be, takes it, and an exchange is called for at once. Then the
    /// sessions that were held at the start and have become idle are ended,
    /// never the elected one. Without any candidate nothing more is done.
    pub fn maintain_sessions(&mut self, peers: &Vec<PeerId>) -> (r: Result<MaintainOutcome, Error>)
        ensures
            old(self).service_impl is None ==> r == Err::<MaintainOutcome, Error>(Error::Stopped)
                && final(self).service_impl is None && final(self).cur_dst_peer_id_to_initiate
                == old(self).cur_dst_peer_id_to_initiate,
            old(self).service_impl matches Some(before) ==> final(self).service_impl matches Some(
                after,
            ) && r matches Ok(outcome) && {
                let present = peers@.to_set();
                let start = old(self).election();
                let pruned = start.without_absent(present);
                &&& same_but_sessions(after, before)
                &&& outcome.next_sleep_ms == MAINTAIN_PERIOD_MS
                &&& outcome.target == final(self).cur_dst_peer_id_to_initiate
                &&& (forall|p: PeerId| present.contains(p) ==> !is_candidate(pruned.sessions, p))
                    ==> final(self).election() == pruned && !outcome.initiator_changed
                &&& (exists|p: PeerId| present.contains(p) && is_candidate(pruned.sessions, p)) ==> (
                outcome.target matches Some(e) && is_elected(
                    before.route_table@,
                    pruned.sessions,
                    present,
                    e,
                ) && outcome.initiator_changed == (pruned.target != Some(e)) && exists|id: SessionId|
                    final(self).election() == #[trigger] pruned.switched(e, id).collected(
                        start.sessions.dom(),
                        e,
                    ))
                &&& forall|p: PeerId|
                    outcome.stopped@.contains(p) <==> start.sessions.contains_key(p) && !final(self).election().sessions.contains_key(p)
            },
            old(self).keyed() ==> final(self).keyed(),
    {
        let mut service = match self.service_impl.take() {
            Some(s) => s,
            None => {
                return Err(Error::Stopped);
            },
        };
        let ghost before = service;
        let ghost start = ElectionView {
            sessions: before.session_views(),
            target: self.cur_dst_peer_id_to_initiate,
        };
        let ghost present = peers@.to_set();
        let examined = service.list_session_peers();
        let present_set = set_from_members(peers);
        let target_left = match self.cur_dst_peer_id_to_initiate {
            Some(t) => service.has_session(t) && !set_contains(&present_set, t),
            None => false,
        };
        let mut stopped = service.stop_absent_sessions(&present_set);
        let cur = if target_left {
            None
        } else {
            self.cur_dst_peer_id_to_initiate
        };
        let ghost pruned = start.without_absent(present);
        assert(service.session_views() == pruned.sessions);
        assert(cur == pruned.target);
        proof {
            assert(examined@.to_set() =~= start.sessions.dom());
        }
        match service.elect_initiator(peers) {
            None => {
                proof {
                    assert forall|p: PeerId| present.contains(p) implies !is_candidate(
                        pruned.sessions,
                        p,
                    ) by {
                        assert(peers@.contains(p));
                    }
                }
                self.cur_dst_peer_id_to_initiate = cur;
                self.service_impl = Some(service);
                Ok(
                    MaintainOutcome {
                        stopped,
                        target: cur,
                        initiator_changed: false,
                        next_sleep_ms: MAINTAIN_PERIOD_MS,
                    },
                )
            },
            Some(elected) => {
                let initiator_changed = match cur {
                    Some(t) => t != elected,
                    None => true,
                };
                let ghost mut id: SessionId = 0;
                if initiator_changed {
                    match cur {
                        Some(t) => {
                            service.release_initiator(t);
                        },
                        None => {},
                    }
                    let new_id = service.take_initiator(elected);
                    proof {
                        id = new_id;
                    }
                }
                let ghost chosen = pruned.switched(elected, id);
                assert(service.session_views() == chosen.sessions);
                let ghost mid = service.session_views();
                let mut collected = service.collect_idle_sessions(&examined, elected);
                let ghost stopped1 = stopped@;
                let ghost stopped2 = collected@;
                stopped.append(&mut collected);
                self.cur_dst_peer_id_to_initiate = Some(elected);
                proof {
                    let fin = ElectionView {
                        sessions: service.session_views(),
                        target: Some(elected),
                    };
                    assert(fin.sessions =~= chosen.collected(start.sessions.dom(), elected).sessions);
                    assert(fin == chosen.collected(start.sessions.dom(), elected));
                    assert(present.contains(elected) && is_candidate(pruned.sessions, elected));
                    assert forall|p: PeerId|
                        stopped@.contains(p) <==> start.sessions.contains_key(p)
                            && !fin.sessions.contains_key(p) by {
                        assert(stopped@ == stopped1 + stopped2);
                        if stopped@.contains(p) {
                            let k = choose|k: int| 0 <= k < stopped@.len() && stopped@[k] == p;
                            if k < stopped1.len() {
                                assert(stopped1[k] == p);
                                assert(stopped1.contains(p));
                            } else {
                                assert(stopped2[k - stopped1.len()] == p);
                                assert(stopped2.contains(p));
                            }
                        }
                        if stopped1.contains(p) {
                            let k = choose|k: int| 0 <= k < stopped1.len() && stopped1[k] == p;
                            assert(stopped@[k] == p);
                        }
                        if stopped2.contains(p) {
                            let k = choose|k: int| 0 <= k < stopped2.len() && stopped2[k] == p;
                            assert(stopped@[stopped1.len() + k] == p);
                        }
                        if start.sessions.contains_key(p) && !fin.sessions.contains_key(p) {
                            if present.contains(p) {
                                assert(pruned.sessions.contains_key(p));
                                assert(mid.contains_key(p));
                            }
                        }
                    }
                }
                self.service_impl = Some(service);
                Ok(
                    MaintainOutcome {
                        stopped,
                        target: Some(elected),
                        initiator_changed,
                        next_sleep_ms: MAINTAIN_PERIOD_MS,
                    },
                )
            },
        }
    }

    /// Handles what the neighbour `from_peer_id` sent at `now`.
    ///
    /// Without a service the answer is `Stopped`. Otherwise the session with
    /// the neighbour is found or created, the request is counted and the
    /// neighbour's session id adopted. A batch of descriptors that shows the
    /// neighbour at a lower version than the stored one is answered with
    /// `DuplicatePeerId`, and neither database nor tables change. Any other
    /// request is applied: the descriptors first, then the adjacency matrix;
    /// what is derived from the database is rebuilt; the session records what
    /// the neighbour holds and whether it initiates. The answer says whether
    /// this node initiates, and gives its session id.
    pub fn sync_route_info(
        &mut self,
        from_peer_id: PeerId,
        from_session_id: SessionId,
        is_initiator: bool,
        peer_infos: Option<Vec<RoutePeerInfo>>,
        conn_bitmap: Option<RouteConnBitmap>,
        now: Timestamp,
    ) -> (r: Result<SyncRouteInfoResponse, Error>)
        requires
            old(self).service_impl matches Some(service) ==> {
                &&& peer_infos matches Some(infos) ==> !service.synced_route_info@.batch_fatal(
                    service.my_peer_id,
                    from_peer_id,
                    info_views(infos@),
                )
                &&& conn_bitmap matches Some(bitmap) ==> bitmap.covers()
            },
        ensures
            old(self).service_impl is None <==> r == Err::<SyncRouteInfoResponse, Error>(
                Error::Stopped,
            ),
            old(self).service_impl is None ==> final(self).service_impl is None,
            old(self).service_impl matches Some(before) ==> final(self).service_impl matches Some(
                after,
            ) && {
                let start = if before.session_views().contains_key(from_peer_id) {
                    before.session_views()[from_peer_id]
                } else {
                    SessionView::fresh(from_peer_id, after.session_views()[from_peer_id].my_session_id)
                };
                let refused = peer_infos matches Some(infos)
                    && before.synced_route_info@.batch_regresses(from_peer_id, info_views(infos@));
                let with_infos = match peer_infos {
                    Some(infos) => before.synced_route_info@.apply_batch(
                        from_peer_id,
                        info_views(infos@),
                        now,
                    ),
                    None => before.synced_route_info@,
                };
                &&& after.my_peer_id == before.my_peer_id
                &&& after.session_views().contains_key(from_peer_id)
                &&& refused <==> r == Err::<SyncRouteInfoResponse, Error>(Error::DuplicatePeerId)
                &&& refused ==> {
                    &&& after.session_views() == before.session_views().insert(
                        from_peer_id,
                        start.greeted(from_session_id),
                    )
                    &&& after.synced_route_info@ == before.synced_route_info@
                    &&& after.route_table@ == before.route_table@
                    &&& after.route_table_with_cost@ == before.route_table_with_cost@
                    &&& after.cached_local_conn_map == before.cached_local_conn_map
                }
                &&& !refused ==> {
                    let session = start.received(
                        from_session_id,
                        is_initiator,
                        opt_info_labels(peer_infos),
                        opt_row_labels(conn_bitmap),
                    );
                    &&& after.session_views() == before.session_views().insert(
                        from_peer_id,
                        session,
                    )
                    &&& after.synced_route_info@ == (match conn_bitmap {
                        Some(bitmap) => with_infos.apply_bitmap(bitmap, now),
                        None => with_infos,
                    })
                    &&& r == Ok::<SyncRouteInfoResponse, Error>(
                        SyncRouteInfoResponse {
                            is_initiator: session.we_are_initiator,
                            session_id: session.my_session_id,
                        },
                    )
                    &&& after.rebuilt_since(&before)
                }
            },
            final(self).cur_dst_peer_id_to_initiate == old(self).cur_dst_peer_id_to_initiate,
            old(self).keyed() ==> final(self).keyed(),
    {
        let mut service = match self.service_impl.take() {
            Some(s) => s,
            None => {
                return Err(Error::Stopped);
            },
        };
        let ghost before = service;
        let created = service.get_or_create_session(from_peer_id);
        let ghost start = created@;
        let mut session = match crate::dash::session_map_remove(&mut service.sessions, from_peer_id) {
            Some(s) => s,
            None => {
                proof {
                    assert(false);
                }
                created
            },
        };
        session.task_running = true;
        session.rpc_rx_count = session.rpc_rx_count.wrapping_add(1);
        session.update_dst_session_id(from_session_id);
        assert(session@ == start.greeted(from_session_id));

        match &peer_infos {
            Some(infos) => {
                match service.synced_route_info.update_peer_infos(
                    service.my_peer_id,
                    from_peer_id,
                    infos,
                    now,
                ) {
                    Err(e) => {
                        crate::dash::session_map_insert(&mut service.sessions, from_peer_id, session);
                        proof {
                            assert(service.session_views() =~= before.session_views().insert(
                                from_peer_id,
                                start.greeted(from_session_id),
                            ));
                        }
                        self.service_impl = Some(service);
                        return Err(e);
                    },
                    Ok(_) => {},
                }
                session.update_dst_saved_peer_info_version(infos);
            },
            None => {},
        }
        match &conn_bitmap {
            Some(bitmap) => {
                service.synced_route_info.update_conn_map(bitmap, now);
                session.update_dst_saved_conn_bitmap_version(bitmap);
            },
            None => {},
        }
        session.dst_is_initiator = is_initiator;
        let response = SyncRouteInfoResponse {
            is_initiator: session.we_are_initiator,
            session_id: session.my_session_id,
        };
        crate::dash::session_map_insert(&mut service.sessions, from_peer_id, session);
        proof {
            assert(service.session_views() =~= before.session_views().insert(
                from_peer_id,
                start.received(
                    from_session_id,
                    is_initiator,
                    opt_info_labels(peer_infos),
                    opt_row_labels(conn_bitmap),
                ),
            ));
        }
        let ghost mid = service;
        let outcome = service.update_route_table_and_cached_local_conn_bitmap();
        proof {
            assert(service.derived_after(&mid, outcome));
            assert(service.derived_after(&before, outcome));
        }
        self.service_impl = Some(service);
        Ok(response)
    }
}

/// Whether two services differ in their sessions at most.
pub open spec fn same_but_sessions<C: RouteCostCalculatorInterface>(
    a: PeerRouteServiceImpl<C>,
    b: PeerRouteServiceImpl<C>,
) -> bool {
    &&& a.my_peer_id == b.my_peer_id
    &&& a.global_ctx == b.global_ctx
    &&& a.cost_calculator == b.cost_calculator
    &&& a.route_table == b.route_table
    &&& a.route_table_with_cost == b.route_table_with_cost
    &&& a.synced_route_info == b.synced_route_info
    &&& a.cached_local_conn_map == b.cached_local_conn_map
    &&& a.last_rebuild == b.last_rebuild
}

impl<C: RouteCostCalculatorInterface> PeerRouteServiceImpl<C> {
    /// Ends the sessions with peers that are not in `present` and lists them.
    pub fn stop_absent_sessions(&mut self, present: &PeerSet) -> (stopped: Vec<PeerId>)
        ensures
            final(self).session_views() == old(self).session_views().restrict(present@),
            stopped@.no_duplicates(),
            forall|p: PeerId|
                stopped@.contains(p) <==> old(self).session_views().contains_key(p)
                    && !present@.contains(p),
            same_but_sessions(*final(self), *old(self)),
            old(self).keyed() ==> final(self).keyed(),
    {
        let ghost before = self.session_views();
        let session_peers = self.list_session_peers();
        let mut stopped: Vec<PeerId> = Vec::new();
        let mut i: usize = 0;
        while i < session_peers.len()
            invariant
                i <= session_peers@.len(),
                session_peers@.no_duplicates(),
                forall|p: PeerId| session_peers@.contains(p) <==> before.contains_key(p),
                same_but_sessions(*self, *old(self)),
                forall|p: PeerId|
                    #[trigger] self.session_views().contains_key(p) <==> before.contains_key(p) && !(
                    seen(session_peers@, i as int, p) && !present@.contains(p)),
                forall|p: PeerId|
                    #[trigger] self.session_views().contains_key(p) ==> self.session_views()[p]
                        == before[p],
                stopped@.no_duplicates(),
                forall|p: PeerId|
                    #[trigger] stopped@.contains(p) <==> seen(session_peers@, i as int, p)
                        && !present@.contains(p),
            decreases session_peers@.len() - i,
        {
            let peer = session_peers[i];
            let ghost old_stopped = stopped@;
            proof {
                assert(session_peers@.contains(peer));
                assert(!seen(session_peers@, i as int, peer)) by {
                    if seen(session_peers@, i as int, peer) {
                        let k = choose|k: int| 0 <= k < i && #[trigger] session_peers@[k] == peer;
                        assert(session_peers@[k] == session_peers@[i as int]);
                    }
                }
                assert forall|p: PeerId|
                    seen(session_peers@, i + 1, p) <==> seen(session_peers@, i as int, p) || p
                        == peer by {
                    crate::peer_set::lemma_seen_step(session_peers@, i as int, p);
                }
            }
            if !set_contains(present, peer) {
                self.remove_session(peer);
                stopped.push(peer);
                proof {
                    assert forall|p: PeerId| #[trigger]
                        stopped@.contains(p) <==> old_stopped.contains(p) || p == peer by {
                        if stopped@.contains(p) {
                            let k = choose|k: int| 0 <= k < stopped@.len() && stopped@[k] == p;
                            if k < old_stopped.len() {
                                assert(old_stopped[k] == p);
                            }
                        }
                        if old_stopped.contains(p) {
                            let k = choose|k: int| 0 <= k < old_stopped.len() && old_stopped[k] == p;
                            assert(stopped@[k] == p);
                        }
                        if p == peer {
                            assert(stopped@[old_stopped.len() as int] == p);
                        }
                    }
                    assert forall|a: int, b: int|
                        0 <= a < stopped@.len() && 0 <= b < stopped@.len() && a
                            != b implies stopped@[a] != stopped@[b] by {
                        if a < old_stopped.len() {
                            assert(old_stopped.contains(old_stopped[a]));
                        }
                        if b < old_stopped.len() {
                            assert(old_stopped.contains(old_stopped[b]));
                        }
                    }
                }
            }
            i += 1;
        }
        proof {
            assert forall|p: PeerId| before.contains_key(p) implies seen(
                session_peers@,
                session_peers@.len() as int,
                p,
            ) by {
                assert(session_peers@.contains(p));
                let k = choose|k: int| 0 <= k < session_peers@.len() && session_peers@[k] == p;
                assert(session_peers@[k] == p);
            }
            assert forall|p: PeerId|
                seen(session_peers@, session_peers@.len() as int, p) implies before.contains_key(
                p,
            ) by {
                let k = choose|k: int|
                    0 <= k < session_peers@.len() && #[trigger] session_peers@[k] == p;
                assert(session_peers@.contains(p));
            }
            assert(self.session_views() =~= before.restrict(present@));
        }
        stopped
    }

    /// Elects the neighbour to initiate towards among `neighbours`, which may
    /// come in any order: the candidate with the lowest id among those with a
    /// friendly NAT type, or among all where no candidate has one; `None`
    /// where there is no candidate.
    pub fn elect_initiator(&self, neighbours: &Vec<PeerId>) -> (r: Option<PeerId>)
        ensures
            r is None <==> forall|p: PeerId|
                neighbours@.contains(p) ==> !is_candidate(self.session_views(), p),
            r matches Some(e) ==> is_elected(
                self.route_table@,
                self.session_views(),
                neighbours@.to_set(),
                e,
            ),
    {
        let sorted = sorted_peers(neighbours);
        let peers = &sorted;
        proof {
            assert(peers@.to_set() =~= neighbours@.to_set());
        }
        let ghost sessions = self.session_views();
        let ghost table = self.route_table@;
        let mut first: Option<PeerId> = None;
        let mut friendly: Option<PeerId> = None;
        let mut i: usize = 0;
        while i < peers.len()
            invariant
                i <= peers@.len(),
                ascending(peers@),
                sessions == self.session_views(),
                table == self.route_table@,
                first is None ==> forall|k: int|
                    0 <= k < i ==> !is_candidate(sessions, #[trigger] peers@[k]),
                first matches Some(c) ==> peers@.contains(c) && is_candidate(sessions, c) && seen(
                    peers@,
                    i as int,
                    c,
                ) && forall|k: int|
                    0 <= k < i && is_candidate(sessions, #[trigger] peers@[k]) ==> c <= peers@[k],
                friendly is None ==> forall|k: int|
                    0 <= k < i && is_candidate(sessions, #[trigger] peers@[k]) ==> !is_friendly(
                        table,
                        peers@[k],
                    ),
                friendly matches Some(c) ==> peers@.contains(c) && is_candidate(sessions, c)
                    && is_friendly(table, c) && seen(peers@, i as int, c) && forall|k: int|
                    0 <= k < i && is_candidate(sessions, #[trigger] peers@[k]) && is_friendly(
                        table,
                        peers@[k],
                    ) ==> c <= peers@[k],
            decreases peers@.len() - i,
        {
            let peer = peers[i];
            assert(peers@.contains(peer));
            let candidate = match self.get_session(peer) {
                Some(session) => !session.dst_is_initiator,
                None => true,
            };
            proof {
                if first is Some {
                    let c = first->0;
                    let k = choose|k: int| 0 <= k < i && #[trigger] peers@[k] == c;
                    assert(peers@[k] < peers@[i as int]);
                    crate::peer_set::lemma_seen_step(peers@, i as int, c);
                }
                if friendly is Some {
                    let c = friendly->0;
                    let k = choose|k: int| 0 <= k < i && #[trigger] peers@[k] == c;
                    assert(peers@[k] < peers@[i as int]);
                    crate::peer_set::lemma_seen_step(peers@, i as int, c);
                }
                crate::peer_set::lemma_seen_step(peers@, i as int, peer);
            }
            if candidate {
                if first.is_none() {
                    first = Some(peer);
                }
                if friendly.is_none() {
                    let is_friendly_peer = match self.route_table.get_nat_type(peer) {
                        Some(nat_type) => nat_type.is_connectivity_friendly(),
                        None => false,
                    };
                    if is_friendly_peer {
                        friendly = Some(peer);
                    }
                }
            }
            i += 1;
        }
        let elected = match friendly {
            Some(c) => Some(c),
            None => first,
        };
        proof {
            let present = peers@.to_set();
            if elected is Some {
                let e = elected->0;
                if friendly is Some {
                    assert(present.contains(e) && is_candidate(sessions, e) && is_friendly(table, e));
                    assert forall|q: PeerId|
                        present.contains(q) && is_candidate(sessions, q) && #[trigger] is_friendly(
                            table,
                            q,
                        ) implies e <= q by {
                        let k = choose|k: int| 0 <= k < peers@.len() && peers@[k] == q;
                        assert(is_candidate(sessions, peers@[k]));
                    }
                } else {
                    assert forall|q: PeerId|
                        present.contains(q) && is_candidate(sessions, q) implies !is_friendly(
                        table,
                        q,
                    ) by {
                        let k = choose|k: int| 0 <= k < peers@.len() && peers@[k] == q;
                        assert(is_candidate(sessions, peers@[k]));
                    }
                    assert forall|q: PeerId|
                        present.contains(q) && #[trigger] is_candidate(sessions, q) implies e
                        <= q by {
                        let k = choose|k: int| 0 <= k < peers@.len() && peers@[k] == q;
                        assert(is_candidate(sessions, peers@[k]));
                    }
                }
            } else {
                assert forall|p: PeerId| peers@.contains(p) implies !is_candidate(sessions, p) by {
                    let k = choose|k: int| 0 <= k < peers@.len() && peers@[k] == p;
                    assert(!is_candidate(sessions, peers@[k]));
                }
            }
        }
        elected
    }

    /// Gives up initiating towards `peer`, if a session is held with it.
    pub fn release_initiator(&mut self, peer: PeerId)
        ensures
            final(self).session_views() == (if old(self).session_views().contains_key(peer) {
                old(self).session_views().insert(
                    peer,
                    old(self).session_views()[peer].with_initiator_flag(false),
                )
            } else {
                old(self).session_views()
            }),
            same_but_sessions(*final(self), *old(self)),
            old(self).keyed() ==> final(self).keyed(),
    {
        match crate::dash::session_map_remove(&mut self.sessions, peer) {
            Some(mut session) => {
                session.update_initiator_flag(false);
                crate::dash::session_map_insert(&mut self.sessions, peer, session);
                assert(self.session_views() =~= old(self).session_views().insert(
                    peer,
                    old(self).session_views()[peer].with_initiator_flag(false),
                ));
            },
            None => {
                assert(self.session_views() =~= old(self).session_views());
            },
        }
    }

    /// Takes up initiating towards `peer`: its session is created where there
    /// is none, a task is to drive it, and the neighbour is to be told. The
    /// result is this node's id of the session.
    pub fn take_initiator(&mut self, peer: PeerId) -> (id: SessionId)
        ensures
            final(self).session_views() == old(self).session_views().insert(
                peer,
                SessionView {
                    task_running: true,
                    ..(if old(self).session_views().contains_key(peer) {
                        old(self).session_views()[peer]
                    } else {
                        SessionView::fresh(peer, id)
                    })
                }.with_initiator_flag(true),
            ),
            same_but_sessions(*final(self), *old(self)),
            old(self).keyed() ==> final(self).keyed(),
    {
        let mut session = self.get_or_create_session(peer);
        session.task_running = true;
        session.update_initiator_flag(true);
        let id = session.my_session_id;
        crate::dash::session_map_insert(&mut self.sessions, peer, session);
        proof {
            assert(self.session_views() =~= old(self).session_views().insert(
                peer,
                SessionView {
                    task_running: true,
                    ..(if old(self).session_views().contains_key(peer) {
                        old(self).session_views()[peer]
                    } else {
                        SessionView::fresh(peer, id)
                    })
                }.with_initiator_flag(true),
            ));
        }
        id
    }

    /// Ends the idle sessions among `listed`, but for the one with `keep`,
    /// and lists them. A peer that is listed twice counts once.
    pub fn collect_idle_sessions(&mut self, listed: &Vec<PeerId>, keep: PeerId) -> (stopped: Vec<
        PeerId,
    >)
        ensures
            final(self).session_views() == (ElectionView {
                sessions: old(self).session_views(),
                target: None,
            }).collected(listed@.to_set(), keep).sessions,
            stopped@.no_duplicates(),
            forall|p: PeerId|
                stopped@.contains(p) <==> old(self).session_views().contains_key(p) && !final(self).session_views().contains_key(p),
            same_but_sessions(*final(self), *old(self)),
            old(self).keyed() ==> final(self).keyed(),
    {
        let distinct = sorted_peers(listed);
        let examined = &distinct;
        proof {
            assert(examined@.to_set() =~= listed@.to_set());
        }
        let ghost before = self.session_views();
        let mut stopped: Vec<PeerId> = Vec::new();
        let mut i: usize = 0;
        while i < examined.len()
            invariant
                i <= examined@.len(),
                examined@.no_duplicates(),
                same_but_sessions(*self, *old(self)),
                forall|p: PeerId|
                    #[trigger] self.session_views().contains_key(p) <==> before.contains_key(p) && !(
                    seen(examined@, i as int, p) && p != keep && before[p].idle()),
                forall|p: PeerId|
                    #[trigger] self.session_views().contains_key(p) ==> self.session_views()[p]
                        == before[p],
                stopped@.no_duplicates(),
                forall|p: PeerId|
                    #[trigger] stopped@.contains(p) <==> before.contains_key(p) && seen(
                        examined@,
                        i as int,
                        p,
                    ) && p != keep && before[p].idle(),
            decreases examined@.len() - i,
        {
            let peer = examined[i];
            let ghost old_stopped = stopped@;
            let ghost mid = self.session_views();
            proof {
                assert(!seen(examined@, i as int, peer)) by {
                    if seen(examined@, i as int, peer) {
                        let k = choose|k: int| 0 <= k < i && #[trigger] examined@[k] == peer;
                        assert(examined@[k] == examined@[i as int]);
                    }
                }
                assert forall|p: PeerId|
                    seen(examined@, i + 1, p) <==> seen(examined@, i as int, p) || p == peer by {
                    crate::peer_set::lemma_seen_step(examined@, i as int, p);
                }
            }
            if peer != keep {
                match crate::dash::session_map_remove(&mut self.sessions, peer) {
                    Some(session) => {
                        if session.dst_is_initiator || session.we_are_initiator
                            || session.need_sync_initiator_info {
                            crate::dash::session_map_insert(&mut self.sessions, peer, session);
                            assert(self.session_views() =~= mid);
                        } else {
                            stopped.push(peer);
                            proof {
                                assert forall|p: PeerId| #[trigger]
                                    stopped@.contains(p) <==> old_stopped.contains(p) || p
                                        == peer by {
                                    if stopped@.contains(p) {
                                        let k = choose|k: int|
                                            0 <= k < stopped@.len() && stopped@[k] == p;
                                        if k < old_stopped.len() {
                                            assert(old_stopped[k] == p);
                                        }
                                    }
                                    if old_stopped.contains(p) {
                                        let k = choose|k: int|
                                            0 <= k < old_stopped.len() && old_stopped[k] == p;
                                        assert(stopped@[k] == p);
                                    }
                                    if p == peer {
                                        assert(stopped@[old_stopped.len() as int] == p);
                                    }
                                }
                                assert forall|a: int, b: int|
                                    0 <= a < stopped@.len() && 0 <= b < stopped@.len() && a
                                        != b implies stopped@[a] != stopped@[b] by {
                                    if a < old_stopped.len() {
                                        assert(old_stopped.contains(old_stopped[a]));
                                    }
                                    if b < old_stopped.len() {
                                        assert(old_stopped.contains(old_stopped[b]));
                                    }
                                }
                            }
                        }
                    },
                    None => {
                        assert(self.session_views() =~= mid);
                    },
                }
            }
            i += 1;
        }
        proof {
            let want = (ElectionView { sessions: before, target: None }).collected(
                examined@.to_set(),
                keep,
            ).sessions;
            assert forall|p: PeerId|
                seen(examined@, examined@.len() as int, p) <==> examined@.to_set().contains(p) by {
                if seen(examined@, examined@.len() as int, p) {
                    let k = choose|k: int| 0 <= k < examined@.len() && #[trigger] examined@[k] == p;
                    assert(examined@.contains(p));
                }
                if examined@.contains(p) {
                    let k = choose|k: int| 0 <= k < examined@.len() && examined@[k] == p;
                    assert(examined@[k] == p);
                }
            }
            assert(self.session_views() =~= want);
        }
        stopped
    }
}

} // verus!
