//! State kept for the conversation with one neighbour.

use vstd::prelude::*;
use crate::conn_bitmap::RouteConnBitmap;
use crate::dash::{id_entries, id_map_clone, id_map_get, id_map_insert, id_map_new, IdMap};
use crate::peer_info::RoutePeerInfo;
use crate::version::max_version;
use crate::{PeerId, SessionId, Version};

verus! {

/// `rand::random`: a session id drawn at random. Nothing is promised of it.
#[verifier::external_body]
pub(crate) fn random_session_id() -> (id: SessionId) {
    rand::random()
}

/// What is kept for one neighbour: both ends' session ids, the versions the
/// neighbour is known to hold, who drives the exchange, and counters.
pub struct SyncRouteSession {
    pub dst_peer_id: PeerId,
    /// Highest descriptor version, by peer, that the neighbour is known to hold.
    pub dst_saved_peer_info_versions: IdMap,
    /// Highest adjacency version, by peer, that the neighbour is known to hold.
    pub dst_saved_conn_bitmap_version: IdMap,
    pub my_session_id: SessionId,
    pub dst_session_id: SessionId,
    pub we_are_initiator: bool,
    pub dst_is_initiator: bool,
    /// Set when the next exchange has to go out even without news.
    pub need_sync_initiator_info: bool,
    pub rpc_tx_count: u32,
    pub rpc_rx_count: u32,
    /// Whether the task that drives outbound exchanges is running.
    pub task_running: bool,
}

/// Mathematical content of a session.
pub struct SessionView {
    pub dst_peer_id: PeerId,
    pub saved_info_versions: Map<PeerId, Version>,
    pub saved_conn_versions: Map<PeerId, Version>,
    pub my_session_id: SessionId,
    pub dst_session_id: SessionId,
    pub we_are_initiator: bool,
    pub dst_is_initiator: bool,
    pub need_sync_initiator_info: bool,
    pub rpc_tx_count: u32,
    pub rpc_rx_count: u32,
    pub task_running: bool,
}

impl View for SyncRouteSession {
    type V = SessionView;

    open spec fn view(&self) -> SessionView {
        SessionView {
            dst_peer_id: self.dst_peer_id,
            saved_info_versions: id_entries(self.dst_saved_peer_info_versions),
            saved_conn_versions: id_entries(self.dst_saved_conn_bitmap_version),
            my_session_id: self.my_session_id,
            dst_session_id: self.dst_session_id,
            we_are_initiator: self.we_are_initiator,
            dst_is_initiator: self.dst_is_initiator,
            need_sync_initiator_info: self.need_sync_initiator_info,
            rpc_tx_count: self.rpc_tx_count,
            rpc_rx_count: self.rpc_rx_count,
            task_running: self.task_running,
        }
    }
}

/// The version stored for `peer`, zero where there is none.
pub open spec fn version_or_zero(m: Map<PeerId, Version>, peer: PeerId) -> Version {
    if m.contains_key(peer) {
        m[peer]
    } else {
        0
    }
}

/// The high-water marks `m` after each `(peer, version)` of `pairs` was
/// recorded in turn: the mark of a peer never goes down.
pub open spec fn raise_versions(m: Map<PeerId, Version>, pairs: Seq<(PeerId, Version)>) -> Map<
    PeerId,
    Version,
>
    decreases pairs.len(),
{
    if pairs.len() == 0 {
        m
    } else {
        let before = raise_versions(m, pairs.drop_last());
        let (peer, version) = pairs.last();
        before.insert(peer, max_version(version_or_zero(before, peer), version))
    }
}

/// Peer id and version of each descriptor of a batch.
pub open spec fn info_labels(infos: Seq<RoutePeerInfo>) -> Seq<(PeerId, Version)> {
    Seq::new(infos.len(), |i: int| (infos[i].peer_id, infos[i].version))
}

/// Recording a batch of versions leaves every mark at least where it was, and
/// at least at each version recorded for its peer.
pub proof fn lemma_raise_versions(m: Map<PeerId, Version>, pairs: Seq<(PeerId, Version)>)
    ensures
        forall|p: PeerId|
            m.contains_key(p) ==> #[trigger] raise_versions(m, pairs).contains_key(p)
                && raise_versions(m, pairs)[p] >= m[p],
        forall|i: int|
            0 <= i < pairs.len() ==> raise_versions(m, pairs).contains_key(#[trigger] pairs[i].0)
                && raise_versions(m, pairs)[pairs[i].0] >= pairs[i].1,
        forall|p: PeerId|
            #[trigger] raise_versions(m, pairs).contains_key(p) ==> m.contains_key(p) || exists|
                i: int,
            |
                0 <= i < pairs.len() && #[trigger] pairs[i].0 == p,
    decreases pairs.len(),
{
    if pairs.len() > 0 {
        let front = pairs.drop_last();
        lemma_raise_versions(m, front);
        let before = raise_versions(m, front);
        let after = raise_versions(m, pairs);
        assert forall|i: int| 0 <= i < pairs.len() implies after.contains_key(
            #[trigger] pairs[i].0,
        ) && after[pairs[i].0] >= pairs[i].1 by {
            if i < front.len() {
                assert(front[i] == pairs[i]);
                assert(before.contains_key(front[i].0));
            }
        }
        assert forall|p: PeerId| #[trigger] after.contains_key(p) implies m.contains_key(p)
            || exists|i: int| 0 <= i < pairs.len() && #[trigger] pairs[i].0 == p by {
            if p == pairs.last().0 {
                assert(pairs[pairs.len() - 1].0 == p);
            } else {
                assert(before.contains_key(p));
                if !m.contains_key(p) {
                    let i = choose|i: int| 0 <= i < front.len() && #[trigger] front[i].0 == p;
                    assert(pairs[i].0 == p);
                }
            }
        }
    }
}

impl SessionView {
    /// The session as it starts out.
    pub open spec fn fresh(dst_peer_id: PeerId, my_session_id: SessionId) -> SessionView {
        SessionView {
            dst_peer_id,
            saved_info_versions: Map::empty(),
            saved_conn_versions: Map::empty(),
            my_session_id,
            dst_session_id: 0,
            we_are_initiator: false,
            dst_is_initiator: false,
            need_sync_initiator_info: false,
            rpc_tx_count: 0,
            rpc_rx_count: 0,
            task_running: false,
        }
    }

    /// Whether the neighbour needs no copy of the descriptor of `peer_id` at
    /// `version`: placeholders are never sent, a peer's own descriptor is never
    /// echoed back to it, and what it is known to hold is not sent again.
    pub open spec fn up_to_date(self, peer_id: PeerId, version: Version) -> bool {
        version == 0 || peer_id == self.dst_peer_id || (self.saved_info_versions.contains_key(
            peer_id,
        ) && self.saved_info_versions[peer_id] >= version)
    }

    /// The session after the neighbour announced `session_id`: a changed id
    /// means that it restarted, so what it was known to hold is forgotten.
    pub open spec fn with_dst_session_id(self, session_id: SessionId) -> SessionView {
        if session_id != self.dst_session_id {
            SessionView {
                dst_session_id: session_id,
                saved_info_versions: Map::empty(),
                saved_conn_versions: Map::empty(),
                ..self
            }
        } else {
            self
        }
    }
}

impl Clone for SyncRouteSession {
    fn clone(&self) -> (r: Self)
        ensures
            r@ == self@,
    {
        SyncRouteSession {
            dst_peer_id: self.dst_peer_id,
            dst_saved_peer_info_versions: id_map_clone(&self.dst_saved_peer_info_versions),
            dst_saved_conn_bitmap_version: id_map_clone(&self.dst_saved_conn_bitmap_version),
            my_session_id: self.my_session_id,
            dst_session_id: self.dst_session_id,
            we_are_initiator: self.we_are_initiator,
            dst_is_initiator: self.dst_is_initiator,
            need_sync_initiator_info: self.need_sync_initiator_info,
            rpc_tx_count: self.rpc_tx_count,
            rpc_rx_count: self.rpc_rx_count,
            task_running: self.task_running,
        }
    }
}

impl SyncRouteSession {
    /// A session with `dst_peer_id` under a session id drawn at random.
    pub fn new(dst_peer_id: PeerId) -> (r: Self)
        ensures
            r@ == SessionView::fresh(dst_peer_id, r.my_session_id),
    {
        Self::with_session_id(dst_peer_id, random_session_id())
    }

    /// A session with `dst_peer_id` under the session id given.
    pub fn with_session_id(dst_peer_id: PeerId, my_session_id: SessionId) -> (r: Self)
        ensures
            r@ == SessionView::fresh(dst_peer_id, my_session_id),
    {
        SyncRouteSession {
            dst_peer_id,
            dst_saved_peer_info_versions: id_map_new(),
            dst_saved_conn_bitmap_version: id_map_new(),
            my_session_id,
            dst_session_id: 0,
            we_are_initiator: false,
            dst_is_initiator: false,
            need_sync_initiator_info: false,
            rpc_tx_count: 0,
            rpc_rx_count: 0,
            task_running: false,
        }
    }

    /// Whether the neighbour needs no copy of the descriptor of `peer_id` at
    /// `version`.
    pub fn check_saved_peer_info_update_to_date(&self, peer_id: PeerId, version: Version) -> (r:
        bool)
        ensures
            r == self@.up_to_date(peer_id, version),
    {
        if version == 0 || peer_id == self.dst_peer_id {
            return true;
        }
        match id_map_get(&self.dst_saved_peer_info_versions, peer_id) {
            Some(v) => v >= version,
            None => false,
        }
    }

    /// Records that the neighbour holds each descriptor of `infos`.
    pub fn update_dst_saved_peer_info_version(&mut self, infos: &Vec<RoutePeerInfo>)
        ensures
            final(self)@ == (SessionView {
                saved_info_versions: raise_versions(
                    old(self)@.saved_info_versions,
                    info_labels(infos@),
                ),
                ..old(self)@
            }),
    {
        let mut i: usize = 0;
        while i < infos.len()
            invariant
                i <= infos.len(),
                self@ == (SessionView {
                    saved_info_versions: raise_versions(
                        old(self)@.saved_info_versions,
                        info_labels(infos@).take(i as int),
                    ),
                    ..old(self)@
                }),
            decreases infos.len() - i,
        {
            let peer = infos[i].peer_id;
            let version = infos[i].version;
            let stored = match id_map_get(&self.dst_saved_peer_info_versions, peer) {
                Some(v) => v,
                None => 0,
            };
            let raised = if stored < version {
                version
            } else {
                stored
            };
            id_map_insert(&mut self.dst_saved_peer_info_versions, peer, raised);
            proof {
                let labels = info_labels(infos@);
                assert(labels.take(i + 1).drop_last() == labels.take(i as int));
                assert(labels.take(i + 1).last() == (peer, version));
            }
            i += 1;
        }
        assert(info_labels(infos@).take(infos.len() as int) == info_labels(infos@));
    }

    /// Records that the neighbour holds each adjacency row of `conn_bitmap`.
    pub fn update_dst_saved_conn_bitmap_version(&mut self, conn_bitmap: &RouteConnBitmap)
        ensures
            final(self)@ == (SessionView {
                saved_conn_versions: raise_versions(
                    old(self)@.saved_conn_versions,
                    conn_bitmap.peer_ids@,
                ),
                ..old(self)@
            }),
    {
        let mut i: usize = 0;
        while i < conn_bitmap.peer_ids.len()
            invariant
                i <= conn_bitmap.peer_ids.len(),
                self@ == (SessionView {
                    saved_conn_versions: raise_versions(
                        old(self)@.saved_conn_versions,
                        conn_bitmap.peer_ids@.take(i as int),
                    ),
                    ..old(self)@
                }),
            decreases conn_bitmap.peer_ids.len() - i,
        {
            let peer = conn_bitmap.peer_ids[i].0;
            let version = conn_bitmap.peer_ids[i].1;
            let stored = match id_map_get(&self.dst_saved_conn_bitmap_version, peer) {
                Some(v) => v,
                None => 0,
            };
            let raised = if stored < version {
                version
            } else {
                stored
            };
            id_map_insert(&mut self.dst_saved_conn_bitmap_version, peer, raised);
            proof {
                let labels = conn_bitmap.peer_ids@;
                assert(labels.take(i + 1).drop_last() == labels.take(i as int));
                assert(labels.take(i + 1).last() == (peer, version));
            }
            i += 1;
        }
        assert(conn_bitmap.peer_ids@.take(conn_bitmap.peer_ids.len() as int)
            == conn_bitmap.peer_ids@);
    }

    /// Takes or gives up the role of initiator; either way the neighbour has to
    /// be told with the next exchange.
    pub fn update_initiator_flag(&mut self, is_initiator: bool)
        ensures
            final(self)@ == (SessionView {
                we_are_initiator: is_initiator,
                need_sync_initiator_info: true,
                ..old(self)@
            }),
    {
        self.we_are_initiator = is_initiator;
        self.need_sync_initiator_info = true;
    }

    /// Adopts the session id that the neighbour announced.
    pub fn update_dst_session_id(&mut self, session_id: SessionId)
        ensures
            final(self)@ == old(self)@.with_dst_session_id(session_id),
    {
        if session_id != self.dst_session_id {
            self.dst_session_id = session_id;
            self.dst_saved_conn_bitmap_version = id_map_new();
            self.dst_saved_peer_info_versions = id_map_new();
        }
    }
}

} // verus!
