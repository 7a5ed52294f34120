//! The synchronised route database: the latest descriptor and the latest
//! adjacency set known of every peer, each under its version.

use vstd::prelude::*;
use std::collections::BTreeSet;
use crate::conn_bitmap::RouteConnBitmap;
use crate::dash::{
    conn_entries, conn_map_contains_key, conn_map_get, conn_map_insert, conn_map_remove,
    info_entries, info_map_contains_key, info_map_get, info_map_insert, info_map_remove, ConnMap,
    InfoMap,
};
use crate::error::Error;
use crate::peer_info::{LocalContext, LocalContextView, PeerInfoView, RoutePeerInfo};
use crate::peer_set::{set_contains, set_equal, set_from_members, set_members, PeerSet};
use crate::version::{next_version, AtomicVersion};
use crate::{PeerId, Timestamp, Version};

verus! {

/// Mathematical content of the database.
pub struct DbView {
    /// Descriptor of each known peer.
    pub infos: Map<PeerId, PeerInfoView>,
    /// Adjacency set of each known peer, with the version of the set.
    pub conns: Map<PeerId, (Set<PeerId>, Version)>,
}

/// The view of each descriptor of a batch.
pub open spec fn info_views(infos: Seq<RoutePeerInfo>) -> Seq<PeerInfoView> {
    Seq::new(infos.len(), |i: int| infos[i]@)
}

/// The peer of each label of an adjacency matrix.
pub open spec fn label_ids(labels: Seq<(PeerId, Version)>) -> Seq<PeerId> {
    Seq::new(labels.len(), |i: int| labels[i].0)
}

/// The descriptors `m` after one incoming descriptor was applied at `now`: it
/// is stored, stamped with `now`, where the peer is new or the incoming
/// version is higher than the stored one.
pub open spec fn apply_descriptor(
    m: Map<PeerId, PeerInfoView>,
    info: PeerInfoView,
    now: Timestamp,
) -> Map<PeerId, PeerInfoView> {
    if m.contains_key(info.peer_id) && info.version <= m[info.peer_id].version {
        m
    } else {
        m.insert(info.peer_id, PeerInfoView { last_update: now, ..info })
    }
}

/// The descriptors `m` after a batch was applied in order at `now`.
pub open spec fn apply_descriptors(
    m: Map<PeerId, PeerInfoView>,
    infos: Seq<PeerInfoView>,
    now: Timestamp,
) -> Map<PeerId, PeerInfoView>
    decreases infos.len(),
{
    if infos.len() == 0 {
        m
    } else {
        apply_descriptor(apply_descriptors(m, infos.drop_last(), now), infos.last(), now)
    }
}

impl DbView {
    /// The version stored for the descriptor of `peer`, zero where the peer is
    /// unknown.
    pub open spec fn stored_version(self, peer: PeerId) -> Version {
        if self.infos.contains_key(peer) {
            self.infos[peer].version
        } else {
            0
        }
    }

    /// Whether every descriptor that is no placeholder is stored under the id
    /// of the peer that it describes.
    pub open spec fn keyed(self) -> bool {
        forall|k: PeerId|
            #[trigger] self.infos.contains_key(k) && self.infos[k].version != 0
                ==> self.infos[k].peer_id == k
    }

    /// Whether `a` lists `b` as a direct neighbour.
    pub open spec fn lists(self, a: PeerId, b: PeerId) -> bool {
        self.conns.contains_key(a) && self.conns[a].0.contains(b)
    }

    /// Whether either of `a` and `b` lists the other as a direct neighbour.
    pub open spec fn directly_connected(self, a: PeerId, b: PeerId) -> bool {
        self.lists(a, b) || self.lists(b, a)
    }

    /// The database after every peer of `ids` that was unknown got a
    /// placeholder descriptor and an empty adjacency set, both at version 0.
    pub open spec fn ensure(self, ids: Set<PeerId>, now: Timestamp) -> DbView {
        DbView {
            infos: Map::new(
                |p: PeerId| self.infos.contains_key(p) || ids.contains(p),
                |p: PeerId|
                    if self.infos.contains_key(p) {
                        self.infos[p]
                    } else {
                        PeerInfoView::placeholder(now)
                    },
            ),
            conns: Map::new(
                |p: PeerId| self.conns.contains_key(p) || ids.contains(p),
                |p: PeerId|
                    if self.conns.contains_key(p) {
                        self.conns[p]
                    } else {
                        (Set::empty(), 0u32)
                    },
            ),
        }
    }

    /// Whether descriptor `i` of a batch claims the id of the local peer at a
    /// version above the local one.
    pub open spec fn claims_local(self, my_peer_id: PeerId, infos: Seq<PeerInfoView>, i: int) -> bool {
        infos[i].peer_id == my_peer_id && infos[i].version > self.stored_version(my_peer_id)
    }

    /// Whether descriptor `i` of a batch shows the sender at a version below
    /// the stored one.
    pub open spec fn regresses(self, dst_peer_id: PeerId, infos: Seq<PeerInfoView>, i: int) -> bool {
        infos[i].peer_id == dst_peer_id && infos[i].version < self.stored_version(dst_peer_id)
    }

    /// Whether a batch from `dst_peer_id` shows that a second node uses the
    /// sender's peer id.
    pub open spec fn batch_regresses(self, dst_peer_id: PeerId, infos: Seq<PeerInfoView>) -> bool {
        exists|i: int| 0 <= i < infos.len() && self.regresses(dst_peer_id, infos, i)
    }

    /// Whether a batch from `dst_peer_id` shows that a second node uses the
    /// local peer id: some descriptor claims it at a higher version, and
    /// nothing before that descriptor has the batch rejected.
    pub open spec fn batch_fatal(
        self,
        my_peer_id: PeerId,
        dst_peer_id: PeerId,
        infos: Seq<PeerInfoView>,
    ) -> bool {
        exists|i: int|
            0 <= i < infos.len() && self.claims_local(my_peer_id, infos, i) && forall|j: int|
                0 <= j < i ==> !self.regresses(dst_peer_id, infos, j)
    }

    /// The database after a batch of descriptors from `dst_peer_id` was
    /// handled at `now`: a batch that shows the sender at a lower version than
    /// the stored one changes nothing, any other is applied.
    pub open spec fn apply_batch(
        self,
        dst_peer_id: PeerId,
        infos: Seq<PeerInfoView>,
        now: Timestamp,
    ) -> DbView {
        if self.batch_regresses(dst_peer_id, infos) {
            self
        } else {
            DbView { infos: apply_descriptors(self.infos, infos, now), ..self }
        }
    }

    /// The database after row `i` of an adjacency matrix was applied: every
    /// peer of the row is made known, and the row replaces the stored set of
    /// its peer where its version is higher than the stored one.
    pub open spec fn apply_row(self, bitmap: RouteConnBitmap, i: int, now: Timestamp) -> DbView {
        let row = bitmap.row_set(i);
        let filled = self.ensure(row, now);
        let (peer, version) = bitmap.peer_ids@[i];
        if filled.conns.contains_key(peer) && version <= filled.conns[peer].1 {
            filled
        } else {
            DbView { conns: filled.conns.insert(peer, (row, version)), ..filled }
        }
    }

    /// The database after the first `k` rows of an adjacency matrix were
    /// applied in order, all labelled peers having been made known first.
    pub open spec fn apply_rows(self, bitmap: RouteConnBitmap, k: int, now: Timestamp) -> DbView
        decreases k,
    {
        if k <= 0 {
            self.ensure(label_ids(bitmap.peer_ids@).to_set(), now)
        } else {
            self.apply_rows(bitmap, k - 1, now).apply_row(bitmap, k - 1, now)
        }
    }

    /// The database after an adjacency matrix was applied.
    pub open spec fn apply_bitmap(self, bitmap: RouteConnBitmap, now: Timestamp) -> DbView {
        self.apply_rows(bitmap, bitmap.size(), now)
    }

    /// The descriptor that the local refresh starts from: the stored one, or a
    /// fresh placeholder.
    pub open spec fn local_before(self, my_peer_id: PeerId, now: Timestamp) -> PeerInfoView {
        if self.infos.contains_key(my_peer_id) {
            self.infos[my_peer_id]
        } else {
            PeerInfoView::placeholder(now)
        }
    }

    /// The database after the local peer refreshed its own descriptor.
    pub open spec fn refresh_self(
        self,
        my_peer_id: PeerId,
        ctx: LocalContextView,
        now: Timestamp,
    ) -> DbView {
        DbView {
            infos: self.infos.insert(
                my_peer_id,
                self.local_before(my_peer_id, now).refreshed(my_peer_id, ctx, now),
            ),
            ..self
        }
    }

    /// The adjacency record that the local peer's update starts from.
    pub open spec fn local_conns_before(self, my_peer_id: PeerId) -> (Set<PeerId>, Version) {
        if self.conns.contains_key(my_peer_id) {
            self.conns[my_peer_id]
        } else {
            (Set::empty(), 0u32)
        }
    }

    /// The database after the local peer reported `peers` as its direct
    /// neighbours: they are made known, and where the set differs from the
    /// stored one it replaces it under the next version.
    pub open spec fn refresh_self_neighbors(
        self,
        my_peer_id: PeerId,
        peers: Set<PeerId>,
        now: Timestamp,
    ) -> DbView {
        let filled = self.ensure(peers, now);
        let before = self.local_conns_before(my_peer_id);
        DbView {
            conns: filled.conns.insert(
                my_peer_id,
                if before.0 == peers {
                    before
                } else {
                    (peers, next_version(before.1))
                },
            ),
            ..filled
        }
    }

    /// Whether the descriptor of `peer` has not been refreshed for longer than
    /// the expiry threshold.
    pub open spec fn expired(self, peer: PeerId, now: Timestamp) -> bool {
        self.infos.contains_key(peer) && self.infos[peer].last_update <= now && now
            - self.infos[peer].last_update > crate::REMOVE_DEAD_PEER_INFO_AFTER
    }

    /// The database without the descriptors that expired, and without the
    /// adjacency sets of their peers.
    pub open spec fn expire(self, now: Timestamp) -> DbView {
        DbView {
            infos: Map::new(
                |p: PeerId| self.infos.contains_key(p) && !self.expired(p, now),
                |p: PeerId| self.infos[p],
            ),
            conns: Map::new(
                |p: PeerId| self.conns.contains_key(p) && !self.expired(p, now),
                |p: PeerId| self.conns[p],
            ),
        }
    }
}

/// Applying descriptors stores each under the id of its peer.
pub proof fn lemma_apply_descriptors_keeps_keyed(
    m: Map<PeerId, PeerInfoView>,
    infos: Seq<PeerInfoView>,
    now: Timestamp,
)
    requires
        (DbView { infos: m, conns: Map::empty() }).keyed(),
    ensures
        (DbView { infos: apply_descriptors(m, infos, now), conns: Map::empty() }).keyed(),
    decreases infos.len(),
{
    if infos.len() > 0 {
        lemma_apply_descriptors_keeps_keyed(m, infos.drop_last(), now);
        let before = DbView {
            infos: apply_descriptors(m, infos.drop_last(), now),
            conns: Map::empty(),
        };
        let after = DbView { infos: apply_descriptors(m, infos, now), conns: Map::empty() };
        assert forall|k: PeerId| #[trigger] after.infos.contains_key(k) && after.infos[k].version
            != 0 implies after.infos[k].peer_id == k by {
            if k != infos.last().peer_id {
                assert(before.infos.contains_key(k));
            }
        }
    }
}

/// Every operation on the database keeps the descriptors under the ids of
/// their peers.
pub proof fn lemma_keyed_is_kept(
    db: DbView,
    ids: Set<PeerId>,
    dst_peer_id: PeerId,
    infos: Seq<PeerInfoView>,
    my_peer_id: PeerId,
    ctx: LocalContextView,
    now: Timestamp,
)
    requires
        db.keyed(),
    ensures
        db.ensure(ids, now).keyed(),
        db.apply_batch(dst_peer_id, infos, now).keyed(),
        db.refresh_self(my_peer_id, ctx, now).keyed(),
        db.refresh_self_neighbors(my_peer_id, ids, now).keyed(),
        db.expire(now).keyed(),
{
    assert((DbView { infos: db.infos, conns: Map::empty() }).keyed());
    lemma_apply_descriptors_keeps_keyed(db.infos, infos, now);
    let applied = DbView { infos: apply_descriptors(db.infos, infos, now), conns: Map::empty() };
    assert(db.apply_batch(dst_peer_id, infos, now).keyed()) by {
        let after = db.apply_batch(dst_peer_id, infos, now);
        assert forall|k: PeerId| #[trigger] after.infos.contains_key(k) && after.infos[k].version
            != 0 implies after.infos[k].peer_id == k by {
            if !db.batch_regresses(dst_peer_id, infos) {
                assert(applied.infos.contains_key(k));
            }
        }
    }
}

/// Applying an adjacency matrix keeps the descriptors under the ids of their
/// peers.
pub proof fn lemma_apply_rows_keeps_keyed(db: DbView, bitmap: RouteConnBitmap, k: int, now: Timestamp)
    requires
        db.keyed(),
    ensures
        db.apply_rows(bitmap, k, now).keyed(),
    decreases k,
{
    if k > 0 {
        lemma_apply_rows_keeps_keyed(db, bitmap, k - 1, now);
        let before = db.apply_rows(bitmap, k - 1, now);
        let after = before.apply_row(bitmap, k - 1, now);
        let filled = before.ensure(bitmap.row_set(k - 1), now);
        assert(after.infos == filled.infos);
        assert forall|p: PeerId| #[trigger] after.infos.contains_key(p) && after.infos[p].version
            != 0 implies after.infos[p].peer_id == p by {
            assert(before.infos.contains_key(p));
        }
    } else {
        let after = db.ensure(label_ids(bitmap.peer_ids@).to_set(), now);
        assert forall|p: PeerId| #[trigger] after.infos.contains_key(p) && after.infos[p].version
            != 0 implies after.infos[p].peer_id == p by {
            assert(db.infos.contains_key(p));
        }
    }
}

/// Applying a batch never lowers a stored version and never forgets a peer.
pub proof fn lemma_apply_descriptors_monotone(
    m: Map<PeerId, PeerInfoView>,
    infos: Seq<PeerInfoView>,
    now: Timestamp,
)
    ensures
        forall|p: PeerId|
            m.contains_key(p) ==> apply_descriptors(m, infos, now).contains_key(p) && m[p].version
                <= (#[trigger] apply_descriptors(m, infos, now)[p]).version,
    decreases infos.len(),
{
    if infos.len() > 0 {
        lemma_apply_descriptors_monotone(m, infos.drop_last(), now);
    }
}

/// After a batch was applied, every peer of the batch is stored at a version
/// that is at least the one the batch carries for it.
pub proof fn lemma_apply_descriptors_covers(
    m: Map<PeerId, PeerInfoView>,
    infos: Seq<PeerInfoView>,
    now: Timestamp,
)
    ensures
        forall|i: int|
            0 <= i < infos.len() ==> apply_descriptors(m, infos, now).contains_key(
                #[trigger] infos[i].peer_id,
            ) && apply_descriptors(m, infos, now)[infos[i].peer_id].version >= infos[i].version,
    decreases infos.len(),
{
    if infos.len() > 0 {
        let front = infos.drop_last();
        lemma_apply_descriptors_covers(m, front, now);
        let before = apply_descriptors(m, front, now);
        let after = apply_descriptors(m, infos, now);
        assert forall|i: int| 0 <= i < infos.len() implies after.contains_key(
            #[trigger] infos[i].peer_id,
        ) && after[infos[i].peer_id].version >= infos[i].version by {
            if i < front.len() {
                assert(front[i] == infos[i]);
                assert(before.contains_key(front[i].peer_id));
            }
        }
    }
}

/// A batch changes nothing where every peer of it is already stored at a
/// version that is at least the one the batch carries.
pub proof fn lemma_apply_descriptors_no_news(
    m: Map<PeerId, PeerInfoView>,
    infos: Seq<PeerInfoView>,
    now: Timestamp,
)
    requires
        forall|i: int|
            0 <= i < infos.len() ==> m.contains_key(#[trigger] infos[i].peer_id)
                && m[infos[i].peer_id].version >= infos[i].version,
    ensures
        apply_descriptors(m, infos, now) == m,
    decreases infos.len(),
{
    if infos.len() > 0 {
        let front = infos.drop_last();
        assert forall|i: int| 0 <= i < front.len() implies m.contains_key(
            #[trigger] front[i].peer_id,
        ) && m[front[i].peer_id].version >= front[i].version by {
            assert(front[i] == infos[i]);
        }
        lemma_apply_descriptors_no_news(m, front, now);
        assert(m.contains_key(infos[infos.len() - 1].peer_id));
    }
}

/// Handling the same batch a second time, at whatever time, leaves the
/// database as the first time left it.
pub proof fn lemma_apply_batch_idempotent(
    db: DbView,
    dst_peer_id: PeerId,
    infos: Seq<PeerInfoView>,
    first: Timestamp,
    second: Timestamp,
)
    ensures
        db.apply_batch(dst_peer_id, infos, first).apply_batch(dst_peer_id, infos, second)
            == db.apply_batch(dst_peer_id, infos, first),
{
    let once = db.apply_batch(dst_peer_id, infos, first);
    if !db.batch_regresses(dst_peer_id, infos) {
        lemma_apply_descriptors_covers(db.infos, infos, first);
        lemma_apply_descriptors_no_news(once.infos, infos, second);
    }
}

/// The database after a run of batches was handled in order, each from its
/// own sender at its own time.
pub open spec fn apply_batches(
    db: DbView,
    batches: Seq<(PeerId, Seq<PeerInfoView>, Timestamp)>,
) -> DbView
    decreases batches.len(),
{
    if batches.len() == 0 {
        db
    } else {
        let (dst, infos, now) = batches.last();
        apply_batches(db, batches.drop_last()).apply_batch(dst, infos, now)
    }
}

/// Across any run of batches, no peer is forgotten and the version stored for
/// a peer never goes down.
pub proof fn lemma_versions_never_decrease(
    db: DbView,
    batches: Seq<(PeerId, Seq<PeerInfoView>, Timestamp)>,
)
    ensures
        forall|p: PeerId|
            db.infos.contains_key(p) ==> apply_batches(db, batches).infos.contains_key(p)
                && db.infos[p].version <= (#[trigger] apply_batches(db, batches).infos[p]).version,
    decreases batches.len(),
{
    if batches.len() > 0 {
        lemma_versions_never_decrease(db, batches.drop_last());
        let before = apply_batches(db, batches.drop_last());
        let (dst, infos, now) = batches.last();
        lemma_apply_descriptors_monotone(before.infos, infos, now);
    }
}

/// Making peers known a second time, at whatever time, changes nothing.
pub proof fn lemma_ensure_idempotent(db: DbView, ids: Set<PeerId>, first: Timestamp, second: Timestamp)
    ensures
        db.ensure(ids, first).ensure(ids, second) == db.ensure(ids, first),
{
    let once = db.ensure(ids, first);
    let twice = once.ensure(ids, second);
    assert(twice.infos =~= once.infos);
    assert(twice.conns =~= once.conns);
}

/// `directly_connected` does not depend on the order of its two peers.
pub proof fn lemma_directly_connected_symmetric(db: DbView, a: PeerId, b: PeerId)
    ensures
        db.directly_connected(a, b) <==> db.directly_connected(b, a),
{
}

/// After the local peer refreshed its descriptor, the database holds under
/// its id a descriptor that names it and carries what its context describes.
pub proof fn lemma_refresh_self_record(
    db: DbView,
    my_peer_id: PeerId,
    ctx: LocalContextView,
    now: Timestamp,
)
    ensures
        db.refresh_self(my_peer_id, ctx, now).infos.contains_key(my_peer_id),
        db.refresh_self(my_peer_id, ctx, now).infos[my_peer_id].peer_id == my_peer_id,
        db.refresh_self(my_peer_id, ctx, now).infos[my_peer_id].same_content(
            PeerInfoView::placeholder(now).projected(my_peer_id, ctx),
        ),
{
}

/// After the local peer refreshed its descriptor, the descriptor has a
/// version of at least 1 exactly where it had one before or the refresh
/// published a new version. A refresh that starts from nothing or from a
/// placeholder always publishes one: a placeholder has no hostname, and the
/// local peer's descriptor has.
pub proof fn lemma_refresh_self_version(
    db: DbView,
    my_peer_id: PeerId,
    ctx: LocalContextView,
    now: Timestamp,
)
    requires
        db.local_before(my_peer_id, now).refresh_bumps(my_peer_id, ctx, now) ==> db.stored_version(
            my_peer_id,
        ) < u32::MAX,
    ensures
        db.refresh_self(my_peer_id, ctx, now).infos[my_peer_id].version >= 1 <==> db.stored_version(
            my_peer_id,
        ) >= 1 || db.local_before(my_peer_id, now).refresh_bumps(my_peer_id, ctx, now),
        !db.infos.contains_key(my_peer_id) || db.infos[my_peer_id].hostname is None
            ==> db.refresh_self(my_peer_id, ctx, now).infos[my_peer_id].version >= 1,
{
}

/// The latest descriptor and adjacency set known of every peer.
pub struct SyncedRouteInfo {
    pub peer_infos: InfoMap,
    pub conn_map: ConnMap,
}

impl View for SyncedRouteInfo {
    type V = DbView;

    open spec fn view(&self) -> DbView {
        DbView { infos: info_entries(self.peer_infos), conns: conn_entries(self.conn_map) }
    }
}

impl SyncedRouteInfo {
    /// An empty database.
    pub fn new() -> (r: Self)
        ensures
            r@.infos == Map::<PeerId, PeerInfoView>::empty(),
            r@.conns == Map::<PeerId, (Set<PeerId>, Version)>::empty(),
            r@.keyed(),
    {
        SyncedRouteInfo {
            peer_infos: crate::dash::info_map_new(),
            conn_map: crate::dash::conn_map_new(),
        }
    }

    /// The adjacency set stored for `peer_id`.
    pub fn get_connected_peers(&self, peer_id: PeerId) -> (r: Option<PeerSet>)
        ensures
            match r {
                Some(set) => self@.conns.contains_key(peer_id) && set@ == self@.conns[peer_id].0,
                None => !self@.conns.contains_key(peer_id),
            },
    {
        match conn_map_get(&self.conn_map, peer_id) {
            Some(rec) => Some(rec.0),
            None => None,
        }
    }

    /// The version of the adjacency set stored for `peer_id`.
    pub fn get_conn_version(&self, peer_id: PeerId) -> (r: Option<Version>)
        ensures
            match r {
                Some(v) => self@.conns.contains_key(peer_id) && v == self@.conns[peer_id].1,
                None => !self@.conns.contains_key(peer_id),
            },
    {
        match conn_map_get(&self.conn_map, peer_id) {
            Some(rec) => Some(rec.1.get()),
            None => None,
        }
    }

    /// Forgets the descriptor and the adjacency set of `peer_id`.
    pub fn remove_peer(&mut self, peer_id: PeerId)
        ensures
            final(self)@.infos == old(self)@.infos.remove(peer_id),
            final(self)@.conns == old(self)@.conns.remove(peer_id),
            old(self)@.keyed() ==> final(self)@.keyed(),
    {
        info_map_remove(&mut self.peer_infos, peer_id);
        conn_map_remove(&mut self.conn_map, peer_id);
    }

    /// Makes every peer of `peer_ids` known: one that was unknown gets a
    /// placeholder descriptor stamped `now` and an empty adjacency set.
    pub fn fill_empty_peer_info(&mut self, peer_ids: &PeerSet, now: Timestamp)
        ensures
            final(self)@ == old(self)@.ensure(peer_ids@, now),
            old(self)@.keyed() ==> final(self)@.keyed(),
    {
        let members = set_members(peer_ids);
        let mut i: usize = 0;
        proof {
            let want = old(self)@.ensure(members@.take(0).to_set(), now);
            assert(self@.infos =~= want.infos);
            assert(self@.conns =~= want.conns);
        }
        while i < members.len()
            invariant
                i <= members.len(),
                forall|p: PeerId| members@.contains(p) <==> peer_ids@.contains(p),
                self@ == old(self)@.ensure(members@.take(i as int).to_set(), now),
            decreases members.len() - i,
        {
            let peer = members[i];
            let ghost before = self@;
            if !info_map_contains_key(&self.peer_infos, peer) {
                info_map_insert(&mut self.peer_infos, peer, RoutePeerInfo::placeholder(now));
            }
            if !conn_map_contains_key(&self.conn_map, peer) {
                conn_map_insert(&mut self.conn_map, peer, BTreeSet::new(), AtomicVersion::new());
            }
            proof {
                let done = members@.take(i as int);
                let next = members@.take(i + 1);
                assert(next == done.push(peer));
                assert forall|p: PeerId| next.to_set().contains(p) <==> (done.to_set().contains(p)
                    || p == peer) by {
                    if next.contains(p) {
                        let k = choose|k: int| 0 <= k < next.len() && next[k] == p;
                        if k < done.len() {
                            assert(done[k] == p);
                        }
                    }
                    if done.contains(p) {
                        let k = choose|k: int| 0 <= k < done.len() && done[k] == p;
                        assert(next[k] == p);
                    }
                    if p == peer {
                        assert(next[done.len() as int] == p);
                    }
                }
                let want = old(self)@.ensure(next.to_set(), now);
                assert(self@.infos =~= want.infos);
                assert(self@.conns =~= want.conns);
            }
            i += 1;
        }
        proof {
            assert(members@.take(members.len() as int) == members@);
            assert(members@.to_set() =~= peer_ids@);
        }
    }

    /// The version stored for the descriptor of `peer_id`, zero where the peer
    /// is unknown.
    pub fn get_peer_info_version_with_default(&self, peer_id: PeerId) -> (v: Version)
        ensures
            v == self@.stored_version(peer_id),
    {
        match info_map_get(&self.peer_infos, peer_id) {
            Some(info) => info.version,
            None => 0,
        }
    }

    /// Whether a batch from `dst_peer_id` shows that a second node uses the
    /// local peer id (`batch_fatal`). No such batch may be applied.
    pub fn is_fatal_batch(
        &self,
        my_peer_id: PeerId,
        dst_peer_id: PeerId,
        route_infos: &Vec<RoutePeerInfo>,
    ) -> (r: bool)
        ensures
            r == self@.batch_fatal(my_peer_id, dst_peer_id, info_views(route_infos@)),
    {
        let my_version = self.get_peer_info_version_with_default(my_peer_id);
        let dst_version = self.get_peer_info_version_with_default(dst_peer_id);
        let ghost views = info_views(route_infos@);
        let mut i: usize = 0;
        while i < route_infos.len()
            invariant
                i <= route_infos.len(),
                views == info_views(route_infos@),
                my_version == self@.stored_version(my_peer_id),
                dst_version == self@.stored_version(dst_peer_id),
                forall|j: int| 0 <= j < i ==> !self@.claims_local(my_peer_id, views, j),
                forall|j: int| 0 <= j < i ==> !self@.regresses(dst_peer_id, views, j),
            decreases route_infos.len() - i,
        {
            let info = &route_infos[i];
            if info.peer_id == my_peer_id && info.version > my_version {
                assert(self@.claims_local(my_peer_id, views, i as int));
                return true;
            }
            if info.peer_id == dst_peer_id && info.version < dst_version {
                assert(self@.regresses(dst_peer_id, views, i as int));
                assert forall|k: int|
                    0 <= k < views.len() && self@.claims_local(my_peer_id, views, k) implies !(
                forall|j: int| 0 <= j < k ==> !self@.regresses(dst_peer_id, views, j)) by {
                    assert(k > i);
                }
                return false;
            }
            i += 1;
        }
        false
    }

    /// Looks for a sign that a second node uses the sender's peer id: the
    /// batch is refused exactly when it shows the sender at a version below
    /// the stored one.
    pub fn check_duplicate_peer_id(
        &self,
        my_peer_id: PeerId,
        dst_peer_id: PeerId,
        route_infos: &Vec<RoutePeerInfo>,
    ) -> (r: Result<(), Error>)
        requires
            !self@.batch_fatal(my_peer_id, dst_peer_id, info_views(route_infos@)),
        ensures
            r is Err <==> self@.batch_regresses(dst_peer_id, info_views(route_infos@)),
            r is Err ==> r == Err::<(), Error>(Error::DuplicatePeerId),
    {
        let dst_version = self.get_peer_info_version_with_default(dst_peer_id);
        let ghost views = info_views(route_infos@);
        let mut i: usize = 0;
        while i < route_infos.len()
            invariant
                i <= route_infos.len(),
                views == info_views(route_infos@),
                dst_version == self@.stored_version(dst_peer_id),
                forall|j: int| 0 <= j < i ==> !self@.regresses(dst_peer_id, views, j),
            decreases route_infos.len() - i,
        {
            let info = &route_infos[i];
            if info.peer_id == dst_peer_id && info.version < dst_version {
                assert(self@.regresses(dst_peer_id, views, i as int));
                return Err(Error::DuplicatePeerId);
            }
            i += 1;
        }
        Ok(())
    }

    /// Applies a batch of descriptors received from `dst_peer_id` at `now`.
    /// A batch that shows the sender at a lower version than the stored one is
    /// refused and changes nothing; otherwise each descriptor is stored,
    /// stamped with `now`, where its peer is new or its version is higher than
    /// the stored one.
    pub fn update_peer_infos(
        &mut self,
        my_peer_id: PeerId,
        dst_peer_id: PeerId,
        peer_infos: &Vec<RoutePeerInfo>,
        now: Timestamp,
    ) -> (r: Result<(), Error>)
        requires
            !old(self)@.batch_fatal(my_peer_id, dst_peer_id, info_views(peer_infos@)),
        ensures
            r is Err <==> old(self)@.batch_regresses(dst_peer_id, info_views(peer_infos@)),
            r is Err ==> r == Err::<(), Error>(Error::DuplicatePeerId),
            final(self)@ == old(self)@.apply_batch(dst_peer_id, info_views(peer_infos@), now),
            old(self)@.keyed() ==> final(self)@.keyed(),
            forall|p: PeerId|
                old(self)@.infos.contains_key(p) ==> final(self)@.infos.contains_key(p)
                    && old(self)@.infos[p].version <= (#[trigger] final(self)@.infos[p]).version,
    {
        match self.check_duplicate_peer_id(my_peer_id, dst_peer_id, peer_infos) {
            Err(e) => {
                return Err(e);
            },
            Ok(_) => {},
        }
        let ghost views = info_views(peer_infos@);
        let mut i: usize = 0;
        while i < peer_infos.len()
            invariant
                i <= peer_infos.len(),
                views == info_views(peer_infos@),
                self@.conns == old(self)@.conns,
                self@.infos == apply_descriptors(old(self)@.infos, views.take(i as int), now),
            decreases peer_infos.len() - i,
        {
            let mut route_info = peer_infos[i].clone();
            route_info.last_update = now;
            let accept = match info_map_get(&self.peer_infos, route_info.peer_id) {
                Some(old_entry) => route_info.version > old_entry.version,
                None => true,
            };
            proof {
                assert(views.take(i + 1).drop_last() == views.take(i as int));
                assert(views.take(i + 1).last() == peer_infos@[i as int]@);
                assert(route_info@ == (PeerInfoView { last_update: now, ..peer_infos@[i as int]@ }));
            }
            if accept {
                info_map_insert(&mut self.peer_infos, route_info.peer_id, route_info);
            }
            i += 1;
        }
        assert(views.take(peer_infos.len() as int) == views);
        proof {
            lemma_apply_descriptors_monotone(old(self)@.infos, views, now);
            if old(self)@.keyed() {
                lemma_keyed_is_kept(old(self)@, Set::empty(), dst_peer_id, views, 0, arbitrary(), now);
            }
        }
        Ok(())
    }

    /// Applies an adjacency matrix received from a neighbour at `now`: every
    /// peer it mentions is made known, and each row replaces the stored set of
    /// its peer where the row's version is higher than the stored one.
    pub fn update_conn_map(&mut self, conn_bitmap: &RouteConnBitmap, now: Timestamp)
        requires
            conn_bitmap.covers(),
        ensures
            final(self)@ == old(self)@.apply_bitmap(*conn_bitmap, now),
            old(self)@.keyed() ==> final(self)@.keyed(),
    {
        let n = conn_bitmap.peer_ids.len();
        let mut ids: Vec<PeerId> = Vec::new();
        let mut k: usize = 0;
        while k < n
            invariant
                k <= n,
                n == conn_bitmap.peer_ids@.len(),
                ids@ == label_ids(conn_bitmap.peer_ids@).take(k as int),
            decreases n - k,
        {
            ids.push(conn_bitmap.peer_ids[k].0);
            assert(label_ids(conn_bitmap.peer_ids@).take(k + 1) == label_ids(
                conn_bitmap.peer_ids@,
            ).take(k as int).push(conn_bitmap.peer_ids@[k as int].0));
            k += 1;
        }
        assert(label_ids(conn_bitmap.peer_ids@).take(n as int) == label_ids(conn_bitmap.peer_ids@));
        let labelled = set_from_members(&ids);
        self.fill_empty_peer_info(&labelled, now);

        let mut peer_idx: usize = 0;
        while peer_idx < n
            invariant
                peer_idx <= n,
                n == conn_bitmap.peer_ids@.len(),
                conn_bitmap.covers(),
                self@ == old(self)@.apply_rows(*conn_bitmap, peer_idx as int, now),
            decreases n - peer_idx,
        {
            let peer_id = conn_bitmap.peer_ids[peer_idx].0;
            let version = conn_bitmap.peer_ids[peer_idx].1;
            let connected_peers = conn_bitmap.get_connected_peers(peer_idx);
            self.fill_empty_peer_info(&connected_peers, now);
            let replace = match conn_map_get(&self.conn_map, peer_id) {
                Some(rec) => version > rec.1.get(),
                None => true,
            };
            if replace {
                conn_map_insert(
                    &mut self.conn_map,
                    peer_id,
                    connected_peers,
                    AtomicVersion::from_version(version),
                );
            }
            peer_idx += 1;
        }
        proof {
            if old(self)@.keyed() {
                lemma_apply_rows_keeps_keyed(old(self)@, *conn_bitmap, n as int, now);
            }
        }
    }

    /// Whether refreshing the local peer's own descriptor at `now` would
    /// advance its version.
    pub fn refresh_due(&self, my_peer_id: PeerId, ctx: &LocalContext, now: Timestamp) -> (r: bool)
        ensures
            r == self@.local_before(my_peer_id, now).refresh_bumps(my_peer_id, ctx@, now),
    {
        match info_map_get(&self.peer_infos, my_peer_id) {
            Some(info) => info.refresh_due(my_peer_id, ctx, now),
            None => RoutePeerInfo::placeholder(now).refresh_due(my_peer_id, ctx, now),
        }
    }

    /// Refreshes the local peer's own descriptor at `now` and says whether its
    /// version advanced.
    pub fn update_my_peer_info(&mut self, my_peer_id: PeerId, ctx: &LocalContext, now: Timestamp) -> (r:
        bool)
        requires
            old(self)@.local_before(my_peer_id, now).refresh_bumps(my_peer_id, ctx@, now) ==> old(self)@.stored_version(my_peer_id) < u32::MAX,
        ensures
            final(self)@ == old(self)@.refresh_self(my_peer_id, ctx@, now),
            old(self)@.keyed() ==> final(self)@.keyed(),
            r == old(self)@.local_before(my_peer_id, now).refresh_bumps(my_peer_id, ctx@, now),
            r == (final(self)@.infos[my_peer_id].version != old(self)@.stored_version(my_peer_id)),
            final(self)@.infos.contains_key(my_peer_id),
            final(self)@.infos[my_peer_id].peer_id == my_peer_id,
            final(self)@.infos[my_peer_id].same_content(
                PeerInfoView::placeholder(now).projected(my_peer_id, ctx@),
            ),
    {
        let old_info = match info_map_get(&self.peer_infos, my_peer_id) {
            Some(info) => info,
            None => RoutePeerInfo::placeholder(now),
        };
        let new_info = old_info.update_self_at(my_peer_id, ctx, now);
        let new_version = new_info.version;
        let old_version = old_info.version;
        info_map_insert(&mut self.peer_infos, my_peer_id, new_info);
        new_version != old_version
    }

    /// Replaces the local peer's adjacency set by `connected_peers` and says
    /// whether that changed it. All of these peers are made known first.
    pub fn update_my_conn_info(
        &mut self,
        my_peer_id: PeerId,
        connected_peers: PeerSet,
        now: Timestamp,
    ) -> (r: bool)
        ensures
            final(self)@ == old(self)@.refresh_self_neighbors(my_peer_id, connected_peers@, now),
            old(self)@.keyed() ==> final(self)@.keyed(),
            r == (old(self)@.local_conns_before(my_peer_id).0 != connected_peers@),
            final(self)@.conns.contains_key(my_peer_id),
            final(self)@.conns[my_peer_id].0 == connected_peers@,
    {
        self.fill_empty_peer_info(&connected_peers, now);
        let before = match conn_map_get(&self.conn_map, my_peer_id) {
            Some(rec) => rec,
            None => (BTreeSet::new(), AtomicVersion::new()),
        };
        if set_equal(&connected_peers, &before.0) {
            if !conn_map_contains_key(&self.conn_map, my_peer_id) {
                conn_map_insert(&mut self.conn_map, my_peer_id, before.0, before.1);
            }
            proof {
                assert(self@.conns =~= old(self)@.refresh_self_neighbors(
                    my_peer_id,
                    connected_peers@,
                    now,
                ).conns);
            }
            false
        } else {
            let mut version = before.1;
            version.inc();
            conn_map_insert(&mut self.conn_map, my_peer_id, connected_peers, version);
            true
        }
    }

    /// Whether `src_peer_id` lists `dst_peer_id` as a direct neighbour.
    pub fn is_peer_bidirectly_connected(&self, src_peer_id: PeerId, dst_peer_id: PeerId) -> (r:
        bool)
        ensures
            r == self@.lists(src_peer_id, dst_peer_id),
    {
        match conn_map_get(&self.conn_map, src_peer_id) {
            Some(rec) => set_contains(&rec.0, dst_peer_id),
            None => false,
        }
    }

    /// Whether either of the two peers lists the other as a direct neighbour.
    pub fn is_peer_directly_connected(&self, src_peer_id: PeerId, dst_peer_id: PeerId) -> (r: bool)
        ensures
            r == self@.directly_connected(src_peer_id, dst_peer_id),
    {
        self.is_peer_bidirectly_connected(src_peer_id, dst_peer_id)
            || self.is_peer_bidirectly_connected(dst_peer_id, src_peer_id)
    }
}

} // verus!
