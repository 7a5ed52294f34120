//! The concurrent maps that hold the routing state and the registered
//! services, and what this crate relies on of each of their operations.
//!
//! Every function here forwards to one method of `DashMap`. Its contract is
//! stated over the entries that the map holds and is taken on trust. The
//! contracts hold as long as a map is changed by these functions alone,
//! which take it by exclusive borrow; a caller that shares a map between
//! threads puts its owner behind a lock.

use vstd::prelude::*;
use dashmap::DashMap;
use crate::peer_info::{PeerInfoView, RoutePeerInfo};
use crate::peer_set::PeerSet;
use crate::session::{SessionView, SyncRouteSession};
use crate::version::AtomicVersion;
use crate::{PeerId, Version};

verus! {

/// `dashmap::DashMap`, declared so that it can stand in fields and
/// signatures. Nothing is known of its inside; what a map holds is named by
/// the functions below, one for each kind of map.
#[verifier::external_type_specification]
#[verifier::external_body]
#[verifier::reject_recursive_types(K)]
#[verifier::reject_recursive_types(V)]
#[verifier::reject_recursive_types(S)]
pub struct ExDashMap<K, V, S>(DashMap<K, V, S>);

/// Map from an integer key to an integer: peer to version, address to peer,
/// peer to graph node.
pub type IdMap = DashMap<u32, u32>;

/// Map from a peer to its descriptor.
pub type InfoMap = DashMap<PeerId, RoutePeerInfo>;

/// Map from a peer to its adjacency set and the version of that set.
pub type ConnMap = DashMap<PeerId, (PeerSet, AtomicVersion)>;

/// Map from a destination to its next hop and the cost of the path.
pub type NextHopMap = DashMap<PeerId, (PeerId, i32)>;

/// A network in CIDR form: whether it is an IPv6 network, its first address
/// as an integer, and the length of its prefix.
pub type CidrKey = (bool, u128, u8);

/// Map from a proxied network to the peer that forwards to it.
pub type CidrMap = DashMap<CidrKey, PeerId>;

/// Map from a neighbour to the session held with it.
pub type SessionMap = DashMap<PeerId, SyncRouteSession>;

/// Map from the two names of a service to the place of its entry.
pub type SlotMap = DashMap<(String, String), usize>;

/// The entries of an `IdMap`.
pub uninterp spec fn id_entries(m: IdMap) -> Map<u32, u32>;

/// The entries of an `InfoMap`, each descriptor by its view.
pub uninterp spec fn info_entries(m: InfoMap) -> Map<PeerId, PeerInfoView>;

/// The entries of a `ConnMap`, each as the set of neighbours and its version.
pub uninterp spec fn conn_entries(m: ConnMap) -> Map<PeerId, (Set<PeerId>, Version)>;

/// The entries of a `NextHopMap`.
pub uninterp spec fn hop_entries(m: NextHopMap) -> Map<PeerId, (PeerId, i32)>;

/// The entries of a `CidrMap`.
pub uninterp spec fn cidr_entries(m: CidrMap) -> Map<CidrKey, PeerId>;

/// The entries of a `SessionMap`, each session by its view.
pub uninterp spec fn session_entries(m: SessionMap) -> Map<PeerId, SessionView>;

/// The entries of a `SlotMap`, each key as the texts of its two names.
pub uninterp spec fn slot_entries(m: SlotMap) -> Map<(Seq<char>, Seq<char>), usize>;

/// `DashMap::new`: the new map holds nothing.
#[verifier::external_body]
pub(crate) fn id_map_new() -> (m: IdMap)
    ensures
        id_entries(m) =~= Map::empty(),
{
    DashMap::new()
}

/// `DashMap::insert`: afterwards `key` is bound to `value`, and every other
/// key is bound as before.
#[verifier::external_body]
pub(crate) fn id_map_insert(m: &mut IdMap, key: u32, value: u32)
    ensures
        id_entries(*final(m)) == id_entries(*old(m)).insert(key, value),
{
    m.insert(key, value);
}

/// `DashMap::get`: the value bound to `key`, or `None` where the key is free.
#[verifier::external_body]
pub(crate) fn id_map_get(m: &IdMap, key: u32) -> (r: Option<u32>)
    ensures
        r == (if id_entries(*m).contains_key(key) {
            Some(id_entries(*m)[key])
        } else {
            None
        }),
{
    m.get(&key).map(|e| *e.value())
}

/// `DashMap::iter`: the entries, each key once, in no particular order.
#[verifier::external_body]
pub(crate) fn id_map_items(m: &IdMap) -> (items: Vec<(u32, u32)>)
    ensures
        forall|i: int, j: int| 0 <= i < j < items@.len() ==> items@[i].0 != items@[j].0,
        forall|i: int|
            0 <= i < items@.len() ==> id_entries(*m).contains_key((#[trigger] items@[i]).0)
                && id_entries(*m)[items@[i].0] == items@[i].1,
        forall|k: u32|
            id_entries(*m).contains_key(k) ==> exists|i: int|
                0 <= i < items@.len() && (#[trigger] items@[i]).0 == k,
{
    m.iter().map(|e| (*e.key(), *e.value())).collect()
}

/// `DashMap::clone`: a map with the same entries.
#[verifier::external_body]
pub(crate) fn id_map_clone(m: &IdMap) -> (copy: IdMap)
    ensures
        id_entries(copy) == id_entries(*m),
{
    m.clone()
}

/// `DashMap::new`: the new map holds nothing.
#[verifier::external_body]
pub(crate) fn info_map_new() -> (m: InfoMap)
    ensures
        info_entries(m) =~= Map::empty(),
{
    DashMap::new()
}

/// `DashMap::insert`: afterwards `key` is bound to `value`, and every other
/// key is bound as before.
#[verifier::external_body]
pub(crate) fn info_map_insert(m: &mut InfoMap, key: PeerId, value: RoutePeerInfo)
    ensures
        info_entries(*final(m)) == info_entries(*old(m)).insert(key, value@),
{
    m.insert(key, value);
}

/// `DashMap::get`: a copy of the descriptor bound to `key`, or `None` where
/// the key is free.
#[verifier::external_body]
pub(crate) fn info_map_get(m: &InfoMap, key: PeerId) -> (r: Option<RoutePeerInfo>)
    ensures
        match r {
            Some(info) => info_entries(*m).contains_key(key) && info@ == info_entries(*m)[key],
            None => !info_entries(*m).contains_key(key),
        },
{
    m.get(&key).map(|e| e.value().clone())
}

/// `DashMap::contains_key`: whether `key` is bound.
#[verifier::external_body]
pub(crate) fn info_map_contains_key(m: &InfoMap, key: PeerId) -> (r: bool)
    ensures
        r == info_entries(*m).contains_key(key),
{
    m.contains_key(&key)
}

/// `DashMap::remove`: afterwards `key` is free, and every other key is bound
/// as before.
#[verifier::external_body]
pub(crate) fn info_map_remove(m: &mut InfoMap, key: PeerId)
    ensures
        info_entries(*final(m)) == info_entries(*old(m)).remove(key),
{
    m.remove(&key);
}

/// `DashMap::iter`: the keys that are bound, each once, in no particular
/// order.
#[verifier::external_body]
pub(crate) fn info_map_keys(m: &InfoMap) -> (keys: Vec<PeerId>)
    ensures
        keys@.no_duplicates(),
        forall|k: PeerId| keys@.contains(k) <==> info_entries(*m).contains_key(k),
{
    m.iter().map(|e| *e.key()).collect()
}

/// `DashMap::new`: the new map holds nothing.
#[verifier::external_body]
pub(crate) fn conn_map_new() -> (m: ConnMap)
    ensures
        conn_entries(m) =~= Map::empty(),
{
    DashMap::new()
}

/// `DashMap::insert`: afterwards `key` is bound to the set and version given,
/// and every other key is bound as before.
#[verifier::external_body]
pub(crate) fn conn_map_insert(m: &mut ConnMap, key: PeerId, peers: PeerSet, version: AtomicVersion)
    ensures
        conn_entries(*final(m)) == conn_entries(*old(m)).insert(key, (peers@, version@)),
{
    m.insert(key, (peers, version));
}

/// `DashMap::get`: a copy of the set and version bound to `key`, or `None`
/// where the key is free.
#[verifier::external_body]
pub(crate) fn conn_map_get(m: &ConnMap, key: PeerId) -> (r: Option<(PeerSet, AtomicVersion)>)
    ensures
        match r {
            Some(rec) => conn_entries(*m).contains_key(key) && (rec.0@, rec.1@) == conn_entries(
                *m,
            )[key],
            None => !conn_entries(*m).contains_key(key),
        },
{
    m.get(&key).map(|e| e.value().clone())
}

/// `DashMap::contains_key`: whether `key` is bound.
#[verifier::external_body]
pub(crate) fn conn_map_contains_key(m: &ConnMap, key: PeerId) -> (r: bool)
    ensures
        r == conn_entries(*m).contains_key(key),
{
    m.contains_key(&key)
}

/// `DashMap::remove`: afterwards `key` is free, and every other key is bound
/// as before.
#[verifier::external_body]
pub(crate) fn conn_map_remove(m: &mut ConnMap, key: PeerId)
    ensures
        conn_entries(*final(m)) == conn_entries(*old(m)).remove(key),
{
    m.remove(&key);
}

/// `DashMap::iter`: the keys that are bound, each once, in no particular
/// order.
#[verifier::external_body]
pub(crate) fn conn_map_keys(m: &ConnMap) -> (keys: Vec<PeerId>)
    ensures
        keys@.no_duplicates(),
        forall|k: PeerId| keys@.contains(k) <==> conn_entries(*m).contains_key(k),
{
    m.iter().map(|e| *e.key()).collect()
}

/// `DashMap::new`: the new map holds nothing.
#[verifier::external_body]
pub(crate) fn hop_map_new() -> (m: NextHopMap)
    ensures
        hop_entries(m) =~= Map::empty(),
{
    DashMap::new()
}

/// `DashMap::insert`: afterwards `key` is bound to `value`, and every other
/// key is bound as before.
#[verifier::external_body]
pub(crate) fn hop_map_insert(m: &mut NextHopMap, key: PeerId, value: (PeerId, i32))
    ensures
        hop_entries(*final(m)) == hop_entries(*old(m)).insert(key, value),
{
    m.insert(key, value);
}

/// `DashMap::get`: the value bound to `key`, or `None` where the key is free.
#[verifier::external_body]
pub(crate) fn hop_map_get(m: &NextHopMap, key: PeerId) -> (r: Option<(PeerId, i32)>)
    ensures
        r == (if hop_entries(*m).contains_key(key) {
            Some(hop_entries(*m)[key])
        } else {
            None
        }),
{
    m.get(&key).map(|e| *e.value())
}

/// `DashMap::new`: the new map holds nothing.
#[verifier::external_body]
pub(crate) fn cidr_map_new() -> (m: CidrMap)
    ensures
        cidr_entries(m) =~= Map::empty(),
{
    DashMap::new()
}

/// `DashMap::insert`: afterwards `key` is bound to `value`, and every other
/// key is bound as before.
#[verifier::external_body]
pub(crate) fn cidr_map_insert(m: &mut CidrMap, key: CidrKey, value: PeerId)
    ensures
        cidr_entries(*final(m)) == cidr_entries(*old(m)).insert(key, value),
{
    m.insert(key, value);
}

/// `DashMap::iter`: the entries, each key once, in no particular order.
#[verifier::external_body]
pub(crate) fn cidr_map_items(m: &CidrMap) -> (items: Vec<(CidrKey, PeerId)>)
    ensures
        forall|i: int, j: int| 0 <= i < j < items@.len() ==> items@[i].0 != items@[j].0,
        forall|i: int|
            0 <= i < items@.len() ==> cidr_entries(*m).contains_key((#[trigger] items@[i]).0)
                && cidr_entries(*m)[items@[i].0] == items@[i].1,
        forall|k: CidrKey|
            cidr_entries(*m).contains_key(k) ==> exists|i: int|
                0 <= i < items@.len() && (#[trigger] items@[i]).0 == k,
{
    m.iter().map(|e| (*e.key(), *e.value())).collect()
}

/// `DashMap::new`: the new map holds nothing.
#[verifier::external_body]
pub(crate) fn session_map_new() -> (m: SessionMap)
    ensures
        session_entries(m) =~= Map::empty(),
{
    DashMap::new()
}

/// `DashMap::insert`: afterwards `key` is bound to `value`, and every other
/// key is bound as before.
#[verifier::external_body]
pub(crate) fn session_map_insert(m: &mut SessionMap, key: PeerId, value: SyncRouteSession)
    ensures
        session_entries(*final(m)) == session_entries(*old(m)).insert(key, value@),
{
    m.insert(key, value);
}

/// `DashMap::get`: a copy of the session bound to `key`, or `None` where the
/// key is free.
#[verifier::external_body]
pub(crate) fn session_map_get(m: &SessionMap, key: PeerId) -> (r: Option<SyncRouteSession>)
    ensures
        match r {
            Some(s) => session_entries(*m).contains_key(key) && s@ == session_entries(*m)[key],
            None => !session_entries(*m).contains_key(key),
        },
{
    m.get(&key).map(|e| e.value().clone())
}

/// `DashMap::contains_key`: whether `key` is bound.
#[verifier::external_body]
pub(crate) fn session_map_contains_key(m: &SessionMap, key: PeerId) -> (r: bool)
    ensures
        r == session_entries(*m).contains_key(key),
{
    m.contains_key(&key)
}

/// `DashMap::remove`: hands out the session bound to `key`; afterwards `key`
/// is free, and every other key is bound as before.
#[verifier::external_body]
pub(crate) fn session_map_remove(m: &mut SessionMap, key: PeerId) -> (r: Option<SyncRouteSession>)
    ensures
        session_entries(*final(m)) == session_entries(*old(m)).remove(key),
        match r {
            Some(s) => session_entries(*old(m)).contains_key(key) && s@ == session_entries(
                *old(m),
            )[key],
            None => !session_entries(*old(m)).contains_key(key),
        },
{
    m.remove(&key).map(|e| e.1)
}

/// `DashMap::iter`: the keys that are bound, each once, in no particular
/// order.
#[verifier::external_body]
pub(crate) fn session_map_keys(m: &SessionMap) -> (keys: Vec<PeerId>)
    ensures
        keys@.no_duplicates(),
        forall|k: PeerId| keys@.contains(k) <==> session_entries(*m).contains_key(k),
{
    m.iter().map(|e| *e.key()).collect()
}

/// `DashMap::new`: the new map holds nothing.
#[verifier::external_body]
pub(crate) fn slot_map_new() -> (m: SlotMap)
    ensures
        slot_entries(m) =~= Map::empty(),
{
    DashMap::new()
}

/// `DashMap::insert`: afterwards the key with the names `service_name` and
/// `proto_name` is bound to `value`, and every other key is bound as before.
/// Two keys are the same where their names have the same text.
#[verifier::external_body]
pub(crate) fn slot_map_insert(m: &mut SlotMap, service_name: String, proto_name: String, value: usize)
    ensures
        slot_entries(*final(m)) == slot_entries(*old(m)).insert((service_name@, proto_name@), value),
{
    m.insert((service_name, proto_name), value);
}

/// `DashMap::get`: the value bound to the key with the names `service_name`
/// and `proto_name`, or `None` where the key is free.
#[verifier::external_body]
pub(crate) fn slot_map_get(m: &SlotMap, service_name: &String, proto_name: &String) -> (r: Option<usize>)
    ensures
        r == (if slot_entries(*m).contains_key((service_name@, proto_name@)) {
            Some(slot_entries(*m)[(service_name@, proto_name@)])
        } else {
            None
        }),
{
    m.get(&(service_name.clone(), proto_name.clone())).map(|e| *e.value())
}

} // verus!
