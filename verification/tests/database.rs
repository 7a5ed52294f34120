use ospf_route::conn_bitmap::RouteConnBitmap;
use ospf_route::error::Error;
use ospf_route::peer_info::{LocalContext, RoutePeerInfo};
use ospf_route::peer_set::PeerSet;
use ospf_route::synced_info::SyncedRouteInfo;

const SEC: u128 = 1_000_000_000;

fn set_of(ids: &[u32]) -> PeerSet {
    ids.iter().copied().collect()
}

fn ctx(hostname: &str) -> LocalContext {
    LocalContext {
        inst_id: 0xa1a2a3a4b1b2c1c2d1d2d3d4d5d6d7d8,
        ipv4: Some(0x0a000001),
        proxy_cidrs: vec!["192.168.1.0/24".to_string()],
        vpn_portal_cidr: Some("10.14.14.0/24".to_string()),
        hostname: hostname.to_string(),
        udp_nat_type: 3,
    }
}

fn info(peer_id: u32, version: u32) -> RoutePeerInfo {
    let mut i = RoutePeerInfo::placeholder(0);
    i.peer_id = peer_id;
    i.version = version;
    i.hostname = Some(format!("host-{}-v{}", peer_id, version));
    i
}

fn stored(db: &SyncedRouteInfo, peer: u32) -> RoutePeerInfo {
    db.peer_infos.get(&peer).unwrap().value().clone()
}

#[test]
fn placeholder_has_version_zero_and_no_content() {
    let p = RoutePeerInfo::placeholder(77);
    assert_eq!(p.peer_id, 0);
    assert_eq!(p.inst_id, 0);
    assert_eq!(p.cost, 0);
    assert_eq!(p.ipv4_addr, None);
    assert!(p.proxy_cidrs.is_empty());
    assert_eq!(p.hostname, None);
    assert_eq!(p.udp_stun_info, 0);
    assert_eq!(p.last_update, 77);
    assert_eq!(p.version, 0);
}

#[test]
fn new_descriptor_is_a_placeholder() {
    let p = RoutePeerInfo::new();
    assert_eq!(p.version, 0);
    assert_eq!(p.peer_id, 0);
    assert_eq!(p.hostname, None);
    assert!(p.last_update > 0);
}

#[test]
fn update_self_projects_the_context() {
    let old = RoutePeerInfo::placeholder(5 * SEC);
    let new = old.update_self_at(9, &ctx("alpha"), 6 * SEC);
    assert_eq!(new.peer_id, 9);
    assert_eq!(new.inst_id, 0xa1a2a3a4b1b2c1c2d1d2d3d4d5d6d7d8);
    assert_eq!(new.cost, 0);
    assert_eq!(new.ipv4_addr, Some(0x0a000001));
    assert_eq!(new.proxy_cidrs, vec!["192.168.1.0/24".to_string(), "10.14.14.0/24".to_string()]);
    assert_eq!(new.hostname, Some("alpha".to_string()));
    assert_eq!(new.udp_stun_info, 3);
    assert_eq!(new.version, 1);
    assert_eq!(new.last_update, 6 * SEC);
}

#[test]
fn update_self_without_change_keeps_version() {
    let first = RoutePeerInfo::placeholder(0).update_self_at(9, &ctx("alpha"), 100 * SEC);
    let second = first.update_self_at(9, &ctx("alpha"), 200 * SEC);
    assert_eq!(second.version, first.version);
    assert_eq!(second.last_update, 100 * SEC);
    assert!(second.same_content(&first));
}

#[test]
fn update_self_bumps_on_content_change() {
    let first = RoutePeerInfo::placeholder(0).update_self_at(9, &ctx("alpha"), 100 * SEC);
    let second = first.update_self_at(9, &ctx("beta"), 200 * SEC);
    assert_eq!(second.version, first.version + 1);
    assert_eq!(second.last_update, 200 * SEC);
    assert_eq!(second.hostname, Some("beta".to_string()));
}

#[test]
fn update_self_bumps_after_refresh_interval() {
    let first = RoutePeerInfo::placeholder(0).update_self_at(9, &ctx("alpha"), 100 * SEC);
    // exactly 3600 s is not yet older than the interval
    let at = first.update_self_at(9, &ctx("alpha"), 3700 * SEC);
    assert_eq!(at.version, first.version);
    let after = first.update_self_at(9, &ctx("alpha"), 3700 * SEC + 1);
    assert_eq!(after.version, first.version + 1);
    assert_eq!(after.last_update, 3700 * SEC + 1);
}

#[test]
fn update_self_bumps_when_clock_went_back() {
    let first = RoutePeerInfo::placeholder(0).update_self_at(9, &ctx("alpha"), 100 * SEC);
    let second = first.update_self_at(9, &ctx("alpha"), 50 * SEC);
    assert_eq!(second.version, first.version + 1);
    assert_eq!(second.last_update, 50 * SEC);
}

#[test]
fn update_self_reads_the_clock() {
    let first = RoutePeerInfo::placeholder(0);
    let second = first.update_self(4, &ctx("alpha"));
    assert_eq!(second.peer_id, 4);
    assert_eq!(second.version, 1);
    assert!(second.last_update > 0);
}

#[test]
fn update_self_without_portal_keeps_cidrs() {
    let mut c = ctx("alpha");
    c.vpn_portal_cidr = None;
    let new = RoutePeerInfo::placeholder(0).update_self_at(9, &c, SEC);
    assert_eq!(new.proxy_cidrs, vec!["192.168.1.0/24".to_string()]);
}

#[test]
fn ensure_inserts_placeholders_once() {
    let mut db = SyncedRouteInfo::new();
    db.fill_empty_peer_info(&set_of(&[3, 4]), 10);
    assert_eq!(db.peer_infos.len(), 2);
    assert_eq!(db.conn_map.len(), 2);
    assert_eq!(stored(&db, 3).version, 0);
    assert_eq!(stored(&db, 3).last_update, 10);
    assert_eq!(db.get_connected_peers(3), Some(set_of(&[])));
    assert_eq!(db.get_conn_version(3), Some(0));
    db.fill_empty_peer_info(&set_of(&[3, 4]), 20);
    assert_eq!(db.peer_infos.len(), 2);
    assert_eq!(stored(&db, 3).last_update, 10);
}

#[test]
fn version_with_default() {
    let mut db = SyncedRouteInfo::new();
    assert_eq!(db.get_peer_info_version_with_default(1), 0);
    db.update_peer_infos(100, 2, &vec![info(1, 5)], 0).unwrap();
    assert_eq!(db.get_peer_info_version_with_default(1), 5);
}

#[test]
fn apply_descriptors_accepts_only_higher_versions() {
    let mut db = SyncedRouteInfo::new();
    assert_eq!(db.update_peer_infos(100, 2, &vec![info(1, 5)], 7), Ok(()));
    assert_eq!(stored(&db, 1).version, 5);
    assert_eq!(stored(&db, 1).last_update, 7);
    // same version: not accepted, not even the time stamp
    assert_eq!(db.update_peer_infos(100, 2, &vec![info(1, 5)], 8), Ok(()));
    assert_eq!(stored(&db, 1).last_update, 7);
    // lower version of a third peer: ignored
    assert_eq!(db.update_peer_infos(100, 2, &vec![info(1, 4)], 9), Ok(()));
    assert_eq!(stored(&db, 1).version, 5);
    assert_eq!(stored(&db, 1).hostname, Some("host-1-v5".to_string()));
    // higher version: accepted and stamped
    assert_eq!(db.update_peer_infos(100, 2, &vec![info(1, 6)], 10), Ok(()));
    assert_eq!(stored(&db, 1).version, 6);
    assert_eq!(stored(&db, 1).last_update, 10);
}

#[test]
fn versions_never_decrease_over_batches() {
    let mut db = SyncedRouteInfo::new();
    let batches = vec![
        vec![info(1, 3), info(2, 1)],
        vec![info(1, 2), info(2, 4)],
        vec![info(1, 9), info(1, 5), info(3, 1)],
        vec![info(2, 2), info(3, 1)],
    ];
    let mut last = std::collections::BTreeMap::new();
    for (n, batch) in batches.iter().enumerate() {
        db.update_peer_infos(100, 50, batch, n as u128).unwrap();
        for peer in [1u32, 2, 3] {
            let v = db.get_peer_info_version_with_default(peer);
            assert!(v >= *last.get(&peer).unwrap_or(&0));
            last.insert(peer, v);
        }
    }
    assert_eq!(last.get(&1), Some(&9));
    assert_eq!(last.get(&2), Some(&4));
    assert_eq!(last.get(&3), Some(&1));
}

#[test]
fn applying_a_batch_twice_changes_nothing() {
    let mut db = SyncedRouteInfo::new();
    let batch = vec![info(1, 3), info(2, 1), info(1, 5)];
    db.update_peer_infos(100, 50, &batch, 1).unwrap();
    let first: Vec<(u32, u32, u128)> =
        [1u32, 2].iter().map(|p| (*p, stored(&db, *p).version, stored(&db, *p).last_update)).collect();
    db.update_peer_infos(100, 50, &batch, 2).unwrap();
    let second: Vec<(u32, u32, u128)> =
        [1u32, 2].iter().map(|p| (*p, stored(&db, *p).version, stored(&db, *p).last_update)).collect();
    assert_eq!(first, second);
    assert_eq!(db.peer_infos.len(), 2);
}

#[test]
fn regressed_sender_is_a_duplicate() {
    let mut db = SyncedRouteInfo::new();
    db.update_peer_infos(100, 2, &vec![info(2, 5), info(3, 1)], 1).unwrap();
    let r = db.update_peer_infos(100, 2, &vec![info(3, 9), info(2, 4)], 2);
    assert_eq!(r, Err(Error::DuplicatePeerId));
    // the batch left the database untouched
    assert_eq!(stored(&db, 3).version, 1);
    assert_eq!(stored(&db, 2).version, 5);
    assert_eq!(db.check_duplicate_peer_id(100, 2, &vec![info(2, 4)]), Err(Error::DuplicatePeerId));
    assert_eq!(db.check_duplicate_peer_id(100, 2, &vec![info(2, 5)]), Ok(()));
    assert_eq!(db.check_duplicate_peer_id(100, 7, &vec![info(2, 4)]), Ok(()));
}

#[test]
fn claim_on_local_id_is_fatal() {
    let mut db = SyncedRouteInfo::new();
    db.update_my_peer_info(100, &ctx("me"), 0);
    assert_eq!(db.get_peer_info_version_with_default(100), 1);
    assert!(!db.is_fatal_batch(100, 2, &vec![info(100, 1), info(3, 1)]));
    assert!(db.is_fatal_batch(100, 2, &vec![info(3, 1), info(100, 2)]));
    // a regression of the sender earlier in the batch has it rejected first
    db.update_peer_infos(100, 2, &vec![info(2, 5)], 1).unwrap();
    assert!(!db.is_fatal_batch(100, 2, &vec![info(2, 4), info(100, 2)]));
    assert!(db.is_fatal_batch(100, 2, &vec![info(100, 2), info(2, 4)]));
}

#[test]
fn apply_bitmap_fills_and_replaces_newer_rows() {
    let mut db = SyncedRouteInfo::new();
    let rows = vec![set_of(&[2]), set_of(&[1, 3]), set_of(&[])];
    let bm = RouteConnBitmap::build(vec![(1, 4), (2, 1), (3, 0)], &rows);
    db.update_conn_map(&bm, 33);
    assert_eq!(db.peer_infos.len(), 3);
    assert_eq!(stored(&db, 2).version, 0);
    assert_eq!(stored(&db, 2).last_update, 33);
    assert_eq!(db.get_connected_peers(1), Some(set_of(&[2])));
    assert_eq!(db.get_conn_version(1), Some(4));
    assert_eq!(db.get_connected_peers(2), Some(set_of(&[1, 3])));
    assert_eq!(db.get_conn_version(2), Some(1));
    assert_eq!(db.get_connected_peers(3), Some(set_of(&[])));
    assert_eq!(db.get_conn_version(3), Some(0));

    // an older or equal row changes nothing, a newer one replaces
    let rows = vec![set_of(&[3]), set_of(&[]), set_of(&[])];
    let bm = RouteConnBitmap::build(vec![(1, 4), (2, 2), (3, 0)], &rows);
    db.update_conn_map(&bm, 44);
    assert_eq!(db.get_connected_peers(1), Some(set_of(&[2])));
    assert_eq!(db.get_connected_peers(2), Some(set_of(&[])));
    assert_eq!(db.get_conn_version(2), Some(2));
}

#[test]
fn directly_connected_is_symmetric() {
    let mut db = SyncedRouteInfo::new();
    db.update_my_conn_info(1, set_of(&[2]), 0);
    assert!(db.is_peer_bidirectly_connected(1, 2));
    assert!(!db.is_peer_bidirectly_connected(2, 1));
    for (a, b) in [(1u32, 2u32), (2, 1), (1, 3), (3, 1), (2, 3)] {
        assert_eq!(db.is_peer_directly_connected(a, b), db.is_peer_directly_connected(b, a));
    }
    assert!(db.is_peer_directly_connected(2, 1));
    assert!(!db.is_peer_directly_connected(1, 3));
}

#[test]
fn refresh_self_reports_version_advance() {
    let mut db = SyncedRouteInfo::new();
    assert!(db.update_my_peer_info(9, &ctx("alpha"), 10 * SEC));
    assert!(!db.update_my_peer_info(9, &ctx("alpha"), 20 * SEC));
    assert!(db.update_my_peer_info(9, &ctx("beta"), 30 * SEC));
    let me = stored(&db, 9);
    assert_eq!(me.peer_id, 9);
    assert_eq!(me.version, 2);
    assert_eq!(me.hostname, Some("beta".to_string()));
    assert_eq!(me.ipv4_addr, Some(0x0a000001));
    assert_eq!(me.last_update, 30 * SEC);
}

#[test]
fn refresh_self_neighbors_bumps_only_on_change() {
    let mut db = SyncedRouteInfo::new();
    assert!(db.update_my_conn_info(1, set_of(&[2, 3]), 5));
    assert_eq!(db.get_conn_version(1), Some(1));
    assert_eq!(db.get_connected_peers(1), Some(set_of(&[2, 3])));
    // the neighbours were made known
    assert_eq!(stored(&db, 2).version, 0);
    assert_eq!(db.get_connected_peers(2), Some(set_of(&[])));
    assert!(!db.update_my_conn_info(1, set_of(&[2, 3]), 6));
    assert_eq!(db.get_conn_version(1), Some(1));
    assert!(db.update_my_conn_info(1, set_of(&[3]), 7));
    assert_eq!(db.get_conn_version(1), Some(2));
    assert_eq!(db.get_connected_peers(1), Some(set_of(&[3])));
}

#[test]
fn empty_neighbour_set_creates_the_record() {
    let mut db = SyncedRouteInfo::new();
    assert!(!db.update_my_conn_info(1, set_of(&[]), 5));
    assert_eq!(db.get_connected_peers(1), Some(set_of(&[])));
    assert_eq!(db.get_conn_version(1), Some(0));
}

#[test]
fn remove_peer_drops_both_records() {
    let mut db = SyncedRouteInfo::new();
    db.fill_empty_peer_info(&set_of(&[3, 4]), 10);
    db.remove_peer(3);
    assert!(db.peer_infos.get(&3).is_none());
    assert_eq!(db.get_connected_peers(3), None);
    assert_eq!(db.get_connected_peers(4), Some(set_of(&[])));
}

#[test]
fn refresh_due_foretells_the_version_advance() {
    let mut db = SyncedRouteInfo::new();
    assert!(db.refresh_due(9, &ctx("alpha"), 10 * SEC));
    assert!(db.update_my_peer_info(9, &ctx("alpha"), 10 * SEC));
    assert!(!db.refresh_due(9, &ctx("alpha"), 20 * SEC));
    assert!(db.refresh_due(9, &ctx("beta"), 20 * SEC));
    assert!(!db.refresh_due(9, &ctx("alpha"), 3610 * SEC));
    assert!(db.refresh_due(9, &ctx("alpha"), 3611 * SEC));
    assert!(!db.update_my_peer_info(9, &ctx("alpha"), 20 * SEC));
}

#[test]
fn refreshed_placeholder_gets_version_one() {
    let mut db = SyncedRouteInfo::new();
    // a neighbour mentions the local peer before it published anything
    assert!(db.update_my_conn_info(2, set_of(&[9]), 5 * SEC));
    assert_eq!(stored(&db, 9).version, 0);
    assert!(db.update_my_peer_info(9, &ctx("alpha"), 6 * SEC));
    let me = stored(&db, 9);
    assert_eq!(me.version, 1);
    assert_eq!(me.peer_id, 9);
    assert_eq!(me.hostname, Some("alpha".to_string()));
}
