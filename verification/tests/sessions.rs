use ospf_route::conn_bitmap::RouteConnBitmap;
use ospf_route::cost::{DefaultRouteCostCalculator, NextHopPolicy};
use ospf_route::error::Error;
use ospf_route::peer_info::{LocalContext, RoutePeerInfo};
use ospf_route::peer_route::PeerRoute;
use ospf_route::peer_set::PeerSet;
use ospf_route::service::{PeerRouteServiceImpl, SyncOutcome, SyncRouteInfoResponse};
use ospf_route::session::SyncRouteSession;
use ospf_route::session_mgr::RouteSessionManager;

const SEC: u128 = 1_000_000_000;

type Service = PeerRouteServiceImpl<DefaultRouteCostCalculator>;
type Manager = RouteSessionManager<DefaultRouteCostCalculator>;

fn set_of(ids: &[u32]) -> PeerSet {
    ids.iter().copied().collect()
}

fn ctx(id: u32) -> LocalContext {
    LocalContext {
        inst_id: id as u128,
        ipv4: Some(0x0a000000 + id),
        proxy_cidrs: vec![],
        vpn_portal_cidr: None,
        hostname: format!("node-{}", id),
        udp_nat_type: 0,
    }
}

fn info(peer_id: u32, version: u32, nat: i8) -> RoutePeerInfo {
    let mut i = RoutePeerInfo::placeholder(0);
    i.peer_id = peer_id;
    i.version = version;
    i.udp_stun_info = nat;
    i
}

fn node(id: u32) -> Manager {
    RouteSessionManager::new(PeerRouteServiceImpl::new(id, ctx(id), DefaultRouteCostCalculator))
}

fn service(m: &Manager) -> &Service {
    m.service_impl.as_ref().unwrap()
}

fn service_mut(m: &mut Manager) -> &mut Service {
    m.service_impl.as_mut().unwrap()
}

fn session(m: &Manager, peer: u32) -> SyncRouteSession {
    service(m).get_session(peer).unwrap()
}

/// Runs one exchange from `from` to `to`, if one is due. Says whether one ran.
fn exchange(from: &mut Manager, to: &mut Manager, now: u128) -> bool {
    let from_id = service(from).my_peer_id;
    let to_id = service(to).my_peer_id;
    let request = match service_mut(from).prepare_sync(to_id) {
        Some(r) => r,
        None => return false,
    };
    let answer = to.sync_route_info(
        from_id,
        request.my_session_id,
        request.is_initiator,
        request.peer_infos.clone(),
        request.conn_bitmap.clone(),
        now,
    );
    let outcome = match answer {
        Ok(response) => SyncOutcome::Done(response),
        Err(e) => SyncOutcome::Rejected(e),
    };
    service_mut(from).finish_sync(to_id, &request, outcome);
    true
}

/// Lets the nodes refresh, elect and exchange until nothing is due any more.
fn settle(nodes: &mut Vec<Manager>, links: &[(usize, usize)], now: u128) {
    for round in 0..20 {
        let mut busy = false;
        for i in 0..nodes.len() {
            let neighbours: Vec<u32> = links
                .iter()
                .filter_map(|(a, b)| {
                    if *a == i {
                        Some(service(&nodes[*b]).my_peer_id)
                    } else if *b == i {
                        Some(service(&nodes[*a]).my_peer_id)
                    } else {
                        None
                    }
                })
                .collect();
            let set: PeerSet = neighbours.iter().copied().collect();
            busy |= service_mut(&mut nodes[i]).update_my_infos(set, now + round);
            nodes[i].maintain_sessions(&neighbours).unwrap();
        }
        for (a, b) in links {
            let (lo, hi) = if a < b { (*a, *b) } else { (*b, *a) };
            let (left, right) = nodes.split_at_mut(hi);
            busy |= exchange(&mut left[lo], &mut right[0], now + round);
            busy |= exchange(&mut right[0], &mut left[lo], now + round);
        }
        if !busy {
            return;
        }
    }
    panic!("the nodes did not settle");
}

#[test]
fn fresh_session() {
    let s = SyncRouteSession::with_session_id(7, 99);
    assert_eq!(s.dst_peer_id, 7);
    assert_eq!(s.my_session_id, 99);
    assert_eq!(s.dst_session_id, 0);
    assert!(!s.we_are_initiator);
    assert!(!s.dst_is_initiator);
    assert!(!s.need_sync_initiator_info);
    assert_eq!(s.rpc_tx_count, 0);
    assert_eq!(s.rpc_rx_count, 0);
    assert!(s.dst_saved_peer_info_versions.is_empty());
    assert!(s.dst_saved_conn_bitmap_version.is_empty());
}

#[test]
fn session_ids_are_drawn_per_session() {
    let a = SyncRouteSession::new(7);
    let b = SyncRouteSession::new(7);
    assert_eq!(a.dst_peer_id, 7);
    assert_eq!(a.dst_session_id, 0);
    // two draws of 64 bits that coincide would point at a broken generator
    assert_ne!(a.my_session_id, b.my_session_id);
}

#[test]
fn up_to_date_rule() {
    let mut s = SyncRouteSession::with_session_id(7, 99);
    // placeholders are never sent
    assert!(s.check_saved_peer_info_update_to_date(3, 0));
    // a peer's own record is never echoed back
    assert!(s.check_saved_peer_info_update_to_date(7, 5));
    // nothing is known to be held yet
    assert!(!s.check_saved_peer_info_update_to_date(3, 1));
    s.update_dst_saved_peer_info_version(&vec![info(3, 4, 0)]);
    assert!(s.check_saved_peer_info_update_to_date(3, 4));
    assert!(s.check_saved_peer_info_update_to_date(3, 2));
    assert!(!s.check_saved_peer_info_update_to_date(3, 5));
}

#[test]
fn high_water_marks_never_go_down() {
    let mut s = SyncRouteSession::with_session_id(7, 99);
    s.update_dst_saved_peer_info_version(&vec![info(3, 4, 0), info(3, 2, 0), info(4, 1, 0)]);
    assert_eq!(*s.dst_saved_peer_info_versions.get(&3).unwrap(), 4);
    assert_eq!(*s.dst_saved_peer_info_versions.get(&4).unwrap(), 1);
    s.update_dst_saved_peer_info_version(&vec![info(3, 3, 0), info(4, 6, 0)]);
    assert_eq!(*s.dst_saved_peer_info_versions.get(&3).unwrap(), 4);
    assert_eq!(*s.dst_saved_peer_info_versions.get(&4).unwrap(), 6);
    let bm = RouteConnBitmap { peer_ids: vec![(1, 3), (2, 0), (1, 2)], bitmap: vec![0] };
    s.update_dst_saved_conn_bitmap_version(&bm);
    assert_eq!(*s.dst_saved_conn_bitmap_version.get(&1).unwrap(), 3);
    assert_eq!(*s.dst_saved_conn_bitmap_version.get(&2).unwrap(), 0);
}

#[test]
fn changed_session_id_clears_the_marks() {
    let mut s = SyncRouteSession::with_session_id(7, 99);
    s.update_dst_session_id(5);
    assert_eq!(s.dst_session_id, 5);
    s.update_dst_saved_peer_info_version(&vec![info(3, 4, 0)]);
    s.update_dst_saved_conn_bitmap_version(&RouteConnBitmap { peer_ids: vec![(1, 3)], bitmap: vec![0] });
    s.update_dst_session_id(5);
    assert_eq!(s.dst_saved_peer_info_versions.len(), 1);
    assert_eq!(s.dst_saved_conn_bitmap_version.len(), 1);
    s.update_dst_session_id(6);
    assert_eq!(s.dst_session_id, 6);
    assert!(s.dst_saved_peer_info_versions.is_empty());
    assert!(s.dst_saved_conn_bitmap_version.is_empty());
}

#[test]
fn initiator_flag_forces_the_next_exchange() {
    let mut s = SyncRouteSession::with_session_id(7, 99);
    s.update_initiator_flag(true);
    assert!(s.we_are_initiator);
    assert!(s.need_sync_initiator_info);
    s.need_sync_initiator_info = false;
    s.update_initiator_flag(false);
    assert!(!s.we_are_initiator);
    assert!(s.need_sync_initiator_info);
}

#[test]
fn session_bookkeeping_of_the_service() {
    let mut m = node(1);
    let s = service_mut(&mut m);
    assert!(s.get_session(2).is_none());
    assert!(!s.has_session(2));
    let created = s.get_or_create_session(2);
    assert_eq!(created.dst_peer_id, 2);
    let again = s.get_or_create_session(2);
    assert_eq!(again.my_session_id, created.my_session_id);
    s.get_or_create_session(3);
    let mut peers = s.list_session_peers();
    peers.sort();
    assert_eq!(peers, vec![2, 3]);
    s.remove_session(2);
    assert_eq!(s.list_session_peers(), vec![3]);
}

#[test]
fn stopped_service_answers_stopped() {
    let mut m = node(1);
    m.shut_down();
    assert_eq!(m.sync_route_info(2, 5, false, None, None, 0), Err(Error::Stopped));
    assert_eq!(m.stop_session(2), Err(Error::Stopped));
    assert!(m.get_or_start_session(2).is_err());
    assert!(m.maintain_sessions(&vec![2]).is_err());
    assert!(m.list_session_peers().is_empty());
}

#[test]
fn handler_records_the_neighbour() {
    let mut m = node(1);
    service_mut(&mut m).update_my_infos(set_of(&[2]), 0);
    let r = m.sync_route_info(2, 77, true, Some(vec![info(2, 3, 0)]), None, 5 * SEC).unwrap();
    let s = session(&m, 2);
    assert_eq!(r, SyncRouteInfoResponse { is_initiator: false, session_id: s.my_session_id });
    assert_eq!(s.rpc_rx_count, 1);
    assert_eq!(s.dst_session_id, 77);
    assert!(s.dst_is_initiator);
    assert!(s.task_running);
    assert_eq!(*s.dst_saved_peer_info_versions.get(&2).unwrap(), 3);
    let stored = service(&m).synced_route_info.peer_infos.get(&2).unwrap().value().clone();
    assert_eq!(stored.version, 3);
    assert_eq!(stored.last_update, 5 * SEC);
    // the tables were rebuilt: 1 lists 2, and 2 is known now
    assert_eq!(service(&m).route_table.get_next_hop(2), Some((2, 1)));
}

#[test]
fn handler_rejects_a_regressed_neighbour() {
    let mut m = node(1);
    service_mut(&mut m).update_my_infos(set_of(&[2]), 0);
    m.sync_route_info(2, 77, true, Some(vec![info(2, 3, 0)]), None, SEC).unwrap();
    let r = m.sync_route_info(2, 78, true, Some(vec![info(2, 2, 0), info(9, 1, 0)]), None, 2 * SEC);
    assert_eq!(r, Err(Error::DuplicatePeerId));
    assert!(service(&m).synced_route_info.peer_infos.get(&9).is_none());
    let s = session(&m, 2);
    assert_eq!(s.rpc_rx_count, 2);
    assert_eq!(s.dst_session_id, 78);
}

#[test]
fn two_nodes_converge() {
    let mut nodes = vec![node(1), node(2)];
    settle(&mut nodes, &[(0, 1)], SEC);
    for (me, other) in [(0usize, 2u32), (1, 1)] {
        let s = service(&nodes[me]);
        assert_eq!(s.synced_route_info.peer_infos.len(), 2);
        assert_eq!(s.route_table.get_next_hop(other), Some((other, 1)));
        let sess = session(&nodes[me], other);
        assert!(sess.rpc_tx_count <= 2);
        assert!(sess.rpc_rx_count <= 2);
        assert!(sess.task_running);
    }
    let a = session(&nodes[0], 2);
    let b = session(&nodes[1], 1);
    assert_eq!(a.we_are_initiator, b.dst_is_initiator);
    assert_eq!(b.we_are_initiator, a.dst_is_initiator);
    // each side knows that the other holds its descriptor
    let own = service(&nodes[0]).synced_route_info.get_peer_info_version_with_default(1);
    assert_eq!(*a.dst_saved_peer_info_versions.get(&1).unwrap(), own);
}

#[test]
fn line_of_three_routes_through_the_middle() {
    let mut nodes = vec![node(1), node(2), node(3)];
    settle(&mut nodes, &[(0, 1), (1, 2)], SEC);
    for n in nodes.iter() {
        assert_eq!(service(n).synced_route_info.peer_infos.len(), 3);
    }
    assert_eq!(service(&nodes[0]).route_table.get_next_hop(3), Some((2, 2)));
    assert_eq!(service(&nodes[2]).route_table.get_next_hop(1), Some((2, 2)));
}

#[test]
fn triangle_of_nodes_then_drop() {
    let mut nodes = vec![node(1), node(2), node(3)];
    settle(&mut nodes, &[(0, 1), (1, 2), (0, 2)], SEC);
    assert_eq!(service(&nodes[0]).route_table.get_next_hop(2), Some((2, 1)));
    assert_eq!(service(&nodes[0]).route_table.get_next_hop(3), Some((3, 1)));
    // C drops out: A and B go on without it
    let mut rest: Vec<Manager> = nodes.drain(0..2).collect();
    settle(&mut rest, &[(0, 1)], 2 * SEC);
    for (me, other) in [(0usize, 2u32), (1, 1)] {
        let route = PeerRoute { my_peer_id: service(&rest[me]).my_peer_id, session_mgr: rest.remove(me) };
        let routes = route.list_routes("1.2.3");
        assert_eq!(routes.len(), 1);
        assert_eq!(routes[0].peer_id, other);
        assert!(route.session_mgr.service_impl.as_ref().unwrap().get_session(3).is_none());
        rest.insert(me, route.session_mgr);
    }
}

#[test]
fn reconnect_starts_a_new_session() {
    let mut nodes = vec![node(1), node(2)];
    settle(&mut nodes, &[(0, 1)], SEC);
    let first = session(&nodes[0], 2).my_session_id;
    // the link goes down
    settle(&mut nodes, &[], 2 * SEC);
    assert_eq!(service(&nodes[0]).route_table.get_next_hop(2), None);
    assert!(service(&nodes[0]).get_session(2).is_none());
    assert_eq!(nodes[0].cur_dst_peer_id_to_initiate, None);
    // and comes back
    settle(&mut nodes, &[(0, 1)], 3 * SEC);
    assert_eq!(service(&nodes[0]).route_table.get_next_hop(2), Some((2, 1)));
    let again = session(&nodes[0], 2);
    assert_ne!(again.my_session_id, first);
    assert!(again.rpc_tx_count <= 2);
    assert!(again.rpc_rx_count <= 2);
}

#[test]
fn election_prefers_a_friendly_nat() {
    let mut m = node(1);
    // Symmetric, OpenInternet, PortRestricted
    m.sync_route_info(
        10,
        1,
        false,
        Some(vec![info(10, 1, 6), info(20, 1, 1), info(30, 1, 5)]),
        None,
        0,
    )
    .unwrap();
    service_mut(&mut m).update_my_infos(set_of(&[10, 20, 30]), 0);
    let outcome = m.maintain_sessions(&vec![30, 10, 20]).unwrap();
    assert_eq!(outcome.target, Some(20));
    assert!(outcome.initiator_changed);
    assert_eq!(outcome.next_sleep_ms, 1000);
    assert_eq!(m.cur_dst_peer_id_to_initiate, Some(20));
    let s = session(&m, 20);
    assert!(s.we_are_initiator);
    assert!(s.need_sync_initiator_info);
    assert!(s.task_running);
    // the session with 10 serves no purpose and is collected
    assert_eq!(outcome.stopped, vec![10]);
    assert!(service(&m).get_session(10).is_none());
}

#[test]
fn election_falls_back_to_the_lowest_candidate() {
    let mut m = node(1);
    let outcome = m.maintain_sessions(&vec![30, 10, 20]).unwrap();
    assert_eq!(outcome.target, Some(10));
    assert!(outcome.stopped.is_empty());
    // a second round changes nothing
    let outcome = m.maintain_sessions(&vec![30, 10, 20]).unwrap();
    assert_eq!(outcome.target, Some(10));
    assert!(!outcome.initiator_changed);
    assert_eq!(service(&m).list_session_peers(), vec![10]);
}

#[test]
fn election_skips_neighbours_that_initiate() {
    let mut m = node(1);
    m.sync_route_info(10, 1, true, None, None, 0).unwrap();
    let outcome = m.maintain_sessions(&vec![10, 20]).unwrap();
    assert_eq!(outcome.target, Some(20));
    // without any candidate nothing is elected
    let mut m = node(1);
    m.sync_route_info(10, 1, true, None, None, 0).unwrap();
    let outcome = m.maintain_sessions(&vec![10]).unwrap();
    assert_eq!(outcome.target, None);
    assert!(!outcome.initiator_changed);
    assert!(service(&m).has_session(10));
}

#[test]
fn election_moves_on_when_the_target_leaves() {
    let mut m = node(1);
    assert_eq!(m.maintain_sessions(&vec![10, 20]).unwrap().target, Some(10));
    let outcome = m.maintain_sessions(&vec![20]).unwrap();
    assert_eq!(outcome.target, Some(20));
    assert!(outcome.initiator_changed);
    assert_eq!(outcome.stopped, vec![10]);
    assert_eq!(service(&m).list_session_peers(), vec![20]);
}

#[test]
fn old_target_gives_up_the_role() {
    let mut m = node(1);
    assert_eq!(m.maintain_sessions(&vec![20]).unwrap().target, Some(20));
    service_mut(&mut m).prepare_sync(20).unwrap();
    // 10 appears and has the lower id
    let outcome = m.maintain_sessions(&vec![10, 20]).unwrap();
    assert_eq!(outcome.target, Some(10));
    let old = session(&m, 20);
    assert!(!old.we_are_initiator);
    assert!(old.need_sync_initiator_info);
    assert!(session(&m, 10).we_are_initiator);
}

#[test]
fn nothing_due_means_no_request() {
    let mut m = node(1);
    assert!(service_mut(&mut m).prepare_sync(2).is_none());
    service_mut(&mut m).get_or_create_session(2);
    assert!(service_mut(&mut m).prepare_sync(2).is_none());
}

#[test]
fn role_change_alone_makes_a_request() {
    let mut m = node(1);
    m.maintain_sessions(&vec![2]).unwrap();
    let request = service_mut(&mut m).prepare_sync(2).unwrap();
    assert_eq!(request.my_peer_id, 1);
    assert!(request.is_initiator);
    assert!(request.peer_infos.is_none());
    assert!(request.conn_bitmap.is_none());
    assert!(!session(&m, 2).need_sync_initiator_info);
    assert!(service_mut(&mut m).prepare_sync(2).is_none());
}

#[test]
fn failed_exchange_is_retried() {
    let mut m = node(1);
    service_mut(&mut m).update_my_infos(set_of(&[2]), 0);
    m.maintain_sessions(&vec![2]).unwrap();
    let request = service_mut(&mut m).prepare_sync(2).unwrap();
    service_mut(&mut m).finish_sync(2, &request, SyncOutcome::Failed);
    let s = session(&m, 2);
    assert!(s.need_sync_initiator_info);
    assert_eq!(s.rpc_tx_count, 0);
    assert!(s.dst_saved_peer_info_versions.is_empty());
    let again = service_mut(&mut m).prepare_sync(2).unwrap();
    service_mut(&mut m).finish_sync(2, &again, SyncOutcome::Rejected(Error::Stopped));
    assert!(session(&m, 2).need_sync_initiator_info);
}

#[test]
fn answered_exchange_raises_the_marks() {
    let mut m = node(1);
    service_mut(&mut m).update_my_infos(set_of(&[2]), 0);
    m.maintain_sessions(&vec![2]).unwrap();
    let request = service_mut(&mut m).prepare_sync(2).unwrap();
    let sent: Vec<u32> = request.peer_infos.as_ref().unwrap().iter().map(|i| i.peer_id).collect();
    assert_eq!(sent, vec![1]);
    assert!(request.peer_infos.as_ref().unwrap().iter().all(|i| i.version >= 1));
    let bitmap = request.conn_bitmap.as_ref().unwrap();
    assert_eq!(bitmap.peer_ids, vec![(1, 1), (2, 0)]);
    assert_eq!(bitmap.bitmap, vec![0b0000_0010]);
    let response = SyncRouteInfoResponse { is_initiator: true, session_id: 4242 };
    service_mut(&mut m).finish_sync(2, &request, SyncOutcome::Done(response));
    let s = session(&m, 2);
    assert_eq!(s.rpc_tx_count, 1);
    assert!(s.dst_is_initiator);
    assert_eq!(s.dst_session_id, 4242);
    assert_eq!(*s.dst_saved_peer_info_versions.get(&1).unwrap(), 1);
    assert_eq!(*s.dst_saved_conn_bitmap_version.get(&1).unwrap(), 1);
    assert_eq!(*s.dst_saved_conn_bitmap_version.get(&2).unwrap(), 0);
    assert!(service_mut(&mut m).prepare_sync(2).is_none());
}

#[test]
fn delta_leaves_out_unreachable_and_held_descriptors() {
    let mut m = node(1);
    m.sync_route_info(2, 1, false, Some(vec![info(2, 1, 0), info(5, 1, 0)]), None, 0).unwrap();
    service_mut(&mut m).update_my_infos(set_of(&[2]), 0);
    let with_3 = service_mut(&mut m).get_or_create_session(3);
    let infos = service(&m).build_route_info(&with_3).unwrap();
    let mut ids: Vec<u32> = infos.iter().map(|i| i.peer_id).collect();
    ids.sort();
    // 5 is known, but no route leads to it
    assert_eq!(ids, vec![1, 2]);
    // towards 2 its own descriptor is not echoed
    let with_2 = session(&m, 2);
    let infos = service(&m).build_route_info(&with_2).unwrap();
    let ids: Vec<u32> = infos.iter().map(|i| i.peer_id).collect();
    assert_eq!(ids, vec![1]);
}

#[test]
fn expiry_after_3660_seconds() {
    let mut m = node(1);
    m.sync_route_info(2, 1, false, Some(vec![info(2, 1, 0), info(3, 1, 0)]), None, 100 * SEC).unwrap();
    service_mut(&mut m).update_my_peer_info(110 * SEC);
    service_mut(&mut m).clear_expired_peer(3760 * SEC);
    assert_eq!(service(&m).synced_route_info.peer_infos.len(), 3);
    service_mut(&mut m).clear_expired_peer(3760 * SEC + 1);
    assert_eq!(service(&m).synced_route_info.peer_infos.len(), 1);
    assert!(service(&m).synced_route_info.peer_infos.get(&1).is_some());
    // a clock that went back expires nothing
    service_mut(&mut m).clear_expired_peer(0);
    assert_eq!(service(&m).synced_route_info.peer_infos.len(), 1);
}

#[test]
fn both_tables_are_rebuilt_together() {
    let mut m = node(1);
    m.sync_route_info(2, 1, false, Some(vec![info(2, 1, 0)]), None, 0).unwrap();
    service_mut(&mut m).update_my_infos(set_of(&[2]), 0);
    let outcome = service_mut(&mut m).update_route_table_and_cached_local_conn_bitmap();
    assert!(outcome.least_hop_built);
    assert!(outcome.least_cost_built);
    assert!(outcome.bitmap_built);
    assert_eq!(service(&m).route_table.get_next_hop(2), Some((2, 1)));
    assert_eq!(service(&m).route_table_with_cost.get_next_hop(2), Some((2, 1)));
    let route = PeerRoute { my_peer_id: 1, session_mgr: m };
    assert_eq!(route.get_next_hop(2), Some(2));
    assert_eq!(route.get_next_hop_with_policy(2, NextHopPolicy::LeastCost), Some(2));
    assert_eq!(route.get_next_hop_with_policy(9, NextHopPolicy::LeastHop), None);
}

#[test]
fn local_bitmap_labels_are_ascending() {
    let mut m = node(5);
    service_mut(&mut m).update_my_infos(set_of(&[9, 2, 7]), 0);
    let bm = service(&m).cached_local_conn_map.clone();
    assert_eq!(bm.peer_ids, vec![(2, 0), (5, 1), (7, 0), (9, 0)]);
    assert_eq!(bm.bitmap.len(), 2);
    assert_eq!(bm.get_connected_peers(1), set_of(&[2, 7, 9]));
    assert_eq!(bm.get_connected_peers(0), set_of(&[]));
}

#[test]
fn newcomer_is_reached_through_its_only_neighbour() {
    // four nodes that all know each other, and a fifth behind the fourth
    let mut nodes = vec![node(1), node(2), node(3), node(4), node(5)];
    let links = [(0, 1), (1, 2), (0, 2), (3, 0), (3, 1), (3, 2), (4, 3)];
    settle(&mut nodes, &links, SEC);
    for n in nodes.iter() {
        assert_eq!(service(n).synced_route_info.peer_infos.len(), 5);
    }
    for i in 0..3 {
        assert_eq!(service(&nodes[i]).route_table.get_next_hop(5), Some((4, 2)));
        assert_eq!(service(&nodes[i]).route_table_with_cost.get_next_hop(5), Some((4, 2)));
    }
    assert_eq!(service(&nodes[3]).route_table.get_next_hop(5), Some((5, 1)));
    assert_eq!(service(&nodes[4]).route_table.get_next_hop(1), Some((4, 2)));
    let sessions = nodes[4].list_session_peers();
    assert_eq!(sessions, vec![4]);
    let s = session(&nodes[4], 4);
    assert!(s.rpc_tx_count <= 2);
    assert!(s.rpc_rx_count <= 2);
    // every node ends up with the same picture of who lists whom
    for n in nodes.iter() {
        let db = &service(n).synced_route_info;
        assert_eq!(db.get_connected_peers(4), Some(set_of(&[1, 2, 3, 5])));
        assert_eq!(db.get_connected_peers(5), Some(set_of(&[4])));
        assert!(db.is_peer_directly_connected(5, 4));
    }
}

#[test]
fn exchange_is_counted_once_on_each_side() {
    let mut a = node(1);
    let mut b = node(2);
    service_mut(&mut a).update_my_infos(set_of(&[2]), 0);
    service_mut(&mut b).update_my_infos(set_of(&[1]), 0);
    a.maintain_sessions(&vec![2]).unwrap();
    assert!(exchange(&mut a, &mut b, SEC));
    assert_eq!(session(&a, 2).rpc_tx_count, 1);
    assert_eq!(session(&a, 2).rpc_rx_count, 0);
    assert_eq!(session(&b, 1).rpc_rx_count, 1);
    assert_eq!(session(&b, 1).rpc_tx_count, 0);
    assert_eq!(session(&b, 1).dst_session_id, session(&a, 2).my_session_id);
    assert_eq!(session(&a, 2).dst_session_id, session(&b, 1).my_session_id);
    assert!(session(&b, 1).dst_is_initiator);
    // b learnt a's descriptor and a's adjacency set
    assert_eq!(service(&b).synced_route_info.get_peer_info_version_with_default(1), 1);
    assert_eq!(service(&b).synced_route_info.get_connected_peers(1), Some(set_of(&[2])));
    assert_eq!(service(&b).route_table.get_next_hop(1), Some((1, 1)));
    // nothing more is due from a
    assert!(!exchange(&mut a, &mut b, SEC));
}

#[test]
fn same_database_gives_the_same_matrix() {
    // two nodes with the same id learn the same records in another order
    let mut a = node(1);
    a.sync_route_info(2, 7, false, Some(vec![info(2, 1, 0), info(3, 1, 0)]), None, 0).unwrap();
    service_mut(&mut a).update_my_infos(set_of(&[2, 3]), 0);
    let mut b = node(1);
    service_mut(&mut b).update_my_infos(set_of(&[3, 2]), 0);
    b.sync_route_info(3, 8, false, Some(vec![info(3, 1, 0)]), None, 0).unwrap();
    b.sync_route_info(2, 9, false, Some(vec![info(2, 1, 0)]), None, 0).unwrap();
    let ma = service(&a).cached_local_conn_map.clone();
    let mb = service(&b).cached_local_conn_map.clone();
    assert_eq!(ma.peer_ids, vec![(1, 1), (2, 0), (3, 0)]);
    assert_eq!(ma.bitmap, vec![0b0000_0110, 0]);
    assert_eq!(ma.peer_ids, mb.peer_ids);
    assert_eq!(ma.bitmap, mb.bitmap);
}

#[test]
fn election_takes_neighbours_in_any_order() {
    let mut m = node(5);
    for peer in [9u32, 2, 7] {
        m.sync_route_info(peer, 1, false, Some(vec![info(peer, 1, 0)]), None, 0).unwrap();
    }
    service_mut(&mut m).update_my_infos(set_of(&[9, 2, 7]), 0);
    let outcome = m.maintain_sessions(&vec![9, 2, 7, 2]).unwrap();
    assert_eq!(outcome.target, Some(2));
    assert_eq!(service(&m).elect_initiator(&vec![9, 7, 2, 9]), Some(2));
}

#[test]
fn rebuild_outcome_is_on_record() {
    let mut m = node(1);
    assert_eq!(service(&m).last_rebuild, None);
    m.sync_route_info(2, 1, false, Some(vec![info(2, 1, 0)]), None, 0).unwrap();
    let last = service(&m).last_rebuild.unwrap();
    assert!(last.least_hop_built && last.least_cost_built && last.bitmap_built);
}
