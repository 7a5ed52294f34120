use ospf_route::cost::DefaultRouteCostCalculator;
use ospf_route::peer_info::{LocalContext, RoutePeerInfo};
use ospf_route::peer_route::{PeerRoute, PROTOCOL_VERSION};
use ospf_route::peer_set::PeerSet;
use ospf_route::route::{ipv4_to_string, StunInfo};
use ospf_route::rpc_types::Error;
use ospf_route::service_registry::{ServiceEntry, ServiceKey, ServiceTable};
use ospf_route::SERVICE_ID;

fn set_of(ids: &[u32]) -> PeerSet {
    ids.iter().copied().collect()
}

fn ctx() -> LocalContext {
    LocalContext {
        inst_id: 1,
        ipv4: Some(0x0a000001),
        proxy_cidrs: vec![],
        vpn_portal_cidr: None,
        hostname: "local".to_string(),
        udp_nat_type: 0,
    }
}

fn remote() -> RoutePeerInfo {
    RoutePeerInfo {
        peer_id: 2,
        inst_id: 0xa1a2a3a4b1b2c1c2d1d2d3d4d5d6d7d8,
        cost: 3,
        ipv4_addr: Some(0x0a00_0102),
        proxy_cidrs: vec!["192.168.7.0/24".to_string()],
        hostname: Some("remote".to_string()),
        udp_stun_info: 5,
        last_update: 0,
        version: 4,
    }
}

fn route_with_neighbour() -> PeerRoute<DefaultRouteCostCalculator> {
    let mut route = PeerRoute::new(1, ctx());
    route.session_mgr.sync_route_info(2, 1, false, Some(vec![remote()]), None, 0).unwrap();
    assert!(route.update_my_peer_info_routine(set_of(&[2]), 0));
    route
}

#[test]
fn open_reports_protocol_version_one() {
    let route = PeerRoute::new(1, ctx());
    assert_eq!(route.open(), Ok(1));
    assert_eq!(PROTOCOL_VERSION, 1);
    assert_eq!(SERVICE_ID, 7);
    route.close();
    assert_eq!(route.my_peer_id, 1);
}

#[test]
fn nothing_is_routed_at_first() {
    let route = PeerRoute::new(1, ctx());
    assert_eq!(route.get_next_hop(2), None);
    assert!(route.list_routes("0.0.0").is_empty());
    assert_eq!(route.get_peer_id_by_ipv4(0x0a000001), None);
}

#[test]
fn dotted_decimal_text() {
    assert_eq!(ipv4_to_string(0x0a00_0102), "10.0.1.2");
    assert_eq!(ipv4_to_string(0), "0.0.0.0");
    assert_eq!(ipv4_to_string(0xffff_ffff), "255.255.255.255");
    assert_eq!(ipv4_to_string(0xc0a8_0001), "192.168.0.1");
}

#[test]
fn descriptor_as_route_record() {
    let r = remote().into("9.8.7");
    assert_eq!(r.peer_id, 2);
    assert_eq!(r.ipv4_addr, "10.0.1.2");
    assert_eq!(r.next_hop_peer_id, 0);
    assert_eq!(r.cost, 3);
    assert_eq!(r.proxy_cidrs, vec!["192.168.7.0/24".to_string()]);
    assert_eq!(r.hostname, "remote");
    assert_eq!(r.stun_info, Some(StunInfo { udp_nat_type: 5, tcp_nat_type: 0, last_update_time: 0 }));
    assert_eq!(r.inst_id, "a1a2a3a4-b1b2-c1c2-d1d2-d3d4d5d6d7d8");
    assert_eq!(r.version, "9.8.7");
}

#[test]
fn placeholder_as_route_record() {
    let mut p = RoutePeerInfo::placeholder(0);
    p.udp_stun_info = 100;
    let r = p.into("1.0.0");
    assert_eq!(r.ipv4_addr, "");
    assert_eq!(r.hostname, "");
    assert_eq!(r.inst_id, "00000000-0000-0000-0000-000000000000");
    assert_eq!(r.stun_info, Some(StunInfo { udp_nat_type: 0, tcp_nat_type: 0, last_update_time: 0 }));
}

#[test]
fn routes_are_listed_with_next_hop_and_cost() {
    let route = route_with_neighbour();
    let routes = route.list_routes("1.2.3");
    assert_eq!(routes.len(), 1);
    let r = &routes[0];
    assert_eq!(r.peer_id, 2);
    assert_eq!(r.next_hop_peer_id, 2);
    assert_eq!(r.cost, 1);
    assert_eq!(r.ipv4_addr, "10.0.1.2");
    assert_eq!(r.hostname, "remote");
    assert_eq!(r.version, "1.2.3");
}

#[test]
fn address_lookup_falls_back_to_proxied_networks() {
    let route = route_with_neighbour();
    assert_eq!(route.get_peer_id_by_ipv4(0x0a00_0102), Some(2));
    assert_eq!(route.get_peer_id_by_ipv4(0x0a00_0001), Some(1));
    assert_eq!(route.get_peer_id_by_ipv4(0xc0a8_0709), Some(2));
    assert_eq!(route.get_peer_id_by_ipv4(0xc0a8_0809), None);
}

#[test]
fn routine_reports_changes_once() {
    let mut route = route_with_neighbour();
    assert!(!route.update_my_peer_info_routine(set_of(&[2]), 1));
    assert!(route.update_my_peer_info_routine(set_of(&[]), 2));
    assert!(route.list_routes("1.2.3").is_empty());
}

#[test]
fn installing_a_calculator_rebuilds() {
    let mut route = route_with_neighbour();
    let outcome = route.set_route_cost_fn(DefaultRouteCostCalculator).unwrap();
    assert!(outcome.least_hop_built);
    assert!(outcome.least_cost_built);
    assert_eq!(route.get_next_hop(2), Some(2));
    route.session_mgr.shut_down();
    assert!(route.set_route_cost_fn(DefaultRouteCostCalculator).is_none());
    assert_eq!(route.get_next_hop(2), None);
    assert!(route.list_routes("1.2.3").is_empty());
}

#[test]
fn sweep_drops_what_expired() {
    let mut route = route_with_neighbour();
    route.clear_expired_peer(4000 * 1_000_000_000);
    let service = route.session_mgr.service_impl.as_ref().unwrap();
    assert!(service.synced_route_info.peer_infos.is_empty());
}

fn key(service: &str, proto: &str) -> ServiceKey {
    ServiceKey { service_name: service.to_string(), proto_name: proto.to_string() }
}

#[test]
fn service_entry_keeps_name_and_handler() {
    let e = ServiceEntry::new("Greeting".to_string(), 42u8);
    assert_eq!(e.name, "Greeting");
    assert_eq!(e.service, 42);
}

#[test]
fn registered_service_is_found() {
    let mut table: ServiceTable<&'static str> = ServiceTable::new();
    table.register(key("Greeting", "proto.greeting"), "first");
    table.register(key("Routing", "proto.routing"), "second");
    let e = table.find(&key("Greeting", "proto.greeting")).ok().unwrap();
    assert_eq!(e.name, "Greeting");
    assert_eq!(e.service, "first");
    assert_eq!(table.find(&key("Routing", "proto.routing")).ok().unwrap().service, "second");
    // registering again replaces the handler
    table.register(key("Greeting", "proto.greeting"), "third");
    assert_eq!(table.find(&key("Greeting", "proto.greeting")).ok().unwrap().service, "third");
}

#[test]
fn unknown_service_key_is_an_error() {
    let mut table: ServiceTable<u8> = ServiceTable::new();
    table.register(key("Greeting", "proto.greeting"), 1);
    match table.find(&key("Greeting", "proto.other")) {
        Err(Error::InvalidServiceKey(service, proto)) => {
            assert_eq!(service, "Greeting");
            assert_eq!(proto, "proto.other");
        }
        _ => panic!("the key is not registered"),
    }
}

struct MovingCost {
    cost: std::sync::Arc<std::sync::atomic::AtomicI32>,
}

impl ospf_route::cost::RouteCostCalculatorInterface for MovingCost {
    fn cost(&self, src: u32, dst: u32) -> i32 {
        self.calculate_cost(src, dst)
    }

    fn follows(&self, _before: &Self) -> bool {
        true
    }

    fn calculate_cost(&self, _src: u32, _dst: u32) -> i32 {
        self.cost.load(std::sync::atomic::Ordering::Relaxed)
    }

    fn need_update(&self) -> bool {
        true
    }

    fn begin_update(&mut self) {}

    fn end_update(&mut self) {}
}

#[test]
fn calculator_that_asks_for_it_gets_a_rebuild() {
    let cost = std::sync::Arc::new(std::sync::atomic::AtomicI32::new(1));
    let mut route = PeerRoute::with_cost_calculator(1, ctx(), MovingCost { cost: cost.clone() });
    route.session_mgr.sync_route_info(2, 1, false, Some(vec![remote()]), None, 0).unwrap();
    route.update_my_peer_info_routine(set_of(&[2]), 0);
    let table = |r: &PeerRoute<MovingCost>| {
        r.session_mgr.service_impl.as_ref().unwrap().route_table_with_cost.get_next_hop(2)
    };
    assert_eq!(table(&route), Some((2, 1)));
    // nothing changes in the database, but the costs moved
    cost.store(9, std::sync::atomic::Ordering::Relaxed);
    assert!(!route.update_my_peer_info_routine(set_of(&[2]), 1));
    assert_eq!(table(&route), Some((2, 9)));
    // the hop count stays what it is
    assert_eq!(
        route.session_mgr.service_impl.as_ref().unwrap().route_table.get_next_hop(2),
        Some((2, 1))
    );
}

#[test]
fn listed_routes_never_name_the_local_peer() {
    let route = route_with_neighbour();
    let routes = route.list_routes("1.2.3");
    assert!(!routes.is_empty());
    assert!(routes.iter().all(|r| r.peer_id != 1));
}

#[test]
fn refused_rebuild_is_on_record() {
    let cost = std::sync::Arc::new(std::sync::atomic::AtomicI32::new(-1));
    let mut route = PeerRoute::with_cost_calculator(1, ctx(), MovingCost { cost: cost.clone() });
    route.session_mgr.sync_route_info(2, 1, false, Some(vec![remote()]), None, 0).unwrap();
    route.update_my_peer_info_routine(set_of(&[2]), 0);
    let last = |r: &PeerRoute<MovingCost>| r.session_mgr.service_impl.as_ref().unwrap().last_rebuild;
    let refused = last(&route).unwrap();
    assert!(refused.least_hop_built);
    assert!(!refused.least_cost_built);
    assert_eq!(route.get_next_hop(2), Some(2));
    assert_eq!(route.get_next_hop_with_policy(2, ospf_route::cost::NextHopPolicy::LeastCost), None);
    cost.store(4, std::sync::atomic::Ordering::Relaxed);
    route.update_my_peer_info_routine(set_of(&[2]), 1);
    let built = last(&route).unwrap();
    assert!(built.least_hop_built && built.least_cost_built);
    assert_eq!(route.get_next_hop_with_policy(2, ospf_route::cost::NextHopPolicy::LeastCost), Some(2));
}

#[test]
fn service_keys_compare_by_names() {
    assert!(key("Greeting", "proto.greeting").same(&key("Greeting", "proto.greeting")));
    assert!(!key("Greeting", "proto.greeting").same(&key("Greeting", "proto.other")));
    assert!(!key("Greeting", "proto.greeting").same(&key("Routing", "proto.greeting")));
}

#[test]
fn many_services_are_kept_apart() {
    let mut table: ServiceTable<usize> = ServiceTable::new();
    for i in 0..40usize {
        table.register(key(&format!("service-{}", i), "proto"), i);
    }
    // every third one is registered anew
    for i in (0..40usize).step_by(3) {
        table.register(key(&format!("service-{}", i), "proto"), 1000 + i);
    }
    for i in 0..40usize {
        let e = table.find(&key(&format!("service-{}", i), "proto")).ok().unwrap();
        assert_eq!(e.name, format!("service-{}", i));
        assert_eq!(e.service, if i % 3 == 0 { 1000 + i } else { i });
    }
    assert!(table.find(&key("service-40", "proto")).is_err());
}
