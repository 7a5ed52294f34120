use ospf_route::cost::{DefaultRouteCostCalculator, NextHopPolicy, RouteCostCalculatorInterface};
use ospf_route::nat_type::NatType;
use ospf_route::peer_info::RoutePeerInfo;
use ospf_route::peer_set::PeerSet;
use ospf_route::proxy_cidr::cidr_contains;
use ospf_route::route_table::RouteTable;
use ospf_route::synced_info::SyncedRouteInfo;

fn set_of(ids: &[u32]) -> PeerSet {
    ids.iter().copied().collect()
}

fn info(peer_id: u32, version: u32) -> RoutePeerInfo {
    let mut i = RoutePeerInfo::placeholder(0);
    i.peer_id = peer_id;
    i.version = version;
    i
}

/// A database in which every peer of `links` is known and lists the peers
/// given for it.
fn db_with(links: &[(u32, &[u32])]) -> SyncedRouteInfo {
    let mut db = SyncedRouteInfo::new();
    for (peer, neighbours) in links {
        db.update_peer_infos(0, 0, &vec![info(*peer, 1)], 0).unwrap();
        db.update_my_conn_info(*peer, set_of(neighbours), 0);
    }
    db
}

struct TestCostCalculator {
    a: u32,
    b: u32,
    c: u32,
    d: u32,
}

impl RouteCostCalculatorInterface for TestCostCalculator {
    fn cost(&self, src: u32, dst: u32) -> i32 {
        self.calculate_cost(src, dst)
    }

    fn follows(&self, _before: &Self) -> bool {
        true
    }

    fn begin_update(&mut self) {}

    fn end_update(&mut self) {}

    fn calculate_cost(&self, src: u32, dst: u32) -> i32 {
        if src == self.d && dst == self.b {
            return 100;
        }
        if src == self.d && dst == self.c {
            return 1;
        }
        if src == self.c && dst == self.a {
            return 101;
        }
        if src == self.b && dst == self.a {
            return 1;
        }
        if src == self.c && dst == self.b {
            return 2;
        }
        1
    }
}

struct FixedCost(i32);

impl RouteCostCalculatorInterface for FixedCost {
    fn cost(&self, src: u32, dst: u32) -> i32 {
        self.calculate_cost(src, dst)
    }

    fn follows(&self, _before: &Self) -> bool {
        true
    }

    fn calculate_cost(&self, _src: u32, _dst: u32) -> i32 {
        self.0
    }

    fn need_update(&self) -> bool {
        true
    }

    fn begin_update(&mut self) {}

    fn end_update(&mut self) {}
}

#[test]
fn default_calculator_costs_one() {
    let c = DefaultRouteCostCalculator;
    assert_eq!(c.calculate_cost(1, 2), 1);
    assert_eq!(c.calculate_cost(7, 7), 1);
    assert!(!c.need_update());
}

#[test]
fn empty_database_gives_empty_tables() {
    let db = SyncedRouteInfo::new();
    let mut t = RouteTable::new();
    assert!(t.build_from_synced_info(1, &db, NextHopPolicy::LeastHop, &DefaultRouteCostCalculator));
    assert_eq!(t.get_next_hop(1), None);
    assert!(!t.peer_reachable(1));
    assert!(t.list_peers().is_empty());
}

#[test]
fn placeholders_are_left_out() {
    let mut db = db_with(&[(1, &[2]), (2, &[1])]);
    db.fill_empty_peer_info(&set_of(&[3]), 0);
    db.update_my_conn_info(2, set_of(&[1, 3]), 0);
    let mut t = RouteTable::new();
    assert!(t.build_from_synced_info(1, &db, NextHopPolicy::LeastHop, &DefaultRouteCostCalculator));
    assert!(t.peer_reachable(2));
    assert!(!t.peer_reachable(3));
    assert!(t.get_peer_info(3).is_none());
    let mut peers = t.list_peers();
    peers.sort();
    assert_eq!(peers, vec![1, 2]);
}

#[test]
fn local_peer_leads_to_itself_at_cost_zero() {
    let db = db_with(&[(1, &[2]), (2, &[1])]);
    for policy in [NextHopPolicy::LeastHop, NextHopPolicy::LeastCost] {
        let mut t = RouteTable::new();
        assert!(t.build_from_synced_info(1, &db, policy, &DefaultRouteCostCalculator));
        assert_eq!(t.get_next_hop(1), Some((1, 0)));
        assert_eq!(t.get_next_hop(2), Some((2, 1)));
    }
}

#[test]
fn unknown_local_peer_reaches_only_itself() {
    let db = db_with(&[(1, &[2]), (2, &[1])]);
    for policy in [NextHopPolicy::LeastHop, NextHopPolicy::LeastCost] {
        let mut t = RouteTable::new();
        assert!(t.build_from_synced_info(9, &db, policy, &DefaultRouteCostCalculator));
        assert_eq!(t.get_next_hop(9), Some((9, 0)));
        assert_eq!(t.get_next_hop(1), None);
        assert_eq!(t.get_next_hop(2), None);
    }
}

#[test]
fn three_node_line() {
    // A(1) - B(2) - C(3)
    let db = db_with(&[(1, &[2]), (2, &[1, 3]), (3, &[2])]);
    let mut a = RouteTable::new();
    assert!(a.build_from_synced_info(1, &db, NextHopPolicy::LeastHop, &DefaultRouteCostCalculator));
    assert_eq!(a.get_next_hop(3), Some((2, 2)));
    assert_eq!(a.get_next_hop(2), Some((2, 1)));
    let mut c = RouteTable::new();
    assert!(c.build_from_synced_info(3, &db, NextHopPolicy::LeastHop, &DefaultRouteCostCalculator));
    assert_eq!(c.get_next_hop(1), Some((2, 2)));
}

#[test]
fn triangle_then_drop() {
    let db = db_with(&[(1, &[2, 3]), (2, &[1, 3]), (3, &[1, 2])]);
    let mut a = RouteTable::new();
    assert!(a.build_from_synced_info(1, &db, NextHopPolicy::LeastHop, &DefaultRouteCostCalculator));
    assert_eq!(a.get_next_hop(2), Some((2, 1)));
    assert_eq!(a.get_next_hop(3), Some((3, 1)));
    // C leaves: A and B no longer list it, and it lists nobody
    let db = db_with(&[(1, &[2]), (2, &[1]), (3, &[])]);
    let mut a = RouteTable::new();
    assert!(a.build_from_synced_info(1, &db, NextHopPolicy::LeastHop, &DefaultRouteCostCalculator));
    assert_eq!(a.get_next_hop(2), Some((2, 1)));
    assert_eq!(a.get_next_hop(3), None);
}

#[test]
fn links_are_directed() {
    // 1 lists 2, but 2 does not list 1
    let db = db_with(&[(1, &[2]), (2, &[])]);
    let mut from_1 = RouteTable::new();
    assert!(from_1.build_from_synced_info(1, &db, NextHopPolicy::LeastCost, &DefaultRouteCostCalculator));
    assert_eq!(from_1.get_next_hop(2), Some((2, 1)));
    let mut from_2 = RouteTable::new();
    assert!(from_2.build_from_synced_info(2, &db, NextHopPolicy::LeastCost, &DefaultRouteCostCalculator));
    assert_eq!(from_2.get_next_hop(1), None);
}

#[test]
fn cost_policy_prefers_the_cheaper_detour() {
    // A(1) - B(2) - C(3), D(4) connected to B and C, A connected to B and C
    let (a, b, c, d) = (1u32, 2u32, 3u32, 4u32);
    let db = db_with(&[(a, &[b, c]), (b, &[a, c, d]), (c, &[a, b, d]), (d, &[b, c])]);
    let calc = TestCostCalculator { a, b, c, d };

    let mut least_hop = RouteTable::new();
    assert!(least_hop.build_from_synced_info(d, &db, NextHopPolicy::LeastHop, &calc));
    // two hops either way; D-B-A costs 101, D-C-A costs 102
    assert_eq!(least_hop.get_next_hop(a), Some((b, 2)));

    let mut least_cost = RouteTable::new();
    assert!(least_cost.build_from_synced_info(d, &db, NextHopPolicy::LeastCost, &calc));
    // D-C-B-A = 1 + 2 + 1 = 4 beats D-B-A = 100 + 1 = 101
    assert_eq!(least_cost.get_next_hop(a), Some((c, 4)));
    assert_eq!(least_cost.get_next_hop(b), Some((c, 3)));
    assert_eq!(least_cost.get_next_hop(c), Some((c, 1)));
}

#[test]
fn least_hop_cost_is_the_hop_count() {
    // a ring of five: 1-2-3-4-5-1
    let db = db_with(&[(1, &[2, 5]), (2, &[1, 3]), (3, &[2, 4]), (4, &[3, 5]), (5, &[4, 1])]);
    let mut t = RouteTable::new();
    assert!(t.build_from_synced_info(1, &db, NextHopPolicy::LeastHop, &FixedCost(7)));
    assert_eq!(t.get_next_hop(2), Some((2, 1)));
    assert_eq!(t.get_next_hop(3), Some((2, 2)));
    assert_eq!(t.get_next_hop(4), Some((5, 2)));
    assert_eq!(t.get_next_hop(5), Some((5, 1)));
    let mut t = RouteTable::new();
    assert!(t.build_from_synced_info(1, &db, NextHopPolicy::LeastCost, &FixedCost(7)));
    assert_eq!(t.get_next_hop(3), Some((2, 14)));
    assert_eq!(t.get_next_hop(4), Some((5, 14)));
}

#[test]
fn negative_costs_do_not_suit_least_cost() {
    let db = db_with(&[(1, &[2]), (2, &[1])]);
    let mut t = RouteTable::new();
    assert!(t.build_from_synced_info(1, &db, NextHopPolicy::LeastCost, &FixedCost(3)));
    assert_eq!(t.get_next_hop(2), Some((2, 3)));
    // the table stays as it was
    assert!(!t.build_from_synced_info(1, &db, NextHopPolicy::LeastCost, &FixedCost(-1)));
    assert_eq!(t.get_next_hop(2), Some((2, 3)));
    // the hop count does not look at the costs
    assert!(t.build_from_synced_info(1, &db, NextHopPolicy::LeastHop, &FixedCost(-1)));
    assert_eq!(t.get_next_hop(2), Some((2, 1)));
}

#[test]
fn largest_cost_is_recorded() {
    let db = db_with(&[(1, &[2]), (2, &[1])]);
    let mut t = RouteTable::new();
    assert!(t.build_from_synced_info(1, &db, NextHopPolicy::LeastCost, &FixedCost(i32::MAX)));
    assert_eq!(t.get_next_hop(1), Some((1, 0)));
    assert_eq!(t.get_next_hop(2), Some((2, i32::MAX)));
}

#[test]
fn zero_costs_are_taken() {
    let db = db_with(&[(1, &[2]), (2, &[1, 3]), (3, &[2])]);
    let mut t = RouteTable::new();
    assert!(t.build_from_synced_info(1, &db, NextHopPolicy::LeastCost, &FixedCost(0)));
    assert_eq!(t.get_next_hop(2), Some((2, 0)));
    assert_eq!(t.get_next_hop(3), Some((2, 0)));
}

struct OneDearLink;

impl RouteCostCalculatorInterface for OneDearLink {
    fn cost(&self, src: u32, dst: u32) -> i32 {
        self.calculate_cost(src, dst)
    }

    fn follows(&self, _before: &Self) -> bool {
        true
    }

    fn begin_update(&mut self) {}

    fn end_update(&mut self) {}

    fn calculate_cost(&self, src: u32, dst: u32) -> i32 {
        if src == 1 && dst == 2 {
            1 << 30
        } else {
            1
        }
    }
}

#[test]
fn one_dear_link_among_many_peers_is_no_obstacle() {
    // 1 - 2 - 3 in a line: the link from 1 to 2 costs 2^30, every other link 1
    let db = db_with(&[(1, &[2]), (2, &[1, 3]), (3, &[2])]);
    let mut hop = RouteTable::new();
    assert!(hop.build_from_synced_info(1, &db, NextHopPolicy::LeastHop, &OneDearLink));
    assert_eq!(hop.get_next_hop(3), Some((2, 2)));
    let mut cost = RouteTable::new();
    assert!(cost.build_from_synced_info(1, &db, NextHopPolicy::LeastCost, &OneDearLink));
    assert_eq!(cost.get_next_hop(1), Some((1, 0)));
    assert_eq!(cost.get_next_hop(2), Some((2, 1 << 30)));
    assert_eq!(cost.get_next_hop(3), Some((2, (1 << 30) + 1)));
    let mut back = RouteTable::new();
    assert!(back.build_from_synced_info(3, &db, NextHopPolicy::LeastCost, &OneDearLink));
    assert_eq!(back.get_next_hop(1), Some((2, 2)));
}

#[test]
fn cheapest_cost_beyond_i32_is_not_recorded() {
    // two links at the largest cost in a row: the sum is beyond an i32
    let db = db_with(&[(1, &[2]), (2, &[1, 3]), (3, &[2])]);
    let mut t = RouteTable::new();
    assert!(t.build_from_synced_info(1, &db, NextHopPolicy::LeastCost, &FixedCost(1)));
    assert!(!t.build_from_synced_info(1, &db, NextHopPolicy::LeastCost, &FixedCost(i32::MAX)));
    // the table stays as it was
    assert_eq!(t.get_next_hop(3), Some((2, 2)));
    // a detour brings the cost back within reach
    let db = db_with(&[(1, &[2]), (2, &[1])]);
    assert!(t.build_from_synced_info(1, &db, NextHopPolicy::LeastCost, &FixedCost(i32::MAX)));
}

#[test]
fn indexes_hold_reachable_peers_only() {
    let mut db = SyncedRouteInfo::new();
    let mut one = info(1, 1);
    one.ipv4_addr = Some(0x0a000001);
    let mut two = info(2, 1);
    two.ipv4_addr = Some(0x0a000002);
    two.proxy_cidrs = vec!["192.168.0.0/16".to_string(), "no network".to_string()];
    let mut three = info(3, 1);
    three.ipv4_addr = Some(0x0a000003);
    three.proxy_cidrs = vec!["172.16.0.0/12".to_string()];
    db.update_peer_infos(0, 0, &vec![one, two, three], 0).unwrap();
    db.update_my_conn_info(1, set_of(&[2]), 0);
    db.update_my_conn_info(2, set_of(&[1]), 0);
    // 3 is known, but no route leads to it
    let mut t = RouteTable::new();
    assert!(t.build_from_synced_info(1, &db, NextHopPolicy::LeastHop, &DefaultRouteCostCalculator));
    assert_eq!(t.get_peer_id_by_address(0x0a000001), Some(1));
    assert_eq!(t.get_peer_id_by_address(0x0a000002), Some(2));
    assert_eq!(t.get_peer_id_by_address(0x0a000003), None);
    assert_eq!(t.get_peer_id_for_proxy(0xc0a80505), Some(2));
    assert_eq!(t.get_peer_id_for_proxy(0xac100001), None);
    assert_eq!(t.get_peer_id_for_proxy(0x08080808), None);
    assert_eq!(t.cidr_peer_id_map.len(), 1);
    assert_eq!(t.ipv4_peer_id_map.len(), 2);
}

#[test]
fn cidr_containment() {
    let net = (false, 0xc0a80100u128, 24u8);
    assert!(cidr_contains(&net, 0xc0a80100));
    assert!(cidr_contains(&net, 0xc0a801ff));
    assert!(!cidr_contains(&net, 0xc0a80200));
    let host = (false, 0x0a000001u128, 32u8);
    assert!(cidr_contains(&host, 0x0a000001));
    assert!(!cidr_contains(&host, 0x0a000002));
    let all = (false, 0u128, 0u8);
    assert!(cidr_contains(&all, 0xffffffff));
    let v6 = (true, 0u128, 0u8);
    assert!(!cidr_contains(&v6, 0));
}

#[test]
fn nat_type_of_a_peer() {
    let mut db = SyncedRouteInfo::new();
    let mut one = info(1, 1);
    one.udp_stun_info = 2;
    let mut two = info(2, 1);
    two.udp_stun_info = 99;
    db.update_peer_infos(0, 0, &vec![one, two], 0).unwrap();
    let mut t = RouteTable::new();
    assert!(t.build_from_synced_info(1, &db, NextHopPolicy::LeastHop, &DefaultRouteCostCalculator));
    assert_eq!(t.get_nat_type(1), Some(NatType::NoPat));
    assert_eq!(t.get_nat_type(2), None);
    assert_eq!(t.get_nat_type(3), None);
}
