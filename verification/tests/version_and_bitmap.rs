use ospf_route::conn_bitmap::RouteConnBitmap;
use ospf_route::nat_type::NatType;
use ospf_route::peer_set::{set_from_members, set_members, sorted_peers, PeerSet};
use ospf_route::version::AtomicVersion;

fn set_of(ids: &[u32]) -> PeerSet {
    ids.iter().copied().collect()
}

#[test]
fn atomic_version_starts_at_zero() {
    let v = AtomicVersion::new();
    assert_eq!(v.get(), 0);
}

#[test]
fn atomic_version_set_and_inc() {
    let mut v = AtomicVersion::new();
    v.set(41);
    v.inc();
    assert_eq!(v.get(), 42);
}

#[test]
fn atomic_version_inc_wraps() {
    let mut v = AtomicVersion::from(u32::MAX);
    v.inc();
    assert_eq!(v.get(), 0);
}

#[test]
fn atomic_version_set_if_larger() {
    let mut v = AtomicVersion::from_version(7);
    v.set_if_larger(5);
    assert_eq!(v.get(), 7);
    v.set_if_larger(7);
    assert_eq!(v.get(), 7);
    v.set_if_larger(9);
    assert_eq!(v.get(), 9);
}

#[test]
fn empty_bitmap_is_well_formed() {
    let b = RouteConnBitmap::new();
    assert!(b.peer_ids.is_empty());
    assert!(b.bitmap.is_empty());
    assert!(b.is_well_formed());
}

#[test]
fn get_bit_is_little_endian_within_byte() {
    let b = RouteConnBitmap { peer_ids: vec![], bitmap: vec![0b0000_0101, 0b1000_0000] };
    assert!(b.get_bit(0));
    assert!(!b.get_bit(1));
    assert!(b.get_bit(2));
    assert!(!b.get_bit(7));
    assert!(!b.get_bit(8));
    assert!(b.get_bit(15));
}

#[test]
fn bitmap_length_is_cells_over_eight_rounded_up() {
    for n in 0..7usize {
        let labels: Vec<(u32, u32)> = (0..n as u32).map(|i| (i + 1, 1)).collect();
        let rows: Vec<PeerSet> = (0..n).map(|_| PeerSet::new()).collect();
        let b = RouteConnBitmap::build(labels, &rows);
        assert_eq!(b.bitmap.len(), (n * n + 7) / 8);
        assert!(b.is_well_formed());
    }
}

#[test]
fn bitmap_bit_index_is_row_times_n_plus_col() {
    // three peers; the second lists the third
    let labels = vec![(10, 1), (20, 2), (30, 3)];
    let rows = vec![set_of(&[]), set_of(&[30]), set_of(&[])];
    let b = RouteConnBitmap::build(labels, &rows);
    assert_eq!(b.bitmap, vec![0b0010_0000, 0b0000_0000]);
    assert!(b.get_bit(1 * 3 + 2));
}

#[test]
fn bitmap_round_trip() {
    let labels = vec![(1, 5), (2, 6), (3, 7), (4, 8)];
    let rows = vec![set_of(&[2, 3]), set_of(&[1]), set_of(&[1, 4]), set_of(&[])];
    let b = RouteConnBitmap::build(labels.clone(), &rows);
    assert_eq!(b.peer_ids, labels);
    for (i, row) in rows.iter().enumerate() {
        assert_eq!(&b.get_connected_peers(i), row);
    }
}

#[test]
fn bitmap_round_trip_drops_unlabelled_members() {
    let labels = vec![(1, 1), (2, 1)];
    let rows = vec![set_of(&[2, 99]), set_of(&[1])];
    let b = RouteConnBitmap::build(labels, &rows);
    assert_eq!(b.get_connected_peers(0), set_of(&[2]));
    assert_eq!(b.get_connected_peers(1), set_of(&[1]));
}

#[test]
fn bitmap_round_trip_on_generated_graphs() {
    // a fixed pseudo-random sequence stands for random graphs
    let mut state: u32 = 0x1234_5678;
    let mut next = move || {
        state = state.wrapping_mul(1664525).wrapping_add(1013904223);
        state >> 16
    };
    for n in 1..9usize {
        let labels: Vec<(u32, u32)> = (0..n as u32).map(|i| (100 + i, i)).collect();
        let rows: Vec<PeerSet> = (0..n)
            .map(|_| (0..n as u32).filter(|_| next() % 3 == 0).map(|c| 100 + c).collect())
            .collect();
        let b = RouteConnBitmap::build(labels, &rows);
        for (i, row) in rows.iter().enumerate() {
            assert_eq!(&b.get_connected_peers(i), row);
        }
    }
}

#[test]
fn short_bitmap_is_not_well_formed() {
    let b = RouteConnBitmap { peer_ids: vec![(1, 1), (2, 1), (3, 1)], bitmap: vec![0] };
    assert!(!b.is_well_formed());
    let b = RouteConnBitmap { peer_ids: vec![(1, 1), (2, 1), (3, 1)], bitmap: vec![0, 0] };
    assert!(b.is_well_formed());
}

#[test]
fn bitmap_clone_keeps_content() {
    let b = RouteConnBitmap { peer_ids: vec![(1, 2), (3, 4)], bitmap: vec![9] };
    let c = b.clone();
    assert_eq!(c.peer_ids, vec![(1, 2), (3, 4)]);
    assert_eq!(c.bitmap, vec![9]);
}

#[test]
fn nat_type_codes() {
    assert_eq!(NatType::try_from_code(0), Some(NatType::Unknown));
    assert_eq!(NatType::try_from_code(1), Some(NatType::OpenInternet));
    assert_eq!(NatType::try_from_code(2), Some(NatType::NoPat));
    assert_eq!(NatType::try_from_code(6), Some(NatType::Symmetric));
    assert_eq!(NatType::try_from_code(7), Some(NatType::SymUdpFirewall));
    assert_eq!(NatType::try_from_code(8), None);
    assert_eq!(NatType::try_from_code(-1), None);
    for code in 0..8 {
        assert_eq!(NatType::try_from_code(code).unwrap().code(), code);
    }
}

#[test]
fn friendly_nat_types() {
    assert!(NatType::NoPat.is_connectivity_friendly());
    assert!(NatType::OpenInternet.is_connectivity_friendly());
    assert!(!NatType::Symmetric.is_connectivity_friendly());
    assert!(!NatType::Unknown.is_connectivity_friendly());
}

#[test]
fn set_helpers() {
    let s = set_from_members(&vec![5, 1, 5, 3]);
    assert_eq!(set_members(&s), vec![1, 3, 5]);
    assert_eq!(sorted_peers(&vec![9, 2, 7]), vec![2, 7, 9]);
}

#[test]
fn bits_beyond_the_matrix_are_zero() {
    // three peers that list each other and themselves: nine cells in two bytes
    let labels = vec![(1, 1), (2, 1), (3, 1)];
    let rows = vec![set_of(&[1, 2, 3]), set_of(&[1, 2, 3]), set_of(&[1, 2, 3])];
    let b = RouteConnBitmap::build(labels, &rows);
    assert_eq!(b.bitmap, vec![0xff, 0x01]);
    for i in 9..16 {
        assert!(!b.get_bit(i));
    }
}

#[test]
fn sorted_peers_sorts_and_drops_repeats() {
    assert_eq!(sorted_peers(&vec![7, 2, 9, 2, 7, 1]), vec![1, 2, 7, 9]);
    assert_eq!(sorted_peers(&vec![]), Vec::<u32>::new());
}
