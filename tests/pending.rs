use narwhal_helpers::pending::{Pending, PeerAddr};

fn localhost(port: u16) -> PeerAddr {
    PeerAddr::V4 { ip: 0x7f00_0001, port }
}

#[test]
fn test_pending() {
    // Initialize the pending queue.
    let mut pending = Pending::<u64>::new();

    // Check initially empty.
    assert!(pending.is_empty());
    assert_eq!(pending.len(), 0);

    // Initialize the commitments.
    let commitment_1: u64 = 0x1111_2222_3333_4444;
    let commitment_2: u64 = 0x5555_6666_7777_8888;
    let commitment_3: u64 = 0x9999_AAAA_BBBB_CCCC;

    // Initialize the peer addresses.
    let addr_1 = localhost(1234);
    let addr_2 = localhost(2345);
    let addr_3 = localhost(3456);

    // Insert the commitments.
    pending.insert(commitment_1, addr_1);
    pending.insert(commitment_2, addr_2);
    pending.insert(commitment_3, addr_3);

    // Check the number of items.
    assert_eq!(pending.len(), 3);
    assert!(!pending.is_empty());

    // Check the transmission IDs.
    let ids = vec![commitment_1, commitment_2, commitment_3];
    let peers = vec![addr_1, addr_2, addr_3];

    for i in 0..3 {
        let id = ids[i];
        assert!(pending.contains(id));
        assert!(pending.contains_peer(id, peers[i]));
    }
    let unknown_id: u64 = 0xDDDD_EEEE_FFFF_0000;
    assert!(!pending.contains(unknown_id));

    // Check get.
    assert_eq!(pending.get(commitment_1), Some(vec![addr_1]));
    assert_eq!(pending.get(commitment_2), Some(vec![addr_2]));
    assert_eq!(pending.get(commitment_3), Some(vec![addr_3]));
    assert_eq!(pending.get(unknown_id), None);

    // Check remove.
    assert!(pending.remove(commitment_1));
    assert!(pending.remove(commitment_2));
    assert!(pending.remove(commitment_3));
    assert!(!pending.remove(unknown_id));

    // Check empty again.
    assert!(pending.is_empty());
}

#[test]
fn default_tracker_is_empty() {
    let pending = Pending::<u64>::default();
    assert!(pending.is_empty());
    assert_eq!(pending.len(), 0);
}

#[test]
fn two_peers_for_one_item_are_both_kept() {
    let mut pending = Pending::<u64>::new();
    let p1 = localhost(1000);
    let p2 = PeerAddr::V6 { ip: 1, port: 1000, flowinfo: 0, scope_id: 0 };
    pending.insert(7, p1);
    pending.insert(7, p2);
    assert_eq!(pending.len(), 1);
    let mut got = pending.get(7).unwrap();
    got.sort_by_key(|p| match p {
        PeerAddr::V4 { .. } => 0,
        PeerAddr::V6 { .. } => 1,
    });
    assert_eq!(got, vec![p1, p2]);
}

#[test]
fn inserting_known_pair_changes_nothing() {
    let mut pending = Pending::<u64>::new();
    pending.insert(3, localhost(1));
    pending.insert(3, localhost(1));
    assert_eq!(pending.len(), 1);
    assert_eq!(pending.get(3), Some(vec![localhost(1)]));
}

#[test]
fn remove_succeeds_once() {
    let mut pending = Pending::<u64>::new();
    pending.insert(9, localhost(9));
    pending.insert(9, localhost(10));
    assert!(pending.remove(9));
    assert!(!pending.remove(9));
    assert!(!pending.contains(9));
    assert_eq!(pending.get(9), None);
}

#[test]
fn contains_peer_follows_get() {
    let mut pending = Pending::<u64>::new();
    pending.insert(1, localhost(80));
    assert!(pending.contains_peer(1, localhost(80)));
    assert!(!pending.contains_peer(1, localhost(81)));
    assert!(!pending.contains_peer(2, localhost(80)));
    let set = pending.get(1).unwrap();
    assert!(set.contains(&localhost(80)));
    assert!(!set.contains(&localhost(81)));
}

#[test]
fn many_distinct_peers_are_all_kept() {
    let mut pending = Pending::<u64>::new();
    for port in 0..50u16 {
        pending.insert(42, localhost(port));
    }
    let got = pending.get(42).unwrap();
    assert_eq!(got.len(), 50);
    for port in 0..50u16 {
        assert!(pending.contains_peer(42, localhost(port)));
    }
}
