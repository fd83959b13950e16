use peer_discovery::announcer::{Announcer, TickAction};
use peer_discovery::detector::Detector;
use peer_discovery::identity::sort_ids;
use peer_discovery::update::PeerUpdate;
use peer_discovery::wire::{decode_id, encode_id};

const TIMEOUT: u64 = 100;

#[test]
fn first_announcement_is_new() {
    let mut d: Detector<u64> = Detector::new(TIMEOUT);
    let u = d.receive(7, 0).expect("an unknown peer gives an update");
    assert_eq!(*u.new_peer(), Some(7));
    assert_eq!(*u.peers(), vec![7]);
    assert!(u.lost().is_empty());
    assert!(d.is_live(&7));
}

#[test]
fn repeated_announcements_are_silent() {
    let mut d: Detector<u64> = Detector::new(TIMEOUT);
    assert!(d.receive(7, 0).is_some());
    for t in 1..50u64 {
        assert!(d.receive(7, t * 20).is_none());
    }
    // even a late one refreshes before the eviction scan
    assert!(d.receive(7, 5000).is_none());
    assert!(d.is_live(&7));
}

#[test]
fn silence_past_timeout_evicts() {
    let mut d: Detector<u64> = Detector::new(TIMEOUT);
    d.receive(7, 0);
    assert!(d.tick(100).is_none());
    let u = d.tick(101).expect("the peer is past its timeout");
    assert_eq!(*u.lost(), vec![7]);
    assert_eq!(*u.new_peer(), None);
    assert!(u.peers().is_empty());
    assert!(!d.is_live(&7));
    assert!(d.tick(300).is_none());
}

#[test]
fn evicted_peer_is_new_again() {
    let mut d: Detector<u64> = Detector::new(TIMEOUT);
    d.receive(7, 0);
    assert!(d.tick(500).is_some());
    let u = d.receive(7, 600).expect("an evicted peer is unknown again");
    assert_eq!(*u.new_peer(), Some(7));
    assert_eq!(*u.peers(), vec![7]);
    assert!(u.lost().is_empty());
}

#[test]
fn reports_are_sorted_whatever_the_arrival_order() {
    let mut d: Detector<u64> = Detector::new(TIMEOUT);
    d.receive(30, 0);
    d.receive(10, 1);
    d.receive(50, 2);
    let u = d.receive(20, 3).unwrap();
    assert_eq!(*u.peers(), vec![10, 20, 30, 50]);
    let u = d.receive(40, 200).unwrap();
    assert_eq!(*u.new_peer(), Some(40));
    assert_eq!(*u.lost(), vec![10, 20, 30, 50]);
    assert_eq!(*u.peers(), vec![40]);
}

#[test]
fn eviction_happens_after_the_refresh() {
    let mut d: Detector<u64> = Detector::new(TIMEOUT);
    d.receive(1, 0);
    d.receive(2, 50);
    let u = d.receive(2, 120).expect("peer 1 is past its timeout");
    assert_eq!(*u.new_peer(), None);
    assert_eq!(*u.lost(), vec![1]);
    assert_eq!(*u.peers(), vec![2]);
}

#[test]
fn two_peers_then_silence() {
    let mut d: Detector<u64> = Detector::new(100);
    let u = d.receive(1, 0).unwrap();
    assert_eq!(*u.new_peer(), Some(1));
    assert_eq!(*u.peers(), vec![1]);
    let u = d.receive(2, 10).unwrap();
    assert_eq!(*u.new_peer(), Some(2));
    assert_eq!(*u.peers(), vec![1, 2]);
    let u = d.tick(105).unwrap();
    assert_eq!(*u.lost(), vec![1]);
    assert_eq!(*u.peers(), vec![2]);
    let u = d.tick(115).unwrap();
    assert_eq!(*u.lost(), vec![2]);
    assert!(u.peers().is_empty());

    let mut d: Detector<u64> = Detector::new(100);
    d.receive(1, 0);
    d.receive(2, 10);
    let u = d.tick(111).unwrap();
    assert_eq!(*u.new_peer(), None);
    assert_eq!(*u.lost(), vec![1, 2]);
    assert!(u.peers().is_empty());
}

#[test]
fn undecodable_datagram_is_ignored() {
    let mut d: Detector<u64> = Detector::new(TIMEOUT);
    let u = d.receive_datagram(b"7", 0).unwrap();
    assert_eq!(*u.new_peer(), Some(7));
    assert!(d.receive_datagram(b"\xff{not json", 5).is_none());
    assert!(d.receive_datagram(b"\"seven\"", 6).is_none());
    assert!(d.is_live(&7));
    assert!(d.receive_datagram(b"7", 10).is_none());
    let u = d.receive_datagram(b"9", 20).unwrap();
    assert_eq!(*u.new_peer(), Some(9));
    assert_eq!(*u.peers(), vec![7, 9]);
}

#[test]
fn announcer_switch() {
    let mut a = Announcer::new();
    assert!(a.is_enabled());
    assert_eq!(a.tick(), TickAction::Send);
    a.disable();
    a.disable();
    assert_eq!(a.tick(), TickAction::Skip);
    assert_eq!(a.tick(), TickAction::Skip);
    a.enable();
    assert_eq!(a.tick(), TickAction::Send);
}

#[test]
fn identity_wire_format() {
    assert_eq!(encode_id(0), b"0".to_vec());
    assert_eq!(encode_id(4096), b"4096".to_vec());
    assert_eq!(encode_id(u64::MAX), b"18446744073709551615".to_vec());
    assert_eq!(decode_id(b"4096"), Some(4096));
    assert_eq!(decode_id(b" 12 "), Some(12));
    assert_eq!(decode_id(b"18446744073709551616"), None);
    assert_eq!(decode_id(b"-1"), None);
    assert_eq!(decode_id(b""), None);
    assert_eq!(decode_id(&encode_id(123456789)), Some(123456789));
}

#[test]
fn update_builder_and_sort() {
    let mut u: PeerUpdate<u64> = PeerUpdate::new();
    assert!(u.peers().is_empty() && u.lost().is_empty() && u.new_peer().is_none());
    u.add_peers(3);
    u.add_peers(1);
    u.add_peers(2);
    u.add_lost(9);
    u.add_lost(4);
    u.set_new(2);
    u.sort();
    assert_eq!(*u.peers(), vec![1, 2, 3]);
    assert_eq!(*u.lost(), vec![4, 9]);
    assert_eq!(*u.new_peer(), Some(2));
    assert_eq!(sort_ids(vec![5u64, 1, 5, 0]), vec![0, 1, 5, 5]);
    assert_eq!(sort_ids(Vec::<u64>::new()), Vec::<u64>::new());
}
