use dhaar_torrent::peer::{IpAddress, Peer, PeerAddress, PeerDedup};
use dhaar_torrent::peer_manager::{Dialling, PeerManager, RetryAfterDelayPeerSelectionStrategy, MAX_PEERS};

fn peer(port: u16) -> Peer {
    Peer { peer_id: None, address: PeerAddress { ip: IpAddress::V4(0x0a00_0001), port } }
}

#[test]
fn peers_are_the_same_when_their_addresses_are() {
    let mut a = peer(1);
    a.peer_id = Some([1u8; 20]);
    assert_eq!(a, peer(1));
    assert_ne!(peer(1), peer(2));
}

#[test]
fn a_peer_is_passed_on_once() {
    let mut d = PeerDedup::new();
    assert!(d.insert(&peer(1)));
    assert!(!d.insert(&peer(1)));
    assert!(d.insert(&peer(2)));
}

#[test]
fn fresh_peers_come_before_retries() {
    let mut s = RetryAfterDelayPeerSelectionStrategy::new();
    s.push(peer(1), true, 100);
    s.push(peer(2), false, 100);
    assert_eq!(s.peek(), Some(peer(2)));
    assert_eq!(s.next_due(), Some(100));
    let a = s.pop().unwrap();
    assert!(a.peer == peer(2) && !a.is_retry);
    let b = s.pop().unwrap();
    assert!(b.peer == peer(1) && b.is_retry);
    assert!(s.pop().is_none());
}

#[test]
fn queueing_a_peer_again_replaces_it() {
    let mut s = RetryAfterDelayPeerSelectionStrategy::new();
    s.push(peer(1), false, 0);
    s.push(peer(1), true, 0);
    assert_eq!(s.candidates.len(), 1);
    assert_eq!(s.next_due(), Some(5000));
}

#[test]
fn dialling_stops_at_the_cap_and_on_completion() {
    let mut m = PeerManager::new(RetryAfterDelayPeerSelectionStrategy::new(), &[0u8; 20], &[1u8; 20]);
    assert!(m.may_dial(49, true));
    assert!(!m.may_dial(50, true));
    assert!(!m.may_dial(0, false));
    assert!(!m.record_completion(Some(false)));
    assert!(m.record_completion(None));
    assert!(m.record_completion(Some(false)), "once complete, always complete");
    assert!(!m.may_dial(0, true));
}

fn dialling() -> Dialling {
    Dialling::new(PeerManager::new(RetryAfterDelayPeerSelectionStrategy::new(), &[0; 20], &[1; 20]))
}

#[test]
fn a_dial_counts_as_a_connection_and_an_ended_one_is_retried_later() {
    let mut d = dialling();
    assert_eq!(d.wake_at(), None);
    d.peer_found(peer(1), 100);
    assert_eq!(d.wake_at(), Some(100));
    assert_eq!(d.dial(Some(false)), Some(peer(1)));
    assert_eq!(d.active, 1);
    assert_eq!(d.wake_at(), None);
    d.ended(Some(peer(1)), 200);
    assert_eq!(d.active, 0);
    assert_eq!(d.wake_at(), Some(5200));
    d.accepted();
    d.ended(None, 300);
    assert_eq!(d.active, 0);
    assert_eq!(d.manager.peer_selection_strategy.candidates.len(), 1);
}

#[test]
fn nothing_is_dialled_once_complete_or_at_the_cap() {
    let mut d = dialling();
    d.peer_found(peer(1), 0);
    assert_eq!(d.dial(None), None, "a piece manager that is gone leaves nothing to download");
    assert!(d.manager.download_completed);
    assert_eq!(d.wake_at(), None);
    assert_eq!(d.manager.peer_selection_strategy.candidates.len(), 1);

    let mut d = dialling();
    d.peer_found(peer(2), 0);
    for _ in 0..MAX_PEERS {
        d.accepted();
    }
    assert_eq!(d.wake_at(), None);
    assert_eq!(d.dial(Some(false)), None);
    assert_eq!(d.active, MAX_PEERS);
}
