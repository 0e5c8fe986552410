use dhaar_torrent::peer::{IpAddress, Peer, PeerAddress};
use dhaar_torrent::piece_manager::{PieceManager, Verification, BLOCK_SIZE, MAX_PIECE_SHARERS};
use dhaar_torrent::wire_protocol::Bitfield;

fn peer(port: u16) -> Peer {
    Peer { peer_id: None, address: PeerAddress { ip: IpAddress::V4(0x7f00_0001), port } }
}

/// One piece of two blocks.
fn manager() -> PieceManager {
    let piece_length = BLOCK_SIZE * 2;
    PieceManager::new(&[0u8; 20], piece_length, piece_length, [0u8; 20])
}

fn full_bitfield() -> Bitfield {
    let mut bitfield = Bitfield(vec![0u8; 1]);
    bitfield.set_piece(0, true);
    bitfield
}

fn claim(manager: &mut PieceManager, peer: Peer) {
    assert!(
        manager.claim_piece(&full_bitfield(), peer).is_some(),
        "the fixture's only piece should have been claimable"
    );
}

#[test]
fn releasing_the_last_requester_frees_the_piece() {
    let mut manager = manager();
    let holder = peer(1);
    claim(&mut manager, holder);
    assert_eq!(manager.pieces[0].requesters, vec![holder]);
    manager.release(0, holder);
    assert!(manager.pieces[0].requesters.is_empty(), "an abandoned piece must not stay claimed");
}

#[test]
fn releasing_one_of_two_requesters_keeps_the_piece_claimed() {
    let mut manager = manager();
    let (leaving, staying) = (peer(1), peer(2));
    claim(&mut manager, leaving);
    manager.pieces[0].requesters.push(staying);
    manager.release(0, leaving);
    assert_eq!(
        manager.pieces[0].requesters,
        vec![staying],
        "a piece somebody else is still working must stay claimed"
    );
}

#[test]
fn a_claimed_piece_is_not_handed_to_a_second_peer() {
    let mut manager = manager();
    let bitfield = full_bitfield();
    assert!(manager.claim_piece(&bitfield, peer(1)).is_some());
    let shared = manager.claim_piece(&bitfield, peer(2));
    assert!(shared.is_some(), "endgame should let the tail be shared");
    assert_eq!(manager.pieces[0].requesters, vec![peer(1), peer(2)]);
}

#[test]
fn a_failed_extraction_does_not_take_the_download_with_it() {
    let mut manager = manager();
    manager.adopt_stored(None);
    let holder = peer(1);
    claim(&mut manager, holder);
    let verdict = manager.piece_verified(0, holder);
    assert_eq!(verdict, Verification::Recorded { finished: true });
    manager.extraction_finished(false);
    assert!(manager.pieces[0].complete, "the piece was verified; only the copy out of the store failed");
    assert!(!manager.extracted, "extraction failed, so nothing may claim the payload was written");
    assert_eq!(manager.completed_pieces, 1);
}

#[test]
fn a_resumed_store_is_not_reported_as_still_wanted() {
    let mut manager = manager();
    manager.adopt_stored(Some(full_bitfield()));
    assert_eq!(manager.stats.remaining_bytes(), 0, "a store holding the whole torrent still reported it as wanted");
    assert!(manager.stats.is_complete());
}

#[test]
fn a_resumed_store_is_not_counted_as_this_sessions_work() {
    let mut manager = manager();
    manager.adopt_stored(Some(full_bitfield()));
    assert_eq!(manager.stats.verified_bytes(), 0, "resumed bytes were counted as verified by this session");
    assert_eq!(manager.stats.held_bytes(), BLOCK_SIZE * 2);
}

#[test]
fn a_fresh_store_holds_nothing() {
    let mut manager = manager();
    manager.adopt_stored(None);
    assert_eq!(manager.stats.remaining_bytes(), BLOCK_SIZE * 2);
    assert_eq!(manager.stats.held_bytes(), 0);
    assert!(!manager.stats.is_complete());
}

#[test]
fn endgame_stops_sharing_a_piece_past_the_cap() {
    let mut manager = manager();
    let bitfield = full_bitfield();
    for port in 1..=MAX_PIECE_SHARERS as u16 {
        assert!(
            manager.claim_piece(&bitfield, peer(port)).is_some(),
            "peer {port} should have been allowed to share"
        );
    }
    let over_cap = manager.claim_piece(&bitfield, peer(99));
    assert!(over_cap.is_none(), "the cap did not hold");
    assert_eq!(manager.pieces[0].requesters.len(), MAX_PIECE_SHARERS);
}

#[test]
fn a_verified_piece_is_recorded_once() {
    let mut manager = manager();
    let holder = peer(1);
    claim(&mut manager, holder);
    manager.piece_verified(0, holder);
    assert!(manager.pieces[0].complete);
    assert_eq!(manager.completed_pieces, 1);
    assert!(manager.bitfield.has_piece(0));
    assert_eq!(manager.stats.wasted_bytes(), 0);
}

#[test]
fn a_second_report_of_the_same_piece_changes_nothing() {
    let mut manager = manager();
    claim(&mut manager, peer(1));
    manager.piece_verified(0, peer(1));
    let verified = manager.verified_bytes;
    let second = manager.piece_verified(0, peer(2));
    assert_eq!(second, Verification::Duplicate);
    assert_eq!(manager.completed_pieces, 1, "the duplicate was counted as a second piece");
    assert_eq!(manager.verified_bytes, verified);
    assert_eq!(manager.stats.wasted_bytes(), BLOCK_SIZE * 2, "the duplicate piece was not counted as wasted");
}

#[test]
fn a_failed_piece_is_unclaimed_and_counted() {
    let mut manager = manager();
    let holder = peer(1);
    claim(&mut manager, holder);
    manager.piece_failed(0, holder);
    assert!(!manager.pieces[0].complete);
    assert!(manager.pieces[0].requesters.is_empty());
    assert_eq!(manager.stats.wasted_bytes(), BLOCK_SIZE * 2);
}

#[test]
fn the_last_piece_is_short() {
    let manager = PieceManager::new(&[0u8; 60], 10, 25, [0u8; 20]);
    assert_eq!(manager.total_pieces(), 3);
    assert_eq!(manager.piece_size(0), 10);
    assert_eq!(manager.piece_size(2), 5);
    assert_eq!(manager.piece_size(3), 0);
}

#[test]
fn unknown_pieces_read_as_held_and_unknown_reports_change_nothing() {
    let mut manager = manager();
    assert!(manager.has_piece(5));
    assert_eq!(manager.piece_verified(5, peer(1)), Verification::UnknownPiece);
}

#[test]
fn piece_hashes_are_counted_twenty_bytes_each() {
    assert!(PieceManager::piece_count_fits(&[0u8; 60]));
    assert!(PieceManager::piece_count_fits(&[]));
}
