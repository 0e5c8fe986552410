use dhaar_torrent::piece_manager::{Claim, BLOCK_SIZE};
use dhaar_torrent::requests::{
    settle, BlockReceipt, FillStep, PieceBuffer, PieceStep, Reaction, RequestState, RequestTimer, MAX_PIECES_IN_FLIGHT,
    MAX_REQUESTS,
};
use dhaar_torrent::wire_protocol::{Bitfield, Message, WireItem};

fn digest(data: &[u8]) -> [u8; 20] {
    <sha1::Sha1 as sha1::Digest>::digest(data).into()
}

fn ready_state() -> RequestState {
    let mut s = RequestState::new(Bitfield(vec![0xff]));
    s.peer_choking = false;
    s.am_interested = true;
    s
}

#[test]
fn a_buffer_takes_each_block_once() {
    let mut b = PieceBuffer::new(0, [0u8; 20], 20000);
    assert_eq!(b.have.len(), 2);
    assert!(b.accept(1, &[7u8; 3616]));
    assert!(!b.accept(1, &[7u8; 3616]), "a second copy must be refused");
    assert!(!b.accept(2, &[0u8; 1]), "past the end");
    assert!(!b.is_complete());
    assert!(b.accept(0, &[1u8; 16384]));
    assert!(b.is_complete());
    assert_eq!(b.bytes[0], 1);
    assert_eq!(b.bytes[19999], 7);
}

#[test]
fn the_digest_is_over_the_piece_in_either_order() {
    let data: Vec<u8> = (0..20000u32).map(|i| (i % 251) as u8).collect();
    let expected = digest(&data);
    let mut in_order = PieceBuffer::new(0, expected, 20000);
    in_order.accept(0, &data[..16384]);
    in_order.accept(1, &data[16384..]);
    assert!(in_order.verify());
    let mut reversed = PieceBuffer::new(0, expected, 20000);
    reversed.accept(1, &data[16384..]);
    reversed.accept(0, &data[..16384]);
    assert!(reversed.hashed.is_none());
    assert!(reversed.verify());
    let mut wrong = PieceBuffer::new(0, [0u8; 20], 20000);
    wrong.accept(0, &data[..16384]);
    wrong.accept(1, &data[16384..]);
    assert!(!wrong.verify());
}

#[test]
fn nothing_is_requested_while_choked_or_uninterested() {
    let mut s = RequestState::new(Bitfield(vec![0xff]));
    assert_eq!(s.next_request(), FillStep::Done);
    s.peer_choking = false;
    assert_eq!(s.next_request(), FillStep::Done);
    s.am_interested = true;
    assert_eq!(s.next_request(), FillStep::ClaimPiece);
}

#[test]
fn blocks_are_requested_in_order_with_a_short_tail() {
    let mut s = ready_state();
    s.adopt_claim(&Claim { piece_index: 3, hash: [0u8; 20], piece_length: BLOCK_SIZE + 100 });
    assert_eq!(s.next_request(), FillStep::Request { index: 3, begin: 0, length: BLOCK_SIZE as u32 });
    assert_eq!(s.next_request(), FillStep::Request { index: 3, begin: BLOCK_SIZE as u32, length: 100 });
    assert_eq!(s.next_request(), FillStep::ClaimPiece);
    assert_eq!(s.active_blocks.len(), 2);
}

#[test]
fn the_window_and_the_pieces_held_are_capped() {
    let mut s = ready_state();
    for i in 0..MAX_PIECES_IN_FLIGHT as u32 {
        s.adopt_claim(&Claim { piece_index: i, hash: [0u8; 20], piece_length: BLOCK_SIZE * 16 });
    }
    let mut sent = 0;
    while let FillStep::Request { .. } = s.next_request() {
        sent += 1;
    }
    assert_eq!(sent, MAX_REQUESTS);
    assert_eq!(s.next_request(), FillStep::Done);
}

#[test]
fn a_block_never_asked_for_is_wasted() {
    let mut s = ready_state();
    s.adopt_claim(&Claim { piece_index: 0, hash: [0u8; 20], piece_length: BLOCK_SIZE });
    assert!(matches!(s.receive_block(0, 0, vec![1, 2, 3]), BlockReceipt::Unwanted { len: 3 }));
    assert!(matches!(s.receive_block(9, 0, vec![1]), BlockReceipt::Unwanted { len: 1 }));
    s.next_request();
    assert!(matches!(s.receive_block(0, 1, vec![1]), BlockReceipt::Unwanted { len: 1 }));
}

#[test]
fn completing_a_piece_hands_it_over_verified() {
    let data = vec![5u8; 100];
    let mut s = ready_state();
    s.adopt_claim(&Claim { piece_index: 2, hash: digest(&data), piece_length: 100 });
    s.next_request();
    match s.receive_block(2, 0, data.clone()) {
        BlockReceipt::Completed { len, piece_index, verified, bytes } => {
            assert_eq!((len, piece_index, verified), (100, 2, true));
            assert_eq!(bytes, data);
        }
        other => panic!("expected completion, got {other:?}"),
    }
    assert!(s.in_flight.is_empty());
    assert!(s.active_blocks.is_empty());
}

#[test]
fn a_choke_gives_back_every_piece() {
    let mut s = ready_state();
    s.adopt_claim(&Claim { piece_index: 4, hash: [0u8; 20], piece_length: 10 });
    s.adopt_claim(&Claim { piece_index: 5, hash: [0u8; 20], piece_length: 10 });
    s.next_request();
    match s.react(WireItem::Message(Message::Choke)) {
        Reaction::Release { pieces } => assert_eq!(pieces, vec![4, 5]),
        other => panic!("expected a release, got {other:?}"),
    }
    assert!(s.peer_choking);
    assert!(s.in_flight.is_empty() && s.active_blocks.is_empty());
}

#[test]
fn reactions_follow_the_message() {
    let mut s = RequestState::new(Bitfield(vec![0]));
    assert!(matches!(s.react(WireItem::Message(Message::Interested)), Reaction::SendUnchoke));
    assert!(!s.am_choking && s.peer_interested);
    assert!(matches!(s.react(WireItem::Message(Message::Interested)), Reaction::Nothing));
    assert!(matches!(s.react(WireItem::Message(Message::Unchoke)), Reaction::Fill));
    assert!(matches!(s.react(WireItem::Message(Message::Have(3))), Reaction::Reconsider));
    assert!(s.peer_bitfield.has_piece(3));
    assert!(matches!(s.react(WireItem::Message(Message::Have(8))), Reaction::Nothing));
    assert!(matches!(s.react(WireItem::Message(Message::Bitfield(Bitfield(vec![])))), Reaction::ProtocolViolation));
    assert!(matches!(
        s.react(WireItem::Message(Message::Request { index: 1, begin: 0, length: 16384 })),
        Reaction::Serve { index: 1, begin: 0, length: 16384 }
    ));
    assert!(matches!(s.react(WireItem::Message(Message::Request { index: 1, begin: 1, length: 1 })), Reaction::Nothing));
    assert!(matches!(s.react(WireItem::Message(Message::KeepAlive)), Reaction::Nothing));
}

#[test]
fn interest_is_only_announced_when_it_changes() {
    let mut s = RequestState::new(Bitfield(vec![0]));
    assert!(s.set_interest(false).is_none());
    assert!(matches!(s.set_interest(true), Some(Message::Interested)));
    assert!(s.set_interest(true).is_none());
    assert!(matches!(s.set_interest(false), Some(Message::NotInterested)));
}

#[test]
fn the_request_timer_only_runs_while_waiting() {
    let mut s = ready_state();
    assert_eq!(s.request_timer(true, true), RequestTimer::Disarm);
    s.adopt_claim(&Claim { piece_index: 0, hash: [0u8; 20], piece_length: 10 });
    s.next_request();
    assert_eq!(s.request_timer(true, true), RequestTimer::Rearm);
    assert_eq!(s.request_timer(false, false), RequestTimer::Rearm);
    assert_eq!(s.request_timer(false, true), RequestTimer::Keep);
    assert!(s.availability_due());
}

#[test]
fn no_request_is_outstanding_twice_across_receipts() {
    let mut s = ready_state();
    s.adopt_claim(&Claim { piece_index: 1, hash: [0u8; 20], piece_length: BLOCK_SIZE * 3 });
    s.adopt_claim(&Claim { piece_index: 2, hash: [0u8; 20], piece_length: BLOCK_SIZE });
    let mut asked = Vec::new();
    for _ in 0..3 {
        if let FillStep::Request { index, begin, .. } = s.next_request() {
            asked.push((index, begin));
        }
    }
    assert_eq!(asked, vec![(1, 0), (1, BLOCK_SIZE as u32), (1, 2 * BLOCK_SIZE as u32)]);
    assert!(matches!(s.receive_block(1, BLOCK_SIZE as u32, vec![0u8; 16384]), BlockReceipt::Stored { len: 16384 }));
    assert!(matches!(s.receive_block(1, BLOCK_SIZE as u32, vec![0u8; 16384]), BlockReceipt::Unwanted { .. }));
    if let FillStep::Request { index, begin, .. } = s.next_request() {
        asked.push((index, begin));
    }
    assert_eq!(asked.last(), Some(&(2, 0)));
    let mut seen = Vec::new();
    for a in &s.active_blocks {
        let key = (a.piece_index, a.index);
        assert!(!seen.contains(&key), "a block is outstanding twice");
        seen.push(key);
    }
    assert_eq!(seen.len(), 3);
    assert_eq!(s.next_request(), FillStep::ClaimPiece);
}

#[test]
fn receipts_settle_into_counts_and_piece_steps() {
    let s = settle(BlockReceipt::Unwanted { len: 5 });
    assert_eq!((s.downloaded, s.wasted, s.refill), (0, 5, false));
    assert!(matches!(s.piece, PieceStep::Nothing));
    let s = settle(BlockReceipt::Duplicate { len: 6 });
    assert_eq!((s.downloaded, s.wasted, s.refill), (6, 6, true));
    let s = settle(BlockReceipt::Stored { len: 7 });
    assert_eq!((s.downloaded, s.wasted, s.refill), (7, 0, true));
    let s = settle(BlockReceipt::Completed { len: 8, piece_index: 3, verified: true, bytes: vec![1, 2] });
    assert_eq!((s.downloaded, s.wasted, s.refill), (8, 0, true));
    assert!(matches!(s.piece, PieceStep::Write { piece_index: 3, ref bytes } if bytes == &vec![1, 2]));
    let s = settle(BlockReceipt::Completed { len: 8, piece_index: 4, verified: false, bytes: vec![] });
    assert!(matches!(s.piece, PieceStep::Failed { piece_index: 4 }));
}

#[test]
fn filling_with_pieces_taken_on_keeps_the_limits_and_asks_nothing_twice() {
    let mut s = ready_state();
    let mut sent = Vec::new();
    let mut next_piece = 0u32;
    loop {
        match s.next_request() {
            FillStep::Request { index, begin, .. } => {
                assert!(!sent.contains(&(index, begin)), "a block was asked for twice");
                sent.push((index, begin));
            }
            FillStep::ClaimPiece => {
                s.adopt_claim(&Claim { piece_index: next_piece, hash: [0u8; 20], piece_length: BLOCK_SIZE * 20 });
                next_piece += 1;
            }
            FillStep::Done => break,
        }
        assert!(s.active_blocks.len() <= MAX_REQUESTS);
        assert!(s.in_flight.len() <= MAX_PIECES_IN_FLIGHT);
    }
    assert_eq!(sent.len(), MAX_REQUESTS);
    assert_eq!(next_piece, 3);
    s.peer_choking = true;
    assert_eq!(s.next_request(), FillStep::Done);
    assert_eq!(s.active_blocks.len(), MAX_REQUESTS);
}

#[test]
fn a_piece_is_taken_on_only_when_it_can_be() {
    let mut s = ready_state();
    let claim = Claim { piece_index: 1, hash: [0u8; 20], piece_length: BLOCK_SIZE };
    assert!(s.may_adopt(&claim));
    s.adopt_claim(&claim);
    assert!(!s.may_adopt(&claim), "a piece already held");
    assert!(!s.may_adopt(&Claim { piece_index: 2, hash: [0u8; 20], piece_length: BLOCK_SIZE * (u32::MAX as u64 + 1) }));
    for i in 2..(MAX_PIECES_IN_FLIGHT as u32 + 1) {
        s.adopt_claim(&Claim { piece_index: i, hash: [0u8; 20], piece_length: 1 });
    }
    assert!(!s.may_adopt(&Claim { piece_index: 9, hash: [0u8; 20], piece_length: 1 }), "no room");
}
