use dhaar_torrent::messages::{Message, MessageError};
use dhaar_torrent::session::{
    check_handshake_reply, first_bitfield, first_item, handshake_message, handshake_step, our_handshake, read_frame,
    BitfieldWait, FirstItemError, HandshakeError, HandshakeStep, PeerSession, SessionAction,
};
use dhaar_torrent::wire_protocol::{Bitfield, Message as WireMessage, WireItem};

#[test]
fn messages_are_written_with_length_and_id() {
    assert_eq!(Message::KeepAlive.to_bytes(), vec![0, 0, 0, 0]);
    assert_eq!(Message::Choke.to_bytes(), vec![0, 0, 0, 1, 0]);
    assert_eq!(Message::Have(258).to_bytes(), vec![0, 0, 0, 5, 4, 0, 0, 1, 2]);
    assert_eq!(Message::Bitfield(vec![0xff, 0x80]).to_bytes(), vec![0, 0, 0, 3, 5, 0xff, 0x80]);
    assert_eq!(
        Message::Piece { index: 1, begin: 2, data: vec![9] }.to_bytes(),
        vec![0, 0, 0, 10, 7, 0, 0, 0, 1, 0, 0, 0, 2, 9]
    );
}

#[test]
fn messages_read_back_from_id_and_payload() {
    match Message::from_bytes(6, &[0, 0, 0, 1, 0, 0, 0, 2, 0, 0, 0, 3]).unwrap() {
        Message::Request { index, begin, length } => assert_eq!((index, begin, length), (1, 2, 3)),
        other => panic!("unexpected {other:?}"),
    }
    let bytes = Message::Cancel { index: 4, begin: 5, length: 6 }.to_bytes();
    match Message::from_bytes(bytes[4], &bytes[5..]).unwrap() {
        Message::Cancel { index, begin, length } => assert_eq!((index, begin, length), (4, 5, 6)),
        other => panic!("unexpected {other:?}"),
    }
}

#[test]
fn unknown_ids_and_short_payloads_are_refused() {
    assert_eq!(Message::from_bytes(9, &[]).unwrap_err(), MessageError::Unreadable { id: 9, payload_len: 0 });
    assert_eq!(Message::from_bytes(4, &[0, 0]).unwrap_err(), MessageError::Unreadable { id: 4, payload_len: 2 });
}

#[test]
fn an_empty_frame_is_a_keep_alive() {
    assert!(read_frame(&[]).unwrap().is_none());
    assert!(matches!(read_frame(&[1]).unwrap(), Some(Message::Unchoke)));
    assert!(read_frame(&[42]).is_err());
}

#[test]
fn a_session_records_choking_and_interest() {
    let mut s = PeerSession::new();
    assert_eq!(s.handle_message(Message::Choke), SessionAction::Nothing);
    assert!(s.peer_choking);
    assert_eq!(s.handle_message(Message::Bitfield(vec![1])), SessionAction::SendInterested);
    assert!(s.im_interested);
    assert_eq!(s.handle_message(Message::Piece { index: 0, begin: 0, data: vec![0; 7] }), SessionAction::Downloaded(7));
    assert_eq!(s.handle_message(Message::Interested), SessionAction::Nothing);
    assert!(s.peer_interested);
}

#[test]
fn our_handshake_is_sixty_eight_bytes() {
    let bytes = handshake_message(&[1u8; 20], &[2u8; 20]);
    assert_eq!(bytes.len(), 68);
    assert_eq!(bytes[0], 19);
    assert_eq!(&bytes[1..20], b"BitTorrent protocol");
    assert_eq!(&bytes[20..28], &[0u8; 8]);
    assert_eq!(&bytes[28..48], &[1u8; 20]);
    assert_eq!(&bytes[48..], &[2u8; 20]);
}

#[test]
fn a_reply_must_speak_the_protocol_and_name_our_torrent() {
    let good = handshake_message(&[1u8; 20], &[3u8; 20]);
    assert!(check_handshake_reply(&good, &[1u8; 20]).is_ok());
    assert_eq!(check_handshake_reply(&good, &[5u8; 20]).unwrap_err(), HandshakeError::InfoHashMismatch);
    let mut bad = good.clone();
    bad[3] = b'x';
    assert_eq!(check_handshake_reply(&bad, &[1u8; 20]).unwrap_err(), HandshakeError::BadProtocol);
}

#[test]
fn handshake_steps_depend_on_who_dialled() {
    let ours = [1u8; 20];
    let partial = WireItem::HandshakePartial { info_hash: ours };
    assert!(matches!(handshake_step(true, &ours, &partial), HandshakeStep::Continue));
    assert!(matches!(handshake_step(false, &ours, &partial), HandshakeStep::Reply));
    let foreign = WireItem::HandshakePartial { info_hash: [2u8; 20] };
    assert!(matches!(handshake_step(true, &ours, &foreign), HandshakeStep::InfoHashMismatch));
    let full = WireItem::Handshake(our_handshake(&ours, &[7u8; 20]));
    assert!(matches!(handshake_step(false, &ours, &full), HandshakeStep::Done { peer_id } if peer_id == [7u8; 20]));
    let other = WireItem::Message(WireMessage::Choke);
    assert!(matches!(handshake_step(true, &ours, &other), HandshakeStep::Unexpected));
}

#[test]
fn the_first_message_must_be_a_bitfield() {
    let b = first_bitfield(WireItem::Message(WireMessage::Bitfield(Bitfield(vec![3])))).unwrap();
    assert_eq!(b.0, vec![3]);
    assert!(first_bitfield(WireItem::Message(WireMessage::Unchoke)).is_none());
}

#[test]
fn the_first_thing_a_peer_sends_must_be_its_bitfield_in_time() {
    assert!(matches!(first_item(BitfieldWait::TimedOut), Err(FirstItemError::Timeout)));
    assert!(matches!(first_item(BitfieldWait::Ended), Err(FirstItemError::Disconnected)));
    let not_first = BitfieldWait::Item(WireItem::Message(WireMessage::Unchoke));
    assert!(matches!(first_item(not_first), Err(FirstItemError::Disconnected)));
    let b = first_item(BitfieldWait::Item(WireItem::Message(WireMessage::Bitfield(Bitfield(vec![0xa0]))))).unwrap();
    assert_eq!(b.0, vec![0xa0]);
}
