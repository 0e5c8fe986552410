use dhaar_torrent::codec::{ErrorKind, WireCodec};
use dhaar_torrent::wire_protocol::{Bitfield, Message, WireItem};

fn handshake_bytes(pstr: &[u8]) -> Vec<u8> {
    let mut buffer = vec![19u8];
    buffer.extend_from_slice(pstr);
    buffer.extend_from_slice(&[0u8; 8]);
    buffer.extend_from_slice(&[1u8; 20]);
    buffer.extend_from_slice(&[2u8; 20]);
    buffer
}

#[test]
fn a_handshake_with_a_non_utf8_pstr_is_rejected_not_fatal() {
    let mut buffer = handshake_bytes(&[0x80u8; 19]);
    let error = WireCodec::new()
        .decode(&mut buffer)
        .expect_err("a pstr that is not UTF-8 should be refused");
    assert_eq!(error.kind(), ErrorKind::InvalidData);
}

#[test]
fn a_handshake_for_another_protocol_is_rejected() {
    let mut buffer = handshake_bytes(b"NotBitTorrent proto");
    let error = WireCodec::new()
        .decode(&mut buffer)
        .expect_err("a foreign protocol should be refused");
    assert_eq!(error.kind(), ErrorKind::InvalidData);
}

#[test]
fn keep_alive_is_a_bare_length_prefix() {
    let mut buffer = Vec::new();
    WireCodec::new().encode(WireItem::Message(Message::KeepAlive), &mut buffer).unwrap();
    assert_eq!(&buffer[..], &[0, 0, 0, 0]);
}

#[test]
fn keep_alive_survives_a_round_trip() {
    let mut buffer = Vec::new();
    let mut codec = WireCodec::after_handshake();
    codec.encode(WireItem::Message(Message::KeepAlive), &mut buffer).unwrap();
    let decoded = codec.decode(&mut buffer).unwrap();
    assert!(matches!(decoded, Some(WireItem::Message(Message::KeepAlive))));
    assert!(buffer.is_empty(), "the frame should be fully consumed");
}

#[test]
fn a_keep_alive_does_not_hide_the_message_behind_it() {
    let mut buffer = Vec::new();
    let mut codec = WireCodec::after_handshake();
    codec.encode(WireItem::Message(Message::KeepAlive), &mut buffer).unwrap();
    codec.encode(WireItem::Message(Message::Unchoke), &mut buffer).unwrap();
    assert!(matches!(codec.decode(&mut buffer).unwrap(), Some(WireItem::Message(Message::KeepAlive))));
    assert!(matches!(codec.decode(&mut buffer).unwrap(), Some(WireItem::Message(Message::Unchoke))));
}

#[test]
fn a_full_handshake_is_read_in_two_steps() {
    let mut buffer = handshake_bytes(b"BitTorrent protocol");
    let mut codec = WireCodec::new();
    match codec.decode(&mut buffer).unwrap() {
        Some(WireItem::HandshakePartial { info_hash }) => assert_eq!(info_hash, [1u8; 20]),
        other => panic!("expected the info hash first, got {other:?}"),
    }
    match codec.decode(&mut buffer).unwrap() {
        Some(WireItem::Handshake(h)) => {
            assert_eq!(h.pstrlen, 19);
            assert_eq!(h.pstr, "BitTorrent protocol");
            assert_eq!(h.info_hash, [1u8; 20]);
            assert_eq!(h.peer_id, [2u8; 20]);
        }
        other => panic!("expected the handshake, got {other:?}"),
    }
    assert!(buffer.is_empty());
}

#[test]
fn a_partial_frame_waits_for_more() {
    let mut codec = WireCodec::after_handshake();
    let mut buffer = vec![0, 0, 0, 5, 4, 0, 0];
    assert!(codec.decode(&mut buffer).unwrap().is_none());
    buffer.extend_from_slice(&[0, 9]);
    assert!(matches!(codec.decode(&mut buffer).unwrap(), Some(WireItem::Message(Message::Have(9)))));
}

#[test]
fn messages_are_framed_with_their_length() {
    let mut buffer = Vec::new();
    let mut codec = WireCodec::after_handshake();
    codec
        .encode(WireItem::Message(Message::Request { index: 1, begin: 16384, length: 16384 }), &mut buffer)
        .unwrap();
    assert_eq!(buffer, vec![0, 0, 0, 13, 6, 0, 0, 0, 1, 0, 0, 64, 0, 0, 0, 64, 0]);
    codec.encode(WireItem::Message(Message::Bitfield(Bitfield(vec![0xa0]))), &mut buffer).unwrap();
    assert_eq!(&buffer[17..], &[0, 0, 0, 2, 5, 0xa0]);
}

#[test]
fn a_partial_handshake_cannot_be_written() {
    let mut buffer = Vec::new();
    let error = WireCodec::new()
        .encode(WireItem::HandshakePartial { info_hash: [0u8; 20] }, &mut buffer)
        .unwrap_err();
    assert_eq!(error.kind(), ErrorKind::InvalidInput);
}
