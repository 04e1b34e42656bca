//! Peer wire protocol tests: handshake layout and message framing.

use bytes::BufMut;
use rand::RngCore;
use torrent_core::connection::{
    BlockRequest, ConnectionError, HandshakeMessage, HandshakeMessageError, Message, Piece,
};
use torrent_core::peer::PeerId;

const PROTOCOL_STRING: &[u8; 19] = b"BitTorrent protocol";

#[test]
fn handshake_message_as_bytes() {
    let mut extensions_bytes = [0; 8];
    rand::thread_rng().fill_bytes(&mut extensions_bytes);
    let mut info_hash = [0; 20];
    rand::thread_rng().fill_bytes(&mut info_hash);
    let peed_id = PeerId::random();

    let mut bytes = bytes::BytesMut::with_capacity(68);
    bytes.put_u8(19u8);
    bytes.extend_from_slice(PROTOCOL_STRING);
    bytes.extend_from_slice(extensions_bytes.as_slice());
    bytes.extend_from_slice(info_hash.as_slice());
    bytes.extend_from_slice(peed_id.as_bytes());

    let message = HandshakeMessage::new(extensions_bytes, info_hash, peed_id);
    let message_bytes = message.to_bytes();

    assert_eq!(bytes.as_ref(), message_bytes.as_slice());
}

#[test]
fn handshake_message_from_bytes() {
    let mut extensions_bytes = [0; 8];
    rand::thread_rng().fill_bytes(&mut extensions_bytes);
    let mut info_hash = [0; 20];
    rand::thread_rng().fill_bytes(&mut info_hash);
    let peed_id = PeerId::random();

    let mut bytes = bytes::BytesMut::with_capacity(68);
    bytes.put_u8(19u8);
    bytes.extend_from_slice(PROTOCOL_STRING);
    bytes.extend_from_slice(extensions_bytes.as_slice());
    bytes.extend_from_slice(info_hash.as_slice());
    bytes.extend_from_slice(peed_id.as_bytes());

    let message = HandshakeMessage::new(extensions_bytes, info_hash, peed_id);

    let message_from_bytes = HandshakeMessage::from_bytes(bytes.as_ref()).unwrap();

    assert_eq!(message_from_bytes, message)
}

#[test]
fn keep_alive_to_bytes() {
    let msg = Message::KeepAlive;
    let bytes: Vec<u8> = msg.to_bytes();
    assert_eq!(bytes, vec![0; 4])
}

#[test]
fn empty_body_messages_test() {
    let messages = vec![
        Message::Choke,
        Message::UnChoke,
        Message::Interested,
        Message::NotInterested,
    ];
    for message in messages.into_iter() {
        let bytes = message.clone().to_bytes();
        let new_message = Message::from_bytes(bytes.as_slice()[4..].as_ref()).unwrap();
        assert_eq!(
            new_message.get_id(),
            message.get_id(),
            "{new_message:?} {message:?}"
        );
    }
}

#[test]
fn handshake_round_trip() {
    // Handshake symmetry on concrete values: serialise, then parse.
    let h = HandshakeMessage::new([1, 2, 3, 4, 5, 6, 7, 8], [9u8; 20], PeerId::new([7u8; 20]));
    let bytes = h.clone().to_bytes();
    assert_eq!(bytes.len(), 68);
    assert_eq!(HandshakeMessage::from_bytes(bytes.as_slice()), Ok(h));
}

#[test]
fn handshake_wire_layout() {
    // The 68 bytes begin 19, the protocol string, eight zero bytes, the
    // fingerprint, then the peer identity.
    let fingerprint = [0xabu8; 20];
    let identity = [0xcdu8; 20];
    let h = HandshakeMessage::new([0u8; 8], fingerprint, PeerId::new(identity));
    let bytes = h.to_bytes();
    assert_eq!(bytes[0], 19);
    assert_eq!(&bytes[1..20], PROTOCOL_STRING.as_slice());
    assert_eq!(&bytes[20..28], &[0u8; 8]);
    assert_eq!(&bytes[28..48], fingerprint.as_slice());
    assert_eq!(&bytes[48..68], identity.as_slice());
}

#[test]
fn handshake_wrong_pstr_len_fails() {
    let mut raw = [0u8; 68];
    raw[0] = 18;
    assert_eq!(
        HandshakeMessage::from_bytes(raw.as_slice()),
        Err(HandshakeMessageError::ProtocolStringLen(18))
    );
}

#[test]
fn handshake_wrong_pstr_fails() {
    let h = HandshakeMessage::new([0u8; 8], [0u8; 20], PeerId::new([0u8; 20]));
    let mut raw = h.to_bytes();
    raw[5] = b'X';
    assert_eq!(
        HandshakeMessage::from_bytes(raw.as_slice()),
        Err(HandshakeMessageError::ProtocolString)
    );
}

#[test]
fn frame_round_trip_scalar_messages() {
    // Frame symmetry for every message with a fully scalar payload:
    // serialising and reading the payload back yields the message.
    let messages = vec![
        Message::Choke,
        Message::UnChoke,
        Message::Interested,
        Message::NotInterested,
        Message::Have(0x01020304),
        Message::Request(BlockRequest::new(7, 0x4000, 0x4000)),
        Message::Cancel(BlockRequest::new(9, 0, 16384)),
        Message::Port(6881),
    ];
    for message in messages.into_iter() {
        let bytes = message.clone().to_bytes();
        // The length prefix is big-endian and counts the payload.
        let len = u32::from_be_bytes(bytes[0..4].try_into().unwrap()) as usize;
        assert_eq!(len, bytes.len() - 4);
        let parsed = Message::from_bytes(&bytes[4..]).unwrap();
        assert_eq!(parsed, message);
    }
}

#[test]
fn frame_round_trip_payload_messages() {
    let messages = vec![
        Message::Bitfield(vec![
            torrent_core::util::BitField::new(0b1010_0001),
            torrent_core::util::BitField::new(0xff),
        ]),
        Message::Piece(Piece::new(3, 16384, vec![1, 2, 3, 4, 5])),
    ];
    for message in messages.into_iter() {
        let bytes = message.clone().to_bytes();
        let parsed = Message::from_bytes(&bytes[4..]).unwrap();
        assert_eq!(parsed, message);
    }
}

#[test]
fn have_frame_is_big_endian() {
    let bytes = Message::Have(0x01020304).to_bytes();
    assert_eq!(bytes, vec![0, 0, 0, 5, 4, 1, 2, 3, 4]);
}

#[test]
fn unknown_message_id_fails() {
    assert_eq!(
        Message::from_bytes(&[10u8]),
        Err(ConnectionError::MessageId(10))
    );
}

#[test]
fn wrong_payload_length_fails() {
    // A Request whose payload is not twelve bytes is rejected.
    assert_eq!(
        Message::from_bytes(&[6u8, 0, 0, 0, 1]),
        Err(ConnectionError::PayloadLength(4))
    );
    // A Have whose payload is not four bytes is rejected.
    assert_eq!(
        Message::from_bytes(&[4u8, 0, 0, 1]),
        Err(ConnectionError::PayloadLength(3))
    );
    // An empty frame body cannot be read at all.
    assert_eq!(
        Message::from_bytes(&[]),
        Err(ConnectionError::UnexpectedEOF)
    );
}

#[test]
fn block_request_wire_bytes() {
    let b = BlockRequest::new(0x01020304, 0x05060708, 0x090a0b0c);
    assert_eq!(
        b.to_bytes(),
        vec![1, 2, 3, 4, 5, 6, 7, 8, 9, 0x0a, 0x0b, 0x0c]
    );
}

#[test]
fn frame_body_round_trip() {
    // An empty frame body is the KeepAlive message; any other frame
    // body reads back the message it was serialised from.
    assert_eq!(Message::from_frame_body(&[]), Ok(Message::KeepAlive));
    let m = Message::Have(7);
    let frame = m.clone().to_frame().unwrap();
    assert_eq!(frame, m.clone().to_bytes());
    assert_eq!(Message::from_frame_body(&frame[4..]), Ok(m));
}
