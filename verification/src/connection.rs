//! The peer wire protocol: the fixed 68-byte handshake and the
//! length-prefixed message frames that follow it.  All multi-byte
//! integers on the wire are big-endian.

use crate::bencode::{get_byte, push_slice};
use crate::peer::PeerId;
use crate::util::{BitField, Sha1};
use vstd::prelude::*;

verus! {

/// The big-endian bytes of a 32-bit integer, most significant first.
pub open spec fn be32(x: u32) -> Seq<u8> {
    seq![
        (x / 0x100_0000 % 0x100) as u8,
        (x / 0x1_0000 % 0x100) as u8,
        (x / 0x100 % 0x100) as u8,
        (x % 0x100) as u8,
    ]
}

/// The big-endian bytes of a 16-bit integer.
pub open spec fn be16(x: u16) -> Seq<u8> {
    seq![(x / 0x100) as u8, (x % 0x100) as u8]
}

/// Append the big-endian bytes of a 32-bit integer.
pub fn push_be32(out: &mut Vec<u8>, x: u32)
    ensures
        final(out)@ == old(out)@ + be32(x),
{
    out.push((x / 0x100_0000 % 0x100) as u8);
    out.push((x / 0x1_0000 % 0x100) as u8);
    out.push((x / 0x100 % 0x100) as u8);
    out.push((x % 0x100) as u8);
    proof {
        assert(out@ =~= old(out)@ + be32(x));
    }
}

/// Append the big-endian bytes of a 16-bit integer.
pub fn push_be16(out: &mut Vec<u8>, x: u16)
    ensures
        final(out)@ == old(out)@ + be16(x),
{
    out.push((x / 0x100) as u8);
    out.push((x % 0x100) as u8);
    proof {
        assert(out@ =~= old(out)@ + be16(x));
    }
}

/// The 32-bit integer whose big-endian bytes stand at `i`.
pub fn read_be32(s: &[u8], i: usize) -> (r: u32)
    requires
        i + 4 <= s@.len(),
    ensures
        be32(r) == s@.subrange(i as int, i + 4),
{
    let _slen = s.len();
    let b0 = get_byte(s, i) as u32;
    let b1 = get_byte(s, i + 1) as u32;
    let b2 = get_byte(s, i + 2) as u32;
    let b3 = get_byte(s, i + 3) as u32;
    let r = b0 * 0x100_0000 + b1 * 0x1_0000 + b2 * 0x100 + b3;
    proof {
        lemma_be32_of_bytes(b0, b1, b2, b3);
        assert(be32(r) =~= s@.subrange(i as int, i + 4));
    }
    r
}

/// The 16-bit integer whose big-endian bytes stand at `i`.
pub fn read_be16(s: &[u8], i: usize) -> (r: u16)
    requires
        i + 2 <= s@.len(),
    ensures
        be16(r) == s@.subrange(i as int, i + 2),
{
    let _slen = s.len();
    let b0 = get_byte(s, i) as u16;
    let b1 = get_byte(s, i + 1) as u16;
    let r = b0 * 0x100 + b1;
    proof {
        assert(r as int / 0x100 == b0 && r as int % 0x100 == b1) by {
            vstd::arithmetic::div_mod::lemma_fundamental_div_mod_converse(
                r as int,
                0x100,
                b0 as int,
                b1 as int,
            );
        }
        assert(be16(r) =~= s@.subrange(i as int, i + 2));
    }
    r
}

/// Composing a 32-bit integer from four bytes and taking it apart again
/// gives the same bytes.
proof fn lemma_be32_of_bytes(b0: u32, b1: u32, b2: u32, b3: u32)
    requires
        b0 < 0x100,
        b1 < 0x100,
        b2 < 0x100,
        b3 < 0x100,
    ensures
        ({
            let r = b0 * 0x100_0000 + b1 * 0x1_0000 + b2 * 0x100 + b3;
            r / 0x100_0000 % 0x100 == b0 && r / 0x1_0000 % 0x100 == b1 && r / 0x100 % 0x100 == b2
                && r % 0x100 == b3
        }),
{
    let r = b0 * 0x100_0000 + b1 * 0x1_0000 + b2 * 0x100 + b3;
    vstd::arithmetic::div_mod::lemma_fundamental_div_mod_converse(
        r as int,
        0x100_0000,
        b0 as int,
        (b1 * 0x1_0000 + b2 * 0x100 + b3) as int,
    );
    vstd::arithmetic::div_mod::lemma_fundamental_div_mod_converse(
        r as int,
        0x100,
        (b0 * 0x1_0000 + b1 * 0x100 + b2) as int,
        b3 as int,
    );
    vstd::arithmetic::div_mod::lemma_fundamental_div_mod_converse(
        r as int,
        0x1_0000,
        (b0 * 0x100 + b1) as int,
        (b2 * 0x100 + b3) as int,
    );
    vstd::arithmetic::div_mod::lemma_fundamental_div_mod_converse(
        (b0 * 0x100 + b1) as int,
        0x100,
        b0 as int,
        b1 as int,
    );
    vstd::arithmetic::div_mod::lemma_fundamental_div_mod_converse(
        (b0 * 0x1_0000 + b1 * 0x100 + b2) as int,
        0x100,
        (b0 * 0x100 + b1) as int,
        b2 as int,
    );
    vstd::arithmetic::div_mod::lemma_fundamental_div_mod_converse(
        (b2 * 0x100 + b3) as int,
        0x100,
        b2 as int,
        b3 as int,
    );
}

/// The 19 bytes of the protocol string `BitTorrent protocol`.
pub open spec fn protocol_bytes() -> Seq<u8> {
    seq![
        66u8, 105u8, 116u8, 84u8, 111u8, 114u8, 114u8, 101u8, 110u8, 116u8, 32u8, 112u8, 114u8,
        111u8, 116u8, 111u8, 99u8, 111u8, 108u8,
    ]
}

/// The protocol string `BitTorrent protocol` as bytes.
pub fn protocol_string() -> (r: [u8; 19])
    ensures
        r@ == protocol_bytes(),
{
    let r: [u8; 19] = [
        66u8, 105u8, 116u8, 84u8, 111u8, 114u8, 114u8, 101u8, 110u8, 116u8, 32u8, 112u8, 114u8,
        111u8, 116u8, 111u8, 99u8, 111u8, 108u8,
    ];
    proof {
        assert(r@ =~= protocol_bytes());
    }
    r
}

/// A malformed 68-byte handshake.
#[derive(Debug, Clone, PartialEq, Eq)]
pub enum HandshakeMessageError {
    /// The protocol-string length byte was not 19.
    ProtocolStringLen(u8),
    /// The 19 bytes after it were not `BitTorrent protocol`.
    ProtocolString,
}

/// The fixed 68-byte first exchange: the protocol string, eight reserved
/// bytes, the torrent's info fingerprint and the sender's identity.
#[derive(Debug, Clone, PartialEq)]
pub struct HandshakeMessage {
    /// The eight reserved extension bytes, all zero in this client.
    pub extension_bytes: [u8; 8],
    /// The info fingerprint of the torrent the handshake is for.
    pub info_hash: Sha1,
    /// The identity of the sending side.
    pub peer_id: PeerId,
}

/// The 68 bytes of a handshake on the wire: the length byte 19, the
/// protocol string, the reserved bytes, the fingerprint, the identity.
pub open spec fn handshake_bytes(m: HandshakeMessage) -> Seq<u8> {
    seq![19u8] + protocol_bytes() + m.extension_bytes@ + m.info_hash@ + m.peer_id.spec_bytes()@
}

impl HandshakeMessage {
    /// A handshake over the given reserved bytes, fingerprint and
    /// identity.
    pub fn new(extension_bytes: [u8; 8], info_hash: Sha1, peer_id: PeerId) -> (r: Self)
        ensures
            r.extension_bytes == extension_bytes,
            r.info_hash == info_hash,
            r.peer_id == peer_id,
    {
        HandshakeMessage { extension_bytes, info_hash, peer_id }
    }

    /// The 68 bytes of this handshake on the wire.
    pub fn to_bytes(&self) -> (r: Vec<u8>)
        ensures
            r@ == handshake_bytes(*self),
            r@.len() == 68,
    {
        let mut out: Vec<u8> = Vec::new();
        out.push(19u8);
        let pstr = protocol_string();
        push_slice(&mut out, pstr.as_slice());
        push_slice(&mut out, self.extension_bytes.as_slice());
        push_slice(&mut out, self.info_hash.as_slice());
        push_slice(&mut out, self.peer_id.as_bytes().as_slice());
        proof {
            assert(out@ =~= handshake_bytes(*self));
        }
        out
    }

    /// Read a handshake back from its 68 wire bytes.  The length byte
    /// must be 19 and the protocol string must match, exactly as the
    /// validation rules require; the remaining fields are taken as they
    /// stand.
    #[verifier::loop_isolation(false)]
    pub fn from_bytes(raw: &[u8]) -> (r: Result<Self, HandshakeMessageError>)
        requires
            raw@.len() == 68,
        ensures
            match r {
                Ok(m) => raw@[0] == 19 && raw@.subrange(1, 20) == protocol_bytes()
                    && m.extension_bytes@ == raw@.subrange(20, 28) && m.info_hash@ == raw@.subrange(
                    28,
                    48,
                ) && m.peer_id.spec_bytes()@ == raw@.subrange(48, 68),
                Err(HandshakeMessageError::ProtocolStringLen(b)) => b == raw@[0] && raw@[0] != 19,
                Err(HandshakeMessageError::ProtocolString) => raw@[0] == 19 && raw@.subrange(1, 20)
                    != protocol_bytes(),
            },
    {
        let pstr_len = get_byte(raw, 0);
        if pstr_len != 19 {
            return Err(HandshakeMessageError::ProtocolStringLen(pstr_len));
        }
        let pstr = protocol_string();
        let mut i: usize = 0;
        while i < 19
            invariant
                0 <= i <= 19,
                raw@.len() == 68,
                pstr@ == protocol_bytes(),
                forall|k: int| 0 <= k < i ==> raw@[1 + k] == protocol_bytes()[k],
            decreases 19 - i,
        {
            if get_byte(raw, 1 + i) != *vstd::array::array_index_get(&pstr, i) {
                proof {
                    assert(raw@.subrange(1, 20)[i as int] != protocol_bytes()[i as int]);
                    assert(raw@.subrange(1, 20) != protocol_bytes()) by {
                        if raw@.subrange(1, 20) == protocol_bytes() {
                            assert(raw@.subrange(1, 20)[i as int] == protocol_bytes()[i as int]);
                        }
                    }
                }
                return Err(HandshakeMessageError::ProtocolString);
            }
            i = i + 1;
        }
        proof {
            assert(raw@.subrange(1, 20) =~= protocol_bytes());
        }
        let mut extension_bytes = [0u8; 8];
        let mut j: usize = 0;
        while j < 8
            invariant
                0 <= j <= 8,
                raw@.len() == 68,
                forall|k: int| 0 <= k < j ==> extension_bytes@[k] == raw@[20 + k],
            decreases 8 - j,
        {
            extension_bytes[j] = get_byte(raw, 20 + j);
            j = j + 1;
        }
        let mut info_hash = [0u8; 20];
        let mut j2: usize = 0;
        while j2 < 20
            invariant
                0 <= j2 <= 20,
                raw@.len() == 68,
                forall|k: int| 0 <= k < j2 ==> info_hash@[k] == raw@[28 + k],
            decreases 20 - j2,
        {
            info_hash[j2] = get_byte(raw, 28 + j2);
            j2 = j2 + 1;
        }
        let mut peer_bytes = [0u8; 20];
        let mut j3: usize = 0;
        while j3 < 20
            invariant
                0 <= j3 <= 20,
                raw@.len() == 68,
                forall|k: int| 0 <= k < j3 ==> peer_bytes@[k] == raw@[48 + k],
            decreases 20 - j3,
        {
            peer_bytes[j3] = get_byte(raw, 48 + j3);
            j3 = j3 + 1;
        }
        proof {
            assert(extension_bytes@ =~= raw@.subrange(20, 28));
            assert(info_hash@ =~= raw@.subrange(28, 48));
            assert(peer_bytes@ =~= raw@.subrange(48, 68));
        }
        Ok(HandshakeMessage::new(extension_bytes, info_hash, PeerId::new(peer_bytes)))
    }
}

/// A failure while framing or reading peer wire messages.
#[derive(Debug, Clone, PartialEq, Eq)]
pub enum ConnectionError {
    /// The handshake exchange could not be completed.
    HandshakeFailed(&'static str),
    /// The 68 bytes read back were not a valid handshake.
    HandshakeResponse(HandshakeMessageError),
    UnexpectedEOF,
    /// A frame carried a message id this protocol does not define.
    MessageId(u8),
    /// A frame's payload had the wrong length for its message id.
    PayloadLength(usize),
}

/// A request for one block of a piece: piece index, byte offset inside
/// the piece, and block length.
#[derive(Debug, Clone, PartialEq, Eq)]
pub struct BlockRequest {
    /// The piece the block belongs to.
    pub index: u32,
    /// The block's byte offset inside the piece.
    pub begin: u32,
    /// The block's length in bytes.
    pub length: u32,
}

/// The twelve wire bytes of a block request: its three fields, each
/// big-endian.
pub open spec fn block_request_bytes(r: BlockRequest) -> Seq<u8> {
    be32(r.index) + be32(r.begin) + be32(r.length)
}

impl BlockRequest {
    /// A block request over the given piece index, offset and length.
    pub fn new(index: u32, begin: u32, length: u32) -> (r: Self)
        ensures
            r.index == index,
            r.begin == begin,
            r.length == length,
    {
        BlockRequest { index, begin, length }
    }

    /// The twelve wire bytes of this request.
    pub fn to_bytes(self) -> (r: Vec<u8>)
        ensures
            r@ == block_request_bytes(self),
    {
        let mut out: Vec<u8> = Vec::new();
        push_be32(&mut out, self.index);
        push_be32(&mut out, self.begin);
        push_be32(&mut out, self.length);
        proof {
            assert(out@ =~= block_request_bytes(self));
        }
        out
    }

    /// Read a block request back from a frame payload that must hold
    /// exactly twelve bytes.
    pub fn from_bytes(value: &[u8]) -> (r: Result<Self, ConnectionError>)
        ensures
            match r {
                Ok(b) => value@.len() == 12 && block_request_bytes(b) == value@,
                Err(e) => value@.len() != 12 && e == ConnectionError::PayloadLength(
                    value@.len() as usize,
                ),
            },
    {
        if value.len() != 12 {
            return Err(ConnectionError::PayloadLength(value.len()));
        }
        let index = read_be32(value, 0);
        let begin = read_be32(value, 4);
        let length = read_be32(value, 8);
        let b = BlockRequest { index, begin, length };
        proof {
            assert(block_request_bytes(b) =~= value@);
        }
        Ok(b)
    }
}

/// One block of a piece as a peer sends it: piece index, byte offset,
/// and the block's bytes.
#[derive(Debug, Clone, PartialEq, Eq)]
pub struct Piece {
    /// The piece the block belongs to.
    pub index: u32,
    /// The block's byte offset inside the piece.
    pub begin: u32,
    /// The block's bytes.
    pub data: Vec<u8>,
}

/// The wire bytes of a piece block: index and offset big-endian, then
/// the block's bytes.
pub open spec fn piece_bytes(p: Piece) -> Seq<u8> {
    be32(p.index) + be32(p.begin) + p.data@
}

impl Piece {
    /// A piece block over the given index, offset and bytes.
    pub fn new(index: u32, begin: u32, data: Vec<u8>) -> (r: Self)
        ensures
            r.index == index,
            r.begin == begin,
            r.data == data,
    {
        Piece { index, begin, data }
    }

    /// Read a piece block back from a frame payload that must hold at
    /// least the eight header bytes.
    pub fn from_bytes(value: &[u8]) -> (r: Result<Self, ConnectionError>)
        ensures
            match r {
                Ok(p) => value@.len() >= 8 && piece_bytes(p) == value@,
                Err(e) => value@.len() < 8 && e == ConnectionError::PayloadLength(
                    value@.len() as usize,
                ),
            },
    {
        if value.len() < 8 {
            return Err(ConnectionError::PayloadLength(value.len()));
        }
        let index = read_be32(value, 0);
        let begin = read_be32(value, 4);
        let data = vstd::slice::slice_to_vec(
            vstd::slice::slice_subrange(value, 8, value.len()),
        );
        let p = Piece { index, begin, data };
        proof {
            assert(piece_bytes(p) =~= value@);
        }
        Ok(p)
    }
}

/// A message of the peer wire protocol.
#[derive(Debug, Clone, PartialEq)]
pub enum Message {
    /// A frame with length prefix zero and no body.
    KeepAlive,
    Choke,
    UnChoke,
    Interested,
    NotInterested,
    /// The sender now holds the given piece.
    Have(u32),
    /// One byte per eight pieces the sender holds.
    Bitfield(Vec<BitField>),
    Request(BlockRequest),
    /// One block of a piece.
    Piece(Piece),
    Cancel(BlockRequest),
    /// The sender's listening port.
    Port(u16),
}

/// The message id byte of each message; `KeepAlive` has none and is
/// framed by a zero length prefix alone.
pub open spec fn msg_id(m: Message) -> u8 {
    match m {
        Message::KeepAlive => 0,
        Message::Choke => 0,
        Message::UnChoke => 1,
        Message::Interested => 2,
        Message::NotInterested => 3,
        Message::Have(_) => 4,
        Message::Bitfield(_) => 5,
        Message::Request(_) => 6,
        Message::Piece(_) => 7,
        Message::Cancel(_) => 8,
        Message::Port(_) => 9,
    }
}

/// The bytes of a sequence of bit fields, one byte each.
pub open spec fn bits_bytes(s: Seq<BitField>) -> Seq<u8> {
    Seq::new(s.len(), |i: int| s[i].spec_value())
}

/// The frame payload of a message: its id byte followed by its body.
/// `KeepAlive` has an empty payload.
pub open spec fn payload_bytes(m: Message) -> Seq<u8> {
    match m {
        Message::KeepAlive => Seq::empty(),
        Message::Choke => seq![0u8],
        Message::UnChoke => seq![1u8],
        Message::Interested => seq![2u8],
        Message::NotInterested => seq![3u8],
        Message::Have(h) => seq![4u8] + be32(h),
        Message::Bitfield(v) => seq![5u8] + bits_bytes(v@),
        Message::Request(b) => seq![6u8] + block_request_bytes(b),
        Message::Piece(p) => seq![7u8] + piece_bytes(p),
        Message::Cancel(b) => seq![8u8] + block_request_bytes(b),
        Message::Port(p) => seq![9u8] + be16(p),
    }
}

/// The whole frame of a message: the payload length as a big-endian
/// 32-bit prefix, then the payload.  A `KeepAlive` is the four zero
/// bytes alone.
pub open spec fn frame_bytes(m: Message) -> Seq<u8> {
    be32(payload_bytes(m).len() as u32) + payload_bytes(m)
}

/// Whether a message's payload is determined by scalar fields alone:
/// every variant except `KeepAlive` (which has no payload) and
/// `Bitfield` and `Piece` (whose payloads carry byte sequences).
pub open spec fn scalar_payload(m: Message) -> bool {
    match m {
        Message::KeepAlive => false,
        Message::Bitfield(_) => false,
        Message::Piece(_) => false,
        _ => true,
    }
}

/// Distinct 32-bit integers have distinct big-endian bytes.
pub proof fn lemma_be32_injective(a: u32, b: u32)
    requires
        be32(a) == be32(b),
    ensures
        a == b,
{
    lemma_be32_reconstruct(a);
    lemma_be32_reconstruct(b);
    assert(be32(a)[0] == be32(b)[0] && be32(a)[1] == be32(b)[1] && be32(a)[2] == be32(b)[2]
        && be32(a)[3] == be32(b)[3]);
}

/// A 32-bit integer is the weighted sum of its big-endian bytes.
proof fn lemma_be32_reconstruct(x: u32)
    ensures
        x == be32(x)[0] * 0x100_0000 + be32(x)[1] * 0x1_0000 + be32(x)[2] * 0x100 + be32(x)[3],
{
    vstd::arithmetic::div_mod::lemma_fundamental_div_mod(x as int, 0x100);
    vstd::arithmetic::div_mod::lemma_fundamental_div_mod(x as int / 0x100, 0x100);
    vstd::arithmetic::div_mod::lemma_fundamental_div_mod(x as int / 0x100 / 0x100, 0x100);
    vstd::arithmetic::div_mod::lemma_div_denominator(x as int, 0x100, 0x100);
    vstd::arithmetic::div_mod::lemma_div_denominator(x as int, 0x1_0000, 0x100);
    assert(x as int / 0x100 / 0x100 == x as int / 0x1_0000);
    assert(x as int / 0x1_0000 / 0x100 == x as int / 0x100_0000);
    assert(x as int / 0x100_0000 < 0x100) by (nonlinear_arith)
        requires
            x < 0x1_0000_0000,
    ;
    vstd::arithmetic::div_mod::lemma_fundamental_div_mod(x as int / 0x100_0000, 0x100);
}

/// Distinct 16-bit integers have distinct big-endian bytes.
pub proof fn lemma_be16_injective(a: u16, b: u16)
    requires
        be16(a) == be16(b),
    ensures
        a == b,
{
    vstd::arithmetic::div_mod::lemma_fundamental_div_mod(a as int, 0x100);
    vstd::arithmetic::div_mod::lemma_fundamental_div_mod(b as int, 0x100);
    assert(be16(a)[0] == be16(b)[0] && be16(a)[1] == be16(b)[1]);
}

impl Message {
    /// The message id byte.  `KeepAlive` has none: it is framed by its
    /// zero length prefix alone, so it must not be asked for an id.
    pub fn get_id(&self) -> (r: u8)
        requires
            !(self is KeepAlive),
        ensures
            r == msg_id(*self),
    {
        match self {
            Message::KeepAlive => 0,
            Message::Choke => 0,
            Message::UnChoke => 1,
            Message::Interested => 2,
            Message::NotInterested => 3,
            Message::Have(_) => 4,
            Message::Bitfield(_) => 5,
            Message::Request(_) => 6,
            Message::Piece(_) => 7,
            Message::Cancel(_) => 8,
            Message::Port(_) => 9,
        }
    }

    /// The whole wire frame of this message: big-endian payload length,
    /// then the payload.  The payload must fit the 32-bit length prefix.
    pub fn to_bytes(self) -> (r: Vec<u8>)
        requires
            payload_bytes(self).len() <= u32::MAX,
        ensures
            r@ == frame_bytes(self),
    {
        let mut payload: Vec<u8> = Vec::new();
        match &self {
            Message::KeepAlive => {},
            Message::Choke => payload.push(0),
            Message::UnChoke => payload.push(1),
            Message::Interested => payload.push(2),
            Message::NotInterested => payload.push(3),
            Message::Have(h) => {
                payload.push(4);
                push_be32(&mut payload, *h);
            },
            Message::Bitfield(v) => {
                payload.push(5);
                let mut i: usize = 0;
                while i < v.len()
                    invariant
                        0 <= i <= v@.len(),
                        payload@ == seq![5u8] + bits_bytes(v@.take(i as int)),
                    decreases v@.len() - i,
                {
                    payload.push(v[i].get_value());
                    proof {
                        assert(payload@ =~= seq![5u8] + bits_bytes(v@.take(i + 1)));
                    }
                    i = i + 1;
                }
                proof {
                    assert(v@.take(v@.len() as int) =~= v@);
                }
            },
            Message::Request(b) => {
                payload.push(6);
                push_be32(&mut payload, b.index);
                push_be32(&mut payload, b.begin);
                push_be32(&mut payload, b.length);
            },
            Message::Piece(p) => {
                payload.push(7);
                push_be32(&mut payload, p.index);
                push_be32(&mut payload, p.begin);
                push_slice(&mut payload, p.data.as_slice());
            },
            Message::Cancel(b) => {
                payload.push(8);
                push_be32(&mut payload, b.index);
                push_be32(&mut payload, b.begin);
                push_be32(&mut payload, b.length);
            },
            Message::Port(p) => {
                payload.push(9);
                push_be16(&mut payload, *p);
            },
        }
        proof {
            assert(payload@ =~= payload_bytes(self));
        }
        let mut out: Vec<u8> = Vec::new();
        push_be32(&mut out, payload.len() as u32);
        let mut payload = payload;
        out.append(&mut payload);
        proof {
            assert(out@ =~= frame_bytes(self));
        }
        out
    }

    /// Read a message back from a frame payload (the bytes after the
    /// length prefix of a non-empty frame).  The first byte is the
    /// message id; each message's body must have exactly the length its
    /// id demands.  Reading back the payload of any message with a fully
    /// scalar body yields that very message.
    pub fn from_bytes(value: &[u8]) -> (r: Result<Self, ConnectionError>)
        ensures
            value@.len() == 0 ==> r == Err::<Message, ConnectionError>(
                ConnectionError::UnexpectedEOF,
            ),
            r matches Ok(m) ==> !(m is KeepAlive) && payload_bytes(m) == value@,
            forall|m: Message|
                scalar_payload(m) && #[trigger] payload_bytes(m) == value@ ==> r == Ok::<
                    Message,
                    ConnectionError,
                >(m),
            value@.len() > 0 && value@[0] > 9 ==> r == Err::<Message, ConnectionError>(
                ConnectionError::MessageId(value@[0]),
            ),
            value@.len() > 1 && value@[0] <= 3 ==> r == Err::<Message, ConnectionError>(
                ConnectionError::PayloadLength((value@.len() - 1) as usize),
            ),
            value@.len() > 0 && value@[0] == 4 && value@.len() != 5 ==> r == Err::<
                Message,
                ConnectionError,
            >(ConnectionError::PayloadLength((value@.len() - 1) as usize)),
            value@.len() > 0 && (value@[0] == 6 || value@[0] == 8) && value@.len() != 13 ==> r
                == Err::<Message, ConnectionError>(
                ConnectionError::PayloadLength((value@.len() - 1) as usize),
            ),
            value@.len() > 0 && value@[0] == 7 && value@.len() < 9 ==> r == Err::<
                Message,
                ConnectionError,
            >(ConnectionError::PayloadLength((value@.len() - 1) as usize)),
            value@.len() > 0 && value@[0] == 9 && value@.len() != 3 ==> r == Err::<
                Message,
                ConnectionError,
            >(ConnectionError::PayloadLength((value@.len() - 1) as usize)),
    {
        let n = value.len();
        if n == 0 {
            proof {
                lemma_no_scalar_match(value@);
            }
            return Err(ConnectionError::UnexpectedEOF);
        }
        let id = get_byte(value, 0);
        let r: Result<Message, ConnectionError> = match id {
            0 => if n == 1 {
                Ok(Message::Choke)
            } else {
                Err(ConnectionError::PayloadLength(n - 1))
            },
            1 => if n == 1 {
                Ok(Message::UnChoke)
            } else {
                Err(ConnectionError::PayloadLength(n - 1))
            },
            2 => if n == 1 {
                Ok(Message::Interested)
            } else {
                Err(ConnectionError::PayloadLength(n - 1))
            },
            3 => if n == 1 {
                Ok(Message::NotInterested)
            } else {
                Err(ConnectionError::PayloadLength(n - 1))
            },
            4 => if n == 5 {
                let h = read_be32(value, 1);
                proof {
                    assert(payload_bytes(Message::Have(h)) =~= value@);
                }
                Ok(Message::Have(h))
            } else {
                Err(ConnectionError::PayloadLength(n - 1))
            },
            5 => {
                let mut bits: Vec<BitField> = Vec::new();
                let mut i: usize = 1;
                while i < n
                    invariant
                        1 <= i <= n,
                        n == value@.len(),
                        bits@.len() == i - 1,
                        forall|k: int|
                            0 <= k < i - 1 ==> #[trigger] bits@[k].spec_value() == value@[1 + k],
                    decreases n - i,
                {
                    bits.push(BitField::new(get_byte(value, i)));
                    i = i + 1;
                }
                proof {
                    assert(payload_bytes(Message::Bitfield(bits)) =~= value@);
                }
                Ok(Message::Bitfield(bits))
            },
            6 => {
                match BlockRequest::from_bytes(vstd::slice::slice_subrange(value, 1, n)) {
                    Ok(b) => {
                        proof {
                            assert(payload_bytes(Message::Request(b)) =~= value@);
                        }
                        Ok(Message::Request(b))
                    },
                    Err(e) => Err(e),
                }
            },
            7 => {
                match Piece::from_bytes(vstd::slice::slice_subrange(value, 1, n)) {
                    Ok(p) => {
                        proof {
                            assert(payload_bytes(Message::Piece(p)) =~= value@);
                        }
                        Ok(Message::Piece(p))
                    },
                    Err(e) => Err(e),
                }
            },
            8 => {
                match BlockRequest::from_bytes(vstd::slice::slice_subrange(value, 1, n)) {
                    Ok(b) => {
                        proof {
                            assert(payload_bytes(Message::Cancel(b)) =~= value@);
                        }
                        Ok(Message::Cancel(b))
                    },
                    Err(e) => Err(e),
                }
            },
            9 => if n == 3 {
                let p = read_be16(value, 1);
                proof {
                    assert(payload_bytes(Message::Port(p)) =~= value@);
                }
                Ok(Message::Port(p))
            } else {
                Err(ConnectionError::PayloadLength(n - 1))
            },
            _ => Err(ConnectionError::MessageId(id)),
        };
        proof {
            lemma_from_bytes_complete(value@, r);
        }
        r
    }
}

impl Message {
    /// The whole wire frame of this message, or nothing when the
    /// payload would not fit the 32-bit length prefix.
    pub fn to_frame(self) -> (r: Option<Vec<u8>>)
        ensures
            r is Some <==> payload_bytes(self).len() <= u32::MAX,
            r matches Some(v) ==> v@ == frame_bytes(self),
    {
        let fits = match &self {
            Message::Piece(p) => p.data.len() <= (u32::MAX as usize) - 9,
            Message::Bitfield(v) => v.len() <= (u32::MAX as usize) - 1,
            _ => true,
        };
        if !fits {
            return None;
        }
        Some(self.to_bytes())
    }

    /// Read a message from the body of one frame: an empty body — a
    /// frame with length prefix zero — is the KeepAlive message, and
    /// any other body starts with the message id.
    pub fn from_frame_body(body: &[u8]) -> (r: Result<Message, ConnectionError>)
        ensures
            body@.len() == 0 ==> r == Ok::<Message, ConnectionError>(Message::KeepAlive),
            r matches Ok(m) ==> payload_bytes(m) == body@,
            body@.len() > 0 ==> (forall|m: Message|
                scalar_payload(m) && #[trigger] payload_bytes(m) == body@ ==> r == Ok::<
                    Message,
                    ConnectionError,
                >(m)),
            body@.len() > 0 && body@[0] > 9 ==> r == Err::<Message, ConnectionError>(
                ConnectionError::MessageId(body@[0]),
            ),
    {
        if body.len() == 0 {
            return Ok(Message::KeepAlive);
        }
        Message::from_bytes(body)
    }
}

/// No message with a scalar payload matches an empty payload.
proof fn lemma_no_scalar_match(b: Seq<u8>)
    requires
        b.len() == 0,
    ensures
        forall|m: Message| scalar_payload(m) ==> #[trigger] payload_bytes(m) != b,
{
    assert forall|m: Message| scalar_payload(m) implies #[trigger] payload_bytes(m) != b by {
        assert(payload_bytes(m).len() >= 1);
    }
}

/// Distinct block requests have distinct wire bytes.
pub proof fn lemma_block_request_bytes_injective(a: BlockRequest, b: BlockRequest)
    requires
        block_request_bytes(a) == block_request_bytes(b),
    ensures
        a == b,
{
    assert(block_request_bytes(a).subrange(0, 4) =~= be32(a.index));
    assert(block_request_bytes(b).subrange(0, 4) =~= be32(b.index));
    assert(block_request_bytes(a).subrange(4, 8) =~= be32(a.begin));
    assert(block_request_bytes(b).subrange(4, 8) =~= be32(b.begin));
    assert(block_request_bytes(a).subrange(8, 12) =~= be32(a.length));
    assert(block_request_bytes(b).subrange(8, 12) =~= be32(b.length));
    lemma_be32_injective(a.index, b.index);
    lemma_be32_injective(a.begin, b.begin);
    lemma_be32_injective(a.length, b.length);
}

/// Any message with a scalar payload whose payload equals the input is
/// the message the parser decided on.
proof fn lemma_from_bytes_complete(b: Seq<u8>, r: Result<Message, ConnectionError>)
    requires
        b.len() >= 1,
        b[0] == 0 && b.len() == 1 ==> r == Ok::<Message, ConnectionError>(Message::Choke),
        b[0] == 1 && b.len() == 1 ==> r == Ok::<Message, ConnectionError>(Message::UnChoke),
        b[0] == 2 && b.len() == 1 ==> r == Ok::<Message, ConnectionError>(Message::Interested),
        b[0] == 3 && b.len() == 1 ==> r == Ok::<Message, ConnectionError>(Message::NotInterested),
        b[0] == 4 && b.len() == 5 ==> (r matches Ok(m) && m matches Message::Have(h) && be32(h)
            == b.subrange(1, 5)),
        b[0] == 6 && b.len() == 13 ==> (r matches Ok(m) && m matches Message::Request(br)
            && block_request_bytes(br) == b.subrange(1, 13)),
        b[0] == 8 && b.len() == 13 ==> (r matches Ok(m) && m matches Message::Cancel(br)
            && block_request_bytes(br) == b.subrange(1, 13)),
        b[0] == 9 && b.len() == 3 ==> (r matches Ok(m) && m matches Message::Port(p) && be16(p)
            == b.subrange(1, 3)),
    ensures
        forall|m: Message|
            scalar_payload(m) && #[trigger] payload_bytes(m) == b ==> r == Ok::<
                Message,
                ConnectionError,
            >(m),
{
    assert forall|m: Message| scalar_payload(m) && #[trigger] payload_bytes(m) == b implies r
        == Ok::<Message, ConnectionError>(m) by {
        match m {
            Message::Choke => {
                assert(b.len() == 1 && b[0] == 0);
            },
            Message::UnChoke => {
                assert(b.len() == 1 && b[0] == 1);
            },
            Message::Interested => {
                assert(b.len() == 1 && b[0] == 2);
            },
            Message::NotInterested => {
                assert(b.len() == 1 && b[0] == 3);
            },
            Message::Have(h) => {
                assert(b.len() == 5 && b[0] == 4);
                assert(b.subrange(1, 5) =~= be32(h));
                let h0 = r->Ok_0->Have_0;
                lemma_be32_injective(h, h0);
            },
            Message::Request(br) => {
                assert(b.len() == 13 && b[0] == 6);
                assert(b.subrange(1, 13) =~= block_request_bytes(br));
                let br0 = r->Ok_0->Request_0;
                lemma_block_request_bytes_injective(br, br0);
            },
            Message::Cancel(br) => {
                assert(b.len() == 13 && b[0] == 8);
                assert(b.subrange(1, 13) =~= block_request_bytes(br));
                let br0 = r->Ok_0->Cancel_0;
                lemma_block_request_bytes_injective(br, br0);
            },
            Message::Port(p) => {
                assert(b.len() == 3 && b[0] == 9);
                assert(b.subrange(1, 3) =~= be16(p));
                let p0 = r->Ok_0->Port_0;
                lemma_be16_injective(p, p0);
            },
            _ => {},
        }
    }
}

/// The payload of a message with a scalar body starts with its id byte.
proof fn lemma_payload_first(m: Message)
    requires
        scalar_payload(m),
    ensures
        payload_bytes(m).len() >= 1,
        payload_bytes(m)[0] == msg_id(m),
{
    match m {
        Message::Have(_) => {},
        Message::Request(_) => {},
        Message::Cancel(_) => {},
        Message::Port(_) => {},
        _ => {},
    }
}

/// Frame symmetry: a message with a fully scalar payload is determined
/// by its serialised payload, so reading the frame of such a message
/// back — as [`Message::from_bytes`] promises for every matching
/// payload — yields that very message.
pub proof fn theorem_frame_symmetry(m1: Message, m2: Message)
    requires
        scalar_payload(m1),
        scalar_payload(m2),
        payload_bytes(m1) == payload_bytes(m2),
    ensures
        m1 == m2,
{
    lemma_payload_first(m1);
    lemma_payload_first(m2);
    assert(msg_id(m1) == msg_id(m2));
    match m1 {
        Message::Have(a) => {
            assert(m2 is Have);
            let b = m2->Have_0;
            assert(payload_bytes(m1).subrange(1, 5) =~= be32(a));
            assert(payload_bytes(m2).subrange(1, 5) =~= be32(b));
            lemma_be32_injective(a, b);
        },
        Message::Request(a) => {
            assert(m2 is Request);
            let b = m2->Request_0;
            assert(payload_bytes(m1).subrange(1, 13) =~= block_request_bytes(a));
            assert(payload_bytes(m2).subrange(1, 13) =~= block_request_bytes(b));
            lemma_block_request_bytes_injective(a, b);
        },
        Message::Cancel(a) => {
            assert(m2 is Cancel);
            let b = m2->Cancel_0;
            assert(payload_bytes(m1).subrange(1, 13) =~= block_request_bytes(a));
            assert(payload_bytes(m2).subrange(1, 13) =~= block_request_bytes(b));
            lemma_block_request_bytes_injective(a, b);
        },
        Message::Port(a) => {
            assert(m2 is Port);
            let b = m2->Port_0;
            assert(payload_bytes(m1).subrange(1, 3) =~= be16(a));
            assert(payload_bytes(m2).subrange(1, 3) =~= be16(b));
            lemma_be16_injective(a, b);
        },
        _ => {},
    }
}

/// Handshake symmetry: the 68 wire bytes of a handshake decompose into
/// exactly the fields they were built from, so reading a serialised
/// handshake back yields an equal message.
pub proof fn theorem_handshake_symmetry(h: HandshakeMessage)
    ensures
        handshake_bytes(h).len() == 68,
        handshake_bytes(h)[0] == 19,
        handshake_bytes(h).subrange(1, 20) == protocol_bytes(),
        handshake_bytes(h).subrange(20, 28) == h.extension_bytes@,
        handshake_bytes(h).subrange(28, 48) == h.info_hash@,
        handshake_bytes(h).subrange(48, 68) == h.peer_id.spec_bytes()@,
{
    assert(handshake_bytes(h).subrange(1, 20) =~= protocol_bytes());
    assert(handshake_bytes(h).subrange(20, 28) =~= h.extension_bytes@);
    assert(handshake_bytes(h).subrange(28, 48) =~= h.info_hash@);
    assert(handshake_bytes(h).subrange(48, 68) =~= h.peer_id.spec_bytes()@);
}

} // verus!
