//! The handshake that opens a connection to a peer: 68 bytes made of the
//! length of the protocol name, the protocol name, 8 reserved bytes, the info
//! hash and the peer id.
use vstd::prelude::*;

use crate::utils::text::{hex_string, hex_text, string_from_utf8};

verus! {

/// The protocol name, `BitTorrent protocol`.
pub open spec fn protocol_name() -> Seq<char> {
    seq![
        'B', 'i', 't', 'T', 'o', 'r', 'r', 'e', 'n', 't', ' ', 'p', 'r', 'o', 't', 'o', 'c', 'o',
        'l',
    ]
}

/// A handshake in mathematical form.
pub struct HandshakeView {
    pub length: u8,
    pub string: Seq<char>,
    pub reserved: Seq<u8>,
    pub info_hash: Seq<u8>,
    pub peer_id: Seq<u8>,
}

/// The bytes of a handshake, in the order length, protocol name, reserved
/// bytes, info hash, peer id.
pub open spec fn handshake_bytes(h: HandshakeView) -> Seq<u8> {
    seq![h.length] + vstd::utf8::encode_utf8(h.string) + h.reserved + h.info_hash + h.peer_id
}

/// The handshake read from `buf`: byte 0 is the length, bytes 1 to 19 the
/// protocol name, 20 to 27 the reserved bytes, 28 to 47 the info hash and the
/// rest the peer id.
pub open spec fn parse_view(buf: Seq<u8>) -> HandshakeView {
    HandshakeView {
        length: buf[0],
        string: vstd::utf8::decode_utf8(buf.subrange(1, 20)),
        reserved: buf.subrange(20, 28),
        info_hash: buf.subrange(28, 48),
        peer_id: buf.skip(48),
    }
}

/// Whether `buf` can be read as a handshake: it holds at least 48 bytes and
/// its protocol name is UTF-8.
pub open spec fn parsable(buf: Seq<u8>) -> bool {
    buf.len() >= 48 && vstd::utf8::valid_utf8(buf.subrange(1, 20))
}

/// Whether the reserved bytes announce the extension for magnet links: bit 4
/// of byte 5 (the 20th bit from the right of the 64).
pub open spec fn magnet_bit(reserved: Seq<u8>) -> bool {
    reserved[5] & 0x10u8 != 0
}

#[derive(Debug, Default)]
pub struct Handshake {
    /// Length of the protocol name, `19`, 1 byte.
    length: u8,
    /// The protocol name `BitTorrent protocol` (19 bytes).
    string: String,
    /// 8 reserved bytes which are all initialized to 0 (8 bytes).
    pub reserved: Vec<u8>,
    /// SHA-1 info hash (20 bytes).
    info_hash: Vec<u8>,
    /// Peer id, 20 bytes.
    pub peer_id: Vec<u8>,
}

impl Handshake {
    pub closed spec fn view(&self) -> HandshakeView {
        HandshakeView {
            length: self.length,
            string: self.string@,
            reserved: self.reserved@,
            info_hash: self.info_hash@,
            peer_id: self.peer_id@,
        }
    }

    /// Initialize the struct with parameter required for handshaking.
    pub fn init(info_hash: Vec<u8>, self_peer_id: Vec<u8>) -> (r: Self)
        ensures
            r@ == (HandshakeView {
                length: 19,
                string: protocol_name(),
                reserved: seq![0u8, 0u8, 0u8, 0u8, 0u8, 0u8, 0u8, 0u8],
                info_hash: info_hash@,
                peer_id: self_peer_id@,
            }),
    {
        let name = "BitTorrent protocol";
        proof {
            reveal_strlit("BitTorrent protocol");
        }
        let string = String::from_str(name);
        let reserved = vec![0u8; 8];
        assert(reserved@ =~= seq![0u8, 0u8, 0u8, 0u8, 0u8, 0u8, 0u8, 0u8]);
        assert(string@ =~= protocol_name());
        Handshake { length: 19, string, reserved, info_hash, peer_id: self_peer_id }
    }

    /// Converts all the fields into bytes, in the order `length`, `string`,
    /// `reserved`, `info_hash`, `peer_id`.
    pub fn to_bytes(&self) -> (r: Vec<u8>)
        ensures
            r@ == handshake_bytes(self@),
    {
        let mut buffer: Vec<u8> = Vec::with_capacity(68);
        buffer.push(self.length);
        buffer.extend_from_slice(self.string.as_str().as_bytes());
        buffer.extend_from_slice(self.reserved.as_slice());
        buffer.extend_from_slice(self.info_hash.as_slice());
        buffer.extend_from_slice(self.peer_id.as_slice());
        assert(buffer@ =~= handshake_bytes(self@));
        buffer
    }

    /// The extension for magnet links: sets bit 4 of reserved byte 5 (the
    /// 20th bit from the right, counting from 0, of the 64 reserved bits).
    pub fn reserve_magnetlink(&mut self) -> (r: &Self)
        requires
            old(self)@.reserved.len() > 5,
        ensures
            final(self)@.reserved == old(self)@.reserved.update(5, old(self)@.reserved[5] | 0x10u8),
            final(self)@.length == old(self)@.length,
            final(self)@.string == old(self)@.string,
            final(self)@.info_hash == old(self)@.info_hash,
            final(self)@.peer_id == old(self)@.peer_id,
            magnet_bit(final(self)@.reserved),
            *r == *final(self),
    {
        let x = self.reserved[5];
        let b = x | 0x10u8;
        assert(b & 0x10u8 != 0) by (bit_vector)
            requires
                b == x | 0x10u8,
        ;
        self.reserved.set(5, b);
        self
    }

    /// The peer id in lower-case hexadecimal.
    pub fn remote_peer_id(&self) -> (r: String)
        ensures
            r@ == hex_text(self@.peer_id, false),
    {
        hex_string(self.peer_id.as_slice())
    }

    /// Whether the reserved bytes announce the extension for magnet links.
    pub fn is_magnet_supported(&self) -> (r: bool)
        requires
            self@.reserved.len() > 5,
        ensures
            r == magnet_bit(self@.reserved),
    {
        self.reserved[5] & 0x10u8 != 0
    }

    /// Whether `buf` can be read as a handshake.
    pub fn is_parsable(buf: &[u8]) -> (r: bool)
        ensures
            r == parsable(buf@),
    {
        if buf.len() < 48 {
            return false;
        }
        let name = vstd::slice::slice_to_vec(&buf[1..20]);
        assert(name@ =~= buf@.subrange(1, 20));
        match string_from_utf8(name) {
            Some(_) => true,
            None => false,
        }
    }

    /// Reads the handshake a peer sent back. A reply is 68 bytes; the peer id
    /// is whatever follows the info hash.
    pub fn parse_handshake(&self, buf: &[u8]) -> (r: Handshake)
        requires
            parsable(buf@),
        ensures
            r@ == parse_view(buf@),
    {
        let length = buf[0];
        let name = vstd::slice::slice_to_vec(&buf[1..20]);
        assert(name@ =~= buf@.subrange(1, 20));
        let string = match string_from_utf8(name) {
            Some(s) => s,
            None => String::new(),
        };
        let reserved = vstd::slice::slice_to_vec(&buf[20..28]);
        let info_hash = vstd::slice::slice_to_vec(&buf[28..48]);
        let peer_id = vstd::slice::slice_to_vec(&buf[48..buf.len()]);
        assert(peer_id@ =~= buf@.skip(48));
        Handshake { length, string, reserved, info_hash, peer_id }
    }
}

/// A handshake written out and read back is the same handshake, when its
/// protocol name takes 19 bytes, its reserved bytes 8 and its info hash 20.
pub proof fn lemma_handshake_roundtrip(h: HandshakeView)
    requires
        vstd::utf8::encode_utf8(h.string).len() == 19,
        h.reserved.len() == 8,
        h.info_hash.len() == 20,
    ensures
        parsable(handshake_bytes(h)),
        parse_view(handshake_bytes(h)) == h,
{
    let b = handshake_bytes(h);
    let name = vstd::utf8::encode_utf8(h.string);
    assert(b.subrange(1, 20) =~= name);
    vstd::utf8::encode_utf8_valid_utf8(h.string);
    vstd::utf8::encode_utf8_decode_utf8(h.string);
    assert(b.subrange(20, 28) =~= h.reserved);
    assert(b.subrange(28, 48) =~= h.info_hash);
    assert(b.skip(48) =~= h.peer_id);
}

/// A freshly made handshake, written out, is 68 bytes when the info hash and
/// the peer id take 20 bytes each, and it announces no extension until the
/// magnet-link bit is reserved.
pub proof fn lemma_init_bytes(info_hash: Seq<u8>, peer_id: Seq<u8>)
    requires
        info_hash.len() == 20,
        peer_id.len() == 20,
    ensures
        ({
            let h = HandshakeView {
                length: 19,
                string: protocol_name(),
                reserved: seq![0u8, 0u8, 0u8, 0u8, 0u8, 0u8, 0u8, 0u8],
                info_hash,
                peer_id,
            };
            &&& handshake_bytes(h).len() == 68
            &&& !magnet_bit(h.reserved)
        }),
{
    let reserved = seq![0u8, 0u8, 0u8, 0u8, 0u8, 0u8, 0u8, 0u8];
    let z: u8 = 0;
    assert(z & 0x10u8 == 0) by (bit_vector)
        requires
            z == 0u8,
    ;
    assert(reserved[5] == z);
    vstd::utf8::is_ascii_chars_encode_utf8(protocol_name());
}

} // verus!
