//! A handshake that borrows its info hash and peer id, and the reply it reads
//! back from a peer.
use vstd::prelude::*;

use crate::connection::handshake::{parsable, protocol_name};
use crate::utils::text::string_from_utf8;

verus! {

#[derive(Debug)]
pub struct Handshake<'a> {
    /// Length of the protocol name, `19`, 1 byte.
    length: u8,
    /// The protocol name `BitTorrent protocol` (19 bytes).
    string: &'a str,
    /// 8 reserved bytes which are all initialized to 0 (8 bytes).
    reserved: Vec<u8>,
    /// SHA-1 info hash (20 bytes).
    info_hash: &'a Vec<u8>,
    /// Peer id, 20 bytes.
    peer_id: &'a [u8],
}

/// The handshake a peer sent back.
#[derive(Debug)]
pub struct HandshakeReply {
    pub length: u8,
    pub string: String,
    pub reserved: Vec<u8>,
    pub info_hash: Vec<u8>,
    pub peer_id: Vec<u8>,
}

impl<'a> Handshake<'a> {
    /// The bytes this handshake is written as.
    pub closed spec fn wire_bytes(&self) -> Seq<u8> {
        seq![self.length] + vstd::utf8::encode_utf8(self.string@) + self.reserved@ + self.info_hash@
            + self.peer_id@
    }

    /// Initialize the struct with parameter required for handshaking.
    pub fn init(info_hash: &'a Vec<u8>, peer_id: &'a [u8]) -> (r: Self)
        ensures
            r.wire_bytes() == seq![19u8] + vstd::utf8::encode_utf8(protocol_name()) + seq![
                0u8,
                0u8,
                0u8,
                0u8,
                0u8,
                0u8,
                0u8,
                0u8,
            ] + info_hash@ + peer_id@,
    {
        let string = "BitTorrent protocol";
        proof {
            reveal_strlit("BitTorrent protocol");
        }
        assert(string@ =~= protocol_name());
        let reserved = vec![0u8; 8];
        assert(reserved@ =~= seq![0u8, 0u8, 0u8, 0u8, 0u8, 0u8, 0u8, 0u8]);
        Handshake { length: 19, string, reserved, info_hash, peer_id }
    }

    /// Converts all the fields into bytes, in the order `length`, `string`,
    /// `reserved`, `info_hash`, `peer_id`.
    pub fn to_bytes(&self) -> (r: Vec<u8>)
        ensures
            r@ == self.wire_bytes(),
    {
        let mut buffer: Vec<u8> = Vec::with_capacity(68);
        buffer.push(self.length);
        buffer.extend_from_slice(self.string.as_bytes());
        buffer.extend_from_slice(self.reserved.as_slice());
        buffer.extend_from_slice(self.info_hash.as_slice());
        buffer.extend_from_slice(self.peer_id);
        assert(buffer@ =~= self.wire_bytes());
        buffer
    }

    /// Reads the handshake a peer sent back: byte 0 is the length, bytes 1 to
    /// 19 the protocol name, 20 to 27 the reserved bytes, 28 to 47 the info
    /// hash and the rest the peer id.
    pub fn parse_handshake(&self, buf: &[u8]) -> (r: HandshakeReply)
        requires
            parsable(buf@),
        ensures
            r.length == buf@[0],
            r.string@ == vstd::utf8::decode_utf8(buf@.subrange(1, 20)),
            r.reserved@ == buf@.subrange(20, 28),
            r.info_hash@ == buf@.subrange(28, 48),
            r.peer_id@ == buf@.skip(48),
    {
        let length = buf[0];
        let name = vstd::slice::slice_to_vec(&buf[1..20]);
        assert(name@ =~= buf@.subrange(1, 20));
        let string = match string_from_utf8(name) {
            Some(s) => s,
            None => String::new(),
        };
        let reserved = vstd::slice::slice_to_vec(&buf[20..28]);
        let info_hash = vstd::slice::slice_to_vec(&buf[28..48]);
        let peer_id = vstd::slice::slice_to_vec(&buf[48..buf.len()]);
        assert(peer_id@ =~= buf@.skip(48));
        HandshakeReply { length, string, reserved, info_hash, peer_id }
    }
}

/// The handshake this client sends reads back as a reply with the same
/// fields: length 19, the protocol name, zero reserved bytes, its info hash
/// and its peer id (when the info hash takes 20 bytes).
pub proof fn lemma_reply_of_own_handshake(info_hash: Seq<u8>, peer_id: Seq<u8>)
    requires
        info_hash.len() == 20,
    ensures
        ({
            let b = seq![19u8] + vstd::utf8::encode_utf8(protocol_name()) + seq![
                0u8,
                0u8,
                0u8,
                0u8,
                0u8,
                0u8,
                0u8,
                0u8,
            ] + info_hash + peer_id;
            &&& parsable(b)
            &&& b[0] == 19
            &&& vstd::utf8::decode_utf8(b.subrange(1, 20)) == protocol_name()
            &&& b.subrange(20, 28) == seq![0u8, 0u8, 0u8, 0u8, 0u8, 0u8, 0u8, 0u8]
            &&& b.subrange(28, 48) == info_hash
            &&& b.skip(48) == peer_id
        }),
{
    let name = vstd::utf8::encode_utf8(protocol_name());
    vstd::utf8::is_ascii_chars_encode_utf8(protocol_name());
    let b = seq![19u8] + name + seq![0u8, 0u8, 0u8, 0u8, 0u8, 0u8, 0u8, 0u8] + info_hash
        + peer_id;
    assert(b.subrange(1, 20) =~= name);
    vstd::utf8::encode_utf8_valid_utf8(protocol_name());
    vstd::utf8::encode_utf8_decode_utf8(protocol_name());
    assert(b.subrange(20, 28) =~= seq![0u8, 0u8, 0u8, 0u8, 0u8, 0u8, 0u8, 0u8]);
    assert(b.subrange(28, 48) =~= info_hash);
    assert(b.skip(48) =~= peer_id);
}

} // verus!
