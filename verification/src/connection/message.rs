//! Peer wire messages: their decoding from a frame, the frames this client
//! sends, and the pieces announced by a bitfield.
//!
//! A frame is a 4-byte big-endian length, then a one-byte message id, then
//! `length - 1` bytes of payload.
use vstd::prelude::*;
use std::collections::HashSet;

verus! {

broadcast use vstd::std_specs::hash::group_hash_axioms;

/// Messages to send to a peer. It's to exchange multiple peer messages to download the file.
#[derive(Debug, PartialEq, Eq, Clone)]
pub enum MessageType {
    /// Not uploading to them right now. Has no payload.
    Choke,
    /// Allowing to upload to them. Has no payload.
    Unchoke,
    /// To receive something another peer has. Has no payload.
    Interested,
    /// To not receive something another peer has. Has no payload.
    NotInterested,
    /// The index of a piece that the peer just completed and checked the hash of.
    Have(u32),
    /// A bitfield in which each piece that the peer has is set to one.
    BitField(Vec<u8>),
    /// Requesting `length` bytes of piece `index`, from byte offset `begin`.
    Request { index: u32, begin: u32, length: u32 },
    /// Response to a request: a block of piece `index` at offset `begin`.
    Piece { index: u32, begin: u32, block: Vec<u8> },
    /// Withdraws an earlier request; same payload as `Request`.
    Cancel { index: u32, begin: u32, length: u32 },
    /// Extended protocol message: extension message id and its payload.
    Extended(u8, Vec<u8>),
    /// Any other message id, with its payload.
    Unknown(u8, Vec<u8>),
}

/// A message in mathematical form.
pub enum MessageView {
    Choke,
    Unchoke,
    Interested,
    NotInterested,
    Have(u32),
    BitField(Seq<u8>),
    Request { index: u32, begin: u32, length: u32 },
    Piece { index: u32, begin: u32, block: Seq<u8> },
    Cancel { index: u32, begin: u32, length: u32 },
    Extended(u8, Seq<u8>),
    Unknown(u8, Seq<u8>),
}

impl MessageType {
    pub open spec fn view(&self) -> MessageView {
        match self {
            MessageType::Choke => MessageView::Choke,
            MessageType::Unchoke => MessageView::Unchoke,
            MessageType::Interested => MessageView::Interested,
            MessageType::NotInterested => MessageView::NotInterested,
            MessageType::Have(i) => MessageView::Have(*i),
            MessageType::BitField(b) => MessageView::BitField(b@),
            MessageType::Request { index, begin, length } => MessageView::Request {
                index: *index,
                begin: *begin,
                length: *length,
            },
            MessageType::Piece { index, begin, block } => MessageView::Piece {
                index: *index,
                begin: *begin,
                block: block@,
            },
            MessageType::Cancel { index, begin, length } => MessageView::Cancel {
                index: *index,
                begin: *begin,
                length: *length,
            },
            MessageType::Extended(id, p) => MessageView::Extended(*id, p@),
            MessageType::Unknown(id, p) => MessageView::Unknown(*id, p@),
        }
    }
}

/// The four bytes of `x`, most significant first.
pub open spec fn be_bytes(x: u32) -> Seq<u8> {
    seq![(x >> 24u32) as u8, (x >> 16u32) as u8, (x >> 8u32) as u8, x as u8]
}

/// The number that four bytes denote, most significant first.
pub open spec fn be_value(a: u8, b: u8, c: u8, d: u8) -> u32 {
    ((a as u32) << 24u32) | ((b as u32) << 16u32) | ((c as u32) << 8u32) | (d as u32)
}

/// The big-endian number at `s[at..at + 4]`.
pub open spec fn be_at(s: Seq<u8>, at: int) -> u32 {
    be_value(s[at], s[at + 1], s[at + 2], s[at + 3])
}

/// Writing a number as four bytes and reading them back gives the number.
pub proof fn lemma_be_roundtrip(x: u32)
    ensures
        be_at(be_bytes(x), 0) == x,
{
    let a = (x >> 24u32) as u8;
    let b = (x >> 16u32) as u8;
    let c = (x >> 8u32) as u8;
    let d = x as u8;
    assert(be_value(a, b, c, d) == x) by (bit_vector)
        requires
            a == (x >> 24u32) as u8,
            b == (x >> 16u32) as u8,
            c == (x >> 8u32) as u8,
            d == x as u8,
    ;
}

/// The payload that a message id needs: four bytes for `have`, eight for
/// `piece`, twelve for `request` and `cancel`.
pub open spec fn payload_fits(id: u8, len: nat) -> bool {
    &&& id == 4 ==> len >= 4
    &&& (id == 6 || id == 8) ==> len >= 12
    &&& id == 7 ==> len >= 8
}

/// Whether a payload of `len` bytes is long enough for message id `id`.
pub fn message_fits(id: u8, len: usize) -> (r: bool)
    ensures
        r == payload_fits(id, len as nat),
{
    if id == 4 {
        len >= 4
    } else if id == 6 || id == 8 {
        len >= 12
    } else if id == 7 {
        len >= 8
    } else {
        true
    }
}

/// The message that id `id` with payload `p` stands for.
pub open spec fn spec_message(id: u8, p: Seq<u8>) -> MessageView {
    if id == 0 {
        MessageView::Choke
    } else if id == 1 {
        MessageView::Unchoke
    } else if id == 2 {
        MessageView::Interested
    } else if id == 3 {
        MessageView::NotInterested
    } else if id == 4 {
        MessageView::Have(be_at(p, 0))
    } else if id == 5 {
        MessageView::BitField(p)
    } else if id == 6 {
        MessageView::Request { index: be_at(p, 0), begin: be_at(p, 4), length: be_at(p, 8) }
    } else if id == 7 {
        MessageView::Piece { index: be_at(p, 0), begin: be_at(p, 4), block: p.skip(8) }
    } else if id == 8 {
        MessageView::Cancel { index: be_at(p, 0), begin: be_at(p, 4), length: be_at(p, 8) }
    } else if id == 20 {
        if p.len() >= 1 {
            MessageView::Extended(p[0], p.skip(1))
        } else {
            MessageView::Extended(0, p)
        }
    } else {
        MessageView::Unknown(id, p)
    }
}

/// Reads the big-endian number at `s[at..at + 4]`.
pub fn read_be_u32(s: &[u8], at: usize) -> (r: u32)
    requires
        at + 4 <= s@.len(),
    ensures
        r == be_at(s@, at as int),
{
    ((s[at] as u32) << 24u32) | ((s[at + 1] as u32) << 16u32) | ((s[at + 2] as u32) << 8u32) | (
    s[at + 3] as u32)
}

/// Appends the four big-endian bytes of `x`.
fn push_be_u32(v: &mut Vec<u8>, x: u32)
    ensures
        final(v)@ == old(v)@ + be_bytes(x),
{
    v.push((x >> 24u32) as u8);
    v.push((x >> 16u32) as u8);
    v.push((x >> 8u32) as u8);
    v.push(x as u8);
    assert(final(v)@ =~= old(v)@ + be_bytes(x));
}

/// The length that a frame header announces (its first four bytes).
pub fn frame_length(header: &[u8]) -> (r: u32)
    requires
        header@.len() >= 4,
    ensures
        r == be_at(header@, 0),
{
    read_be_u32(header, 0)
}

/// Decodes the message with id `msg_id` from its payload.
pub fn parse_message(msg_id: u8, payload: &[u8]) -> (r: MessageType)
    requires
        payload_fits(msg_id, payload@.len()),
    ensures
        r@ == spec_message(msg_id, payload@),
{
    if msg_id == 0 {
        MessageType::Choke
    } else if msg_id == 1 {
        MessageType::Unchoke
    } else if msg_id == 2 {
        MessageType::Interested
    } else if msg_id == 3 {
        MessageType::NotInterested
    } else if msg_id == 4 {
        MessageType::Have(read_be_u32(payload, 0))
    } else if msg_id == 5 {
        MessageType::BitField(vstd::slice::slice_to_vec(payload))
    } else if msg_id == 6 {
        MessageType::Request {
            index: read_be_u32(payload, 0),
            begin: read_be_u32(payload, 4),
            length: read_be_u32(payload, 8),
        }
    } else if msg_id == 7 {
        let block = vstd::slice::slice_to_vec(&payload[8..payload.len()]);
        assert(block@ =~= payload@.skip(8));
        MessageType::Piece {
            index: read_be_u32(payload, 0),
            begin: read_be_u32(payload, 4),
            block,
        }
    } else if msg_id == 8 {
        MessageType::Cancel {
            index: read_be_u32(payload, 0),
            begin: read_be_u32(payload, 4),
            length: read_be_u32(payload, 8),
        }
    } else if msg_id == 20 {
        if payload.len() >= 1 {
            let rest = vstd::slice::slice_to_vec(&payload[1..payload.len()]);
            assert(rest@ =~= payload@.skip(1));
            MessageType::Extended(payload[0], rest)
        } else {
            MessageType::Extended(0, vstd::slice::slice_to_vec(payload))
        }
    } else {
        MessageType::Unknown(msg_id, vstd::slice::slice_to_vec(payload))
    }
}

/// Decodes a frame whose announced length is `msg_len` and whose id byte is
/// `msg_id`. A zero length is a keep-alive, reported as `Unknown(0, [])`.
pub fn decode_frame(msg_len: u32, msg_id: u8, payload: &[u8]) -> (r: MessageType)
    requires
        msg_len == 0 || payload_fits(msg_id, payload@.len()),
    ensures
        msg_len == 0 ==> r@ == MessageView::Unknown(0, Seq::empty()),
        msg_len != 0 ==> r@ == spec_message(msg_id, payload@),
{
    if msg_len == 0 {
        let v: Vec<u8> = Vec::new();
        MessageType::Unknown(0, v)
    } else {
        parse_message(msg_id, payload)
    }
}

/// The frame of a `request` message.
pub open spec fn spec_request_frame(index: u32, begin: u32, length: u32) -> Seq<u8> {
    be_bytes(13) + seq![6u8] + be_bytes(index) + be_bytes(begin) + be_bytes(length)
}

/// Message type `request` (id 6): asks for `length` bytes of piece `index`
/// from offset `begin`. Offsets and lengths are sent as 32-bit numbers.
pub fn request_message(index: u32, length: usize, begin: usize) -> (r: Vec<u8>)
    ensures
        r@ == spec_request_frame(index, begin as u32, length as u32),
        r@.len() == 17,
{
    let mut msg: Vec<u8> = Vec::with_capacity(17);
    push_be_u32(&mut msg, 13);
    msg.push(6);
    push_be_u32(&mut msg, index);
    push_be_u32(&mut msg, begin as u32);
    push_be_u32(&mut msg, length as u32);
    assert(msg@ =~= spec_request_frame(index, begin as u32, length as u32));
    msg
}

/// The frame of an `interested` message.
pub fn interested_message() -> (r: Vec<u8>)
    ensures
        r@ == seq![0u8, 0u8, 0u8, 1u8, 2u8],
{
    let r = vec![0u8, 0u8, 0u8, 1u8, 2u8];
    assert(r@ =~= seq![0u8, 0u8, 0u8, 1u8, 2u8]);
    r
}

/// A request frame decodes back to the request it was made from: its header
/// announces thirteen bytes, its id is `request`, and its payload gives back
/// the index, the offset and the length.
pub proof fn lemma_request_roundtrip(index: u32, begin: u32, length: u32)
    ensures
        ({
            let f = spec_request_frame(index, begin, length);
            &&& be_at(f, 0) == 13
            &&& f[4] == 6
            &&& f.len() == 17
            &&& payload_fits(6, (f.len() - 5) as nat)
            &&& spec_message(f[4], f.skip(5)) == MessageView::Request { index, begin, length }
        }),
{
    let f = spec_request_frame(index, begin, length);
    let p = f.skip(5);
    lemma_be_roundtrip(13);
    lemma_be_roundtrip(index);
    lemma_be_roundtrip(begin);
    lemma_be_roundtrip(length);
    assert(p.subrange(0, 4) =~= be_bytes(index));
    assert(p.subrange(4, 8) =~= be_bytes(begin));
    assert(p.subrange(8, 12) =~= be_bytes(length));
    assert(f.subrange(0, 4) =~= be_bytes(13));
    assert(be_at(p, 0) == be_at(be_bytes(index), 0));
    assert(be_at(p, 4) == be_at(be_bytes(begin), 0));
    assert(be_at(p, 8) == be_at(be_bytes(length), 0));
    assert(be_at(f, 0) == be_at(be_bytes(13), 0));
}

/// The frame of a message with id `id` and payload `p`: its length (the id
/// byte and the payload), the id, the payload.
pub open spec fn frame_of(id: u8, p: Seq<u8>) -> Seq<u8> {
    be_bytes((p.len() + 1) as u32) + seq![id] + p
}

/// What a frame announces and holds: its length field, id and payload read
/// back from the bytes.
proof fn lemma_frame_parts(id: u8, p: Seq<u8>)
    requires
        p.len() + 1 <= u32::MAX,
    ensures
        be_at(frame_of(id, p), 0) == p.len() + 1,
        frame_of(id, p)[4] == id,
        frame_of(id, p).skip(5) == p,
        frame_of(id, p).len() == p.len() + 5,
{
    let f = frame_of(id, p);
    lemma_be_roundtrip((p.len() + 1) as u32);
    assert(f.subrange(0, 4) =~= be_bytes((p.len() + 1) as u32));
    assert(be_at(f, 0) == be_at(be_bytes((p.len() + 1) as u32), 0));
    assert(f.skip(5) =~= p);
}

/// A `piece` frame decodes back to the block it carries, for every index,
/// offset and block: the index and offset are read whole, all 32 bits of
/// each, and the block is every byte after them.
pub proof fn lemma_piece_roundtrip(index: u32, begin: u32, block: Seq<u8>)
    requires
        block.len() + 9 <= u32::MAX,
    ensures
        ({
            let f = frame_of(7, be_bytes(index) + be_bytes(begin) + block);
            &&& be_at(f, 0) == block.len() + 9
            &&& f[4] == 7
            &&& payload_fits(7, (f.len() - 5) as nat)
            &&& spec_message(f[4], f.skip(5)) == MessageView::Piece { index, begin, block }
        }),
{
    let p = be_bytes(index) + be_bytes(begin) + block;
    lemma_frame_parts(7, p);
    lemma_be_roundtrip(index);
    lemma_be_roundtrip(begin);
    assert(p.subrange(0, 4) =~= be_bytes(index));
    assert(p.subrange(4, 8) =~= be_bytes(begin));
    assert(be_at(p, 0) == be_at(be_bytes(index), 0));
    assert(be_at(p, 4) == be_at(be_bytes(begin), 0));
    assert(p.skip(8) =~= block);
}

/// A `have` frame decodes back to the piece it announces, for every piece.
pub proof fn lemma_have_roundtrip(index: u32)
    ensures
        ({
            let f = frame_of(4, be_bytes(index));
            &&& be_at(f, 0) == 5
            &&& f[4] == 4
            &&& payload_fits(4, (f.len() - 5) as nat)
            &&& spec_message(f[4], f.skip(5)) == MessageView::Have(index)
        }),
{
    let p = be_bytes(index);
    lemma_frame_parts(4, p);
    lemma_be_roundtrip(index);
}

/// A `cancel` frame decodes back to the request it withdraws.
pub proof fn lemma_cancel_roundtrip(index: u32, begin: u32, length: u32)
    ensures
        ({
            let f = frame_of(8, be_bytes(index) + be_bytes(begin) + be_bytes(length));
            &&& be_at(f, 0) == 13
            &&& f[4] == 8
            &&& payload_fits(8, (f.len() - 5) as nat)
            &&& spec_message(f[4], f.skip(5)) == MessageView::Cancel { index, begin, length }
        }),
{
    let p = be_bytes(index) + be_bytes(begin) + be_bytes(length);
    lemma_frame_parts(8, p);
    lemma_be_roundtrip(index);
    lemma_be_roundtrip(begin);
    lemma_be_roundtrip(length);
    assert(p.subrange(0, 4) =~= be_bytes(index));
    assert(p.subrange(4, 8) =~= be_bytes(begin));
    assert(p.subrange(8, 12) =~= be_bytes(length));
    assert(be_at(p, 0) == be_at(be_bytes(index), 0));
    assert(be_at(p, 4) == be_at(be_bytes(begin), 0));
    assert(be_at(p, 8) == be_at(be_bytes(length), 0));
}

/// A `bitfield` frame decodes back to its bytes, and an extended frame to
/// its extension id and payload.
pub proof fn lemma_bitfield_extended_roundtrip(bits: Seq<u8>, ext: u8, payload: Seq<u8>)
    requires
        bits.len() + 1 <= u32::MAX,
        payload.len() + 2 <= u32::MAX,
    ensures
        spec_message(frame_of(5, bits)[4], frame_of(5, bits).skip(5)) == MessageView::BitField(bits),
        spec_message(frame_of(20, seq![ext] + payload)[4], frame_of(20, seq![ext] + payload).skip(5))
            == MessageView::Extended(ext, payload),
{
    lemma_frame_parts(5, bits);
    lemma_frame_parts(20, seq![ext] + payload);
    assert((seq![ext] + payload).skip(1) =~= payload);
}

/// The `interested` frame decodes to `Interested`.
pub proof fn lemma_interested_roundtrip()
    ensures
        ({
            let f = seq![0u8, 0u8, 0u8, 1u8, 2u8];
            &&& be_at(f, 0) == 1
            &&& spec_message(f[4], f.skip(5)) == MessageView::Interested
        }),
{
    let f = seq![0u8, 0u8, 0u8, 1u8, 2u8];
    assert(be_value(0, 0, 0, 1) == 1) by (bit_vector);
}

/// Bit `i` of a bitfield, counting from the most significant bit of the first
/// byte.
pub open spec fn bit_set(p: Seq<u8>, i: int) -> bool {
    ((p[i / 8] >> (7 - i % 8) as u8) & 1u8) == 1u8
}

/// The pieces that a bitfield announces, below `limit`.
pub open spec fn announced(p: Seq<u8>, limit: int) -> Set<u32> {
    Set::new(|k: u32| k < 8 * p.len() && k < limit && bit_set(p, k as int))
}

/// The pieces that a bitfield announces: piece `8 * i + j` for each bit `j`
/// (from the most significant) set in byte `i`, below `limit` when one is
/// given.
pub fn bitfield_pieces(payload: &[u8], limit: Option<u32>) -> (r: HashSet<u32>)
    requires
        8 * payload@.len() <= 0x1_0000_0000,
    ensures
        r@ == announced(
            payload@,
            match limit {
                Some(l) => l as int,
                None => 0x1_0000_0000,
            },
        ),
{
    let ghost lim: int = match limit {
        Some(l) => l as int,
        None => 0x1_0000_0000,
    };
    let mut set: HashSet<u32> = HashSet::new();
    let mut byte_idx: usize = 0;
    while byte_idx < payload.len()
        invariant
            byte_idx <= payload@.len(),
            8 * payload@.len() <= 0x1_0000_0000,
            lim == match limit {
                Some(l) => l as int,
                None => 0x1_0000_0000,
            },
            set@ == Set::new(
                |k: u32| k < 8 * byte_idx && k < lim && bit_set(payload@, k as int),
            ),
        decreases payload@.len() - byte_idx,
    {
        let byte = payload[byte_idx];
        let mut bit: u32 = 0;
        while bit < 8
            invariant
                byte_idx < payload@.len(),
                8 * payload@.len() <= 0x1_0000_0000,
                byte == payload@[byte_idx as int],
                bit <= 8,
                lim == match limit {
                    Some(l) => l as int,
                    None => 0x1_0000_0000,
                },
                set@ == Set::new(
                    |k: u32| k < 8 * byte_idx + bit && k < lim && bit_set(payload@, k as int),
                ),
            decreases 8 - bit,
        {
            let piece: u32 = (byte_idx as u32) * 8 + bit;
            let shift: u8 = (7 - bit) as u8;
            let within = match limit {
                Some(l) => piece < l,
                None => true,
            };
            let ghost before = set@;
            if (byte >> shift) & 1u8 == 1u8 && within {
                set.insert(piece);
            }
            proof {
                assert(piece / 8 == byte_idx && piece % 8 == bit);
                assert(set@ =~= Set::new(
                    |k: u32| k < 8 * byte_idx + bit + 1 && k < lim && bit_set(payload@, k as int),
                ));
            }
            bit = bit + 1;
        }
        byte_idx = byte_idx + 1;
    }
    assert(set@ =~= announced(payload@, lim));
    set
}

} // verus!
