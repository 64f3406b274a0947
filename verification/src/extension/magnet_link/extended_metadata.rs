//! The metadata extension: requesting the `info` dictionary of a torrent from
//! a peer, piece by piece, and reading the peer's reply.
use vstd::prelude::*;

use crate::bytes_bencode::{decode_prefix, spec_decode, BencodeValue, SpecValue};
use crate::connection::message::be_bytes;
use crate::extension::magnet_link::bencode_out::{
    bencode_int_map, entries_u64, int_dict, int_values, keys_rise, bytes_lt,
    lemma_int_dict_roundtrip, readable_entries,
};
use crate::metainfo::{dict_lookup, field, info_of, Info, InfoView};

verus! {

/// The metadata extension supports the following message types.
#[derive(Debug, Clone, Copy, PartialEq, Eq, Structural)]
pub enum MetadataMessageType {
    /// Requests a piece of metadata from the peer.
    Request { msg_type: u8, piece: u8 },
    /// Sends a piece of metadata to the peer.
    Data { msg_type: u8, piece: u8, total_size: usize },
    /// Signals that the peer doesn't have the piece of metadata that was requested.
    Reject { msg_type: u8, piece: u8 },
}

impl Default for MetadataMessageType {
    fn default() -> (r: Self)
        ensures
            r == (MetadataMessageType::Request { msg_type: 0, piece: 0 }),
    {
        MetadataMessageType::Request { msg_type: 0, piece: 0 }
    }
}

/// The keys `msg_type`, `piece` and `total_size` as bytes.
pub open spec fn key_msg_type() -> Seq<u8> {
    seq![109u8, 115, 103, 95, 116, 121, 112, 101]
}

pub open spec fn key_piece() -> Seq<u8> {
    seq![112u8, 105, 101, 99, 101]
}

pub open spec fn key_total_size() -> Seq<u8> {
    seq![116u8, 111, 116, 97, 108, 95, 115, 105, 122, 101]
}

/// The dictionary a message type is sent as: `msg_type` and `piece`, and
/// `total_size` for data.
pub open spec fn payload_entries(p: MetadataMessageType) -> Seq<(Seq<u8>, nat)> {
    match p {
        MetadataMessageType::Request { msg_type, piece } => seq![
            (key_msg_type(), msg_type as nat),
            (key_piece(), piece as nat),
        ],
        MetadataMessageType::Reject { msg_type, piece } => seq![
            (key_msg_type(), msg_type as nat),
            (key_piece(), piece as nat),
        ],
        MetadataMessageType::Data { msg_type, piece, total_size } => seq![
            (key_msg_type(), msg_type as nat),
            (key_piece(), piece as nat),
            (key_total_size(), total_size as nat),
        ],
    }
}

proof fn lemma_keys_rise()
    ensures
        bytes_lt(key_msg_type(), key_piece()),
        bytes_lt(key_msg_type(), key_total_size()),
        bytes_lt(key_piece(), key_total_size()),
{
    assert(key_msg_type()[0] < key_piece()[0]);
    assert(key_msg_type()[0] < key_total_size()[0]);
    assert(key_piece()[0] < key_total_size()[0]);
}

fn key_chars(c: Vec<char>) -> (r: String)
    ensures
        r@ == c@,
{
    crate::utils::text::string_from_chars(&c)
}

impl MetadataMessageType {
    /// The entries of the dictionary this message type is sent as.
    pub fn entries(&self) -> (r: Vec<(String, u64)>)
        ensures
            entries_u64(r@) == payload_entries(*self),
    {
        let msg_type_key = key_chars(vec!['m', 's', 'g', '_', 't', 'y', 'p', 'e']);
        let piece_key = key_chars(vec!['p', 'i', 'e', 'c', 'e']);
        proof {
            vstd::utf8::is_ascii_chars_encode_utf8(msg_type_key@);
            vstd::utf8::is_ascii_chars_encode_utf8(piece_key@);
            assert(vstd::utf8::encode_utf8(msg_type_key@) =~= key_msg_type());
            assert(vstd::utf8::encode_utf8(piece_key@) =~= key_piece());
        }
        let mut map: Vec<(String, u64)> = Vec::new();
        match self {
            MetadataMessageType::Reject { msg_type, piece } | MetadataMessageType::Request {
                msg_type,
                piece,
            } => {
                map.push((msg_type_key, *msg_type as u64));
                map.push((piece_key, *piece as u64));
            },
            MetadataMessageType::Data { msg_type, piece, total_size } => {
                let total_key = key_chars(
                    vec!['t', 'o', 't', 'a', 'l', '_', 's', 'i', 'z', 'e'],
                );
                proof {
                    vstd::utf8::is_ascii_chars_encode_utf8(total_key@);
                    assert(vstd::utf8::encode_utf8(total_key@) =~= key_total_size());
                }
                map.push((msg_type_key, *msg_type as u64));
                map.push((piece_key, *piece as u64));
                map.push((total_key, *total_size as u64));
            },
        }
        assert(entries_u64(map@) =~= payload_entries(*self));
        map
    }
}

#[derive(Debug, Default, Clone, Copy)]
pub struct MetadataMessage {
    /// The peer's metadata extension id, received during the extension handshake.
    pub extd_msg_id: u8,
    pub payload: MetadataMessageType,
}

#[derive(Debug, Default, Clone, Copy)]
pub struct ExtendedMetadataExchange {
    pub message_len: u32,
    pub message_id: u8,
    pub message: MetadataMessage,
}

/// A metadata message as sent: its length (four bytes, big-endian), the
/// message id, the peer's extension id and the bencoded dictionary.
pub open spec fn metadata_frame(message_id: u8, extd_msg_id: u8, p: MetadataMessageType) -> Seq<u8> {
    let msg = seq![message_id, extd_msg_id] + int_dict(payload_entries(p));
    be_bytes(msg.len() as u32) + msg
}

impl ExtendedMetadataExchange {
    /// Message id 0, extension id 0, a request for piece 0.
    pub fn new() -> (r: Self)
        ensures
            r.message_len == 0,
            r.message_id == 0,
            r.message.extd_msg_id == 0,
            r.message.payload == (MetadataMessageType::Request { msg_type: 0, piece: 0 }),
    {
        ExtendedMetadataExchange {
            message_len: 0,
            message_id: 0,
            message: MetadataMessage {
                extd_msg_id: 0,
                payload: MetadataMessageType::Request { msg_type: 0, piece: 0 },
            },
        }
    }

    /// Makes the message a request for `piece` (piece 0 when none is given).
    pub fn set_request(&mut self, piece: Option<u8>) -> (r: &Self)
        ensures
            final(self).message.payload == (MetadataMessageType::Request {
                msg_type: 0,
                piece: match piece {
                    Some(p) => p,
                    None => 0,
                },
            }),
            final(self).message_len == old(self).message_len,
            final(self).message_id == old(self).message_id,
            final(self).message.extd_msg_id == old(self).message.extd_msg_id,
            *r == *final(self),
    {
        self.message.payload = MetadataMessageType::Request {
            msg_type: 0,
            piece: match piece {
                Some(p) => p,
                None => 0,
            },
        };
        self
    }

    /// A data message as received from a peer.
    pub fn data_response(
        message_len: u32,
        message_id: u8,
        extd_msg_id: u8,
        msg_type: u8,
        piece: u8,
        total_size: usize,
    ) -> (r: ExtendedMetadataExchange)
        ensures
            r.message_len == message_len,
            r.message_id == message_id,
            r.message.extd_msg_id == extd_msg_id,
            r.message.payload == (MetadataMessageType::Data { msg_type, piece, total_size }),
    {
        ExtendedMetadataExchange {
            message_len,
            message_id,
            message: MetadataMessage {
                extd_msg_id,
                payload: MetadataMessageType::Data { msg_type, piece, total_size },
            },
        }
    }

    /// Sets the message id; 20, the id of all messages of this extension,
    /// when none is given.
    pub fn set_message_id(&mut self, id: Option<u8>) -> (r: &mut Self)
        ensures
            r.message_id == match id {
                Some(i) => i,
                None => 20,
            },
            r.message_len == old(self).message_len,
            r.message == old(self).message,
            *final(self) == *final(r),
    {
        self.message_id = match id {
            Some(i) => i,
            None => 20,
        };
        self
    }

    /// Sets the peer's metadata extension id, received during the extension
    /// handshake.
    pub fn set_extension_message_id(&mut self, id: u8) -> (r: &mut Self)
        ensures
            r.message.extd_msg_id == id,
            r.message.payload == old(self).message.payload,
            r.message_len == old(self).message_len,
            r.message_id == old(self).message_id,
            *final(self) == *final(r),
    {
        self.message.extd_msg_id = id;
        self
    }

    /// The message as sent: length, message id, extension id, bencoded
    /// dictionary.
    pub fn to_bytes(&self) -> (r: Vec<u8>)
        ensures
            r@ == metadata_frame(self.message_id, self.message.extd_msg_id, self.message.payload),
    {
        let mut msg: Vec<u8> = Vec::new();
        msg.push(self.message_id);
        msg.push(self.message.extd_msg_id);
        let entries = self.message.payload.entries();
        proof {
            lemma_keys_rise();
        }
        let benc = match bencode_int_map(&entries) {
            Some(b) => b,
            None => Vec::new(),
        };
        assert(benc@ == int_dict(payload_entries(self.message.payload)));
        msg.extend_from_slice(benc.as_slice());
        let length = msg.len() as u32;
        let mut final_msg: Vec<u8> = Vec::new();
        final_msg.push((length >> 24u32) as u8);
        final_msg.push((length >> 16u32) as u8);
        final_msg.push((length >> 8u32) as u8);
        final_msg.push(length as u8);
        final_msg.extend_from_slice(msg.as_slice());
        assert(final_msg@ =~= metadata_frame(
            self.message_id,
            self.message.extd_msg_id,
            self.message.payload,
        ));
        final_msg
    }
}

/// Why the reply to a metadata request cannot be read.
#[derive(Debug, Clone, Copy, PartialEq, Eq, Structural)]
pub enum MetadataError {
    /// Fewer than two bytes: no message id and extension id.
    TooShort,
    /// What follows the ids is not a bencoded dictionary.
    NotADictionary,
    /// `msg_type`, `piece` or `total_size` is missing or not a
    /// non-negative integer.
    MissingField,
    /// `total_size` is larger than the message.
    SizeTooLarge,
    /// The metadata at the end of the message is not an `info` dictionary.
    InvalidInfo,
}

/// A non-negative integer value, as a `u64`.
pub open spec fn u64_of(v: Option<SpecValue>) -> Option<u64> {
    match v {
        Some(SpecValue::Int(i)) => if 0 <= i <= u64::MAX {
            Some(i as u64)
        } else {
            None
        },
        _ => None,
    }
}

/// What a metadata reply (its payload after the length prefix) says: the
/// message id, the extension id, the fields of the dictionary that follows
/// them, and the `info` dictionary made of the last `total_size` bytes.
pub open spec fn spec_data_reply(payload: Seq<u8>) -> Result<
    (u8, u8, u8, u8, u64, crate::metainfo::InfoView),
    MetadataError,
> {
    if payload.len() < 2 {
        Err(MetadataError::TooShort)
    } else {
        match spec_decode(payload.skip(2)) {
            Some((SpecValue::Dict(e), _)) => {
                let d = SpecValue::Dict(e);
                match (
                    u64_of(field(d, key_msg_type())),
                    u64_of(field(d, key_piece())),
                    u64_of(field(d, key_total_size())),
                ) {
                    (Some(t), Some(p), Some(s)) => if s > payload.len() {
                        Err(MetadataError::SizeTooLarge)
                    } else {
                        match spec_decode(payload.skip(payload.len() - s)) {
                            Some((v, _)) => match info_of(v) {
                                Some(info) => Ok(
                                    (payload[0], payload[1], t as u8, p as u8, s, info),
                                ),
                                None => Err(MetadataError::InvalidInfo),
                            },
                            None => Err(MetadataError::InvalidInfo),
                        }
                    },
                    _ => Err(MetadataError::MissingField),
                }
            },
            _ => Err(MetadataError::NotADictionary),
        }
    }
}

/// A non-negative integer value, as a `u64`.
fn u64_from(v: Option<&BencodeValue>) -> (r: Option<u64>)
    ensures
        r == u64_of(
            match v {
                Some(x) => Some(x.view_value()),
                None => None,
            },
        ),
{
    match v {
        Some(BencodeValue::Int(i)) => if *i >= 0 {
            Some(*i as u64)
        } else {
            None
        },
        _ => None,
    }
}

/// The value stored under `key` in a decoded dictionary.
fn field_of<'a>(v: &'a BencodeValue, key: &Vec<u8>) -> (r: Option<&'a BencodeValue>)
    ensures
        match r {
            Some(x) => field(v.view_value(), key@) == Some(x.view_value()),
            None => field(v.view_value(), key@) is None,
        },
{
    crate::metainfo::lookup(v, key.as_slice())
}

impl ExtendedMetadataExchange {
    /// Reads a metadata reply (the bytes after its length prefix): byte 0 is
    /// the message id, byte 1 the extension id, then a dictionary with
    /// `msg_type`, `piece` and `total_size`; the last `total_size` bytes are
    /// the `info` dictionary. The message type and piece are cut to a byte.
    pub fn parse_data(message_len: u32, payload: &[u8]) -> (r: Result<
        (ExtendedMetadataExchange, Info),
        MetadataError,
    >)
        ensures
            match spec_data_reply(payload@) {
                Ok((id, ext, t, p, s, info)) => r matches Ok((x, i)) && x
                    == ExtendedMetadataExchange::spec_data(
                    message_len,
                    id,
                    ext,
                    t,
                    p,
                    s as usize,
                ) && i.view() == info && s <= usize::MAX,
                Err(e) => r == Err::<(ExtendedMetadataExchange, Info), MetadataError>(e),
            },
    {
        if payload.len() < 2 {
            return Err(MetadataError::TooShort);
        }
        let body = &payload[2..payload.len()];
        assert(body@ =~= payload@.skip(2));
        let dict = match decode_prefix(body) {
            Some((v, _)) => v,
            None => {
                return Err(MetadataError::NotADictionary);
            },
        };
        match &dict {
            BencodeValue::Dict(_) => {},
            _ => {
                return Err(MetadataError::NotADictionary);
            },
        }
        proof {
            crate::bytes_bencode::lemma_view_dict(dict);
        }
        let k_type: Vec<u8> = vec![109u8, 115, 103, 95, 116, 121, 112, 101];
        let k_piece: Vec<u8> = vec![112u8, 105, 101, 99, 101];
        let k_total: Vec<u8> = vec![116u8, 111, 116, 97, 108, 95, 115, 105, 122, 101];
        assert(k_type@ =~= key_msg_type());
        assert(k_piece@ =~= key_piece());
        assert(k_total@ =~= key_total_size());
        let t = u64_from(field_of(&dict, &k_type));
        let p = u64_from(field_of(&dict, &k_piece));
        let s = u64_from(field_of(&dict, &k_total));
        match (t, p, s) {
            (Some(t), Some(p), Some(s)) => {
                if s > payload.len() as u64 {
                    return Err(MetadataError::SizeTooLarge);
                }
                let size = s as usize;
                let metadata = &payload[payload.len() - size..payload.len()];
                assert(metadata@ =~= payload@.skip(payload@.len() - s));
                match decode_prefix(metadata) {
                    Some((v, _)) => match Info::from_value(&v) {
                        Some(info) => Ok(
                            (
                                ExtendedMetadataExchange::data_response(
                                    message_len,
                                    payload[0],
                                    payload[1],
                                    t as u8,
                                    p as u8,
                                    size,
                                ),
                                info,
                            ),
                        ),
                        None => Err(MetadataError::InvalidInfo),
                    },
                    None => Err(MetadataError::InvalidInfo),
                }
            },
            _ => Err(MetadataError::MissingField),
        }
    }

    /// A data message as received from a peer.
    pub open spec fn spec_data(
        message_len: u32,
        message_id: u8,
        extd_msg_id: u8,
        msg_type: u8,
        piece: u8,
        total_size: usize,
    ) -> ExtendedMetadataExchange {
        ExtendedMetadataExchange {
            message_len,
            message_id,
            message: MetadataMessage {
                extd_msg_id,
                payload: MetadataMessageType::Data { msg_type, piece, total_size },
            },
        }
    }
}

/// The fields of the dictionary of a data message, as decoded.
proof fn lemma_data_fields(msg_type: u8, piece: u8, total_size: usize)
    ensures
        ({
            let vals = int_values(
                payload_entries(MetadataMessageType::Data { msg_type, piece, total_size }),
            );
            &&& dict_lookup(vals, key_msg_type()) == Some(SpecValue::Int(msg_type as int))
            &&& dict_lookup(vals, key_piece()) == Some(SpecValue::Int(piece as int))
            &&& dict_lookup(vals, key_total_size()) == Some(SpecValue::Int(total_size as int))
        }),
{
    let vals = int_values(payload_entries(MetadataMessageType::Data { msg_type, piece, total_size }));
    let a = (key_msg_type(), SpecValue::Int(msg_type as int));
    let b = (key_piece(), SpecValue::Int(piece as int));
    let c = (key_total_size(), SpecValue::Int(total_size as int));
    assert(vals =~= seq![a, b, c]);
    assert(vals.drop_last() =~= seq![a, b]);
    assert(seq![a, b].drop_last() =~= seq![a]);
    assert(seq![a].drop_last() =~= Seq::<(Seq<u8>, SpecValue)>::empty());
    assert(key_total_size()[0] != key_msg_type()[0]);
    assert(key_total_size()[0] != key_piece()[0]);
    assert(key_piece()[0] != key_msg_type()[0]);
    assert(key_msg_type() != key_total_size());
    assert(key_piece() != key_total_size());
    assert(key_msg_type() != key_piece());
    assert(dict_lookup(seq![a], key_msg_type()) == Some(a.1));
    assert(dict_lookup(seq![a, b], key_msg_type()) == Some(a.1));
    assert(dict_lookup(seq![a, b], key_piece()) == Some(b.1));
    assert(dict_lookup(vals, key_msg_type()) == Some(a.1));
    assert(dict_lookup(vals, key_piece()) == Some(b.1));
}

/// A data message as this library writes it (without its length prefix),
/// followed by the metadata it announces, reads back as the same message ids,
/// message type, piece and size, and as the `info` dictionary of that
/// metadata. Sizes beyond `i64::MAX` cannot be read back.
pub proof fn lemma_data_message_roundtrip(
    message_id: u8,
    extd_msg_id: u8,
    msg_type: u8,
    piece: u8,
    total_size: usize,
    metadata: Seq<u8>,
    info: InfoView,
)
    requires
        metadata.len() == total_size,
        total_size <= i64::MAX,
        spec_decode(metadata) matches Some((v, _)) && info_of(v) == Some(info),
    ensures
        spec_data_reply(
            metadata_frame(
                message_id,
                extd_msg_id,
                MetadataMessageType::Data { msg_type, piece, total_size },
            ).skip(4) + metadata,
        ) == Ok::<(u8, u8, u8, u8, u64, InfoView), MetadataError>(
            (message_id, extd_msg_id, msg_type, piece, total_size as u64, info),
        ),
{
    let p = MetadataMessageType::Data { msg_type, piece, total_size };
    let e = payload_entries(p);
    let msg = seq![message_id, extd_msg_id] + int_dict(e);
    let payload = metadata_frame(message_id, extd_msg_id, p).skip(4) + metadata;
    assert(metadata_frame(message_id, extd_msg_id, p).skip(4) =~= msg);
    assert(readable_entries(e)) by {
        assert(e[0].0.len() == 8 && e[1].0.len() == 5 && e[2].0.len() == 10);
    }
    lemma_int_dict_roundtrip(e, metadata);
    assert(payload.skip(2) =~= int_dict(e) + metadata);
    lemma_data_fields(msg_type, piece, total_size);
    assert(payload.skip(payload.len() - total_size) =~= metadata);
    assert(payload[0] == message_id && payload[1] == extd_msg_id);
}

} // verus!
