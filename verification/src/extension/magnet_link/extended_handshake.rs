//! The extension handshake (message id 20, extension id 0): the extensions
//! this client supports with the ids it gives them, and the peer's answer.
use vstd::prelude::*;

use crate::bytes_bencode::{decode_prefix, spec_decode, spec_decode_entries, BencodeValue, SpecValue};
use crate::connection::message::be_bytes;
use crate::extension::magnet_link::bencode_out::{
    bencode_bytes, bencode_int_map, bytes_lt, entries_u64, entries_u8, int_dict, int_values, keys_rise,
    lemma_entries_cons, lemma_int_dict_roundtrip, lemma_read_bytes, readable_entries,
};
use crate::extension::magnet_link::parser::Parser;
use crate::bencode_encoding::{
    encode, entries_fit, fits, lemma_decode_encoded, lemma_entries_fit, lemma_entries_fit_concat,
};
use crate::metainfo::{
    dict_lookup, field, lemma_dict_lookup_absent, lemma_dict_lookup_concat, text_of,
};
use crate::peers::{Event, Peers};

verus! {

/// The value given last for `k`, if any.
pub open spec fn assoc(e: Seq<(Seq<u8>, nat)>, k: Seq<u8>) -> Option<nat>
    decreases e.len(),
{
    if e.len() == 0 {
        None
    } else if e.last().0 == k {
        Some(e.last().1)
    } else {
        assoc(e.drop_last(), k)
    }
}

proof fn lemma_bytes_lt_irrefl(a: Seq<u8>)
    ensures
        !bytes_lt(a, a),
    decreases a.len(),
{
    if a.len() > 0 {
        lemma_bytes_lt_irrefl(a.skip(1));
    }
}

proof fn lemma_bytes_lt_trans(a: Seq<u8>, b: Seq<u8>, c: Seq<u8>)
    requires
        bytes_lt(a, b),
        bytes_lt(b, c),
    ensures
        bytes_lt(a, c),
    decreases a.len(),
{
    if a.len() > 0 && b.len() > 0 && c.len() > 0 {
        if a[0] == b[0] && b[0] == c[0] {
            lemma_bytes_lt_trans(a.skip(1), b.skip(1), c.skip(1));
        }
    }
}

proof fn lemma_bytes_lt_asym(a: Seq<u8>, b: Seq<u8>)
    requires
        bytes_lt(a, b),
    ensures
        !bytes_lt(b, a),
    decreases a.len(),
{
    if a.len() > 0 && b.len() > 0 && a[0] == b[0] {
        lemma_bytes_lt_asym(a.skip(1), b.skip(1));
    }
}

/// Compares two byte strings: negative when `a` comes first, zero when they
/// are equal, positive when `b` comes first.
fn compare_bytes(a: &[u8], b: &[u8]) -> (r: i8)
    ensures
        (r < 0) == bytes_lt(a@, b@),
        (r == 0) == (a@ == b@),
        (r > 0) == bytes_lt(b@, a@),
{
    let mut i: usize = 0;
    assert(a@.skip(0) =~= a@);
    assert(b@.skip(0) =~= b@);
    assert(a@.take(0) =~= b@.take(0));
    while i < a.len() && i < b.len()
        invariant
            i <= a@.len(),
            i <= b@.len(),
            a@.take(i as int) == b@.take(i as int),
            bytes_lt(a@, b@) == bytes_lt(a@.skip(i as int), b@.skip(i as int)),
            bytes_lt(b@, a@) == bytes_lt(b@.skip(i as int), a@.skip(i as int)),
        decreases a@.len() - i,
    {
        let ghost sa = a@.skip(i as int);
        let ghost sb = b@.skip(i as int);
        assert(sa[0] == a@[i as int] && sb[0] == b@[i as int]);
        if a[i] < b[i] {
            return -1;
        }
        if a[i] > b[i] {
            return 1;
        }
        assert(sa.skip(1) =~= a@.skip(i + 1));
        assert(sb.skip(1) =~= b@.skip(i + 1));
        assert(a@.take(i + 1) =~= a@.take(i as int).push(a@[i as int]));
        assert(b@.take(i + 1) =~= b@.take(i as int).push(b@[i as int]));
        i = i + 1;
    }
    if a.len() == b.len() {
        assert(a@ =~= a@.take(i as int));
        assert(b@ =~= b@.take(i as int));
        proof {
            lemma_bytes_lt_irrefl(a@);
        }
        0
    } else if a.len() < b.len() {
        assert(a@.skip(i as int).len() == 0);
        proof {
            if a@ == b@ {
                assert(a@.len() == b@.len());
            }
        }
        -1
    } else {
        assert(b@.skip(i as int).len() == 0);
        proof {
            if a@ == b@ {
                assert(a@.len() == b@.len());
            }
        }
        1
    }
}

/// The extensions this client supports, by name, with the id it gives each.
#[derive(Debug, Default)]
pub struct PayloadDict {
    /// Entries in rising byte order of their names, each name once.
    pub m: Vec<(String, u8)>,
}

#[derive(Debug, Default)]
pub struct ExtendedHandshakePayload {
    pub ext_message_id: u8,
    pub dict: PayloadDict,
}

#[derive(Debug, Default)]
pub struct ExtendedHandshake {
    pub message_length: u32,
    pub message_id: u8,
    pub payload: ExtendedHandshakePayload,
}

/// Where `k` goes among entries kept in rising order of their names: the
/// first position whose name is not below it, and whether the name there is
/// `k`.
fn find_slot(m: &Vec<(String, u8)>, k: &String) -> (r: (usize, bool))
    requires
        keys_rise(entries_u8(m@)),
    ensures
        r.0 <= m@.len(),
        forall|j: int|
            0 <= j < r.0 ==> bytes_lt(
                #[trigger] entries_u8(m@)[j].0,
                vstd::utf8::encode_utf8(k@),
            ),
        r.0 < m@.len() ==> (bytes_lt(vstd::utf8::encode_utf8(k@), entries_u8(m@)[r.0 as int].0)
            || entries_u8(m@)[r.0 as int].0 == vstd::utf8::encode_utf8(k@)),
        r.1 ==> r.0 < m@.len() && entries_u8(m@)[r.0 as int].0 == vstd::utf8::encode_utf8(k@),
        !r.1 ==> r.0 == m@.len() || bytes_lt(
            vstd::utf8::encode_utf8(k@),
            entries_u8(m@)[r.0 as int].0,
        ),
{
    let ghost kb = vstd::utf8::encode_utf8(k@);
    let ghost e0 = entries_u8(m@);
    let mut pos: usize = 0;
    while pos < m.len()
        invariant
            e0 == entries_u8(m@),
            kb == vstd::utf8::encode_utf8(k@),
            pos <= m@.len(),
            forall|j: int| 0 <= j < pos ==> bytes_lt(#[trigger] e0[j].0, kb),
        decreases m@.len() - pos,
    {
        let c = compare_bytes(m[pos].0.as_str().as_bytes(), k.as_str().as_bytes());
        assert(e0[pos as int].0 == vstd::utf8::encode_utf8(m@[pos as int].0@));
        if c >= 0 {
            return (pos, c == 0);
        }
        pos = pos + 1;
    }
    (pos, false)
}

/// Stores `v` under `k` in entries kept in rising order of their names.
fn map_insert(m: &mut Vec<(String, u8)>, k: String, v: u8)
    requires
        keys_rise(entries_u8(old(m)@)),
    ensures
        keys_rise(entries_u8(final(m)@)),
        forall|key: Seq<u8>|
            #![trigger assoc(entries_u8(final(m)@), key)]
            assoc(entries_u8(final(m)@), key) == if key == vstd::utf8::encode_utf8(k@) {
                Some(v as nat)
            } else {
                assoc(entries_u8(old(m)@), key)
            },
{
    let ghost kb = vstd::utf8::encode_utf8(k@);
    let (pos, found) = find_slot(m, &k);
    let ghost old_m = m@;
    if found {
        let _ = m.remove(pos);
        m.insert(pos, (k, v));
    } else {
        m.insert(pos, (k, v));
    }
    proof {
        lemma_map_insert_spec(old_m, m@, pos as int, kb, v, found);
    }
}

proof fn lemma_assoc_unique(e: Seq<(Seq<u8>, nat)>, j: int)
    requires
        keys_rise(e),
        0 <= j < e.len(),
    ensures
        assoc(e, e[j].0) == Some(e[j].1),
    decreases e.len(),
{
    if j < e.len() - 1 {
        lemma_bytes_lt_irrefl(e[j].0);
        assert(bytes_lt(e[j].0, e.last().0));
        let d = e.drop_last();
        assert(keys_rise(d)) by {
            assert forall|a: int, b: int| 0 <= a < b < d.len() implies bytes_lt(d[a].0, d[b].0) by {
                assert(d[a] == e[a] && d[b] == e[b]);
            }
        }
        if e.last().0 == e[j].0 {
            lemma_bytes_lt_irrefl(e[j].0);
        }
        lemma_assoc_unique(d, j);
    }
}

proof fn lemma_assoc_absent(e: Seq<(Seq<u8>, nat)>, k: Seq<u8>)
    requires
        forall|j: int| 0 <= j < e.len() ==> e[j].0 != k,
    ensures
        assoc(e, k) is None,
    decreases e.len(),
{
    if e.len() > 0 {
        lemma_assoc_absent(e.drop_last(), k);
    }
}

proof fn lemma_assoc_sorted(e: Seq<(Seq<u8>, nat)>, k: Seq<u8>)
    requires
        keys_rise(e),
    ensures
        (exists|j: int| 0 <= j < e.len() && e[j].0 == k) ==> assoc(e, k) == Some(
            e[choose|j: int| 0 <= j < e.len() && e[j].0 == k].1,
        ),
        (forall|j: int| 0 <= j < e.len() ==> e[j].0 != k) ==> assoc(e, k) is None,
{
    if exists|j: int| 0 <= j < e.len() && e[j].0 == k {
        let j = choose|j: int| 0 <= j < e.len() && e[j].0 == k;
        lemma_assoc_unique(e, j);
    } else {
        lemma_assoc_absent(e, k);
    }
}

proof fn lemma_map_insert_spec(
    old_m: Seq<(String, u8)>,
    new_m: Seq<(String, u8)>,
    pos: int,
    kb: Seq<u8>,
    v: u8,
    found: bool,
)
    requires
        keys_rise(entries_u8(old_m)),
        0 <= pos <= old_m.len(),
        forall|j: int|
            0 <= j < pos ==> bytes_lt(#[trigger] entries_u8(old_m)[j].0, kb),
        pos < old_m.len() ==> (bytes_lt(kb, entries_u8(old_m)[pos].0) || entries_u8(
            old_m,
        )[pos].0 == kb),
        found ==> pos < old_m.len() && entries_u8(old_m)[pos].0 == kb,
        !found ==> pos == old_m.len() || bytes_lt(kb, entries_u8(old_m)[pos].0),
        new_m.len() == if found {
            old_m.len()
        } else {
            old_m.len() + 1
        },
        forall|j: int| 0 <= j < pos ==> new_m[j] == old_m[j],
        vstd::utf8::encode_utf8(new_m[pos].0@) == kb,
        new_m[pos].1 == v,
        found ==> forall|j: int| pos < j < new_m.len() ==> new_m[j] == old_m[j],
        !found ==> forall|j: int| pos < j < new_m.len() ==> new_m[j] == old_m[j - 1],
    ensures
        keys_rise(entries_u8(new_m)),
        forall|key: Seq<u8>|
            #![trigger assoc(entries_u8(new_m), key)]
            assoc(entries_u8(new_m), key) == if key == kb {
                Some(v as nat)
            } else {
                assoc(entries_u8(old_m), key)
            },
{
    let eo = entries_u8(old_m);
    let en = entries_u8(new_m);
    assert forall|a: int, b: int| 0 <= a < b < en.len() implies bytes_lt(en[a].0, en[b].0) by {
        let oa = if a < pos {
            a
        } else if a == pos {
            -1
        } else if found {
            a
        } else {
            a - 1
        };
        let ob = if b < pos {
            b
        } else if b == pos {
            -1
        } else if found {
            b
        } else {
            b - 1
        };
        if a != pos && b != pos {
            assert(en[a] == eo[oa] && en[b] == eo[ob]);
        } else if a == pos {
            assert(en[b] == eo[ob]);
            assert(en[a].0 == kb);
            if found {
                assert(bytes_lt(eo[pos].0, eo[ob].0));
            } else {
                if ob > pos {
                    assert(bytes_lt(eo[pos].0, eo[ob].0));
                    lemma_bytes_lt_trans(kb, eo[pos].0, eo[ob].0);
                }
            }
        } else {
            assert(en[a] == eo[oa]);
            assert(en[b].0 == kb);
        }
    }
    assert forall|key: Seq<u8>|
        #![trigger assoc(en, key)]
        assoc(en, key) == if key == kb {
            Some(v as nat)
        } else {
            assoc(eo, key)
        } by {
        lemma_assoc_sorted(en, key);
        lemma_assoc_sorted(eo, key);
        if key == kb {
            lemma_assoc_unique(en, pos);
        } else {
            if exists|j: int| 0 <= j < eo.len() && eo[j].0 == key {
                let j = choose|j: int| 0 <= j < eo.len() && eo[j].0 == key;
                lemma_assoc_unique(eo, j);
                let nj = if j < pos {
                    j
                } else if found {
                    j
                } else {
                    j + 1
                };
                if found && j == pos {
                    assert(false);
                }
                assert(en[nj] == eo[j]);
                lemma_assoc_unique(en, nj);
            } else {
                assert forall|j: int| 0 <= j < en.len() implies en[j].0 != key by {
                    if j != pos {
                        let oj = if j < pos {
                            j
                        } else if found {
                            j
                        } else {
                            j - 1
                        };
                        assert(en[j] == eo[oj]);
                    }
                }
                lemma_assoc_absent(en, key);
            }
        }
    }
}

/// The frame of an extension handshake: its length (four bytes, big-endian),
/// the message id, the extension id, and the bencoded `{"m": {...}}`.
pub open spec fn handshake_frame(message_id: u8, ext_message_id: u8, m: Seq<(String, u8)>) -> Seq<
    u8,
> {
    let dict = seq![100u8] + bencode_bytes(seq![109u8]) + int_dict(entries_u8(m)) + seq![101u8];
    be_bytes((dict.len() + 2) as u32) + seq![message_id, ext_message_id] + dict
}

impl ExtendedHandshake {
    /// Message id 20, extension id 0, no extension yet.
    pub fn new() -> (r: Self)
        ensures
            r.message_length == 0,
            r.message_id == 20,
            r.payload.ext_message_id == 0,
            r.payload.dict.m@.len() == 0,
    {
        ExtendedHandshake {
            message_length: 0,
            message_id: 20,
            payload: ExtendedHandshakePayload {
                ext_message_id: 0,
                dict: PayloadDict { m: Vec::new() },
            },
        }
    }

    /// Sets the extensions, by name and id; a name given twice keeps its last
    /// id. They are kept in rising byte order of their names.
    pub fn insert_payload(&mut self, params: Vec<(String, u8)>) -> (r: &mut Self)
        ensures
            keys_rise(entries_u8(r.payload.dict.m@)),
            forall|key: Seq<u8>|
                #![trigger assoc(entries_u8(r.payload.dict.m@), key)]
                assoc(entries_u8(r.payload.dict.m@), key) == assoc(entries_u8(params@), key),
            r.message_length == old(self).message_length,
            r.message_id == old(self).message_id,
            r.payload.ext_message_id == old(self).payload.ext_message_id,
            *final(self) == *final(r),
    {
        let mut m: Vec<(String, u8)> = Vec::new();
        let mut i: usize = 0;
        let mut params = params;
        let ghost p0 = params@;
        while i < params.len()
            invariant
                params@ == p0,
                i <= p0.len(),
                keys_rise(entries_u8(m@)),
                forall|key: Seq<u8>|
                    #![trigger assoc(entries_u8(m@), key)]
                    assoc(entries_u8(m@), key) == assoc(entries_u8(p0.take(i as int)), key),
            decreases p0.len() - i,
        {
            let k = params[i].0.clone();
            let v = params[i].1;
            let ghost before = m@;
            map_insert(&mut m, k, v);
            proof {
                let t = entries_u8(p0.take(i + 1));
                assert(t.drop_last() =~= entries_u8(p0.take(i as int)));
                assert forall|key: Seq<u8>|
                    #![trigger assoc(entries_u8(m@), key)]
                    assoc(entries_u8(m@), key) == assoc(entries_u8(p0.take(i + 1)), key) by {
                    assert(assoc(entries_u8(m@), key) == if key == vstd::utf8::encode_utf8(
                        p0[i as int].0@,
                    ) {
                        Some(p0[i as int].1 as nat)
                    } else {
                        assoc(entries_u8(before), key)
                    });
                    assert(assoc(entries_u8(before), key) == assoc(
                        entries_u8(p0.take(i as int)),
                        key,
                    ));
                }
            }
            i = i + 1;
        }
        assert(p0.take(i as int) =~= p0);
        self.payload.dict = PayloadDict { m };
        self
    }

    /// Sets the message id.
    pub fn insert_message_id(&mut self, id: u8) -> (r: &Self)
        ensures
            final(self).message_id == id,
            final(self).message_length == old(self).message_length,
            final(self).payload == old(self).payload,
            *r == *final(self),
    {
        self.message_id = id;
        self
    }

    /// Sets the message length.
    pub fn insert_message_len(&mut self, len: u32) -> (r: &Self)
        ensures
            final(self).message_length == len,
            final(self).message_id == old(self).message_id,
            final(self).payload == old(self).payload,
            *r == *final(self),
    {
        self.message_length = len;
        self
    }

    /// The bencoded dictionary `{"m": {<name>: <id>, ...}}`.
    pub fn to_bytes(&mut self) -> (r: Option<Vec<u8>>)
        requires
            keys_rise(entries_u8(old(self).payload.dict.m@)),
        ensures
            *final(self) == *old(self),
            r is Some,
            r->0@ == seq![100u8] + bencode_bytes(seq![109u8]) + int_dict(
                entries_u8(old(self).payload.dict.m@),
            ) + seq![101u8],
    {
        let m = &self.payload.dict.m;
        let mut entries: Vec<(String, u64)> = Vec::new();
        let mut i: usize = 0;
        while i < m.len()
            invariant
                i <= m@.len(),
                entries_u64(entries@) == entries_u8(m@.take(i as int)),
            decreases m@.len() - i,
        {
            let ghost before = entries@;
            assert(entries_u64(before).len() == before.len());
            assert(entries_u8(m@.take(i as int)).len() == i);
            let key = m[i].0.clone();
            assert(key@ == m@[i as int].0@);
            entries.push((key, m[i].1 as u64));
            assert forall|j: int| 0 <= j < i implies #[trigger] entries@[j] == before[j] by {}
            assert forall|j: int| 0 <= j < i implies #[trigger] entries_u64(entries@)[j]
                == entries_u64(before)[j] by {}
            assert(entries_u64(entries@) =~= entries_u8(m@.take(i + 1)));
            i = i + 1;
        }
        assert(m@.take(i as int) =~= m@);
        let inner = match bencode_int_map(&entries) {
            Some(b) => b,
            None => Vec::new(),
        };
        let mut out: Vec<u8> = Vec::new();
        out.push(100u8);
        out.push(49u8);
        out.push(58u8);
        out.push(109u8);
        out.extend_from_slice(inner.as_slice());
        out.push(101u8);
        proof {
            assert(crate::decimal::nat_digits(1) =~= seq![49u8]);
            assert(bencode_bytes(seq![109u8]) =~= seq![49u8, 58u8, 109u8]);
        }
        assert(out@ =~= seq![100u8] + bencode_bytes(seq![109u8]) + int_dict(entries_u8(m@))
            + seq![101u8]);
        Some(out)
    }

    /// The whole message: length (the bencoded dictionary plus the two id
    /// bytes), message id, extension id, bencoded dictionary.
    pub fn to_full_message(&mut self) -> (r: Vec<u8>)
        requires
            keys_rise(entries_u8(old(self).payload.dict.m@)),
            handshake_frame(0, 0, old(self).payload.dict.m@).len() <= u32::MAX,
        ensures
            r@ == handshake_frame(
                old(self).message_id,
                old(self).payload.ext_message_id,
                old(self).payload.dict.m@,
            ),
            final(self).message_length == r@.len() - 4,
            final(self).message_id == old(self).message_id,
            final(self).payload == old(self).payload,
    {
        let bencoded_dict = match self.to_bytes() {
            Some(b) => b,
            None => Vec::new(),
        };
        let ghost dict = bencoded_dict@;
        assert(handshake_frame(0, 0, self.payload.dict.m@).len() == 4 + 2 + dict.len());
        let len: u32 = 1 + bencoded_dict.len() as u32 + 1;
        self.insert_message_len(len);
        let mut message: Vec<u8> = Vec::new();
        message.push((len >> 24u32) as u8);
        message.push((len >> 16u32) as u8);
        message.push((len >> 8u32) as u8);
        message.push(len as u8);
        message.push(self.message_id);
        message.push(self.payload.ext_message_id);
        message.extend_from_slice(bencoded_dict.as_slice());
        assert(message@ =~= handshake_frame(
            self.message_id,
            self.payload.ext_message_id,
            self.payload.dict.m@,
        ));
        message
    }
}


/// The extensions a peer announced in its extension handshake.
#[derive(Debug, Default)]
pub struct ExtendedHandshakeM {
    /// The peer's id for the metadata extension, 0 when not announced.
    pub ut_metadata: u8,
    pub ut_pex: Option<u8>,
    /// The other extensions, in the order they came.
    pub extra: Vec<(Vec<u8>, BencodeValue)>,
}

/// The peer's extension handshake.
#[derive(Debug)]
pub struct ExtendedHandshakeResponse {
    pub m: ExtendedHandshakeM,
    pub metadata_size: Option<u32>,
    pub reqq: Option<u32>,
    pub v: Option<String>,
    pub yourip: Option<Vec<u8>>,
    /// The other keys, in the order they came.
    pub extra: Vec<(Vec<u8>, BencodeValue)>,
}

/// Why a peer's extension handshake is not accepted.
#[derive(Debug, Clone, Copy, PartialEq, Eq, Structural)]
pub enum ExtendedHandshakeError {
    /// The message is not an extension handshake (id 20, extension id 0).
    NotAnExtendedHandshake,
    /// Its dictionary is missing or a known key holds a value of the wrong kind.
    Malformed,
}

/// Keys as bytes.
pub open spec fn key_m() -> Seq<u8> {
    seq![109u8]
}

pub open spec fn key_ut_metadata() -> Seq<u8> {
    seq![117u8, 116, 95, 109, 101, 116, 97, 100, 97, 116, 97]
}

pub open spec fn key_ut_pex() -> Seq<u8> {
    seq![117u8, 116, 95, 112, 101, 120]
}

pub open spec fn key_metadata_size() -> Seq<u8> {
    seq![109u8, 101, 116, 97, 100, 97, 116, 97, 95, 115, 105, 122, 101]
}

pub open spec fn key_reqq() -> Seq<u8> {
    seq![114u8, 101, 113, 113]
}

pub open spec fn key_v() -> Seq<u8> {
    seq![118u8]
}

pub open spec fn key_yourip() -> Seq<u8> {
    seq![121u8, 111, 117, 114, 105, 112]
}

/// A number that fits in `bits` bits, when the key is there: `Some(None)`
/// when absent, `None` when the value is not such a number.
pub open spec fn opt_number(v: Option<SpecValue>, max: int) -> Option<Option<int>> {
    match v {
        None => Some(None),
        Some(SpecValue::Int(i)) => if 0 <= i <= max {
            Some(Some(i))
        } else {
            None
        },
        _ => None,
    }
}

/// The entries whose keys are not among `known`, in order.
pub open spec fn unknown_entries(e: Seq<(Seq<u8>, SpecValue)>, known: Seq<Seq<u8>>) -> Seq<
    (Seq<u8>, SpecValue),
>
    decreases e.len(),
{
    if e.len() == 0 {
        Seq::empty()
    } else {
        unknown_entries(e.drop_last(), known) + if known.contains(e.last().0) {
            Seq::empty()
        } else {
            seq![e.last()]
        }
    }
}

/// An extension handshake in mathematical form.
pub struct ResponseView {
    pub ut_metadata: u8,
    pub ut_pex: Option<u8>,
    pub m_extra: Seq<(Seq<u8>, SpecValue)>,
    pub metadata_size: Option<u32>,
    pub reqq: Option<u32>,
    pub v: Option<Seq<char>>,
    pub yourip: Option<Seq<u8>>,
    pub extra: Seq<(Seq<u8>, SpecValue)>,
}

pub open spec fn as_u8(o: Option<int>) -> Option<u8> {
    match o {
        Some(i) => Some(i as u8),
        None => None,
    }
}

pub open spec fn as_u32(o: Option<int>) -> Option<u32> {
    match o {
        Some(i) => Some(i as u32),
        None => None,
    }
}

/// The extension handshake a dictionary describes: `m` (its `ut_metadata`,
/// 0 when absent, and `ut_pex`), `metadata_size`, `reqq`, `v` and `yourip`,
/// each optional but of the right kind when present; the other keys are kept
/// as they are.
pub open spec fn response_of(d: SpecValue) -> Option<ResponseView> {
    match d {
        SpecValue::Dict(e) => {
            let (mm, ok_m) = match dict_lookup(e, key_m()) {
                None => (Seq::<(Seq<u8>, SpecValue)>::empty(), true),
                Some(SpecValue::Dict(me)) => (me, true),
                Some(_) => (Seq::<(Seq<u8>, SpecValue)>::empty(), false),
            };
            let md = SpecValue::Dict(mm);
            match (
                opt_number(field(md, key_ut_metadata()), 255),
                opt_number(field(md, key_ut_pex()), 255),
                opt_number(dict_lookup(e, key_metadata_size()), u32::MAX as int),
                opt_number(dict_lookup(e, key_reqq()), u32::MAX as int),
            ) {
                (Some(ut), Some(pex), Some(ms), Some(rq)) => {
                    let v = match dict_lookup(e, key_v()) {
                        None => Some(None),
                        Some(x) => match text_of(x) {
                            Some(t) => Some(Some(t)),
                            None => None,
                        },
                    };
                    let ip = match dict_lookup(e, key_yourip()) {
                        None => Some(None),
                        Some(SpecValue::Bytes(b)) => Some(Some(b)),
                        Some(_) => None,
                    };
                    if ok_m && v is Some && ip is Some {
                        Some(
                            ResponseView {
                                ut_metadata: match ut {
                                    Some(i) => i as u8,
                                    None => 0,
                                },
                                ut_pex: as_u8(pex),
                                m_extra: unknown_entries(
                                    mm,
                                    seq![key_ut_metadata(), key_ut_pex()],
                                ),
                                metadata_size: as_u32(ms),
                                reqq: as_u32(rq),
                                v: v->0,
                                yourip: ip->0,
                                extra: unknown_entries(
                                    e,
                                    seq![
                                        key_m(),
                                        key_metadata_size(),
                                        key_reqq(),
                                        key_v(),
                                        key_yourip(),
                                    ],
                                ),
                            },
                        )
                    } else {
                        None
                    }
                },
                _ => None,
            }
        },
        _ => None,
    }
}

/// What a peer's extension handshake payload (after the length prefix)
/// says: byte 0 must be 20 and byte 1 must be 0; a bencoded dictionary
/// follows.
pub open spec fn spec_extended_reply(payload: Seq<u8>) -> Result<ResponseView, ExtendedHandshakeError> {
    if payload[0] != 20 || payload[1] != 0 {
        Err(ExtendedHandshakeError::NotAnExtendedHandshake)
    } else {
        match spec_decode(payload.skip(2)) {
            Some((d, _)) => match response_of(d) {
                Some(r) => Ok(r),
                None => Err(ExtendedHandshakeError::Malformed),
            },
            None => Err(ExtendedHandshakeError::Malformed),
        }
    }
}

/// A number looked up in a decoded dictionary of integers.
pub open spec fn int_entry(o: Option<nat>) -> Option<SpecValue> {
    match o {
        Some(n) => Some(SpecValue::Int(n as int)),
        None => None,
    }
}

/// Looking a key up in a decoded dictionary of integers finds the number
/// given last for it.
proof fn lemma_lookup_int_values(e: Seq<(Seq<u8>, nat)>, k: Seq<u8>)
    ensures
        dict_lookup(int_values(e), k) == int_entry(assoc(e, k)),
    decreases e.len(),
{
    if e.len() > 0 {
        assert(int_values(e).drop_last() =~= int_values(e.drop_last()));
        lemma_lookup_int_values(e.drop_last(), k);
    }
}

/// The number given last for a key of an extension map fits a byte.
proof fn lemma_assoc_byte(m: Seq<(String, u8)>, k: Seq<u8>)
    ensures
        assoc(entries_u8(m), k) matches Some(n) ==> n <= 255,
    decreases m.len(),
{
    if m.len() > 0 {
        assert(entries_u8(m).drop_last() =~= entries_u8(m.drop_last()));
        lemma_assoc_byte(m.drop_last(), k);
    }
}

/// The extension handshake this library reads from what it writes.
pub open spec fn written_response(m: Seq<(String, u8)>) -> ResponseView {
    let e = entries_u8(m);
    ResponseView {
        ut_metadata: match assoc(e, key_ut_metadata()) {
            Some(n) => n as u8,
            None => 0,
        },
        ut_pex: match assoc(e, key_ut_pex()) {
            Some(n) => Some(n as u8),
            None => None,
        },
        m_extra: unknown_entries(int_values(e), seq![key_ut_metadata(), key_ut_pex()]),
        metadata_size: None,
        reqq: None,
        v: None,
        yourip: None,
        extra: Seq::empty(),
    }
}

/// The dictionary an extension handshake is written as, once decoded.
pub open spec fn written_dict(m: Seq<(String, u8)>) -> SpecValue {
    SpecValue::Dict(seq![(key_m(), SpecValue::Dict(int_values(entries_u8(m))))])
}

/// The bencoded `{"m": {...}}` of a handshake decodes as that dictionary.
proof fn lemma_decode_written(m: Seq<(String, u8)>)
    requires
        readable_entries(entries_u8(m)),
    ensures
        spec_decode(handshake_frame(20, 0, m).skip(6)) matches Some((d, _)) && d == written_dict(m),
{
    let e = entries_u8(m);
    let vals = int_values(e);
    let bb = bencode_bytes(key_m());
    let dict = seq![100u8] + bb + int_dict(e) + seq![101u8];
    assert(handshake_frame(20, 0, m).skip(6) =~= dict);
    let x = dict.skip(1);
    assert(x =~= bb + (int_dict(e) + seq![101u8]));
    lemma_read_bytes(key_m(), int_dict(e) + seq![101u8]);
    assert(x.skip(bb.len() as int) =~= int_dict(e) + seq![101u8]);
    lemma_int_dict_roundtrip(e, seq![101u8]);
    let end = x.skip((bb.len() + int_dict(e).len()) as int);
    assert(end =~= seq![101u8]);
    assert(spec_decode_entries(end) == Some((Seq::<(Seq<u8>, SpecValue)>::empty(), 1nat)));
    lemma_entries_cons(
        x,
        key_m(),
        bb.len(),
        SpecValue::Dict(vals),
        int_dict(e).len(),
        Seq::empty(),
        1,
    );
    assert(seq![(key_m(), SpecValue::Dict(vals))] + Seq::<(Seq<u8>, SpecValue)>::empty() =~= seq![
        (key_m(), SpecValue::Dict(vals)),
    ]);
    assert(dict[0] == 100u8);
}

/// A dictionary of one entry has nothing under another key.
proof fn lemma_single_lookup(k: Seq<u8>, v: SpecValue, other: Seq<u8>)
    requires
        k != other,
    ensures
        dict_lookup(seq![(k, v)], other) is None,
{
    let empty = Seq::<(Seq<u8>, SpecValue)>::empty();
    assert(dict_lookup(empty, other) is None);
    assert(seq![(k, v)].drop_last() =~= empty);
    assert(seq![(k, v)].last().0 == k);
}

/// What the decoded dictionary of a handshake says.
proof fn lemma_written_response(m: Seq<(String, u8)>)
    ensures
        response_of(written_dict(m)) == Some(written_response(m)),
{
    let e = entries_u8(m);
    let vals = int_values(e);
    let outer = seq![(key_m(), SpecValue::Dict(vals))];
    assert(outer.drop_last() =~= Seq::<(Seq<u8>, SpecValue)>::empty());
    assert(dict_lookup(outer, key_m()) == Some(SpecValue::Dict(vals)));
    assert(key_m().len() != key_metadata_size().len());
    assert(key_m() != key_metadata_size());
    assert(key_m()[0] != key_reqq()[0]);
    assert(key_m()[0] != key_v()[0]);
    assert(key_m()[0] != key_yourip()[0]);
    lemma_single_lookup(key_m(), SpecValue::Dict(vals), key_metadata_size());
    lemma_single_lookup(key_m(), SpecValue::Dict(vals), key_reqq());
    lemma_single_lookup(key_m(), SpecValue::Dict(vals), key_v());
    lemma_single_lookup(key_m(), SpecValue::Dict(vals), key_yourip());
    lemma_lookup_int_values(e, key_ut_metadata());
    lemma_lookup_int_values(e, key_ut_pex());
    lemma_assoc_byte(m, key_ut_metadata());
    lemma_assoc_byte(m, key_ut_pex());
    let known = seq![key_m(), key_metadata_size(), key_reqq(), key_v(), key_yourip()];
    assert(known[0] == key_m());
    assert(unknown_entries(outer.drop_last(), known) =~= Seq::<(Seq<u8>, SpecValue)>::empty());
    assert(unknown_entries(outer, known) =~= Seq::<(Seq<u8>, SpecValue)>::empty());
}

/// An extension handshake as this library writes it (message id 20,
/// extension id 0, without its length prefix) reads back as the extensions
/// it announced: the id of `ut_metadata` (0 when not announced), that of
/// `ut_pex`, the other extensions in the order written, and no other key.
pub proof fn lemma_extended_handshake_roundtrip(m: Seq<(String, u8)>)
    requires
        readable_entries(entries_u8(m)),
    ensures
        spec_extended_reply(handshake_frame(20, 0, m).skip(4)) == Ok::<
            ResponseView,
            ExtendedHandshakeError,
        >(written_response(m)),
{
    let payload = handshake_frame(20, 0, m).skip(4);
    assert(payload.skip(2) =~= handshake_frame(20, 0, m).skip(6));
    assert(payload[0] == 20u8 && payload[1] == 0u8);
    lemma_decode_written(m);
    lemma_written_response(m);
}

/// Entries whose keys are all known leave nothing unknown.
proof fn lemma_unknown_all_known(e: Seq<(Seq<u8>, SpecValue)>, known: Seq<Seq<u8>>)
    requires
        forall|i: int| 0 <= i < e.len() ==> known.contains(#[trigger] e[i].0),
    ensures
        unknown_entries(e, known) == Seq::<(Seq<u8>, SpecValue)>::empty(),
    decreases e.len(),
{
    if e.len() > 0 {
        let d = e.drop_last();
        assert forall|i: int| 0 <= i < d.len() implies known.contains(#[trigger] d[i].0) by {
            assert(d[i] == e[i]);
        }
        lemma_unknown_all_known(d, known);
        assert(known.contains(e[e.len() - 1].0));
        assert(unknown_entries(e, known) =~= Seq::<(Seq<u8>, SpecValue)>::empty());
    }
}

/// Unknown entries of two runs, one after the other.
proof fn lemma_unknown_concat(
    a: Seq<(Seq<u8>, SpecValue)>,
    b: Seq<(Seq<u8>, SpecValue)>,
    known: Seq<Seq<u8>>,
)
    ensures
        unknown_entries(a + b, known) == unknown_entries(a, known) + unknown_entries(b, known),
    decreases b.len(),
{
    if b.len() == 0 {
        assert(a + b =~= a);
        assert(unknown_entries(a, known) + unknown_entries(b, known) =~= unknown_entries(a, known));
    } else {
        assert((a + b).drop_last() =~= a + b.drop_last());
        assert((a + b).last() == b.last());
        lemma_unknown_concat(a, b.drop_last(), known);
        assert(unknown_entries(a + b, known) =~= unknown_entries(a, known) + unknown_entries(
            b,
            known,
        ));
    }
}

/// An entry under `key` when there is a value, none when there is not.
pub open spec fn opt_entry(key: Seq<u8>, value: Option<SpecValue>) -> Seq<(Seq<u8>, SpecValue)> {
    match value {
        Some(v) => seq![(key, v)],
        None => Seq::empty(),
    }
}

/// What looking a key up in an optional entry gives.
proof fn lemma_opt_entry(key: Seq<u8>, value: Option<SpecValue>, k: Seq<u8>, known: Seq<Seq<u8>>)
    ensures
        dict_lookup(opt_entry(key, value), k) == if key == k {
            value
        } else {
            None
        },
        known.contains(key) ==> unknown_entries(opt_entry(key, value), known) == Seq::<
            (Seq<u8>, SpecValue),
        >::empty(),
{
    let e = opt_entry(key, value);
    let empty = Seq::<(Seq<u8>, SpecValue)>::empty();
    assert(dict_lookup(empty, k) is None);
    assert(unknown_entries(empty, known) == empty);
    if value is Some {
        assert(e.drop_last() =~= empty);
        assert(e.last() == (key, value->0));
        if known.contains(key) {
            assert(unknown_entries(e, known) =~= empty);
        }
    } else {
        assert(e == empty);
    }
}

/// A byte, when there is one, as a bencoded integer.
pub open spec fn byte_value(o: Option<u8>) -> Option<SpecValue> {
    match o {
        Some(n) => Some(SpecValue::Int(n as int)),
        None => None,
    }
}

/// A `u32`, when there is one, as a bencoded integer.
pub open spec fn word_value(o: Option<u32>) -> Option<SpecValue> {
    match o {
        Some(n) => Some(SpecValue::Int(n as int)),
        None => None,
    }
}

/// A text, when there is one, as a bencoded string of its UTF-8 bytes.
pub open spec fn text_value(o: Option<Seq<char>>) -> Option<SpecValue> {
    match o {
        Some(t) => Some(SpecValue::Bytes(vstd::utf8::encode_utf8(t))),
        None => None,
    }
}

/// Bytes, when there are some, as a bencoded string.
pub open spec fn bytes_value(o: Option<Seq<u8>>) -> Option<SpecValue> {
    match o {
        Some(b) => Some(SpecValue::Bytes(b)),
        None => None,
    }
}

/// The `m` dictionary of a handshake: the ids of `ut_metadata` and
/// `ut_pex`, each there or not.
pub open spec fn m_entries(ut_metadata: Option<u8>, ut_pex: Option<u8>) -> Seq<
    (Seq<u8>, SpecValue),
> {
    opt_entry(key_ut_metadata(), byte_value(ut_metadata)) + opt_entry(
        key_ut_pex(),
        byte_value(ut_pex),
    )
}

/// The `m` entry of a handshake, when there is one.
pub open spec fn m_value(m: Option<(Option<u8>, Option<u8>)>) -> Option<SpecValue> {
    match m {
        Some((ut, pex)) => Some(SpecValue::Dict(m_entries(ut, pex))),
        None => None,
    }
}

/// The entries of a peer's extension handshake dictionary in sorted key
/// order, each known key there or not: `m`, `metadata_size`, `reqq`, the
/// client text `v` and `yourip`.
pub open spec fn reply_entries(
    m: Option<(Option<u8>, Option<u8>)>,
    metadata_size: Option<u32>,
    reqq: Option<u32>,
    v: Option<Seq<char>>,
    yourip: Option<Seq<u8>>,
) -> Seq<(Seq<u8>, SpecValue)> {
    opt_entry(key_m(), m_value(m)) + opt_entry(key_metadata_size(), word_value(metadata_size))
        + opt_entry(key_reqq(), word_value(reqq)) + opt_entry(key_v(), text_value(v)) + opt_entry(
        key_yourip(),
        bytes_value(yourip),
    )
}

/// An entry that fits, when there is one.
proof fn lemma_opt_entry_fits(key: Seq<u8>, value: Option<SpecValue>)
    requires
        key.len() <= usize::MAX,
        value matches Some(x) ==> fits(x),
    ensures
        entries_fit(opt_entry(key, value)),
{
    let e = opt_entry(key, value);
    assert forall|i: int| 0 <= i < e.len() implies (#[trigger] e[i]).0.len() <= usize::MAX && fits(
        e[i].1,
    ) by {}
    lemma_entries_fit(e);
}

/// A handshake dictionary fits the decoder's widths.
proof fn lemma_reply_fits(
    m: Option<(Option<u8>, Option<u8>)>,
    metadata_size: Option<u32>,
    reqq: Option<u32>,
    v: Option<Seq<char>>,
    yourip: Option<Seq<u8>>,
)
    requires
        v matches Some(t) ==> vstd::utf8::encode_utf8(t).len() <= usize::MAX,
        yourip matches Some(b) ==> b.len() <= usize::MAX,
    ensures
        fits(SpecValue::Dict(reply_entries(m, metadata_size, reqq, v, yourip))),
{
    if let Some((ut, pex)) = m {
        lemma_opt_entry_fits(key_ut_metadata(), byte_value(ut));
        lemma_opt_entry_fits(key_ut_pex(), byte_value(pex));
        lemma_entries_fit_concat(
            opt_entry(key_ut_metadata(), byte_value(ut)),
            opt_entry(key_ut_pex(), byte_value(pex)),
        );
    }
    let e1 = opt_entry(key_m(), m_value(m));
    let e2 = opt_entry(key_metadata_size(), word_value(metadata_size));
    let e3 = opt_entry(key_reqq(), word_value(reqq));
    let e4 = opt_entry(key_v(), text_value(v));
    let e5 = opt_entry(key_yourip(), bytes_value(yourip));
    lemma_opt_entry_fits(key_m(), m_value(m));
    lemma_opt_entry_fits(key_metadata_size(), word_value(metadata_size));
    lemma_opt_entry_fits(key_reqq(), word_value(reqq));
    lemma_opt_entry_fits(key_v(), text_value(v));
    lemma_opt_entry_fits(key_yourip(), bytes_value(yourip));
    lemma_entries_fit_concat(e1, e2);
    lemma_entries_fit_concat(e1 + e2, e3);
    lemma_entries_fit_concat(e1 + e2 + e3, e4);
    lemma_entries_fit_concat(e1 + e2 + e3 + e4, e5);
}

/// Each known key of a handshake dictionary finds its own entry, and no key
/// is left unknown.
proof fn lemma_reply_lookups(
    m: Option<(Option<u8>, Option<u8>)>,
    metadata_size: Option<u32>,
    reqq: Option<u32>,
    v: Option<Seq<char>>,
    yourip: Option<Seq<u8>>,
)
    ensures
        ({
            let e = reply_entries(m, metadata_size, reqq, v, yourip);
            &&& dict_lookup(e, key_m()) == m_value(m)
            &&& dict_lookup(e, key_metadata_size()) == word_value(metadata_size)
            &&& dict_lookup(e, key_reqq()) == word_value(reqq)
            &&& dict_lookup(e, key_v()) == text_value(v)
            &&& dict_lookup(e, key_yourip()) == bytes_value(yourip)
            &&& unknown_entries(
                e,
                seq![key_m(), key_metadata_size(), key_reqq(), key_v(), key_yourip()],
            ) == Seq::<(Seq<u8>, SpecValue)>::empty()
        }),
{
    let empty = Seq::<(Seq<u8>, SpecValue)>::empty();
    let known = seq![key_m(), key_metadata_size(), key_reqq(), key_v(), key_yourip()];
    let e1 = opt_entry(key_m(), m_value(m));
    let e2 = opt_entry(key_metadata_size(), word_value(metadata_size));
    let e3 = opt_entry(key_reqq(), word_value(reqq));
    let e4 = opt_entry(key_v(), text_value(v));
    let e5 = opt_entry(key_yourip(), bytes_value(yourip));
    assert(key_m().len() != key_metadata_size().len());
    assert(key_m()[0] != key_reqq()[0] && key_m()[0] != key_v()[0] && key_m()[0] != key_yourip()[0]);
    assert(key_metadata_size()[0] != key_reqq()[0] && key_metadata_size()[0] != key_v()[0]
        && key_metadata_size()[0] != key_yourip()[0]);
    assert(key_reqq()[0] != key_v()[0] && key_reqq()[0] != key_yourip()[0] && key_v()[0]
        != key_yourip()[0]);
    assert forall|k: Seq<u8>|
        k == key_m() || k == key_metadata_size() || k == key_reqq() || k == key_v() || k
            == key_yourip() implies #[trigger] dict_lookup(e1 + e2 + e3 + e4 + e5, k) == if k
        == key_yourip() {
        bytes_value(yourip)
    } else if k == key_v() {
        text_value(v)
    } else if k == key_reqq() {
        word_value(reqq)
    } else if k == key_metadata_size() {
        word_value(metadata_size)
    } else {
        m_value(m)
    } by {
        lemma_lookup_chain(e1 + e2 + e3 + e4, key_yourip(), bytes_value(yourip), k);
        lemma_lookup_chain(e1 + e2 + e3, key_v(), text_value(v), k);
        lemma_lookup_chain(e1 + e2, key_reqq(), word_value(reqq), k);
        lemma_lookup_chain(e1, key_metadata_size(), word_value(metadata_size), k);
        lemma_lookup_chain(empty, key_m(), m_value(m), k);
        assert(empty + e1 =~= e1);
        lemma_dict_lookup_absent(empty, k);
    }
    assert(dict_lookup(e1 + e2 + e3 + e4 + e5, key_m()) == m_value(m));
    assert(dict_lookup(e1 + e2 + e3 + e4 + e5, key_metadata_size()) == word_value(metadata_size));
    assert(dict_lookup(e1 + e2 + e3 + e4 + e5, key_reqq()) == word_value(reqq));
    assert(dict_lookup(e1 + e2 + e3 + e4 + e5, key_v()) == text_value(v));
    assert(dict_lookup(e1 + e2 + e3 + e4 + e5, key_yourip()) == bytes_value(yourip));
    assert(known[0] == key_m() && known[1] == key_metadata_size() && known[2] == key_reqq());
    assert(known[3] == key_v() && known[4] == key_yourip());
    lemma_opt_entry(key_m(), m_value(m), key_m(), known);
    lemma_opt_entry(key_metadata_size(), word_value(metadata_size), key_m(), known);
    lemma_opt_entry(key_reqq(), word_value(reqq), key_m(), known);
    lemma_opt_entry(key_v(), text_value(v), key_m(), known);
    lemma_opt_entry(key_yourip(), bytes_value(yourip), key_m(), known);
    lemma_unknown_concat(e1 + e2 + e3 + e4, e5, known);
    lemma_unknown_concat(e1 + e2 + e3, e4, known);
    lemma_unknown_concat(e1 + e2, e3, known);
    lemma_unknown_concat(e1, e2, known);
    assert(unknown_entries(e1 + e2 + e3 + e4 + e5, known) =~= empty);
}

/// The `m` dictionary of a handshake gives its ids back, and no other
/// extension.
proof fn lemma_m_lookups(ut_metadata: Option<u8>, ut_pex: Option<u8>)
    ensures
        ({
            let me = m_entries(ut_metadata, ut_pex);
            &&& dict_lookup(me, key_ut_metadata()) == byte_value(ut_metadata)
            &&& dict_lookup(me, key_ut_pex()) == byte_value(ut_pex)
            &&& unknown_entries(me, seq![key_ut_metadata(), key_ut_pex()]) == Seq::<
                (Seq<u8>, SpecValue),
            >::empty()
        }),
{
    let empty = Seq::<(Seq<u8>, SpecValue)>::empty();
    let mknown = seq![key_ut_metadata(), key_ut_pex()];
    let m1 = opt_entry(key_ut_metadata(), byte_value(ut_metadata));
    let m2 = opt_entry(key_ut_pex(), byte_value(ut_pex));
    assert(key_ut_metadata().len() != key_ut_pex().len());
    lemma_lookup_chain(m1, key_ut_pex(), byte_value(ut_pex), key_ut_metadata());
    lemma_lookup_chain(m1, key_ut_pex(), byte_value(ut_pex), key_ut_pex());
    lemma_opt_entry(key_ut_metadata(), byte_value(ut_metadata), key_ut_metadata(), mknown);
    lemma_opt_entry(key_ut_metadata(), byte_value(ut_metadata), key_ut_pex(), mknown);
    assert(mknown[0] == key_ut_metadata() && mknown[1] == key_ut_pex());
    lemma_opt_entry(key_ut_pex(), byte_value(ut_pex), key_ut_pex(), mknown);
    lemma_unknown_concat(m1, m2, mknown);
    assert(unknown_entries(m1 + m2, mknown) =~= empty);
}

/// The extension handshake a dictionary of known keys describes.
pub open spec fn reply_view(
    m: Option<(Option<u8>, Option<u8>)>,
    metadata_size: Option<u32>,
    reqq: Option<u32>,
    v: Option<Seq<char>>,
    yourip: Option<Seq<u8>>,
) -> ResponseView {
    ResponseView {
        ut_metadata: match m {
            Some((Some(u), _)) => u,
            _ => 0,
        },
        ut_pex: match m {
            Some((_, pex)) => pex,
            None => None,
        },
        m_extra: Seq::empty(),
        metadata_size,
        reqq,
        v,
        yourip,
        extra: Seq::empty(),
    }
}

/// A dictionary of known keys describes the handshake written in it.
proof fn lemma_reply_response(
    m: Option<(Option<u8>, Option<u8>)>,
    metadata_size: Option<u32>,
    reqq: Option<u32>,
    v: Option<Seq<char>>,
    yourip: Option<Seq<u8>>,
)
    ensures
        response_of(SpecValue::Dict(reply_entries(m, metadata_size, reqq, v, yourip))) == Some(
            reply_view(m, metadata_size, reqq, v, yourip),
        ),
{
    broadcast use vstd::utf8::encode_utf8_valid_utf8, vstd::utf8::encode_utf8_decode_utf8;

    lemma_reply_lookups(m, metadata_size, reqq, v, yourip);
    let empty = Seq::<(Seq<u8>, SpecValue)>::empty();
    if let Some((ut, pex)) = m {
        lemma_m_lookups(ut, pex);
    } else {
        lemma_dict_lookup_absent(empty, key_ut_metadata());
        lemma_dict_lookup_absent(empty, key_ut_pex());
        lemma_unknown_all_known(empty, seq![key_ut_metadata(), key_ut_pex()]);
    }
    if let Some(t) = v {
        assert(text_of(SpecValue::Bytes(vstd::utf8::encode_utf8(t))) == Some(t));
    }
}

/// A peer's extension handshake is read as written, whichever known keys it
/// carries and over the whole range of each: the `ut_metadata` id (0 when
/// absent) and the `ut_pex` id of `m`, any `metadata_size` and `reqq` that
/// fit a `u32`, any client text and any address, each absent when not
/// written, and nothing left over.
pub proof fn lemma_reply_roundtrip(
    m: Option<(Option<u8>, Option<u8>)>,
    metadata_size: Option<u32>,
    reqq: Option<u32>,
    v: Option<Seq<char>>,
    yourip: Option<Seq<u8>>,
)
    requires
        v matches Some(t) ==> vstd::utf8::encode_utf8(t).len() <= usize::MAX,
        yourip matches Some(b) ==> b.len() <= usize::MAX,
    ensures
        spec_extended_reply(
            seq![20u8, 0u8] + encode(
                SpecValue::Dict(reply_entries(m, metadata_size, reqq, v, yourip)),
            ),
        ) == Ok::<ResponseView, ExtendedHandshakeError>(
            reply_view(m, metadata_size, reqq, v, yourip),
        ),
{
    let d = SpecValue::Dict(reply_entries(m, metadata_size, reqq, v, yourip));
    lemma_reply_fits(m, metadata_size, reqq, v, yourip);
    let payload = seq![20u8, 0u8] + encode(d);
    assert(payload.skip(2) =~= encode(d) + Seq::<u8>::empty());
    lemma_decode_encoded(d, Seq::empty());
    lemma_reply_response(m, metadata_size, reqq, v, yourip);
}

/// Looking a key up after an optional entry: that entry when it is there and
/// holds the key, else what came before.
proof fn lemma_lookup_chain(
    a: Seq<(Seq<u8>, SpecValue)>,
    key: Seq<u8>,
    value: Option<SpecValue>,
    k: Seq<u8>,
)
    ensures
        dict_lookup(a + opt_entry(key, value), k) == if key == k && value is Some {
            value
        } else {
            dict_lookup(a, k)
        },
{
    lemma_dict_lookup_concat(a, opt_entry(key, value), k);
    lemma_opt_entry(key, value, k, Seq::empty());
}

impl ExtendedHandshakeResponse {
    pub open spec fn view(&self) -> ResponseView {
        ResponseView {
            ut_metadata: self.m.ut_metadata,
            ut_pex: self.m.ut_pex,
            m_extra: crate::bytes_bencode::view_entries(self.m.extra@),
            metadata_size: self.metadata_size,
            reqq: self.reqq,
            v: crate::extension::magnet_link::parser::opt_view(self.v),
            yourip: match self.yourip {
                Some(b) => Some(b@),
                None => None,
            },
            extra: crate::bytes_bencode::view_entries(self.extra@),
        }
    }
}

/// A number of at most `max`, when the key is there.
fn opt_number_from(v: Option<&BencodeValue>, max: u32) -> (r: Option<Option<u32>>)
    ensures
        match opt_number(
            match v {
                Some(x) => Some(x.view_value()),
                None => None,
            },
            max as int,
        ) {
            Some(Some(i)) => r == Some(Some(i as u32)),
            Some(None) => r == Some(None::<u32>),
            None => r is None,
        },
{
    match v {
        None => Some(None),
        Some(BencodeValue::Int(i)) => if *i >= 0 && *i <= max as i64 {
            Some(Some(*i as u32))
        } else {
            None
        },
        Some(_) => None,
    }
}

/// Whether `k` is one of `known`.
fn is_known(k: &Vec<u8>, known: &Vec<Vec<u8>>) -> (r: bool)
    ensures
        r == Seq::new(known@.len(), |i: int| known@[i]@).contains(k@),
{
    let ghost ks = Seq::new(known@.len(), |i: int| known@[i]@);
    let mut i: usize = 0;
    while i < known.len()
        invariant
            i <= known@.len(),
            ks == Seq::new(known@.len(), |i: int| known@[i]@),
            forall|j: int| 0 <= j < i ==> ks[j] != k@,
        decreases known@.len() - i,
    {
        if crate::metainfo::bytes_eq(known[i].as_slice(), k.as_slice()) {
            assert(ks[i as int] == k@);
            return true;
        }
        i = i + 1;
    }
    false
}

/// Copies the entries whose keys are not among `known`.
fn copy_unknown(e: &Vec<(Vec<u8>, BencodeValue)>, known: &Vec<Vec<u8>>) -> (r: Vec<
    (Vec<u8>, BencodeValue),
>)
    ensures
        crate::bytes_bencode::view_entries(r@) == unknown_entries(
            crate::bytes_bencode::view_entries(e@),
            Seq::new(known@.len(), |i: int| known@[i]@),
        ),
{
    let ghost ve = crate::bytes_bencode::view_entries(e@);
    let ghost ks = Seq::new(known@.len(), |i: int| known@[i]@);
    let mut out: Vec<(Vec<u8>, BencodeValue)> = Vec::new();
    let mut i: usize = 0;
    while i < e.len()
        invariant
            i <= e@.len(),
            ve == crate::bytes_bencode::view_entries(e@),
            ks == Seq::new(known@.len(), |i: int| known@[i]@),
            crate::bytes_bencode::view_entries(out@) == unknown_entries(ve.take(i as int), ks),
        decreases e@.len() - i,
    {
        let ghost before = out@;
        assert(ve.take(i + 1).drop_last() =~= ve.take(i as int));
        assert(ve.take(i + 1).last() == ve[i as int]);
        if !is_known(&e[i].0, known) {
            let k = e[i].0.clone();
            let v = e[i].1.copy();
            out.push((k, v));
            assert(crate::bytes_bencode::view_entries(out@) =~= crate::bytes_bencode::view_entries(
                before,
            ) + seq![ve[i as int]]);
        } else {
            assert(crate::bytes_bencode::view_entries(out@) =~= crate::bytes_bencode::view_entries(
                before,
            ) + Seq::<(Seq<u8>, SpecValue)>::empty());
        }
        i = i + 1;
    }
    assert(ve.take(i as int) =~= ve);
    out
}

impl ExtendedHandshake {
    /// Reads a peer's extension handshake from its payload (the bytes after
    /// the length prefix).
    pub fn parse_reply(payload: &[u8]) -> (r: Result<
        ExtendedHandshakeResponse,
        ExtendedHandshakeError,
    >)
        requires
            payload@.len() >= 1,
            payload@[0] == 20 ==> payload@.len() >= 2,
        ensures
            match spec_extended_reply(payload@) {
                Ok(v) => r matches Ok(x) && x.view() == v,
                Err(e) => r matches Err(x) && x == e,
            },
    {
        if payload[0] != 20 || payload[1] != 0 {
            return Err(ExtendedHandshakeError::NotAnExtendedHandshake);
        }
        let body = &payload[2..payload.len()];
        assert(body@ =~= payload@.skip(2));
        let d = match decode_prefix(body) {
            Some((d, _)) => d,
            None => {
                return Err(ExtendedHandshakeError::Malformed);
            },
        };
        let entries = match &d {
            BencodeValue::Dict(e) => e,
            _ => {
                return Err(ExtendedHandshakeError::Malformed);
            },
        };
        proof {
            crate::bytes_bencode::lemma_view_dict(d);
        }
        let ghost e = crate::bytes_bencode::view_entries(entries@);
        let k_m: Vec<u8> = vec![109u8];
        let k_ut_metadata: Vec<u8> = vec![117u8, 116, 95, 109, 101, 116, 97, 100, 97, 116, 97];
        let k_ut_pex: Vec<u8> = vec![117u8, 116, 95, 112, 101, 120];
        let k_metadata_size: Vec<u8> = vec![
            109u8, 101, 116, 97, 100, 97, 116, 97, 95, 115, 105, 122, 101,
        ];
        let k_reqq: Vec<u8> = vec![114u8, 101, 113, 113];
        let k_v: Vec<u8> = vec![118u8];
        let k_yourip: Vec<u8> = vec![121u8, 111, 117, 114, 105, 112];
        assert(k_m@ =~= key_m());
        assert(k_ut_metadata@ =~= key_ut_metadata());
        assert(k_ut_pex@ =~= key_ut_pex());
        assert(k_metadata_size@ =~= key_metadata_size());
        assert(k_reqq@ =~= key_reqq());
        assert(k_v@ =~= key_v());
        assert(k_yourip@ =~= key_yourip());
        let empty_m = BencodeValue::Dict(Vec::new());
        proof {
            crate::bytes_bencode::lemma_view_dict(empty_m);
            assert(crate::bytes_bencode::view_entries(Seq::<(Vec<u8>, BencodeValue)>::empty())
                =~= Seq::<(Seq<u8>, SpecValue)>::empty());
        }
        let m_value: &BencodeValue = match crate::metainfo::lookup(&d, k_m.as_slice()) {
            None => &empty_m,
            Some(mv) => match mv {
                BencodeValue::Dict(_) => mv,
                _ => {
                    return Err(ExtendedHandshakeError::Malformed);
                },
            },
        };
        let m_entries = match m_value {
            BencodeValue::Dict(me) => me,
            _ => {
                return Err(ExtendedHandshakeError::Malformed);
            },
        };
        proof {
            crate::bytes_bencode::lemma_view_dict(*m_value);
        }
        let ut = opt_number_from(crate::metainfo::lookup(m_value, k_ut_metadata.as_slice()), 255);
        let pex = opt_number_from(crate::metainfo::lookup(m_value, k_ut_pex.as_slice()), 255);
        let ms = opt_number_from(
            crate::metainfo::lookup(&d, k_metadata_size.as_slice()),
            u32::MAX,
        );
        let rq = opt_number_from(crate::metainfo::lookup(&d, k_reqq.as_slice()), u32::MAX);
        let (ut, pex, ms, rq) = match (ut, pex, ms, rq) {
            (Some(ut), Some(pex), Some(ms), Some(rq)) => (ut, pex, ms, rq),
            _ => {
                return Err(ExtendedHandshakeError::Malformed);
            },
        };
        let v: Option<String> = match crate::metainfo::lookup(&d, k_v.as_slice()) {
            None => None,
            Some(x) => match crate::metainfo::text_from(x) {
                Some(t) => Some(t),
                None => {
                    return Err(ExtendedHandshakeError::Malformed);
                },
            },
        };
        let yourip: Option<Vec<u8>> = match crate::metainfo::lookup(&d, k_yourip.as_slice()) {
            None => None,
            Some(BencodeValue::Bytes(b)) => Some(b.clone()),
            Some(_) => {
                return Err(ExtendedHandshakeError::Malformed);
            },
        };
        let mut m_known: Vec<Vec<u8>> = Vec::new();
        m_known.push(k_ut_metadata);
        m_known.push(k_ut_pex);
        assert(Seq::new(m_known@.len(), |i: int| m_known@[i]@) =~= seq![
            key_ut_metadata(),
            key_ut_pex(),
        ]);
        let mut known: Vec<Vec<u8>> = Vec::new();
        known.push(k_m);
        known.push(k_metadata_size);
        known.push(k_reqq);
        known.push(k_v);
        known.push(k_yourip);
        assert(Seq::new(known@.len(), |i: int| known@[i]@) =~= seq![
            key_m(),
            key_metadata_size(),
            key_reqq(),
            key_v(),
            key_yourip(),
        ]);
        let m_extra = copy_unknown(m_entries, &m_known);
        let extra = copy_unknown(entries, &known);
        let r = ExtendedHandshakeResponse {
            m: ExtendedHandshakeM {
                ut_metadata: match ut {
                    Some(i) => i as u8,
                    None => 0,
                },
                ut_pex: match pex {
                    Some(i) => Some(i as u8),
                    None => None,
                },
                extra: m_extra,
            },
            metadata_size: ms,
            reqq: rq,
            v,
            yourip,
            extra,
        };
        Ok(r)
    }
}


/// The tracker exchange that goes with a magnet link.
#[derive(Debug)]
pub struct ExtendedExchange<'a> {
    pub parser: &'a mut Parser,
    pub peers: Peers,
}

impl<'a> ExtendedExchange<'a> {
    pub fn new(parser: &'a mut Parser) -> (r: Self)
        ensures
            *r.parser == *old(parser),
            *final(parser) == *final(r.parser),
            r.peers.announce_url@ == Seq::<char>::empty(),
            r.peers.request.info_hash@ == Seq::<u8>::empty(),
            r.peers.request.peer_id@ == Seq::<char>::empty(),
            r.peers.request.ip is None,
            r.peers.request.port == 0,
            r.peers.request.uploaded == 0,
            r.peers.request.downloaded == 0,
            r.peers.request.left == 0,
            r.peers.request.event is None,
            r.peers.request.compact == 0,
            r.peers.response is None,
    {
        ExtendedExchange { parser, peers: Peers::new() }
    }

    /// Sets the parameters of the announce request.
    pub fn set_request(
        &mut self,
        info_hash: Vec<u8>,
        peer_id: String,
        ip: Option<String>,
        port: usize,
        uploaded: usize,
        downloaded: usize,
        left: usize,
        event: Option<Event>,
        compact: u32,
    ) -> (r: &mut Self)
        ensures
            r.peers.request.info_hash == info_hash,
            r.peers.request.peer_id == peer_id,
            r.peers.request.ip == ip,
            r.peers.request.port == port,
            r.peers.request.uploaded == uploaded,
            r.peers.request.downloaded == downloaded,
            r.peers.request.left == left,
            r.peers.request.event == event,
            r.peers.request.compact == compact,
            r.peers.announce_url == old(self).peers.announce_url,
            r.peers.response == old(self).peers.response,
            *final(self) == *final(r),
    {
        let req = self.peers.request.new(
            info_hash,
            peer_id,
            ip,
            port,
            uploaded,
            downloaded,
            left,
            event,
            compact,
        );
        self.peers.request = req;
        self
    }

    /// Sets the URL of the tracker.
    pub fn set_url(&mut self, url: String) -> (r: &mut Self)
        ensures
            r.peers.announce_url == url,
            r.peers.request == old(self).peers.request,
            r.peers.response == old(self).peers.response,
            *final(self) == *final(r),
    {
        self.peers.announce_url = url;
        self
    }

    /// The addresses of the peers the tracker answered with; none before it
    /// answered.
    pub fn peers_ip(&self) -> (r: Vec<String>)
        ensures
            match self.peers.response {
                Some(resp) => r@.len() == crate::peers::spec_peer_addrs(resp.peers).len() && forall|
                    i: int,
                |
                    0 <= i < r@.len() ==> (#[trigger] r@[i])@ == crate::peers::spec_peer_addrs(
                        resp.peers,
                    )[i],
                None => r@.len() == 0,
            },
    {
        match &self.peers.response {
            Some(resp) => resp.peers_ip(),
            None => Vec::new(),
        }
    }
}

} // verus!
