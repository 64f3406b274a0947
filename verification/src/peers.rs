//! The tracker: what this client announces to it and the peers it answers
//! with.
use vstd::prelude::*;

use crate::decimal::{decimal_digits, lemma_nat_digits, nat_digits};
use crate::utils::text::{ascii_chars, ascii_text, string_from_chars};

verus! {

#[derive(Debug, Clone, Copy, PartialEq, Eq, Structural)]
pub enum Event {
    Started,
    Completed,
    Stopped,
    /// This is same as not being present.
    Empty,
}

/// The text an event is announced as; empty for `Empty`, which is not
/// announced.
pub open spec fn event_text(e: Event) -> Seq<char> {
    match e {
        Event::Started => seq!['s', 't', 'a', 'r', 't', 'e', 'd'],
        Event::Completed => seq!['c', 'o', 'm', 'p', 'l', 'e', 't', 'e', 'd'],
        Event::Stopped => seq!['s', 't', 'o', 'p', 'p', 'e', 'd'],
        Event::Empty => Seq::empty(),
    }
}

impl Event {
    /// The text this event is announced as.
    pub fn as_text(&self) -> (r: String)
        ensures
            r@ == event_text(*self),
    {
        let chars = match self {
            Event::Started => vec!['s', 't', 'a', 'r', 't', 'e', 'd'],
            Event::Completed => vec!['c', 'o', 'm', 'p', 'l', 'e', 't', 'e', 'd'],
            Event::Stopped => vec!['s', 't', 'o', 'p', 'p', 'e', 'd'],
            Event::Empty => Vec::new(),
        };
        assert(chars@ =~= event_text(*self));
        string_from_chars(&chars)
    }
}

#[derive(Default, Debug, Clone)]
pub struct RequestParams {
    /// **(required)**. URL encoded info hash of the torrent, 20 bytes long.
    pub info_hash: Vec<u8>,
    /// **(required)**. Each downloader generates its own id (string of length 20) at random at the start of a new download.
    pub peer_id: String,
    /// **(optional)**. The IP (or dns name) which this peer is at.
    pub ip: Option<String>,
    /// **(required)**. The port number this peer is listening on.
    pub port: usize,
    /// **(required)**. The total amount uploaded so far.
    pub uploaded: usize,
    /// **(required)**. The total amount downloaded so far.
    pub downloaded: usize,
    /// **(required)**. The number of bytes this peer still has to download.
    pub left: usize,
    /// **(optional)** started, completed, or stopped (or empty, which is the
    /// same as not being present).
    pub event: Option<Event>,
    /// **(required)**. 1 when the client prefers the compact peer list, 0 otherwise.
    pub compact: u32,
}

/// A query parameter: its name and its value.
pub struct QueryPair {
    pub key: Seq<char>,
    pub value: Seq<u8>,
}

/// The decimal text of a number as bytes.
pub open spec fn number_bytes(n: nat) -> Seq<u8> {
    nat_digits(n)
}

/// The query parameters announced to the tracker, in order: the raw info
/// hash, then the peer id, the port, the amounts uploaded, downloaded and
/// left, and `compact`, as decimal text; then the event, unless there is none
/// or it is empty.
pub open spec fn spec_query(
    info_hash: Seq<u8>,
    peer_id: Seq<char>,
    port: nat,
    uploaded: nat,
    downloaded: nat,
    left: nat,
    event: Option<Event>,
    compact: nat,
) -> Seq<QueryPair> {
    seq![
        QueryPair { key: seq!['i', 'n', 'f', 'o', '_', 'h', 'a', 's', 'h'], value: info_hash },
        QueryPair {
            key: seq!['p', 'e', 'e', 'r', '_', 'i', 'd'],
            value: vstd::utf8::encode_utf8(peer_id),
        },
        QueryPair { key: seq!['p', 'o', 'r', 't'], value: number_bytes(port) },
        QueryPair { key: seq!['u', 'p', 'l', 'o', 'a', 'd', 'e', 'd'], value: number_bytes(uploaded) },
        QueryPair {
            key: seq!['d', 'o', 'w', 'n', 'l', 'o', 'a', 'd', 'e', 'd'],
            value: number_bytes(downloaded),
        },
        QueryPair { key: seq!['l', 'e', 'f', 't'], value: number_bytes(left) },
        QueryPair { key: seq!['c', 'o', 'm', 'p', 'a', 'c', 't'], value: number_bytes(compact) },
    ] + match event {
        Some(e) => if e != Event::Empty {
            seq![
                QueryPair {
                    key: seq!['e', 'v', 'e', 'n', 't'],
                    value: vstd::utf8::encode_utf8(event_text(e)),
                },
            ]
        } else {
            Seq::empty()
        },
        None => Seq::empty(),
    }
}

/// The value of the first query parameter named `key`, if any.
pub open spec fn query_value(q: Seq<QueryPair>, key: Seq<char>) -> Option<Seq<u8>>
    decreases q.len(),
{
    if q.len() == 0 {
        None
    } else if q[0].key == key {
        Some(q[0].value)
    } else {
        query_value(q.drop_first(), key)
    }
}

/// The event as announced: its text as UTF-8, or nothing when there is no
/// event or it is empty.
pub open spec fn announced_event(event: Option<Event>) -> Option<Seq<u8>> {
    match event {
        Some(e) => if e != Event::Empty {
            Some(vstd::utf8::encode_utf8(event_text(e)))
        } else {
            None
        },
        None => None,
    }
}

/// Each announced parameter carries its own field: the info hash raw, the
/// peer id as UTF-8, the port, the amounts uploaded, downloaded and left, and
/// `compact` as their decimal digits, and the event only when there is one
/// that is not empty.
pub proof fn lemma_query_fields(
    info_hash: Seq<u8>,
    peer_id: Seq<char>,
    port: nat,
    uploaded: nat,
    downloaded: nat,
    left: nat,
    event: Option<Event>,
    compact: nat,
)
    ensures
        ({
            let q = spec_query(info_hash, peer_id, port, uploaded, downloaded, left, event, compact);
            &&& query_value(q, seq!['i', 'n', 'f', 'o', '_', 'h', 'a', 's', 'h']) == Some(info_hash)
            &&& query_value(q, seq!['p', 'e', 'e', 'r', '_', 'i', 'd']) == Some(
                vstd::utf8::encode_utf8(peer_id),
            )
            &&& query_value(q, seq!['p', 'o', 'r', 't']) == Some(nat_digits(port))
            &&& query_value(q, seq!['u', 'p', 'l', 'o', 'a', 'd', 'e', 'd']) == Some(
                nat_digits(uploaded),
            )
            &&& query_value(q, seq!['d', 'o', 'w', 'n', 'l', 'o', 'a', 'd', 'e', 'd']) == Some(
                nat_digits(downloaded),
            )
            &&& query_value(q, seq!['l', 'e', 'f', 't']) == Some(nat_digits(left))
            &&& query_value(q, seq!['c', 'o', 'm', 'p', 'a', 'c', 't']) == Some(nat_digits(compact))
            &&& query_value(q, seq!['e', 'v', 'e', 'n', 't']) == announced_event(event)
        }),
{
    let q = spec_query(info_hash, peer_id, port, uploaded, downloaded, left, event, compact);
    let k_info = seq!['i', 'n', 'f', 'o', '_', 'h', 'a', 's', 'h'];
    let k_peer = seq!['p', 'e', 'e', 'r', '_', 'i', 'd'];
    let k_port = seq!['p', 'o', 'r', 't'];
    let k_up = seq!['u', 'p', 'l', 'o', 'a', 'd', 'e', 'd'];
    let k_down = seq!['d', 'o', 'w', 'n', 'l', 'o', 'a', 'd', 'e', 'd'];
    let k_left = seq!['l', 'e', 'f', 't'];
    let k_compact = seq!['c', 'o', 'm', 'p', 'a', 'c', 't'];
    let k_event = seq!['e', 'v', 'e', 'n', 't'];
    let keys = seq![k_info, k_peer, k_port, k_up, k_down, k_left, k_compact, k_event];
    assert forall|i: int, j: int| 0 <= i < 8 && 0 <= j < 8 && i != j implies #[trigger] keys[i]
        != #[trigger] keys[j] by {
        if keys[i].len() == keys[j].len() {
            assert(keys[i][0] != keys[j][0]);
        }
    }
    assert(q.len() >= 7);
    assert(q[0].key == k_info && q[1].key == k_peer && q[2].key == k_port && q[3].key == k_up);
    assert(q[4].key == k_down && q[5].key == k_left && q[6].key == k_compact);
    let tail = q.skip(7);
    assert(tail =~= match event {
        Some(e) => if e != Event::Empty {
            seq![QueryPair { key: k_event, value: vstd::utf8::encode_utf8(event_text(e)) }]
        } else {
            Seq::empty()
        },
        None => Seq::empty(),
    });
    assert(query_value(tail, k_event) == announced_event(event)) by {
        reveal_with_fuel(query_value, 2);
    }
    assert forall|k: Seq<char>| k != k_event implies query_value(tail, k) is None by {
        reveal_with_fuel(query_value, 2);
    }
    assert forall|i: int, k: Seq<char>| 0 <= i < 7 implies #[trigger] query_value(q.skip(i), k)
        == if q[i].key == k {
        Some(q[i].value)
    } else {
        query_value(q.skip(i + 1), k)
    } by {
        assert(q.skip(i).drop_first() =~= q.skip(i + 1));
    }
    assert(q.skip(0) =~= q);
    assert(q.skip(7) =~= tail);
    assert(q[0].value == info_hash);
    assert(q[3].value == nat_digits(uploaded));
    assert(q[4].value == nat_digits(downloaded));
    assert(keys[0] != keys[7] && keys[1] != keys[7] && keys[2] != keys[7] && keys[3] != keys[7]);
    assert(keys[4] != keys[7] && keys[5] != keys[7] && keys[6] != keys[7]);
    assert(keys[0] != keys[1] && keys[0] != keys[2] && keys[0] != keys[3] && keys[0] != keys[4]);
    assert(keys[0] != keys[5] && keys[0] != keys[6]);
    assert(keys[1] != keys[2] && keys[1] != keys[3] && keys[1] != keys[4] && keys[1] != keys[5]);
    assert(keys[1] != keys[6]);
    assert(keys[2] != keys[3] && keys[2] != keys[4] && keys[2] != keys[5] && keys[2] != keys[6]);
    assert(keys[3] != keys[4] && keys[3] != keys[5] && keys[3] != keys[6]);
    assert(keys[4] != keys[5] && keys[4] != keys[6] && keys[5] != keys[6]);
    assert(query_value(q.skip(6), k_compact) == Some(q[6].value));
    assert(query_value(q.skip(5), k_left) == Some(q[5].value));
    assert(query_value(q.skip(4), k_down) == Some(q[4].value));
    assert(query_value(q.skip(3), k_up) == Some(q[3].value));
    assert(query_value(q.skip(2), k_port) == Some(q[2].value));
    assert(query_value(q.skip(1), k_peer) == Some(q[1].value));
    assert(query_value(q.skip(0), k_info) == Some(q[0].value));
    assert(query_value(q.skip(6), k_event) == announced_event(event));
    assert(query_value(q.skip(5), k_event) == announced_event(event));
    assert(query_value(q.skip(4), k_event) == announced_event(event));
    assert(query_value(q.skip(3), k_event) == announced_event(event));
    assert(query_value(q.skip(2), k_event) == announced_event(event));
    assert(query_value(q.skip(1), k_event) == announced_event(event));
    assert(query_value(q.skip(0), k_event) == announced_event(event));
    assert(query_value(q.skip(0), k_peer) == Some(q[1].value));
    assert(query_value(q.skip(1), k_port) == Some(q[2].value));
    assert(query_value(q.skip(0), k_port) == Some(q[2].value));
    assert(query_value(q.skip(2), k_up) == Some(q[3].value));
    assert(query_value(q.skip(1), k_up) == Some(q[3].value));
    assert(query_value(q.skip(0), k_up) == Some(q[3].value));
    assert(query_value(q.skip(3), k_down) == Some(q[4].value));
    assert(query_value(q.skip(2), k_down) == Some(q[4].value));
    assert(query_value(q.skip(1), k_down) == Some(q[4].value));
    assert(query_value(q.skip(0), k_down) == Some(q[4].value));
    assert(query_value(q.skip(4), k_left) == Some(q[5].value));
    assert(query_value(q.skip(3), k_left) == Some(q[5].value));
    assert(query_value(q.skip(2), k_left) == Some(q[5].value));
    assert(query_value(q.skip(1), k_left) == Some(q[5].value));
    assert(query_value(q.skip(0), k_left) == Some(q[5].value));
    assert(query_value(q.skip(5), k_compact) == Some(q[6].value));
    assert(query_value(q.skip(4), k_compact) == Some(q[6].value));
    assert(query_value(q.skip(3), k_compact) == Some(q[6].value));
    assert(query_value(q.skip(2), k_compact) == Some(q[6].value));
    assert(query_value(q.skip(1), k_compact) == Some(q[6].value));
    assert(query_value(q.skip(0), k_compact) == Some(q[6].value));
}

/// The decimal digits announced for a number read back as that number.
pub proof fn lemma_number_bytes_read(n: nat)
    ensures
        crate::decimal::spec_unsigned_text(number_bytes(n)) == Some(n),
{
    lemma_nat_digits(n);
}

pub open spec fn pairs_view(v: Seq<(String, Vec<u8>)>) -> Seq<QueryPair> {
    Seq::new(v.len(), |i: int| QueryPair { key: v[i].0@, value: v[i].1@ })
}

fn pair(key: Vec<char>, value: Vec<u8>) -> (r: (String, Vec<u8>))
    ensures
        r.0@ == key@,
        r.1@ == value@,
{
    (string_from_chars(&key), value)
}

impl RequestParams {
    pub fn new(
        &self,
        info_hash: Vec<u8>,
        peer_id: String,
        ip: Option<String>,
        port: usize,
        uploaded: usize,
        downloaded: usize,
        left: usize,
        event: Option<Event>,
        compact: u32,
    ) -> (r: Self)
        ensures
            r.info_hash == info_hash,
            r.peer_id == peer_id,
            r.ip == ip,
            r.port == port,
            r.uploaded == uploaded,
            r.downloaded == downloaded,
            r.left == left,
            r.event == event,
            r.compact == compact,
    {
        RequestParams {
            info_hash,
            peer_id,
            ip,
            port,
            uploaded,
            downloaded,
            left,
            event,
            compact,
        }
    }

    pub fn build(
        &self,
        info_hash: Vec<u8>,
        peer_id: String,
        ip: Option<String>,
        port: usize,
        uploaded: usize,
        downloaded: usize,
        left: usize,
        event: Option<Event>,
        compact: u32,
    ) -> (r: Self)
        ensures
            r.info_hash == info_hash,
            r.peer_id == peer_id,
            r.ip == ip,
            r.port == port,
            r.uploaded == uploaded,
            r.downloaded == downloaded,
            r.left == left,
            r.event == event,
            r.compact == compact,
    {
        self.new(info_hash, peer_id, ip, port, uploaded, downloaded, left, event, compact)
    }

    /// The query parameters of the announce request.
    pub fn query_pairs(&self) -> (r: Vec<(String, Vec<u8>)>)
        ensures
            pairs_view(r@) == spec_query(
                self.info_hash@,
                self.peer_id@,
                self.port as nat,
                self.uploaded as nat,
                self.downloaded as nat,
                self.left as nat,
                self.event,
                self.compact as nat,
            ),
            query_value(pairs_view(r@), seq!['i', 'n', 'f', 'o', '_', 'h', 'a', 's', 'h']) == Some(
                self.info_hash@,
            ),
            query_value(pairs_view(r@), seq!['p', 'e', 'e', 'r', '_', 'i', 'd']) == Some(
                vstd::utf8::encode_utf8(self.peer_id@),
            ),
            query_value(pairs_view(r@), seq!['p', 'o', 'r', 't']) == Some(
                nat_digits(self.port as nat),
            ),
            query_value(pairs_view(r@), seq!['u', 'p', 'l', 'o', 'a', 'd', 'e', 'd']) == Some(
                nat_digits(self.uploaded as nat),
            ),
            query_value(pairs_view(r@), seq!['d', 'o', 'w', 'n', 'l', 'o', 'a', 'd', 'e', 'd'])
                == Some(nat_digits(self.downloaded as nat)),
            query_value(pairs_view(r@), seq!['l', 'e', 'f', 't']) == Some(
                nat_digits(self.left as nat),
            ),
            query_value(pairs_view(r@), seq!['c', 'o', 'm', 'p', 'a', 'c', 't']) == Some(
                nat_digits(self.compact as nat),
            ),
            query_value(pairs_view(r@), seq!['e', 'v', 'e', 'n', 't']) == announced_event(
                self.event,
            ),
    {
        let mut out: Vec<(String, Vec<u8>)> = Vec::new();
        out.push(pair(vec!['i', 'n', 'f', 'o', '_', 'h', 'a', 's', 'h'], self.info_hash.clone()));
        let id_bytes = vstd::slice::slice_to_vec(self.peer_id.as_str().as_bytes());
        out.push(pair(vec!['p', 'e', 'e', 'r', '_', 'i', 'd'], id_bytes));
        out.push(pair(vec!['p', 'o', 'r', 't'], decimal_digits(self.port as u64)));
        out.push(pair(vec!['u', 'p', 'l', 'o', 'a', 'd', 'e', 'd'], decimal_digits(self.uploaded as u64)));
        out.push(
            pair(
                vec!['d', 'o', 'w', 'n', 'l', 'o', 'a', 'd', 'e', 'd'],
                decimal_digits(self.downloaded as u64),
            ),
        );
        out.push(pair(vec!['l', 'e', 'f', 't'], decimal_digits(self.left as u64)));
        out.push(pair(vec!['c', 'o', 'm', 'p', 'a', 'c', 't'], decimal_digits(self.compact as u64)));
        match self.event {
            Some(e) => {
                if e != Event::Empty {
                    let text = e.as_text();
                    let bytes = vstd::slice::slice_to_vec(text.as_str().as_bytes());
                    out.push(pair(vec!['e', 'v', 'e', 'n', 't'], bytes));
                }
            },
            None => {},
        }
        assert(pairs_view(out@) =~= spec_query(
            self.info_hash@,
            self.peer_id@,
            self.port as nat,
            self.uploaded as nat,
            self.downloaded as nat,
            self.left as nat,
            self.event,
            self.compact as nat,
        ));
        proof {
            lemma_query_fields(
                self.info_hash@,
                self.peer_id@,
                self.port as nat,
                self.uploaded as nat,
                self.downloaded as nat,
                self.left as nat,
                self.event,
                self.compact as nat,
            );
        }
        out
    }
}

#[derive(Debug, Clone)]
pub struct PeerDict {
    pub ip: String,
    /// The peer id, which may hold any bytes.
    pub peer_id: Option<Vec<u8>>,
    pub port: u16,
}

/// The peers of a tracker response: the compact form (6 bytes per peer) or
/// a list of dictionaries.
#[derive(Debug, Clone)]
pub enum PeersField {
    Compact(Vec<u8>),
    Dict(Vec<PeerDict>),
}

impl Default for PeersField {
    fn default() -> (r: Self)
        ensures
            r matches PeersField::Compact(b) && b@.len() == 0,
    {
        PeersField::Compact(Vec::new())
    }
}

#[derive(Debug, Default, Clone)]
pub struct ResponseParams {
    /// Number of peers who have finished downloading.
    pub complete: u32,
    /// Number of peers who are still downloading (leechers).
    pub incomplete: u32,
    /// Minimum seconds to wait before recontacting the tracker.
    pub min_interval: u32,
    /// How often the client should make a request to the tracker.
    pub interval: u32,
    /// The peers the client can connect to. In the compact form each peer
    /// takes 6 bytes: 4 for its IP address and 2 for its port.
    pub peers: PeersField,
}

/// The decimal text of a number.
pub open spec fn number_text(n: nat) -> Seq<char> {
    ascii_text(nat_digits(n))
}

/// The address of a peer in the compact form, `a.b.c.d:port`; the port is
/// big-endian.
pub open spec fn compact_addr(c: Seq<u8>) -> Seq<char> {
    number_text(c[0] as nat) + seq!['.'] + number_text(c[1] as nat) + seq!['.'] + number_text(
        c[2] as nat,
    ) + seq!['.'] + number_text(c[3] as nat) + seq![':'] + number_text(
        (c[4] as nat) * 256 + (c[5] as nat),
    )
}

/// The addresses of the peers of a tracker response, `ip:port` each: one per
/// full 6 bytes of the compact form, or one per dictionary.
pub open spec fn spec_peer_addrs(p: PeersField) -> Seq<Seq<char>> {
    match p {
        PeersField::Compact(b) => Seq::new(
            b@.len() / 6,
            |i: int| compact_addr(b@.subrange(6 * i, 6 * i + 6)),
        ),
        PeersField::Dict(l) => Seq::new(
            l@.len(),
            |i: int| l@[i].ip@ + seq![':'] + number_text(l@[i].port as nat),
        ),
    }
}

/// The decimal text of a number.
fn number_chars(n: u64) -> (r: Vec<char>)
    ensures
        r@ == number_text(n as nat),
{
    let digits = decimal_digits(n);
    proof {
        lemma_nat_digits(n as nat);
        assert forall|k: int| 0 <= k < digits@.len() implies digits@[k] < 128 by {
            assert(crate::decimal::is_digit(digits@[k]));
        }
    }
    ascii_chars(digits.as_slice())
}

/// Appends all of `b` to `a`.
fn push_all(a: &mut Vec<char>, b: Vec<char>)
    ensures
        final(a)@ == old(a)@ + b@,
{
    let mut b = b;
    a.append(&mut b);
}

impl ResponseParams {
    /// The addresses of the peers, `ip:port` each.
    pub fn peers_ip(&self) -> (r: Vec<String>)
        ensures
            r@.len() == spec_peer_addrs(self.peers).len(),
            forall|i: int|
                0 <= i < r@.len() ==> (#[trigger] r@[i])@ == spec_peer_addrs(self.peers)[i],
    {
        let mut out: Vec<String> = Vec::new();
        match &self.peers {
            PeersField::Compact(buf) => {
                let count = buf.len() / 6;
                let mut i: usize = 0;
                while i < count
                    invariant
                        count == buf@.len() / 6,
                        i <= count,
                        out@.len() == i,
                        forall|j: int|
                            0 <= j < i ==> (#[trigger] out@[j])@ == compact_addr(
                                buf@.subrange(6 * j, 6 * j + 6),
                            ),
                    decreases count - i,
                {
                    proof {
                        vstd::arithmetic::div_mod::lemma_fundamental_div_mod(buf@.len() as int, 6);
                    }
                    assert(6 * i + 6 <= buf.len());
                    let at = 6 * i;
                    let ghost c = buf@.subrange(6 * i, 6 * i + 6);
                    let mut text: Vec<char> = Vec::new();
                    push_all(&mut text, number_chars(buf[at] as u64));
                    text.push('.');
                    push_all(&mut text, number_chars(buf[at + 1] as u64));
                    text.push('.');
                    push_all(&mut text, number_chars(buf[at + 2] as u64));
                    text.push('.');
                    push_all(&mut text, number_chars(buf[at + 3] as u64));
                    text.push(':');
                    let port: u16 = ((buf[at + 4] as u16) << 8u16) | (buf[at + 5] as u16);
                    let hi = buf[at + 4];
                    let lo = buf[at + 5];
                    assert(port == (hi as nat) * 256 + (lo as nat)) by (bit_vector)
                        requires
                            port == ((hi as u16) << 8u16) | (lo as u16),
                    ;
                    push_all(&mut text, number_chars(port as u64));
                    assert(text@ =~= compact_addr(c));
                    out.push(string_from_chars(&text));
                    i = i + 1;
                }
            },
            PeersField::Dict(list) => {
                let mut i: usize = 0;
                while i < list.len()
                    invariant
                        i <= list@.len(),
                        out@.len() == i,
                        forall|j: int|
                            0 <= j < i ==> (#[trigger] out@[j])@ == list@[j].ip@ + seq![':']
                                + number_text(list@[j].port as nat),
                    decreases list@.len() - i,
                {
                    let mut text: Vec<char> = crate::utils::text::chars_of(list[i].ip.as_str());
                    text.push(':');
                    push_all(&mut text, number_chars(list[i].port as u64));
                    out.push(string_from_chars(&text));
                    i = i + 1;
                }
            },
        }
        out
    }
}

#[derive(Debug, Default, Clone)]
pub struct Peers {
    /// URL to request tracker for information.
    pub announce_url: String,
    pub request: RequestParams,
    pub response: Option<ResponseParams>,
}

impl Peers {
    /// No tracker URL, default request parameters and no response yet.
    pub fn new() -> (r: Self)
        ensures
            r.announce_url@ == Seq::<char>::empty(),
            r.request.info_hash@ == Seq::<u8>::empty(),
            r.request.peer_id@ == Seq::<char>::empty(),
            r.request.ip is None,
            r.request.port == 0,
            r.request.uploaded == 0,
            r.request.downloaded == 0,
            r.request.left == 0,
            r.request.event is None,
            r.request.compact == 0,
            r.response is None,
    {
        Peers {
            announce_url: String::new(),
            request: RequestParams {
                info_hash: Vec::new(),
                peer_id: String::new(),
                ip: None,
                port: 0,
                uploaded: 0,
                downloaded: 0,
                left: 0,
                event: None,
                compact: 0,
            },
            response: None,
        }
    }

    /// Sets the URL of the tracker.
    pub fn announce_url(&mut self, url: String) -> (r: &mut Self)
        ensures
            r.announce_url == url,
            r.request == old(self).request,
            r.response == old(self).response,
            *final(self) == *final(r),
    {
        self.announce_url = url;
        self
    }
}

} // verus!
