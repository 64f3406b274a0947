//! The decisions of a download: how a file splits into pieces and a piece into
//! blocks, how received blocks are kept and put together, when the exchange
//! with a peer after the handshake is done, when receiving a piece gives up,
//! and which peer downloads which piece.
use vstd::prelude::*;
use rand::seq::SliceRandom;
use std::collections::HashSet;

use crate::connection::message::{announced, bitfield_pieces, MessageType, MessageView};
use crate::utils::cryptography::{sha1_digest, sha1_hash};
use crate::utils::text::{hex_string, hex_text};

verus! {

broadcast use vstd::std_specs::hash::group_hash_axioms;

/// The size of a block requested from a peer.
pub const BLOCK_SIZE: u32 = 16_384;

/// Consecutive unproductive messages after which receiving a piece gives up.
pub const MAX_CONSECUTIVE_FAILURE: u32 = 5;

/// Consecutive messages without progress after which the exchange that follows
/// a handshake gives up.
pub const MAX_TIMEOUT: u32 = 3;

/// The number of pieces of a file: its size divided by the piece length,
/// rounded up.
pub open spec fn spec_total_pieces(file_size: int, piece_len: int) -> int {
    (file_size + piece_len - 1) / piece_len
}

/// The length of piece `index`: the piece length, except for the last piece,
/// which holds what remains of the file.
pub open spec fn spec_piece_length(index: int, file_size: int, piece_len: int) -> int {
    if index == spec_total_pieces(file_size, piece_len) - 1 {
        file_size - index * piece_len
    } else {
        piece_len
    }
}

/// The number of pieces of a file of `file_size` bytes.
pub fn total_pieces(file_size: usize, piece_len: usize) -> (r: usize)
    requires
        piece_len > 0,
        file_size + piece_len <= usize::MAX,
    ensures
        r == spec_total_pieces(file_size as int, piece_len as int),
{
    (file_size + piece_len - 1) / piece_len
}

/// How the number of pieces relates to the file size.
pub proof fn lemma_total_pieces(file_size: int, piece_len: int)
    requires
        piece_len > 0,
        file_size > 0,
    ensures
        spec_total_pieces(file_size, piece_len) >= 1,
        (spec_total_pieces(file_size, piece_len) - 1) * piece_len < file_size,
        file_size <= spec_total_pieces(file_size, piece_len) * piece_len,
{
    let q = spec_total_pieces(file_size, piece_len);
    let x = file_size + piece_len - 1;
    vstd::arithmetic::div_mod::lemma_fundamental_div_mod(x, piece_len);
    assert(x == piece_len * q + x % piece_len);
    assert(0 <= x % piece_len < piece_len) by {
        vstd::arithmetic::div_mod::lemma_mod_bound(x, piece_len);
    }
    assert((q - 1) * piece_len == q * piece_len - piece_len) by (nonlinear_arith);
    assert(q * piece_len == piece_len * q) by (nonlinear_arith);
    if q < 1 {
        assert(piece_len * q <= 0) by (nonlinear_arith)
            requires
                piece_len > 0,
                q < 1,
        ;
    }
}

/// The length of piece `index` of a file of `file_size` bytes.
pub fn piece_length(index: u32, file_size: usize, piece_len: usize) -> (r: usize)
    requires
        piece_len > 0,
        file_size > 0,
        file_size + piece_len <= usize::MAX,
    ensures
        r == spec_piece_length(index as int, file_size as int, piece_len as int),
{
    let total = total_pieces(file_size, piece_len);
    proof {
        lemma_total_pieces(file_size as int, piece_len as int);
    }
    if index as usize == total - 1 {
        assert((index as int) * (piece_len as int) < file_size);
        file_size - (index as usize) * piece_len
    } else {
        piece_len
    }
}

/// The lengths of the first `n` pieces, added up.
pub open spec fn sum_piece_lengths(n: nat, file_size: int, piece_len: int) -> int
    decreases n,
{
    if n == 0 {
        0
    } else {
        sum_piece_lengths((n - 1) as nat, file_size, piece_len) + spec_piece_length(
            n - 1,
            file_size,
            piece_len,
        )
    }
}

proof fn lemma_sum_full_pieces(n: nat, file_size: int, piece_len: int)
    requires
        n < spec_total_pieces(file_size, piece_len),
    ensures
        sum_piece_lengths(n, file_size, piece_len) == n * piece_len,
    decreases n,
{
    if n > 0 {
        lemma_sum_full_pieces((n - 1) as nat, file_size, piece_len);
        assert(spec_piece_length(n - 1, file_size, piece_len) == piece_len);
        assert(sum_piece_lengths(n, file_size, piece_len) == sum_piece_lengths(
            (n - 1) as nat,
            file_size,
            piece_len,
        ) + piece_len);
        assert(n * piece_len == (n - 1) * piece_len + piece_len) by (nonlinear_arith);
    } else {
        assert(n * piece_len == 0) by (nonlinear_arith)
            requires
                n == 0,
        ;
    }
}

/// The pieces of a file cover it exactly: every piece holds at least one byte
/// and at most a piece length, and their lengths add up to the file size.
pub proof fn lemma_pieces_cover_file(file_size: int, piece_len: int)
    requires
        piece_len > 0,
        file_size > 0,
    ensures
        sum_piece_lengths(
            spec_total_pieces(file_size, piece_len) as nat,
            file_size,
            piece_len,
        ) == file_size,
        forall|k: int|
            0 <= k < spec_total_pieces(file_size, piece_len) ==> 0 < #[trigger] spec_piece_length(
                k,
                file_size,
                piece_len,
            ) <= piece_len,
{
    lemma_total_pieces(file_size, piece_len);
    let t = spec_total_pieces(file_size, piece_len);
    lemma_sum_full_pieces((t - 1) as nat, file_size, piece_len);
    assert forall|k: int| 0 <= k < t implies 0 < #[trigger] spec_piece_length(
        k,
        file_size,
        piece_len,
    ) <= piece_len by {
        if k == t - 1 {
            assert(file_size <= t * piece_len);
            assert(t * piece_len == (t - 1) * piece_len + piece_len) by (nonlinear_arith);
        }
    }
}

/// The number of blocks of a piece of `len` bytes.
pub open spec fn spec_block_count(len: int) -> int {
    (len + BLOCK_SIZE - 1) / (BLOCK_SIZE as int)
}

/// Block `i` of a piece of `len` bytes: its offset and its length.
pub open spec fn spec_block(len: int, i: int) -> (int, int) {
    let begin = i * BLOCK_SIZE;
    (begin, if begin + BLOCK_SIZE <= len {
        BLOCK_SIZE as int
    } else {
        len - begin
    })
}

/// The number of blocks of a piece of `len` bytes.
pub fn block_count(len: usize) -> (r: usize)
    requires
        len + BLOCK_SIZE <= usize::MAX,
    ensures
        r == spec_block_count(len as int),
{
    let block: usize = 16_384;
    (len + block - 1) / block
}

/// The blocks to request for a piece of `actual_piece_length` bytes, as
/// offset and length, in order.
pub fn block_plan(actual_piece_length: usize, total_blocks: usize) -> (r: Vec<(usize, usize)>)
    requires
        total_blocks * BLOCK_SIZE <= usize::MAX,
        total_blocks == 0 || (total_blocks - 1) * BLOCK_SIZE <= actual_piece_length,
    ensures
        r@.len() == total_blocks,
        forall|i: int|
            0 <= i < total_blocks ==> (r@[i].0 as int, r@[i].1 as int) == spec_block(
                actual_piece_length as int,
                i,
            ),
{
    let mut plan: Vec<(usize, usize)> = Vec::new();
    let mut block_idx: usize = 0;
    while block_idx < total_blocks
        invariant
            block_idx <= total_blocks,
            total_blocks * BLOCK_SIZE <= usize::MAX,
            total_blocks == 0 || (total_blocks - 1) * BLOCK_SIZE <= actual_piece_length,
            plan@.len() == block_idx,
            forall|i: int|
                0 <= i < block_idx ==> (plan@[i].0 as int, plan@[i].1 as int) == spec_block(
                    actual_piece_length as int,
                    i,
                ),
        decreases total_blocks - block_idx,
    {
        assert(block_idx * BLOCK_SIZE + BLOCK_SIZE <= total_blocks * BLOCK_SIZE) by (
        nonlinear_arith)
            requires
                block_idx < total_blocks,
        ;
        assert(block_idx * BLOCK_SIZE <= (total_blocks - 1) * BLOCK_SIZE) by (nonlinear_arith)
            requires
                block_idx < total_blocks,
        ;
        let begin = block_idx * BLOCK_SIZE as usize;
        let block_length = if begin + BLOCK_SIZE as usize <= actual_piece_length {
            BLOCK_SIZE as usize
        } else {
            actual_piece_length - begin
        };
        plan.push((begin, block_length));
        block_idx = block_idx + 1;
    }
    plan
}

/// The blocks of a piece tile it: the first starts at zero, each starts where
/// the one before it ends, the last ends at the end of the piece, and each
/// holds at least one byte and at most a block size.
pub proof fn lemma_blocks_tile_piece(len: int)
    requires
        len > 0,
    ensures
        spec_block(len, 0).0 == 0,
        forall|i: int|
            0 <= i < spec_block_count(len) ==> 0 < #[trigger] spec_block(len, i).1 <= BLOCK_SIZE,
        forall|i: int|
            0 <= i < spec_block_count(len) - 1 ==> #[trigger] spec_block(len, i).0 + spec_block(
                len,
                i,
            ).1 == spec_block(len, i + 1).0,
        spec_block(len, spec_block_count(len) - 1).0 + spec_block(len, spec_block_count(len) - 1).1
            == len,
{
    lemma_total_pieces(len, BLOCK_SIZE as int);
    let n = spec_block_count(len);
    assert(n == spec_total_pieces(len, BLOCK_SIZE as int));
    assert forall|i: int| 0 <= i < n implies 0 < #[trigger] spec_block(len, i).1 <= BLOCK_SIZE by {
        assert(i * BLOCK_SIZE <= (n - 1) * BLOCK_SIZE) by (nonlinear_arith)
            requires
                i < n,
        ;
    }
    assert forall|i: int| 0 <= i < n - 1 implies #[trigger] spec_block(len, i).0 + spec_block(
        len,
        i,
    ).1 == spec_block(len, i + 1).0 by {
        assert((i + 1) * BLOCK_SIZE <= (n - 1) * BLOCK_SIZE) by (nonlinear_arith)
            requires
                i + 1 < n,
        ;
        assert((i + 1) * BLOCK_SIZE == i * BLOCK_SIZE + BLOCK_SIZE) by (nonlinear_arith);
    }
    assert(n * BLOCK_SIZE == (n - 1) * BLOCK_SIZE + BLOCK_SIZE) by (nonlinear_arith);
}

/// The peer id of a peer and the pieces it has.
#[derive(Debug)]
pub struct BitFieldInfo {
    pub peer_id: String,
    /// Pieces available on this specific peer (not all peers).
    pub present_pieces: HashSet<u32>,
}

impl BitFieldInfo {
    /// No peer id yet and no pieces.
    pub fn new() -> (r: Self)
        ensures
            r.peer_id@ == Seq::<char>::empty(),
            r.present_pieces@ == Set::<u32>::empty(),
    {
        BitFieldInfo { peer_id: String::new(), present_pieces: HashSet::new() }
    }

    /// Records the pieces that a peer's bitfield announced.
    pub fn record_bitfield(&mut self, peer_id: String, pieces: HashSet<u32>)
        ensures
            final(self).peer_id == peer_id,
            final(self).present_pieces@ == pieces@,
    {
        self.peer_id = peer_id;
        self.present_pieces = pieces;
    }

    /// Records a piece that a peer's `have` message announced.
    pub fn record_have(&mut self, peer_id: String, piece: u32)
        ensures
            final(self).peer_id == peer_id,
            final(self).present_pieces@ == old(self).present_pieces@.insert(piece),
    {
        self.peer_id = peer_id;
        self.present_pieces.insert(piece);
    }
}

/// Progress information that can be passed to a front end.
#[derive(Debug, Default)]
pub struct Progress {
    pub downloaded: u64,
    pub download_speed: u64,
    pub upload_speed: Option<u64>,
    pub peers: u32,
    pub status: String,
    pub eta: Option<u64>,
}

impl Progress {
    pub fn new(
        downloaded: u64,
        download_speed: u64,
        upload_speed: Option<u64>,
        peers: u32,
        status: String,
        eta: Option<u64>,
    ) -> (r: Self)
        ensures
            r.downloaded == downloaded,
            r.download_speed == download_speed,
            r.upload_speed == upload_speed,
            r.peers == peers,
            r.status == status,
            r.eta == eta,
    {
        Progress { downloaded, download_speed, upload_speed, peers, status, eta }
    }
}

/// What the exchange that follows a handshake has seen so far.
#[derive(Debug, Clone, Copy)]
pub struct PeerSetup {
    pub has_bitfield: bool,
    pub has_unchoke: bool,
    pub has_have: bool,
    pub sent_interested: bool,
    pub timeout_counter: u32,
}

/// What to do after a message of the exchange that follows a handshake.
#[derive(Debug, Clone, Copy)]
pub struct SetupStep {
    /// Send `interested` to the peer; if that fails, drop the peer.
    pub send_interested: bool,
    /// Record that the peer unchoked us.
    pub mark_unchoked: bool,
    /// The exchange is over.
    pub finished: bool,
}

impl PeerSetup {
    pub open spec fn ready(&self) -> bool {
        self.has_unchoke && (self.has_bitfield || self.has_have)
    }

    pub open spec fn wf(&self) -> bool {
        self.timeout_counter < MAX_TIMEOUT
    }

    /// Nothing seen yet.
    pub fn new() -> (r: Self)
        ensures
            r.wf(),
            !r.has_bitfield && !r.has_unchoke && !r.has_have && !r.sent_interested,
            r.timeout_counter == 0,
    {
        PeerSetup {
            has_bitfield: false,
            has_unchoke: false,
            has_have: false,
            sent_interested: false,
            timeout_counter: 0,
        }
    }

    /// Takes in the next message of the exchange (`None` when reading it
    /// failed). A bitfield replaces the pieces of the peer (those below
    /// `total_pieces`) and asks for `interested`; a `have` adds its piece and
    /// asks for `interested` unless it was sent; an `unchoke` is recorded.
    /// The exchange ends on a read error, once the peer unchoked us and
    /// announced pieces, or after `MAX_TIMEOUT` messages in a row without
    /// progress (only a `choke` brings none).
    pub fn on_message(
        &mut self,
        info: &mut BitFieldInfo,
        msg: Option<&MessageType>,
        total_pieces: usize,
    ) -> (r: SetupStep)
        requires
            old(self).wf(),
            msg matches Some(MessageType::BitField(p)) ==> 8 * p@.len() <= 0x1_0000_0000,
        ensures
            final(self).timeout_counter <= MAX_TIMEOUT,
            !r.finished ==> final(self).wf(),
            msg is None ==> r.finished && *final(self) == *old(self) && !r.send_interested
                && !r.mark_unchoked && final(info).present_pieces@ == old(
                info,
            ).present_pieces@,
            msg matches Some(MessageType::BitField(p)) ==> {
                &&& final(info).present_pieces@ == announced(p@, (total_pieces as u32) as int)
                &&& final(self).has_bitfield && final(self).sent_interested
                &&& r.send_interested
            },
            msg matches Some(MessageType::Have(k)) ==> {
                &&& final(info).present_pieces@ == old(info).present_pieces@.insert(*k)
                &&& final(self).has_have && final(self).sent_interested
                &&& r.send_interested == !old(self).sent_interested
            },
            msg matches Some(MessageType::Unchoke) ==> final(self).has_unchoke && r.mark_unchoked,
            !(msg matches Some(MessageType::Unchoke)) ==> !r.mark_unchoked,
            !(msg matches Some(MessageType::BitField(_))) && !(msg matches Some(
                MessageType::Have(_),
            )) ==> !r.send_interested && final(info).present_pieces@ == old(
                info,
            ).present_pieces@,
            msg is Some ==> (r.finished <==> (final(self).ready()
                || final(self).timeout_counter >= MAX_TIMEOUT)),
            msg matches Some(MessageType::Choke) ==> final(self).timeout_counter
                == old(self).timeout_counter + 1 || final(self).ready(),
            msg is Some && !(msg matches Some(MessageType::Choke)) && !final(self).ready()
                ==> final(self).timeout_counter == 1,
            final(self).has_bitfield == (old(self).has_bitfield || msg matches Some(
                MessageType::BitField(_),
            )),
            final(self).has_have == (old(self).has_have || msg matches Some(MessageType::Have(_))),
            final(self).has_unchoke == (old(self).has_unchoke || msg matches Some(
                MessageType::Unchoke,
            )),
    {
        let mut step = SetupStep { send_interested: false, mark_unchoked: false, finished: false };
        match msg {
            None => {
                step.finished = true;
                return step;
            },
            Some(m) => {
                match m {
                    MessageType::BitField(payload) => {
                        let pieces = bitfield_pieces(payload.as_slice(), Some(total_pieces as u32));
                        info.present_pieces = pieces;
                        self.has_bitfield = true;
                        self.timeout_counter = 0;
                        step.send_interested = true;
                        self.sent_interested = true;
                    },
                    MessageType::Have(piece_index) => {
                        info.present_pieces.insert(*piece_index);
                        self.has_have = true;
                        self.timeout_counter = 0;
                        if !self.sent_interested {
                            step.send_interested = true;
                            self.sent_interested = true;
                        }
                    },
                    MessageType::Unchoke => {
                        self.has_unchoke = true;
                        step.mark_unchoked = true;
                        self.timeout_counter = 0;
                    },
                    MessageType::Choke => {},
                    _ => {
                        self.timeout_counter = 0;
                    },
                }
                if self.has_unchoke && (self.has_bitfield || self.has_have) {
                    step.finished = true;
                    return step;
                }
            },
        }
        self.timeout_counter = self.timeout_counter + 1;
        if self.timeout_counter >= MAX_TIMEOUT {
            step.finished = true;
        }
        step
    }

    /// Whether the peer joins the download once the exchange is over: it
    /// unchoked us and announced pieces, and the exchange did not run out of
    /// time.
    pub fn accepted(&self) -> (r: bool)
        ensures
            r == (!(self.timeout_counter >= MAX_TIMEOUT) && self.ready()),
    {
        !(self.timeout_counter >= MAX_TIMEOUT) && (self.has_unchoke && (self.has_bitfield
            || self.has_have))
    }
}


/// The blocks of one piece as offsets and bytes.
pub open spec fn blocks_view(v: Seq<(u32, Vec<u8>)>) -> Seq<(u32, Seq<u8>)> {
    Seq::new(v.len(), |i: int| (v[i].0, v[i].1@))
}

/// The offsets of the blocks rise strictly.
pub open spec fn sorted_begins(s: Seq<(u32, Seq<u8>)>) -> bool {
    forall|i: int, j: int| 0 <= i < j < s.len() ==> s[i].0 < s[j].0
}

/// Stores a block at offset `begin` among blocks kept in rising order of
/// offset; a block already at that offset is replaced.
pub open spec fn insert_block(s: Seq<(u32, Seq<u8>)>, begin: u32, block: Seq<u8>) -> Seq<
    (u32, Seq<u8>),
>
    decreases s.len(),
{
    if s.len() == 0 {
        seq![(begin, block)]
    } else if s[0].0 == begin {
        seq![(begin, block)] + s.skip(1)
    } else if s[0].0 > begin {
        seq![(begin, block)] + s
    } else {
        seq![s[0]] + insert_block(s.skip(1), begin, block)
    }
}

/// The bytes of the blocks, one after the other.
pub open spec fn concat_blocks(s: Seq<(u32, Seq<u8>)>) -> Seq<u8>
    decreases s.len(),
{
    if s.len() == 0 {
        Seq::empty()
    } else {
        concat_blocks(s.drop_last()) + s.last().1
    }
}

proof fn lemma_insert_block_at(s: Seq<(u32, Seq<u8>)>, begin: u32, block: Seq<u8>, pos: int)
    requires
        sorted_begins(s),
        0 <= pos <= s.len(),
        forall|j: int| 0 <= j < pos ==> s[j].0 < begin,
        pos < s.len() ==> s[pos].0 >= begin,
    ensures
        insert_block(s, begin, block) == if pos < s.len() && s[pos].0 == begin {
            s.take(pos) + seq![(begin, block)] + s.skip(pos + 1)
        } else {
            s.take(pos) + seq![(begin, block)] + s.skip(pos)
        },
        sorted_begins(insert_block(s, begin, block)),
    decreases pos,
{
    if pos == 0 {
        assert(s.take(0) + seq![(begin, block)] + s.skip(1) =~= seq![(begin, block)] + s.skip(1));
        assert(s.take(0) + seq![(begin, block)] + s.skip(0) =~= seq![(begin, block)] + s);
        let r = insert_block(s, begin, block);
        assert forall|i: int, j: int| 0 <= i < j < r.len() implies r[i].0 < r[j].0 by {
            if i > 0 && s.len() > 0 && s[0].0 == begin {
                assert(r[i] == s[i]);
                assert(r[j] == s[j]);
            } else if i > 0 {
                assert(r[i] == s[i - 1]);
                assert(r[j] == s[j - 1]);
            } else if s.len() > 0 && s[0].0 == begin {
                assert(r[j] == s[j]);
                assert(s[0].0 < s[j].0);
            } else {
                assert(r[j] == s[j - 1]);
                if j - 1 > 0 {
                    assert(s[0].0 < s[j - 1].0);
                }
            }
        }
    } else {
        let t = s.skip(1);
        assert(sorted_begins(t)) by {
            assert forall|i: int, j: int| 0 <= i < j < t.len() implies t[i].0 < t[j].0 by {
                assert(t[i] == s[i + 1] && t[j] == s[j + 1]);
            }
        }
        lemma_insert_block_at(t, begin, block, pos - 1);
        assert(s[0].0 < begin);
        let r = insert_block(s, begin, block);
        let rt = insert_block(t, begin, block);
        assert(r == seq![s[0]] + rt);
        if pos < s.len() && s[pos].0 == begin {
            assert(t.take(pos - 1) + seq![(begin, block)] + t.skip(pos) =~= rt);
            assert(seq![s[0]] + (t.take(pos - 1) + seq![(begin, block)] + t.skip(pos)) =~= s.take(
                pos,
            ) + seq![(begin, block)] + s.skip(pos + 1));
        } else {
            assert(t.take(pos - 1) + seq![(begin, block)] + t.skip(pos - 1) =~= rt);
            assert(seq![s[0]] + (t.take(pos - 1) + seq![(begin, block)] + t.skip(pos - 1))
                =~= s.take(pos) + seq![(begin, block)] + s.skip(pos));
        }
        assert forall|i: int, j: int| 0 <= i < j < r.len() implies r[i].0 < r[j].0 by {
            if i == 0 {
                assert(r[j] == rt[j - 1]);
                // every offset in rt is the new one or one of t's, all above s[0]
                if pos < s.len() && s[pos].0 == begin {
                    if j - 1 < pos - 1 {
                        assert(rt[j - 1] == t[j - 1]);
                    } else if j - 1 > pos - 1 {
                        assert(rt[j - 1] == t[j - 1]);
                    }
                } else {
                    if j - 1 < pos - 1 {
                        assert(rt[j - 1] == t[j - 1]);
                    } else if j - 1 > pos - 1 {
                        assert(rt[j - 1] == t[j - 2]);
                    }
                }
            } else {
                assert(r[i] == rt[i - 1] && r[j] == rt[j - 1]);
            }
        }
    }
}

/// The number of bytes the blocks hold, all together.
pub open spec fn blocks_bytes(s: Seq<(u32, Seq<u8>)>) -> nat
    decreases s.len(),
{
    if s.len() == 0 {
        0
    } else {
        blocks_bytes(s.drop_last()) + s.last().1.len()
    }
}

/// The bytes of two runs of blocks add up.
proof fn lemma_blocks_bytes_concat(a: Seq<(u32, Seq<u8>)>, b: Seq<(u32, Seq<u8>)>)
    ensures
        blocks_bytes(a + b) == blocks_bytes(a) + blocks_bytes(b),
    decreases b.len(),
{
    if b.len() == 0 {
        assert(a + b =~= a);
    } else {
        assert((a + b).drop_last() =~= a + b.drop_last());
        lemma_blocks_bytes_concat(a, b.drop_last());
    }
}

/// The bytes of blocks with one of them taken out at `pos`.
proof fn lemma_blocks_bytes_split(s: Seq<(u32, Seq<u8>)>, pos: int)
    requires
        0 <= pos < s.len(),
    ensures
        blocks_bytes(s) == blocks_bytes(s.take(pos)) + s[pos].1.len() + blocks_bytes(s.skip(pos + 1)),
{
    assert(s =~= s.take(pos) + seq![s[pos]] + s.skip(pos + 1));
    lemma_blocks_bytes_concat(s.take(pos) + seq![s[pos]], s.skip(pos + 1));
    lemma_blocks_bytes_concat(s.take(pos), seq![s[pos]]);
    assert(blocks_bytes(Seq::<(u32, Seq<u8>)>::empty()) == 0);
    assert(seq![s[pos]].drop_last() =~= Seq::<(u32, Seq<u8>)>::empty());
    assert(blocks_bytes(seq![s[pos]]) == s[pos].1.len());
}

/// The blocks received so far for one piece, and how many bytes they hold.
#[derive(Debug)]
pub struct PieceBlocks {
    pub index: u32,
    /// Blocks in rising order of offset.
    pub blocks: Vec<(u32, Vec<u8>)>,
    /// Bytes the blocks hold: a block received again at the same offset
    /// replaces the first one and is counted once.
    pub received: usize,
}

impl PieceBlocks {
    /// Keeps a block at offset `begin`, replacing one at the same offset, and
    /// counts the bytes the blocks then hold.
    fn store(&mut self, begin: u32, block: Vec<u8>)
        requires
            sorted_begins(blocks_view(old(self).blocks@)),
            old(self).received == blocks_bytes(blocks_view(old(self).blocks@)),
            old(self).received + block@.len() <= usize::MAX,
        ensures
            final(self).index == old(self).index,
            blocks_view(final(self).blocks@) == insert_block(blocks_view(old(self).blocks@), begin, block@),
            sorted_begins(blocks_view(final(self).blocks@)),
            final(self).received == blocks_bytes(blocks_view(final(self).blocks@)),
    {
        let ghost old_blocks = blocks_view(self.blocks@);
        let ghost block_view = block@;
        let len = block.len();
        let mut pos: usize = 0;
        while pos < self.blocks.len() && self.blocks[pos].0 < begin
            invariant
                pos <= self.blocks@.len(),
                old_blocks == blocks_view(self.blocks@),
                forall|j: int| 0 <= j < pos ==> self.blocks@[j].0 < begin,
            decreases self.blocks@.len() - pos,
        {
            pos = pos + 1;
        }
        proof {
            lemma_insert_block_at(old_blocks, begin, block_view, pos as int);
        }
        if pos < self.blocks.len() && self.blocks[pos].0 == begin {
            let replaced = self.blocks.remove(pos);
            self.blocks.insert(pos, (begin, block));
            proof {
                assert(blocks_view(self.blocks@) =~= old_blocks.take(pos as int) + seq![
                    (begin, block_view),
                ] + old_blocks.skip(pos + 1));
                assert(replaced.1@ == old_blocks[pos as int].1);
                lemma_blocks_bytes_split(old_blocks, pos as int);
                lemma_blocks_bytes_split(blocks_view(self.blocks@), pos as int);
                assert(blocks_view(self.blocks@).take(pos as int) =~= old_blocks.take(pos as int));
                assert(blocks_view(self.blocks@).skip(pos + 1) =~= old_blocks.skip(pos + 1));
            }
            self.received = self.received - replaced.1.len() + len;
        } else {
            self.blocks.insert(pos, (begin, block));
            proof {
                assert(blocks_view(self.blocks@) =~= old_blocks.take(pos as int) + seq![
                    (begin, block_view),
                ] + old_blocks.skip(pos as int));
                lemma_blocks_bytes_split(blocks_view(self.blocks@), pos as int);
                assert(blocks_view(self.blocks@).take(pos as int) =~= old_blocks.take(pos as int));
                assert(blocks_view(self.blocks@).skip(pos + 1) =~= old_blocks.skip(pos as int));
                assert(old_blocks =~= old_blocks.take(pos as int) + old_blocks.skip(pos as int));
                lemma_blocks_bytes_concat(old_blocks.take(pos as int), old_blocks.skip(pos as int));
            }
            self.received = self.received + len;
        }
    }
}

/// The blocks received from a peer, piece by piece.
#[derive(Debug)]
pub struct BlockStore {
    pub pieces: Vec<PieceBlocks>,
    /// For each piece, the most bytes its blocks have held: what was
    /// downloaded of it, kept when its blocks are dropped after a save.
    pub book: Vec<(u32, usize)>,
}

impl BlockStore {
    /// Each piece occurs once, its blocks are in rising order of offset, and
    /// its count of bytes received is the bytes its blocks hold.
    pub open spec fn wf(&self) -> bool {
        &&& forall|i: int, j: int|
            0 <= i < j < self.pieces@.len() ==> self.pieces@[i].index != self.pieces@[j].index
        &&& forall|i: int|
            0 <= i < self.pieces@.len() ==> sorted_begins(
                #[trigger] blocks_view(self.pieces@[i].blocks@),
            )
        &&& forall|i: int|
            0 <= i < self.pieces@.len() ==> (#[trigger] self.pieces@[i]).received == blocks_bytes(
                blocks_view(self.pieces@[i].blocks@),
            )
        &&& keys_distinct(self.book@)
    }

    /// The bytes downloaded of piece `index`: the most its blocks have held.
    pub open spec fn downloaded_of(&self, index: u32) -> nat {
        book_value(self.book@, index)
    }

    pub open spec fn has_piece(&self, index: u32) -> bool {
        exists|i: int| 0 <= i < self.pieces@.len() && self.pieces@[i].index == index
    }

    pub open spec fn piece_pos(&self, index: u32) -> int {
        choose|i: int| 0 <= i < self.pieces@.len() && self.pieces@[i].index == index
    }

    /// The blocks kept for piece `index`, if any was received.
    pub open spec fn blocks_of(&self, index: u32) -> Option<Seq<(u32, Seq<u8>)>> {
        if self.has_piece(index) {
            Some(blocks_view(self.pieces@[self.piece_pos(index)].blocks@))
        } else {
            None
        }
    }

    /// The bytes received for piece `index`: those its blocks hold.
    pub open spec fn received_of(&self, index: u32) -> nat {
        match self.blocks_of(index) {
            Some(b) => blocks_bytes(b),
            None => 0,
        }
    }

    /// The bytes of piece `index` put together in order of offset, if any
    /// block of it was received.
    pub open spec fn assembled(&self, index: u32) -> Option<Seq<u8>> {
        match self.blocks_of(index) {
            Some(b) => Some(concat_blocks(b)),
            None => None,
        }
    }

    proof fn lemma_pos(&self, index: u32, i: int)
        requires
            self.wf(),
            0 <= i < self.pieces@.len(),
            self.pieces@[i].index == index,
        ensures
            self.has_piece(index),
            self.piece_pos(index) == i,
    {
        let k = self.piece_pos(index);
        assert(0 <= k < self.pieces@.len() && self.pieces@[k].index == index);
        if k != i {
            if k < i {
                assert(self.pieces@[k].index != self.pieces@[i].index);
            } else {
                assert(self.pieces@[i].index != self.pieces@[k].index);
            }
        }
    }

    /// No blocks yet.
    pub fn new() -> (r: Self)
        ensures
            r.wf(),
            forall|index: u32| (#[trigger] r.blocks_of(index)) is None && r.received_of(index) == 0
                && r.downloaded_of(index) == 0,
    {
        BlockStore { pieces: Vec::new(), book: Vec::new() }
    }

    fn position(&self, index: u32) -> (r: Option<usize>)
        requires
            self.wf(),
        ensures
            match r {
                Some(i) => self.has_piece(index) && self.piece_pos(index) == i && i
                    < self.pieces@.len(),
                None => !self.has_piece(index),
            },
    {
        let mut i: usize = 0;
        while i < self.pieces.len()
            invariant
                self.wf(),
                i <= self.pieces@.len(),
                forall|j: int| 0 <= j < i ==> self.pieces@[j].index != index,
            decreases self.pieces@.len() - i,
        {
            if self.pieces[i].index == index {
                proof {
                    self.lemma_pos(index, i as int);
                }
                return Some(i);
            }
            i = i + 1;
        }
        None
    }

    /// The bytes received for piece `index`.
    pub fn received_bytes(&self, index: u32) -> (r: usize)
        requires
            self.wf(),
        ensures
            r == self.received_of(index),
    {
        match self.position(index) {
            Some(i) => self.pieces[i].received,
            None => 0,
        }
    }

    /// Whether at least `total_length` bytes of piece `index` were received.
    pub fn is_piece_complete(&self, index: u32, total_length: usize) -> (r: bool)
        requires
            self.wf(),
        ensures
            r == (self.received_of(index) >= total_length),
    {
        self.received_bytes(index) >= total_length
    }

    /// Keeps a block of piece `index` at offset `begin`, replacing one at the
    /// same offset; the bytes received for the piece are those its blocks
    /// then hold. Records in the book the most bytes the piece's blocks have
    /// held.
    pub fn record_block(&mut self, index: u32, begin: u32, block: Vec<u8>)
        requires
            old(self).wf(),
            old(self).received_of(index) + block@.len() <= usize::MAX,
        ensures
            final(self).wf(),
            final(self).blocks_of(index) == Some(
                insert_block(
                    match old(self).blocks_of(index) {
                        Some(b) => b,
                        None => Seq::empty(),
                    },
                    begin,
                    block@,
                ),
            ),
            forall|other: u32|
                other != index ==> #[trigger] final(self).blocks_of(other) == old(self).blocks_of(
                    other,
                ) && final(self).downloaded_of(other) == old(self).downloaded_of(other),
            final(self).downloaded_of(index) == if final(self).received_of(index) > old(self).downloaded_of(index) {
                final(self).received_of(index)
            } else {
                old(self).downloaded_of(index)
            },
    {
        self.keep_block(index, begin, block);
        let ghost mid = *self;
        let ghost kept = self.pieces@;
        let held = self.received_bytes(index);
        let known = book_get(&self.book, index);
        if held > known {
            book_set(&mut self.book, index, held);
        }
        assert(self.pieces@ == kept);
        assert forall|other: u32| other != index implies #[trigger] self.blocks_of(other) == old(
            self,
        ).blocks_of(other) && self.downloaded_of(other) == old(self).downloaded_of(other) by {
            assert(book_value(self.book@, other) == book_value(old(self).book@, other));
            assert(mid.blocks_of(other) == old(self).blocks_of(other));
            assert(self.pieces == mid.pieces);
        }
    }

    fn keep_block(&mut self, index: u32, begin: u32, block: Vec<u8>)
        requires
            old(self).wf(),
            old(self).received_of(index) + block@.len() <= usize::MAX,
        ensures
            final(self).wf(),
            final(self).book == old(self).book,
            final(self).blocks_of(index) == Some(
                insert_block(
                    match old(self).blocks_of(index) {
                        Some(b) => b,
                        None => Seq::empty(),
                    },
                    begin,
                    block@,
                ),
            ),
            forall|other: u32|
                other != index ==> #[trigger] final(self).blocks_of(other) == old(self).blocks_of(
                    other,
                ),
    {
        let len = block.len();
        let ghost block_view = block@;
        match self.position(index) {
            None => {
                let mut blocks: Vec<(u32, Vec<u8>)> = Vec::new();
                blocks.push((begin, block));
                let ghost old_pieces = self.pieces@;
                self.pieces.push(PieceBlocks { index, blocks, received: len });
                proof {
                    let n = old_pieces.len() as int;
                    assert(blocks_view(self.pieces@[n].blocks@) =~= seq![(begin, block_view)]);
                    assert(blocks_bytes(Seq::<(u32, Seq<u8>)>::empty()) == 0);
                    assert(seq![(begin, block_view)].drop_last() =~= Seq::<(u32, Seq<u8>)>::empty());
                    assert(blocks_bytes(seq![(begin, block_view)]) == len);
                    assert forall|i: int| 0 <= i < self.pieces@.len() implies (#[trigger] self.pieces@[i]).received
                        == blocks_bytes(blocks_view(self.pieces@[i].blocks@)) by {
                        if i < n {
                            assert(self.pieces@[i] == old_pieces[i]);
                        }
                    }
                    self.lemma_pos(index, n);
                    assert(insert_block(Seq::empty(), begin, block_view) == seq![
                        (begin, block_view),
                    ]);

                    assert forall|other: u32| other != index implies #[trigger] self.blocks_of(
                        other,
                    ) == old(self).blocks_of(other) by {
                        if old(self).has_piece(other) {
                            let k = old(self).piece_pos(other);
                            self.lemma_pos(other, k);
                        } else {
                            if self.has_piece(other) {
                                let k = self.piece_pos(other);
                                assert(k < n);
                            }
                        }
                    }
                }
            },
            Some(p) => {
                let ghost old_pieces = self.pieces@;
                let mut pb = self.pieces.remove(p);
                let ghost old_blocks = blocks_view(pb.blocks@);
                assert(sorted_begins(old_blocks));
                assert(pb.received == blocks_bytes(old_blocks));
                pb.store(begin, block);
                self.pieces.insert(p, pb);
                proof {
                    assert(self.pieces@ =~= old_pieces.update(p as int, self.pieces@[p as int]));
                    assert forall|i: int, j: int|
                        0 <= i < j < self.pieces@.len() implies self.pieces@[i].index
                        != self.pieces@[j].index by {
                        assert(old_pieces[i].index != old_pieces[j].index);
                    }
                    assert forall|i: int| 0 <= i < self.pieces@.len() implies sorted_begins(
                        #[trigger] blocks_view(self.pieces@[i].blocks@),
                    ) by {
                        if i != p {
                            assert(self.pieces@[i] == old_pieces[i]);
                        }
                    }
                    assert forall|i: int| 0 <= i < self.pieces@.len() implies (#[trigger] self.pieces@[i]).received
                        == blocks_bytes(blocks_view(self.pieces@[i].blocks@)) by {
                        if i != p {
                            assert(self.pieces@[i] == old_pieces[i]);
                        }
                    }
                    self.lemma_pos(index, p as int);
                    assert forall|other: u32| other != index implies #[trigger] self.blocks_of(
                        other,
                    ) == old(self).blocks_of(other) by {
                        if old(self).has_piece(other) {
                            let k = old(self).piece_pos(other);
                            self.lemma_pos(other, k);
                        } else {
                            if self.has_piece(other) {
                                let k = self.piece_pos(other);
                                assert(old_pieces[k].index == other);
                            }
                        }
                    }
                }
            },
        }
    }

    /// Drops the blocks of piece `index`, once it is saved.
    pub fn remove_piece(&mut self, index: u32)
        requires
            old(self).wf(),
        ensures
            final(self).wf(),
            final(self).blocks_of(index) is None,
            final(self).received_of(index) == 0,
            final(self).book == old(self).book,
            forall|other: u32|
                other != index ==> #[trigger] final(self).blocks_of(other) == old(self).blocks_of(
                    other,
                ),
    {
        match self.position(index) {
            None => {},
            Some(p) => {
                let ghost old_pieces = self.pieces@;
                let _ = self.pieces.remove(p);
                proof {
                    assert(self.pieces@ =~= old_pieces.remove(p as int));
                    assert forall|i: int, j: int|
                        0 <= i < j < self.pieces@.len() implies self.pieces@[i].index
                        != self.pieces@[j].index by {
                        let a = if i < p { i } else { i + 1 };
                        let b = if j < p { j } else { j + 1 };
                        assert(old_pieces[a].index != old_pieces[b].index);
                    }
                    assert forall|i: int| 0 <= i < self.pieces@.len() implies sorted_begins(
                        #[trigger] blocks_view(self.pieces@[i].blocks@),
                    ) by {
                        let a = if i < p { i } else { i + 1 };
                        assert(self.pieces@[i] == old_pieces[a]);
                    }
                    assert forall|i: int| 0 <= i < self.pieces@.len() implies (#[trigger] self.pieces@[i]).received
                        == blocks_bytes(blocks_view(self.pieces@[i].blocks@)) by {
                        let a = if i < p { i } else { i + 1 };
                        assert(self.pieces@[i] == old_pieces[a]);
                    }
                    if self.has_piece(index) {
                        let k = self.piece_pos(index);
                        let a = if k < p { k } else { k + 1 };
                        assert(old_pieces[a].index == index);
                        assert(old_pieces[p as int].index == index);
                    }
                    assert forall|other: u32| other != index implies #[trigger] self.blocks_of(
                        other,
                    ) == old(self).blocks_of(other) by {
                        if old(self).has_piece(other) {
                            let k = old(self).piece_pos(other);
                            assert(k != p);
                            let a = if k < p { k } else { k - 1 };
                            assert(self.pieces@[a] == old_pieces[k]);
                            self.lemma_pos(other, a);
                        } else if self.has_piece(other) {
                            let k = self.piece_pos(other);
                            let a = if k < p { k } else { k + 1 };
                            assert(old_pieces[a].index == other);
                        }
                    }
                }
            },
        }
    }

    /// The bytes of piece `index` put together in order of offset.
    pub fn assemble(&self, index: u32) -> (r: Option<Vec<u8>>)
        requires
            self.wf(),
        ensures
            match r {
                Some(d) => self.assembled(index) == Some(d@),
                None => self.assembled(index) is None,
            },
    {
        match self.position(index) {
            None => None,
            Some(p) => {
                let blocks = &self.pieces[p].blocks;
                let ghost s = blocks_view(blocks@);
                let mut data: Vec<u8> = Vec::new();
                let mut i: usize = 0;
                while i < blocks.len()
                    invariant
                        i <= blocks@.len(),
                        s == blocks_view(blocks@),
                        data@ == concat_blocks(s.take(i as int)),
                    decreases blocks@.len() - i,
                {
                    proof {
                        assert(s.take(i + 1).drop_last() =~= s.take(i as int));
                    }
                    let mut copy = vstd::slice::slice_to_vec(blocks[i].1.as_slice());
                    data.append(&mut copy);
                    i = i + 1;
                }
                assert(s.take(i as int) =~= s);
                Some(data)
            },
        }
    }
}

/// Why a received piece is not saved.
#[derive(Debug, Clone, Copy, PartialEq, Eq, Structural)]
pub enum IntegrityError {
    /// No block of the piece was received.
    NoBuffer,
    /// The blocks do not add up to the length of the piece.
    LengthMismatch { expected: usize, got: usize },
    /// The SHA-1 digest of the piece is not the one the torrent lists.
    HashMismatch,
}

/// How the download of one piece from a peer ended.
#[derive(Debug, Clone, Copy, PartialEq, Eq, Structural)]
pub enum PieceOutcome {
    /// The peer does not have the piece.
    NotHeld,
    /// Not all of its bytes came in.
    Incomplete,
    /// Its bytes came in but did not pass the integrity check.
    Rejected(IntegrityError),
    /// It passed the check but could not be written.
    SaveFailed,
    /// It passed the check and was written.
    Saved,
}

impl PieceOutcome {
    /// Whether the piece counts as downloaded: only once it passed the
    /// integrity check and was written.
    pub fn completed(&self) -> (r: bool)
        ensures
            r == (*self == PieceOutcome::Saved),
    {
        match self {
            PieceOutcome::Saved => true,
            _ => false,
        }
    }

    /// The outcome of a piece whose bytes all came in: rejected when the
    /// integrity check fails, otherwise saved or not as the write went.
    pub fn after_check(check: &Result<Vec<u8>, IntegrityError>, written: bool) -> (r: PieceOutcome)
        ensures
            match check {
                Err(e) => r == PieceOutcome::Rejected(*e),
                Ok(_) => r == if written {
                    PieceOutcome::Saved
                } else {
                    PieceOutcome::SaveFailed
                },
            },
    {
        match check {
            Err(e) => PieceOutcome::Rejected(*e),
            Ok(_) => if written {
                PieceOutcome::Saved
            } else {
                PieceOutcome::SaveFailed
            },
        }
    }
}

/// Puts piece `index` together and checks it: its length must be
/// `actual_piece_length` and the lower-case hexadecimal SHA-1 digest of its
/// bytes must be `pieces[index]`. Returns the bytes of the piece.
pub fn check_integrity(
    store: &BlockStore,
    index: u32,
    pieces: &[String],
    actual_piece_length: usize,
) -> (r: Result<Vec<u8>, IntegrityError>)
    requires
        store.wf(),
        store.assembled(index) matches Some(d) && d.len() == actual_piece_length ==> index
            < pieces@.len(),
    ensures
        match store.assembled(index) {
            None => r == Err::<Vec<u8>, IntegrityError>(IntegrityError::NoBuffer),
            Some(d) => if d.len() != actual_piece_length {
                r == Err::<Vec<u8>, IntegrityError>(
                    IntegrityError::LengthMismatch {
                        expected: actual_piece_length,
                        got: d.len() as usize,
                    },
                )
            } else if pieces@[index as int]@ == hex_text(sha1_digest(d), false) {
                r matches Ok(data) && data@ == d
            } else {
                r == Err::<Vec<u8>, IntegrityError>(IntegrityError::HashMismatch)
            },
        },
{
    match store.assemble(index) {
        None => Err(IntegrityError::NoBuffer),
        Some(data) => {
            if data.len() != actual_piece_length {
                return Err(
                    IntegrityError::LengthMismatch {
                        expected: actual_piece_length,
                        got: data.len(),
                    },
                );
            }
            let digest = sha1_hash(data.as_slice());
            let hex_val = hex_string(digest.as_slice());
            if pieces[index as usize] == hex_val {
                Ok(data)
            } else {
                Err(IntegrityError::HashMismatch)
            }
        },
    }
}

/// The flag under which a piece is saved on its own.
pub open spec fn single_piece_flag() -> Seq<char> {
    seq!['d', 'o', 'w', 'n', 'l', 'o', 'a', 'd', '_', 'p', 'i', 'e', 'c', 'e']
}

/// Where a piece is written in the file: at `index * piece_len`, unless the
/// piece is saved on its own (flag `download_piece`), which writes at the
/// start.
pub fn save_offset(flag: &Option<String>, index: u32, piece_len: u32) -> (r: Option<u64>)
    ensures
        (r is None) == (flag matches Some(f) && f@ == single_piece_flag()),
        r is Some ==> r == Some((index as int * piece_len as int) as u64),
{
    let single = match flag {
        Some(f) => {
            let marker = "download_piece";
            proof {
                reveal_strlit("download_piece");
            }
            let m = String::from_str(marker);
            assert(m@ =~= single_piece_flag());
            *f == m
        },
        None => false,
    };
    if single {
        None
    } else {
        assert((index as int) * (piece_len as int) <= u64::MAX) by (nonlinear_arith)
            requires
                index <= u32::MAX,
                piece_len <= u32::MAX,
        ;
        Some(index as u64 * piece_len as u64)
    }
}


/// Messages during the download of a piece that do not count as a failure:
/// keep-alives and the messages a peer may send at any time.
pub open spec fn harmless(m: MessageView) -> bool {
    match m {
        MessageView::Unknown(id, _) => id == 0,
        MessageView::Unchoke => true,
        MessageView::Have(_) => true,
        MessageView::BitField(_) => true,
        MessageView::Interested => true,
        MessageView::NotInterested => true,
        MessageView::Extended(_, _) => true,
        _ => false,
    }
}

/// What receiving the blocks of a piece does after a message.
#[derive(Debug, Clone, Copy, PartialEq, Eq, Structural)]
pub enum ReceiveOutcome {
    /// All bytes of the piece are in.
    PieceComplete,
    /// Wait for the next message, if more blocks are expected.
    Continue,
    /// Too many failures in a row: give up on the piece.
    TooManyFailures,
}

/// The count of blocks received and of failures in a row while a piece is
/// downloaded.
#[derive(Debug, Clone, Copy)]
pub struct BlockReceiver {
    pub received_blocks: usize,
    pub consecutive_failure: u32,
}

impl BlockReceiver {
    pub open spec fn wf(&self) -> bool {
        self.consecutive_failure < MAX_CONSECUTIVE_FAILURE
    }

    /// Nothing received yet.
    pub fn new() -> (r: Self)
        ensures
            r.wf(),
            r.received_blocks == 0,
            r.consecutive_failure == 0,
    {
        BlockReceiver { received_blocks: 0, consecutive_failure: 0 }
    }

    /// Whether fewer than `total_blocks` blocks were received.
    pub fn more_expected(&self, total_blocks: usize) -> (r: bool)
        ensures
            r == (self.received_blocks < total_blocks),
    {
        self.received_blocks < total_blocks
    }

    /// Takes in the next message while the blocks of a piece of
    /// `actual_piece_length` bytes are received (`None` when no message came
    /// in time). A block is kept and counted, clears the failures, and ends
    /// the piece once its bytes are all in. A harmless message clears the
    /// failures; any other message, or none, adds one, and
    /// `MAX_CONSECUTIVE_FAILURE` of them in a row give up.
    pub fn on_message(
        &mut self,
        store: &mut BlockStore,
        msg: Option<MessageType>,
        actual_piece_length: usize,
    ) -> (r: ReceiveOutcome)
        requires
            old(self).wf(),
            old(store).wf(),
            old(self).received_blocks < usize::MAX,
            msg matches Some(MessageType::Piece { index, block, .. }) ==> old(store).received_of(
                index,
            ) + block@.len() <= usize::MAX,
        ensures
            final(store).wf(),
            r != ReceiveOutcome::TooManyFailures ==> final(self).wf(),
            match msg {
                Some(MessageType::Piece { index, begin, block }) => {
                    &&& final(store).blocks_of(index) == Some(
                        insert_block(
                            match old(store).blocks_of(index) {
                                Some(b) => b,
                                None => Seq::empty(),
                            },
                            begin,
                            block@,
                        ),
                    )
                    &&& forall|other: u32|
                        other != index ==> #[trigger] final(store).blocks_of(other) == old(
                            store,
                        ).blocks_of(other) && final(store).downloaded_of(other) == old(
                            store,
                        ).downloaded_of(other)
                    &&& final(store).downloaded_of(index) == if final(store).received_of(index)
                        > old(store).downloaded_of(index) {
                        final(store).received_of(index)
                    } else {
                        old(store).downloaded_of(index)
                    }
                    &&& final(self).received_blocks == old(self).received_blocks + 1
                    &&& final(self).consecutive_failure == 0
                    &&& r == if final(store).received_of(index) >= actual_piece_length {
                        ReceiveOutcome::PieceComplete
                    } else {
                        ReceiveOutcome::Continue
                    }
                },
                _ => {
                    &&& *final(store) == *old(store)
                    &&& final(self).received_blocks == old(self).received_blocks
                    &&& final(self).consecutive_failure == if msg matches Some(m) && harmless(
                        m@,
                    ) {
                        0
                    } else {
                        old(self).consecutive_failure + 1
                    }
                    &&& r == if final(self).consecutive_failure >= MAX_CONSECUTIVE_FAILURE {
                        ReceiveOutcome::TooManyFailures
                    } else {
                        ReceiveOutcome::Continue
                    }
                },
            },
    {
        match msg {
            Some(MessageType::Piece { index, begin, block }) => {
                store.record_block(index, begin, block);
                self.received_blocks = self.received_blocks + 1;
                self.consecutive_failure = 0;
                if store.is_piece_complete(index, actual_piece_length) {
                    return ReceiveOutcome::PieceComplete;
                }
                return ReceiveOutcome::Continue;
            },
            Some(MessageType::Unknown(0, _)) => {
                self.consecutive_failure = 0;
                return ReceiveOutcome::Continue;
            },
            Some(MessageType::Choke) => {
                self.consecutive_failure = self.consecutive_failure + 1;
            },
            Some(MessageType::Unchoke) | Some(MessageType::Have(_)) | Some(
                MessageType::BitField(_),
            ) | Some(MessageType::Interested) | Some(MessageType::NotInterested) | Some(
                MessageType::Extended(_, _),
            ) => {
                self.consecutive_failure = 0;
            },
            Some(_) => {
                self.consecutive_failure = self.consecutive_failure + 1;
            },
            None => {
                self.consecutive_failure = self.consecutive_failure + 1;
            },
        }
        if self.consecutive_failure >= MAX_CONSECUTIVE_FAILURE {
            return ReceiveOutcome::TooManyFailures;
        }
        ReceiveOutcome::Continue
    }
}


/// The pieces of a set, each once.
pub fn pieces_of(set: &HashSet<u32>) -> (r: Vec<u32>)
    ensures
        r@.to_set() == set@,
        r@.no_duplicates(),
{
    let mut out: Vec<u32> = Vec::new();
    for p in it: set.iter()
        invariant
            out@ == it.seq().take(it.index() as int).unref(),
            it.seq().unref().to_set() == set@,
            it.seq().unref().no_duplicates(),
            it.index() == it.seq().len() ==> (out@.to_set() == set@ && out@.no_duplicates()),
    {
        assert(it.seq().take(it.index() + 1).unref() =~= it.seq().take(
            it.index() as int,
        ).unref().push(*p));
        out.push(*p);
        assert(it.index() + 1 == it.seq().len() ==> it.seq().take(it.index() + 1).unref()
            =~= it.seq().unref());
    }
    out
}


/// A peer with id `id` has piece `p`.
pub open spec fn holds(conns: Seq<BitFieldInfo>, id: Seq<char>, p: u32) -> bool {
    exists|c: int|
        0 <= c < conns.len() && conns[c].peer_id@ == id && #[trigger] conns[c].present_pieces@.contains(
            p,
        )
}

/// Some peer has piece `p`.
pub open spec fn offered(conns: Seq<BitFieldInfo>, p: u32) -> bool {
    exists|c: int| 0 <= c < conns.len() && #[trigger] conns[c].present_pieces@.contains(p)
}

/// The number of connections that have piece `p`.
pub open spec fn holder_count(conns: Seq<BitFieldInfo>, p: u32) -> nat
    decreases conns.len(),
{
    if conns.len() == 0 {
        0
    } else {
        holder_count(conns.drop_last(), p) + if conns.last().present_pieces@.contains(p) {
            1nat
        } else {
            0nat
        }
    }
}

proof fn lemma_holder_count_none(conns: Seq<BitFieldInfo>, p: u32)
    requires
        forall|x: int| 0 <= x < conns.len() ==> !(#[trigger] conns[x].present_pieces@.contains(p)),
    ensures
        holder_count(conns, p) == 0,
    decreases conns.len(),
{
    if conns.len() > 0 {
        let d = conns.drop_last();
        assert forall|x: int| 0 <= x < d.len() implies !(#[trigger] d[x].present_pieces@.contains(p)) by {
            assert(d[x] == conns[x]);
        }
        lemma_holder_count_none(d, p);
        assert(!conns[conns.len() - 1].present_pieces@.contains(p));
    }
}

proof fn lemma_holder_count_step(conns: Seq<BitFieldInfo>, c: int, p: u32)
    requires
        0 <= c < conns.len(),
    ensures
        holder_count(conns.take(c + 1), p) == holder_count(conns.take(c), p) + if conns[c].present_pieces@.contains(p) {
            1nat
        } else {
            0nat
        },
{
    assert(conns.take(c + 1).drop_last() =~= conns.take(c));
    assert(conns.take(c + 1).last() == conns[c]);
}

/// The pieces allocated to each peer id: the ids are distinct, each list is
/// non-empty, each piece is held by a peer with that id, every piece some
/// peer has is allocated, and no piece is allocated twice.
pub open spec fn sound_allocation(conns: Seq<BitFieldInfo>, r: Seq<(String, Vec<u32>)>) -> bool {
    &&& forall|i: int, j: int| 0 <= i < j < r.len() ==> r[i].0@ != r[j].0@
    &&& forall|i: int| 0 <= i < r.len() ==> (#[trigger] r[i]).1@.len() > 0
    &&& forall|i: int, k: int|
        0 <= i < r.len() && 0 <= k < r[i].1@.len() ==> holds(conns, r[i].0@, #[trigger] r[i].1@[k])
    &&& forall|p: u32|
        offered(conns, p) ==> exists|i: int, k: int|
            0 <= i < r.len() && 0 <= k < r[i].1@.len() && #[trigger] r[i].1@[k] == p
    &&& forall|i1: int, k1: int, i2: int, k2: int|
        0 <= i1 < r.len() && 0 <= k1 < r[i1].1@.len() && 0 <= i2 < r.len() && 0 <= k2
            < r[i2].1@.len() && #[trigger] r[i1].1@[k1] == #[trigger] r[i2].1@[k2] ==> i1 == i2
            && k1 == k2
}

/// For each connection, the first connection with the same peer id.
pub open spec fn reps_ok(conns: Seq<BitFieldInfo>, rep: Seq<usize>) -> bool {
    &&& rep.len() == conns.len()
    &&& forall|c: int|
        0 <= c < conns.len() ==> {
            &&& #[trigger] rep[c] <= c
            &&& conns[rep[c] as int].peer_id@ == conns[c].peer_id@
            &&& forall|d: int| 0 <= d < rep[c] ==> conns[d].peer_id@ != conns[c].peer_id@
        }
}

/// `r` is the first connection with its peer id.
pub open spec fn is_rep(rep: Seq<usize>, r: int) -> bool {
    0 <= r < rep.len() && rep[r] == r
}

proof fn lemma_rep_of_rep(conns: Seq<BitFieldInfo>, rep: Seq<usize>, c: int)
    requires
        reps_ok(conns, rep),
        0 <= c < conns.len(),
    ensures
        is_rep(rep, rep[c] as int),
{
    let r = rep[c] as int;
    assert(rep[r] <= r);
    assert(conns[r].peer_id@ == conns[c].peer_id@);
    if rep[r] < r {
        assert(conns[rep[r] as int].peer_id@ == conns[r].peer_id@);
        assert(conns[rep[r] as int].peer_id@ != conns[c].peer_id@);
    }
}

/// For each connection, the first connection with the same peer id.
fn representatives(conns: &Vec<BitFieldInfo>) -> (rep: Vec<usize>)
    ensures
        reps_ok(conns@, rep@),
{
    let mut rep: Vec<usize> = Vec::new();
    let mut c: usize = 0;
    while c < conns.len()
        invariant
            c <= conns@.len(),
            rep@.len() == c,
            forall|x: int|
                0 <= x < c ==> {
                    &&& #[trigger] rep@[x] <= x
                    &&& conns@[rep@[x] as int].peer_id@ == conns@[x].peer_id@
                    &&& forall|d: int| 0 <= d < rep@[x] ==> conns@[d].peer_id@ != conns@[x].peer_id@
                },
        decreases conns@.len() - c,
    {
        let mut d: usize = 0;
        while d < c && !(conns[d].peer_id == conns[c].peer_id)
            invariant
                d <= c < conns@.len(),
                forall|e: int| 0 <= e < d ==> conns@[e].peer_id@ != conns@[c as int].peer_id@,
            decreases c - d,
        {
            d = d + 1;
        }
        rep.push(d);
        c = c + 1;
    }
    rep
}

/// Each piece that some peer has, with the first connections (one entry per
/// connection that has it) of the peers that have it.
pub open spec fn holders_ok(conns: Seq<BitFieldInfo>, rep: Seq<usize>, h: Seq<(u32, Vec<usize>)>) -> bool {
    &&& forall|a: int, b: int| 0 <= a < b < h.len() ==> h[a].0 != h[b].0
    &&& forall|e: int| 0 <= e < h.len() ==> (#[trigger] h[e]).1@.len() > 0
    &&& forall|e: int, j: int|
        0 <= e < h.len() && 0 <= j < h[e].1@.len() ==> {
            &&& is_rep(rep, #[trigger] h[e].1@[j] as int)
            &&& holds(conns, conns[h[e].1@[j] as int].peer_id@, h[e].0)
        }
}

/// Every piece some peer has has an entry.
pub open spec fn holders_cover(conns: Seq<BitFieldInfo>, h: Seq<(u32, Vec<usize>)>) -> bool {
    forall|p: u32| offered(conns, p) ==> exists|e: int| 0 <= e < h.len() && #[trigger] h[e].0 == p
}

/// The position of the entry of piece `p`, if any.
fn entry_of(h: &Vec<(u32, Vec<usize>)>, p: u32) -> (r: Option<usize>)
    ensures
        match r {
            Some(e) => e < h@.len() && h@[e as int].0 == p,
            None => forall|e: int| 0 <= e < h@.len() ==> h@[e].0 != p,
        },
{
    let mut e: usize = 0;
    while e < h.len()
        invariant
            e <= h@.len(),
            forall|x: int| 0 <= x < e ==> h@[x].0 != p,
        decreases h@.len() - e,
    {
        if h[e].0 == p {
            return Some(e);
        }
        e = e + 1;
    }
    None
}

/// Piece `p` has an entry that lists connection `r`.
pub open spec fn listed_holder(h: Seq<(u32, Vec<usize>)>, p: u32, r: usize) -> bool {
    exists|e: int| 0 <= e < h.len() && h[e].0 == p && #[trigger] h[e].1@.contains(r)
}

/// The entries of `h` grew from those of `old`: same pieces, lists extended.
pub open spec fn entries_grew(old: Seq<(u32, Vec<usize>)>, h: Seq<(u32, Vec<usize>)>) -> bool {
    &&& old.len() <= h.len()
    &&& forall|e: int| 0 <= e < old.len() ==> (#[trigger] h[e]).0 == old[e].0 && old[e].1@.len() <= h[e].1@.len()
        && forall|j: int| 0 <= j < old[e].1@.len() ==> h[e].1@[j] == old[e].1@[j]
}

proof fn lemma_listed_grows(old: Seq<(u32, Vec<usize>)>, h: Seq<(u32, Vec<usize>)>, p: u32, r: usize)
    requires
        entries_grew(old, h),
        listed_holder(old, p, r),
    ensures
        listed_holder(h, p, r),
{
    let e = choose|e: int| 0 <= e < old.len() && old[e].0 == p && #[trigger] old[e].1@.contains(r);
    let j = choose|j: int| 0 <= j < old[e].1@.len() && old[e].1@[j] == r;
    assert(h[e].1@[j] == r);
    assert(h[e].1@.contains(r));
}

/// Each piece that some peer has, with the first connections of the peers
/// that have it, one entry per connection that has it, in connection order.
fn piece_holders(conns: &Vec<BitFieldInfo>, rep: &Vec<usize>) -> (h: Vec<(u32, Vec<usize>)>)
    requires
        reps_ok(conns@, rep@),
    ensures
        holders_ok(conns@, rep@, h@),
        holders_cover(conns@, h@),
        forall|e: int| 0 <= e < h@.len() ==> (#[trigger] h@[e]).1@.len() == holder_count(conns@, h@[e].0),
        forall|x: int, p: u32|
            0 <= x < conns@.len() && #[trigger] conns@[x].present_pieces@.contains(p) ==> listed_holder(h@, p, rep@[x]),
{
    let mut h: Vec<(u32, Vec<usize>)> = Vec::new();
    let mut c: usize = 0;
    while c < conns.len()
        invariant
            reps_ok(conns@, rep@),
            c <= conns@.len(),
            holders_ok(conns@, rep@, h@),
            forall|x: int, p: u32|
                0 <= x < c && #[trigger] conns@[x].present_pieces@.contains(p) ==> exists|e: int|
                    0 <= e < h@.len() && #[trigger] h@[e].0 == p,
            forall|e: int| 0 <= e < h@.len() ==> (#[trigger] h@[e]).1@.len() == holder_count(conns@.take(c as int), h@[e].0),
            forall|x: int, p: u32|
                0 <= x < c && #[trigger] conns@[x].present_pieces@.contains(p) ==> listed_holder(h@, p, rep@[x]),
        decreases conns@.len() - c,
    {
        let pcs = pieces_of(&conns[c].present_pieces);
        let r = rep[c];
        proof {
            lemma_rep_of_rep(conns@, rep@, c as int);
        }
        let mut k: usize = 0;
        while k < pcs.len()
            invariant
                reps_ok(conns@, rep@),
                c < conns@.len(),
                r == rep@[c as int],
                is_rep(rep@, r as int),
                pcs@.to_set() == conns@[c as int].present_pieces@,
                k <= pcs@.len(),
                holders_ok(conns@, rep@, h@),
                forall|x: int, p: u32|
                    0 <= x < c && #[trigger] conns@[x].present_pieces@.contains(p) ==> exists|
                        e: int,
                    | 0 <= e < h@.len() && #[trigger] h@[e].0 == p,
                forall|j: int|
                    #![trigger pcs@[j]]
                    0 <= j < k ==> exists|e: int| 0 <= e < h@.len() && #[trigger] h@[e].0 == pcs@[j],
                pcs@.no_duplicates(),
                forall|e: int| 0 <= e < h@.len() ==> (#[trigger] h@[e]).1@.len() == holder_count(conns@.take(c as int), h@[e].0) + if pcs@.take(k as int).contains(h@[e].0) {
                    1nat
                } else {
                    0nat
                },
                forall|x: int, p: u32|
                    0 <= x < c && #[trigger] conns@[x].present_pieces@.contains(p) ==> listed_holder(h@, p, rep@[x]),
                forall|j: int| 0 <= j < k ==> listed_holder(h@, #[trigger] pcs@[j], r),
            decreases pcs@.len() - k,
        {
            let p = pcs[k];
            assert(pcs@.to_set().contains(p));
            assert(conns@[c as int].present_pieces@.contains(p));
            assert(conns@[r as int].peer_id@ == conns@[c as int].peer_id@);
            assert(holds(conns@, conns@[r as int].peer_id@, p));
            let ghost old_h = h@;
            proof {
                assert(!pcs@.take(k as int).contains(p)) by {
                    if pcs@.take(k as int).contains(p) {
                        let j = choose|j: int| 0 <= j < k && pcs@.take(k as int)[j] == p;
                        assert(pcs@[j] == pcs@[k as int]);
                    }
                }
                let t0 = pcs@.take(k as int);
                let t1 = pcs@.take(k + 1);
                assert(t1 =~= t0.push(p));
                assert forall|q: u32| #[trigger] t1.contains(q) == (t0.contains(q) || q == p) by {
                    if t1.contains(q) && q != p {
                        let j = choose|j: int| 0 <= j < t1.len() && t1[j] == q;
                        assert(t0[j] == q);
                    }
                    if t0.contains(q) {
                        let j = choose|j: int| 0 <= j < t0.len() && t0[j] == q;
                        assert(t1[j] == q);
                    }
                    if q == p {
                        assert(t1[k as int] == q);
                    }
                }
            }
            match entry_of(&h, p) {
                Some(e) => {
                    let (piece, mut list) = h.remove(e);
                    list.push(r);
                    h.insert(e, (piece, list));
                    proof {
                        assert(h@ =~= old_h.update(e as int, h@[e as int]));
                        assert(entries_grew(old_h, h@)) by {
                            assert forall|e2: int| 0 <= e2 < old_h.len() implies (#[trigger] h@[e2]).0 == old_h[e2].0 && old_h[e2].1@.len() <= h@[e2].1@.len()
                                && forall|j: int| 0 <= j < old_h[e2].1@.len() ==> h@[e2].1@[j] == old_h[e2].1@[j] by {
                                if e2 != e {
                                    assert(h@[e2] == old_h[e2]);
                                }
                            }
                        }
                        assert(h@[e as int].1@[h@[e as int].1@.len() - 1] == r);
                        assert(h@[e as int].1@.contains(r));
                        assert(listed_holder(h@, p, r));
                        assert forall|x: int, q: u32|
                            0 <= x < c && #[trigger] conns@[x].present_pieces@.contains(q) implies listed_holder(h@, q, rep@[x]) by {
                            lemma_listed_grows(old_h, h@, q, rep@[x]);
                        }
                        assert forall|j: int| 0 <= j < k + 1 implies listed_holder(h@, #[trigger] pcs@[j], r) by {
                            if j < k {
                                lemma_listed_grows(old_h, h@, pcs@[j], r);
                            }
                        }
                        assert forall|e2: int, j: int|
                            0 <= e2 < h@.len() && 0 <= j < h@[e2].1@.len() implies {
                            &&& is_rep(rep@, #[trigger] h@[e2].1@[j] as int)
                            &&& holds(conns@, conns@[h@[e2].1@[j] as int].peer_id@, h@[e2].0)
                        } by {
                            if e2 != e {
                                assert(h@[e2] == old_h[e2]);
                            } else if j < old_h[e2].1@.len() {
                                assert(h@[e2].1@[j] == old_h[e2].1@[j]);
                            }
                        }
                        assert forall|e2: int| 0 <= e2 < h@.len() implies (#[trigger] h@[e2]).1@.len()
                            > 0 by {
                            if e2 != e {
                                assert(h@[e2] == old_h[e2]);
                            }
                        }
                        assert forall|a: int, b: int| 0 <= a < b < h@.len() implies h@[a].0
                            != h@[b].0 by {
                            assert(h@[a].0 == old_h[a].0 && h@[b].0 == old_h[b].0);
                        }
                        assert forall|x: int, q: u32|
                            0 <= x < c && #[trigger] conns@[x].present_pieces@.contains(q) implies exists|e3: int| 0 <= e3 < h@.len() && #[trigger] h@[e3].0 == q by {
                            let e3 = choose|e3: int| 0 <= e3 < old_h.len() && #[trigger] old_h[e3].0 == q;
                            assert(h@[e3].0 == old_h[e3].0);
                        }
                        assert forall|j: int| #![trigger pcs@[j]] 0 <= j < k + 1 implies exists|e3: int|
                            0 <= e3 < h@.len() && #[trigger] h@[e3].0 == pcs@[j] by {
                            if j < k {
                                let e3 = choose|e3: int| 0 <= e3 < old_h.len() && #[trigger] old_h[e3].0 == pcs@[j];
                                assert(h@[e3].0 == old_h[e3].0);
                            } else {
                                assert(h@[e as int].0 == p);
                            }
                        }
                        assert forall|e2: int| 0 <= e2 < h@.len() implies (#[trigger] h@[e2]).1@.len() == holder_count(conns@.take(c as int), h@[e2].0) + if pcs@.take(k + 1).contains(h@[e2].0) {
                            1nat
                        } else {
                            0nat
                        } by {
                            assert(pcs@.take(k + 1).contains(h@[e2].0) == (pcs@.take(k as int).contains(h@[e2].0) || h@[e2].0 == p));
                            if e2 != e {
                                assert(h@[e2] == old_h[e2]);
                                assert(old_h[e2].0 != old_h[e as int].0);
                            }
                        }
                    }
                },
                None => {
                    let mut list: Vec<usize> = Vec::new();
                    list.push(r);
                    h.push((p, list));
                    proof {
                        let n = old_h.len() as int;
                        assert(entries_grew(old_h, h@)) by {
                            assert forall|e2: int| 0 <= e2 < old_h.len() implies (#[trigger] h@[e2]).0 == old_h[e2].0 && old_h[e2].1@.len() <= h@[e2].1@.len()
                                && forall|j: int| 0 <= j < old_h[e2].1@.len() ==> h@[e2].1@[j] == old_h[e2].1@[j] by {
                                assert(h@[e2] == old_h[e2]);
                            }
                        }
                        assert(h@[n].1@[0] == r);
                        assert(h@[n].1@.contains(r));
                        assert(listed_holder(h@, p, r));
                        assert forall|x: int, q: u32|
                            0 <= x < c && #[trigger] conns@[x].present_pieces@.contains(q) implies listed_holder(h@, q, rep@[x]) by {
                            lemma_listed_grows(old_h, h@, q, rep@[x]);
                        }
                        assert forall|j: int| 0 <= j < k + 1 implies listed_holder(h@, #[trigger] pcs@[j], r) by {
                            if j < k {
                                lemma_listed_grows(old_h, h@, pcs@[j], r);
                            }
                        }
                        assert forall|e2: int, j: int|
                            0 <= e2 < h@.len() && 0 <= j < h@[e2].1@.len() implies {
                            &&& is_rep(rep@, #[trigger] h@[e2].1@[j] as int)
                            &&& holds(conns@, conns@[h@[e2].1@[j] as int].peer_id@, h@[e2].0)
                        } by {
                            if e2 != n {
                                assert(h@[e2] == old_h[e2]);
                            }
                        }
                        assert forall|e2: int| 0 <= e2 < h@.len() implies (#[trigger] h@[e2]).1@.len()
                            > 0 by {
                            if e2 != n {
                                assert(h@[e2] == old_h[e2]);
                            }
                        }
                        assert forall|a: int, b: int| 0 <= a < b < h@.len() implies h@[a].0
                            != h@[b].0 by {
                            if b == n {
                                assert(h@[a] == old_h[a]);
                            } else {
                                assert(h@[a] == old_h[a] && h@[b] == old_h[b]);
                            }
                        }
                        assert forall|x: int, q: u32|
                            0 <= x < c && #[trigger] conns@[x].present_pieces@.contains(q) implies exists|e3: int| 0 <= e3 < h@.len() && #[trigger] h@[e3].0 == q by {
                            let e3 = choose|e3: int| 0 <= e3 < old_h.len() && #[trigger] old_h[e3].0 == q;
                            assert(h@[e3] == old_h[e3]);
                        }
                        assert forall|j: int| #![trigger pcs@[j]] 0 <= j < k + 1 implies exists|e3: int|
                            0 <= e3 < h@.len() && #[trigger] h@[e3].0 == pcs@[j] by {
                            if j < k {
                                let e3 = choose|e3: int| 0 <= e3 < old_h.len() && #[trigger] old_h[e3].0 == pcs@[j];
                                assert(h@[e3] == old_h[e3]);
                            } else {
                                assert(h@[n].0 == p);
                            }
                        }
                        assert forall|x: int| 0 <= x < conns@.take(c as int).len() implies !(#[trigger] conns@.take(c as int)[x].present_pieces@.contains(p)) by {
                            assert(conns@.take(c as int)[x] == conns@[x]);
                            if conns@[x].present_pieces@.contains(p) {
                                let e3 = choose|e3: int| 0 <= e3 < old_h.len() && #[trigger] old_h[e3].0 == p;
                            }
                        }
                        lemma_holder_count_none(conns@.take(c as int), p);
                        assert forall|e2: int| 0 <= e2 < h@.len() implies (#[trigger] h@[e2]).1@.len() == holder_count(conns@.take(c as int), h@[e2].0) + if pcs@.take(k + 1).contains(h@[e2].0) {
                            1nat
                        } else {
                            0nat
                        } by {
                            assert(pcs@.take(k + 1).contains(h@[e2].0) == (pcs@.take(k as int).contains(h@[e2].0) || h@[e2].0 == p));
                            if e2 != n {
                                assert(h@[e2] == old_h[e2]);
                            }
                        }
                    }
                },
            }
            k = k + 1;
        }
        proof {
            assert forall|x: int, q: u32|
                0 <= x < c + 1 && #[trigger] conns@[x].present_pieces@.contains(q) implies exists|
                e3: int,
            | 0 <= e3 < h@.len() && #[trigger] h@[e3].0 == q by {
                if x == c {
                    assert(pcs@.to_set().contains(q));
                    let j = choose|j: int| 0 <= j < pcs@.len() && pcs@[j] == q;
                    assert(exists|e3: int| 0 <= e3 < h@.len() && #[trigger] h@[e3].0 == pcs@[j]);
                }
            }
            assert(pcs@.take(k as int) =~= pcs@);
            assert forall|x: int, q: u32|
                0 <= x < c + 1 && #[trigger] conns@[x].present_pieces@.contains(q) implies listed_holder(h@, q, rep@[x]) by {
                if x == c {
                    assert(pcs@.to_set().contains(q));
                    let j = choose|j: int| 0 <= j < pcs@.len() && pcs@[j] == q;
                    assert(listed_holder(h@, pcs@[j], r));
                }
            }
            assert forall|e: int| 0 <= e < h@.len() implies (#[trigger] h@[e]).1@.len() == holder_count(conns@.take(c + 1), h@[e].0) by {
                lemma_holder_count_step(conns@, c as int, h@[e].0);
                assert(pcs@.to_set().contains(h@[e].0) == pcs@.contains(h@[e].0));
            }
        }
        c = c + 1;
    }
    proof {
        assert forall|p: u32| offered(conns@, p) implies exists|e: int|
            0 <= e < h@.len() && #[trigger] h@[e].0 == p by {
            let x = choose|x: int| 0 <= x < conns@.len() && #[trigger] conns@[x].present_pieces@.contains(p);
        }
        assert(conns@.take(c as int) =~= conns@);
    }
    h
}


/// Shuffles `v` in place, from `rand`'s `SliceRandom::shuffle` with the
/// thread's generator. Trusted, from the crate's source (swaps only): the
/// result holds the same elements, in an order left to chance.
#[verifier::external_body]
fn shuffle(v: &mut Vec<usize>)
    ensures
        final(v)@.to_multiset() == old(v)@.to_multiset(),
{
    v.shuffle(&mut rand::rng());
}

/// The position of the first candidate with the fewest pieces allocated.
fn least_loaded(cands: &Vec<usize>, alloc: &Vec<Vec<u32>>) -> (b: usize)
    requires
        cands@.len() > 0,
        forall|j: int| 0 <= j < cands@.len() ==> #[trigger] cands@[j] < alloc@.len(),
    ensures
        b < cands@.len(),
        forall|j: int|
            0 <= j < cands@.len() ==> alloc@[cands@[b as int] as int]@.len() <= alloc@[#[trigger] cands@[j] as int]@.len(),
        forall|j: int|
            0 <= j < b ==> alloc@[cands@[b as int] as int]@.len() < alloc@[#[trigger] cands@[j] as int]@.len(),
{
    let mut best: usize = 0;
    let mut j: usize = 1;
    while j < cands.len()
        invariant
            cands@.len() > 0,
            forall|x: int| 0 <= x < cands@.len() ==> #[trigger] cands@[x] < alloc@.len(),
            best < j <= cands@.len(),
            forall|x: int|
                0 <= x < j ==> alloc@[cands@[best as int] as int]@.len() <= alloc@[#[trigger] cands@[x] as int]@.len(),
            forall|x: int|
                0 <= x < best ==> alloc@[cands@[best as int] as int]@.len() < alloc@[#[trigger] cands@[x] as int]@.len(),
        decreases cands@.len() - j,
    {
        if alloc[cands[j]].len() < alloc[cands[best]].len() {
            best = j;
        }
        j = j + 1;
    }
    best
}

/// Within each list, a piece that fewer connections have never comes after
/// one that more connections have.
pub open spec fn rarest_first(conns: Seq<BitFieldInfo>, lists: Seq<Vec<u32>>) -> bool {
    forall|r: int, k1: int, k2: int|
        0 <= r < lists.len() && 0 <= k1 < k2 < lists[r]@.len() ==> holder_count(
            conns,
            #[trigger] lists[r]@[k1],
        ) <= holder_count(conns, #[trigger] lists[r]@[k2])
}

/// The pieces of a list that at most `b` connections have.
pub open spec fn count_le(conns: Seq<BitFieldInfo>, s: Seq<u32>, b: nat) -> nat
    decreases s.len(),
{
    if s.len() == 0 {
        0
    } else {
        count_le(conns, s.drop_last(), b) + if holder_count(conns, s.last()) <= b {
            1nat
        } else {
            0nat
        }
    }
}

proof fn lemma_count_le_push(conns: Seq<BitFieldInfo>, s: Seq<u32>, x: u32, b: nat)
    ensures
        count_le(conns, s.push(x), b) == count_le(conns, s, b) + if holder_count(conns, x) <= b {
            1nat
        } else {
            0nat
        },
{
    assert(s.push(x).drop_last() =~= s);
}

proof fn lemma_count_le_all(conns: Seq<BitFieldInfo>, s: Seq<u32>, b: nat)
    requires
        forall|k: int| 0 <= k < s.len() ==> holder_count(conns, #[trigger] s[k]) <= b,
    ensures
        count_le(conns, s, b) == s.len(),
    decreases s.len(),
{
    if s.len() > 0 {
        let d = s.drop_last();
        assert forall|k: int| 0 <= k < d.len() implies holder_count(conns, #[trigger] d[k]) <= b by {
            assert(d[k] == s[k]);
        }
        lemma_count_le_all(conns, d, b);
        assert(holder_count(conns, s[s.len() - 1]) <= b);
    }
}

/// Each piece went to a peer that had no more pieces than any other peer
/// that has it: a piece at position `k` of a list leaves, in the list of
/// every connection that has it, at least `k` pieces that no more
/// connections have.
pub open spec fn fair_so_far(conns: Seq<BitFieldInfo>, rep: Seq<usize>, alloc: Seq<Vec<u32>>) -> bool {
    forall|r: int, k: int, c: int|
        0 <= r < alloc.len() && 0 <= k < alloc[r]@.len() && 0 <= c < conns.len()
            && #[trigger] conns[c].present_pieces@.contains(#[trigger] alloc[r]@[k]) ==> k <= count_le(
            conns,
            alloc[rep[c] as int]@,
            holder_count(conns, alloc[r]@[k]),
        )
}

proof fn lemma_count_le_grows(conns: Seq<BitFieldInfo>, old: Seq<u32>, new: Seq<u32>, x: u32, b: nat)
    requires
        new == old || new == old.push(x),
    ensures
        count_le(conns, old, b) <= count_le(conns, new, b),
{
    if new != old {
        lemma_count_le_push(conns, old, x, b);
    }
}

/// Giving piece `p` to the first connection `r0` of a peer, when no peer that
/// has `p` had fewer pieces, keeps the allocation fair.
proof fn lemma_fair_push(
    conns: Seq<BitFieldInfo>,
    rep: Seq<usize>,
    old_alloc: Seq<Vec<u32>>,
    alloc: Seq<Vec<u32>>,
    r0: int,
    p: u32,
    bound: nat,
)
    requires
        reps_ok(conns, rep),
        old_alloc.len() == conns.len(),
        fair_so_far(conns, rep, old_alloc),
        forall|r: int, k: int|
            0 <= r < old_alloc.len() && 0 <= k < old_alloc[r]@.len() ==> holder_count(
                conns,
                #[trigger] old_alloc[r]@[k],
            ) <= bound,
        holder_count(conns, p) == bound,
        0 <= r0 < old_alloc.len(),
        alloc.len() == old_alloc.len(),
        forall|r: int| 0 <= r < alloc.len() && r != r0 ==> #[trigger] alloc[r] == old_alloc[r],
        alloc[r0]@ == old_alloc[r0]@.push(p),
        forall|c: int|
            0 <= c < conns.len() && #[trigger] conns[c].present_pieces@.contains(p) ==> old_alloc[r0]@.len()
                <= old_alloc[rep[c] as int]@.len(),
    ensures
        fair_so_far(conns, rep, alloc),
{
    assert forall|r: int, k: int, c: int|
        0 <= r < alloc.len() && 0 <= k < alloc[r]@.len() && 0 <= c < conns.len()
            && #[trigger] conns[c].present_pieces@.contains(#[trigger] alloc[r]@[k]) implies k <= count_le(
            conns,
            alloc[rep[c] as int]@,
            holder_count(conns, alloc[r]@[k]),
        ) by {
        let q = alloc[r]@[k];
        let rc = rep[c] as int;
        assert(rep[c] <= c);
        let b = holder_count(conns, q);
        if rc == r0 {
            lemma_count_le_grows(conns, old_alloc[rc]@, alloc[rc]@, p, b);
        } else {
            assert(alloc[rc] == old_alloc[rc]);
        }
        if r == r0 && k == old_alloc[r0]@.len() {
            assert(q == p);
            assert forall|j: int| 0 <= j < old_alloc[rc]@.len() implies holder_count(
                conns,
                #[trigger] old_alloc[rc]@[j],
            ) <= b by {}
            lemma_count_le_all(conns, old_alloc[rc]@, b);
        } else {
            if r == r0 {
                assert(alloc[r]@[k] == old_alloc[r]@[k]);
            } else {
                assert(alloc[r] == old_alloc[r]);
            }
            assert(old_alloc[r]@[k] == q);
            assert(conns[c].present_pieces@.contains(old_alloc[r]@[k]));
        }
    }
}

/// The allocation is sound so far: only first connections of their peer ids
/// get pieces, each piece goes to a peer that has it, and `owner` gives the
/// one place of each allocated piece.
pub open spec fn alloc_ok(
    conns: Seq<BitFieldInfo>,
    rep: Seq<usize>,
    alloc: Seq<Vec<u32>>,
    owner: Map<u32, (int, int)>,
) -> bool {
    &&& alloc.len() == conns.len()
    &&& forall|r: int| 0 <= r < alloc.len() && (#[trigger] alloc[r])@.len() > 0 ==> is_rep(rep, r)
    &&& forall|r: int, k: int|
        0 <= r < alloc.len() && 0 <= k < alloc[r]@.len() ==> holds(
            conns,
            conns[r].peer_id@,
            #[trigger] alloc[r]@[k],
        )
    &&& forall|p: u32|
        #[trigger] owner.dom().contains(p) ==> {
            let (r, k) = owner[p];
            &&& 0 <= r < alloc.len()
            &&& 0 <= k < alloc[r]@.len()
            &&& alloc[r]@[k] == p
        }
    &&& forall|r: int, k: int|
        0 <= r < alloc.len() && 0 <= k < alloc[r]@.len() ==> owner.dom().contains(
            #[trigger] alloc[r]@[k],
        ) && owner[alloc[r]@[k]] == (r, k)
}

/// Entry `e` was dealt with before round `cnt` (pieces with fewer holders)
/// or earlier in round `cnt`.
pub open spec fn dealt(h: Seq<(u32, Vec<usize>)>, e: int, cnt: int, idx: int) -> bool {
    h[e].1@.len() - 1 < cnt || (h[e].1@.len() - 1 == cnt && e < idx)
}

proof fn lemma_multiset_contains(a: Seq<usize>, b: Seq<usize>, x: usize)
    requires
        a.to_multiset() == b.to_multiset(),
        a.contains(x),
    ensures
        b.contains(x),
{
    a.to_multiset_ensures();
    b.to_multiset_ensures();
    assert(a.to_multiset().count(x) > 0);
    assert(b.to_multiset().count(x) > 0);
}

/// Gives each piece to one peer that has it: the rarest pieces first, each
/// to the candidate with the fewest pieces so far, the candidates shuffled
/// first when more than two peers have the piece.
fn allocate(conns: &Vec<BitFieldInfo>, rep: &Vec<usize>, h: &Vec<(u32, Vec<usize>)>) -> (r: (
    Vec<Vec<u32>>,
    Ghost<Map<u32, (int, int)>>,
))
    requires
        reps_ok(conns@, rep@),
        holders_ok(conns@, rep@, h@),
        forall|e: int| 0 <= e < h@.len() ==> (#[trigger] h@[e]).1@.len() == holder_count(conns@, h@[e].0),
        forall|x: int, p: u32|
            0 <= x < conns@.len() && #[trigger] conns@[x].present_pieces@.contains(p) ==> listed_holder(h@, p, rep@[x]),
    ensures
        alloc_ok(conns@, rep@, r.0@, r.1@),
        forall|e: int| 0 <= e < h@.len() ==> r.1@.dom().contains(#[trigger] h@[e].0),
        rarest_first(conns@, r.0@),
        fair_so_far(conns@, rep@, r.0@),
{
    let n = conns.len();
    let mut alloc: Vec<Vec<u32>> = Vec::new();
    let mut i: usize = 0;
    while i < n
        invariant
            n == conns@.len(),
            i <= n,
            alloc@.len() == i,
            forall|r: int| 0 <= r < i ==> (#[trigger] alloc@[r])@.len() == 0,
        decreases n - i,
    {
        alloc.push(Vec::new());
        i = i + 1;
    }
    let mut maxlen: usize = 0;
    let mut e: usize = 0;
    while e < h.len()
        invariant
            e <= h@.len(),
            forall|x: int| 0 <= x < e ==> (#[trigger] h@[x]).1@.len() <= maxlen,
        decreases h@.len() - e,
    {
        if h[e].1.len() > maxlen {
            maxlen = h[e].1.len();
        }
        e = e + 1;
    }
    let ghost mut owner: Map<u32, (int, int)> = Map::empty();
    let mut cnt: usize = 0;
    while cnt < maxlen
        invariant
            reps_ok(conns@, rep@),
            holders_ok(conns@, rep@, h@),
            forall|x: int| 0 <= x < h@.len() ==> (#[trigger] h@[x]).1@.len() <= maxlen,
            cnt <= maxlen,
            alloc_ok(conns@, rep@, alloc@, owner),
            forall|p: u32|
                #[trigger] owner.dom().contains(p) <==> exists|x: int|
                    0 <= x < h@.len() && dealt(h@, x, cnt as int, 0) && #[trigger] h@[x].0 == p,
            forall|e: int| 0 <= e < h@.len() ==> (#[trigger] h@[e]).1@.len() == holder_count(conns@, h@[e].0),
            rarest_first(conns@, alloc@),
            forall|r: int, k: int|
                0 <= r < alloc@.len() && 0 <= k < alloc@[r]@.len() ==> holder_count(conns@, #[trigger] alloc@[r]@[k]) <= cnt,
            forall|x: int, p: u32|
                0 <= x < conns@.len() && #[trigger] conns@[x].present_pieces@.contains(p) ==> listed_holder(h@, p, rep@[x]),
            fair_so_far(conns@, rep@, alloc@),
        decreases maxlen - cnt,
    {
        let mut idx: usize = 0;
        while idx < h.len()
            invariant
                reps_ok(conns@, rep@),
                holders_ok(conns@, rep@, h@),
                cnt < maxlen,
                idx <= h@.len(),
                alloc_ok(conns@, rep@, alloc@, owner),
                forall|p: u32|
                    #[trigger] owner.dom().contains(p) <==> exists|x: int|
                        0 <= x < h@.len() && dealt(h@, x, cnt as int, idx as int) && #[trigger] h@[x].0
                            == p,
                forall|e: int| 0 <= e < h@.len() ==> (#[trigger] h@[e]).1@.len() == holder_count(conns@, h@[e].0),
                rarest_first(conns@, alloc@),
                forall|r: int, k: int|
                    0 <= r < alloc@.len() && 0 <= k < alloc@[r]@.len() ==> holder_count(conns@, #[trigger] alloc@[r]@[k]) <= cnt + 1,
                forall|x: int, p: u32|
                    0 <= x < conns@.len() && #[trigger] conns@[x].present_pieces@.contains(p) ==> listed_holder(h@, p, rep@[x]),
                fair_so_far(conns@, rep@, alloc@),
            decreases h@.len() - idx,
        {
            if h[idx].1.len() - 1 == cnt {
                let p = h[idx].0;
                let mut cands = h[idx].1.clone();
                assert(cands@ =~= h@[idx as int].1@);
                let ghost orig = h@[idx as int].1@;
                if cands.len() > 2 {
                    shuffle(&mut cands);
                }
                proof {
                    assert(cands@.to_multiset() == orig.to_multiset());
                    cands@.to_multiset_ensures();
                    orig.to_multiset_ensures();
                    assert(cands@.len() == orig.len());
                    assert forall|j: int| 0 <= j < cands@.len() implies #[trigger] cands@[j]
                        < alloc@.len() && orig.contains(cands@[j]) by {
                        assert(cands@.contains(cands@[j]));
                        lemma_multiset_contains(cands@, orig, cands@[j]);
                        let jj = choose|jj: int| 0 <= jj < orig.len() && orig[jj] == cands@[j];
                        assert(is_rep(rep@, orig[jj] as int));
                    }
                }
                let b = least_loaded(&cands, &alloc);
                let r = cands[b];
                proof {
                    assert(orig.contains(r));
                    let jj = choose|jj: int| 0 <= jj < orig.len() && orig[jj] == r;
                    assert(is_rep(rep@, orig[jj] as int));
                    assert(holds(conns@, conns@[orig[jj] as int].peer_id@, h@[idx as int].0));
                    assert(!owner.dom().contains(p)) by {
                        if owner.dom().contains(p) {
                            let x = choose|x: int|
                                0 <= x < h@.len() && dealt(h@, x, cnt as int, idx as int) && #[trigger] h@[x].0 == p;
                            assert(x != idx);
                        }
                    }
                }
                proof {
                    assert forall|c: int|
                        0 <= c < conns@.len() && #[trigger] conns@[c].present_pieces@.contains(p) implies alloc@[r as int]@.len()
                            <= alloc@[rep@[c] as int]@.len() by {
                        assert(listed_holder(h@, p, rep@[c]));
                        let e = choose|e: int| 0 <= e < h@.len() && h@[e].0 == p && #[trigger] h@[e].1@.contains(rep@[c]);
                        if e != idx {
                            assert(h@[e].0 != h@[idx as int].0);
                        }
                        assert(orig.contains(rep@[c]));
                        orig.to_multiset_ensures();
                        cands@.to_multiset_ensures();
                        assert(cands@.to_multiset().count(rep@[c]) > 0);
                        assert(cands@.contains(rep@[c]));
                        let j = choose|j: int| 0 <= j < cands@.len() && cands@[j] == rep@[c];
                        assert(alloc@[cands@[b as int] as int]@.len() <= alloc@[cands@[j] as int]@.len());
                    }
                }
                let ghost old_alloc = alloc@;
                let mut list = alloc.remove(r);
                let k = list.len();
                list.push(p);
                alloc.insert(r, list);
                proof {
                    assert(alloc@ =~= old_alloc.update(r as int, alloc@[r as int]));
                    lemma_fair_push(conns@, rep@, old_alloc, alloc@, r as int, p, (cnt + 1) as nat);
                    owner = owner.insert(p, (r as int, k as int));
                    assert(holder_count(conns@, p) == cnt + 1);
                    assert forall|r2: int, k2: int|
                        0 <= r2 < alloc@.len() && 0 <= k2 < alloc@[r2]@.len() implies holder_count(conns@, #[trigger] alloc@[r2]@[k2]) <= cnt + 1 by {
                        if r2 != r {
                            assert(alloc@[r2] == old_alloc[r2]);
                        } else if k2 < k {
                            assert(alloc@[r2]@[k2] == old_alloc[r2]@[k2]);
                        }
                    }
                    assert forall|r2: int, k1: int, k2: int|
                        0 <= r2 < alloc@.len() && 0 <= k1 < k2 < alloc@[r2]@.len() implies holder_count(conns@, #[trigger] alloc@[r2]@[k1]) <= holder_count(conns@, #[trigger] alloc@[r2]@[k2]) by {
                        if r2 != r {
                            assert(alloc@[r2] == old_alloc[r2]);
                        } else {
                            assert(alloc@[r2]@[k1] == old_alloc[r2]@[k1]);
                            if k2 < k {
                                assert(alloc@[r2]@[k2] == old_alloc[r2]@[k2]);
                            }
                        }
                    }
                    assert forall|r2: int| 0 <= r2 < alloc@.len() && (#[trigger] alloc@[r2])@.len() > 0 implies is_rep(rep@, r2) by {
                        if r2 != r {
                            assert(alloc@[r2] == old_alloc[r2]);
                        }
                    }
                    assert forall|r2: int, k2: int|
                        0 <= r2 < alloc@.len() && 0 <= k2 < alloc@[r2]@.len() implies holds(
                        conns@,
                        conns@[r2].peer_id@,
                        #[trigger] alloc@[r2]@[k2],
                    ) by {
                        if r2 != r {
                            assert(alloc@[r2] == old_alloc[r2]);
                        } else if k2 < k {
                            assert(alloc@[r2]@[k2] == old_alloc[r2]@[k2]);
                        }
                    }
                    assert forall|q: u32| #[trigger] owner.dom().contains(q) implies {
                        let (r2, k2) = owner[q];
                        &&& 0 <= r2 < alloc@.len()
                        &&& 0 <= k2 < alloc@[r2]@.len()
                        &&& alloc@[r2]@[k2] == q
                    } by {
                        if q != p {
                            let (r2, k2) = owner[q];
                            if r2 == r {
                                assert(alloc@[r2]@[k2] == old_alloc[r2]@[k2]);
                            } else {
                                assert(alloc@[r2] == old_alloc[r2]);
                            }
                        }
                    }
                    assert forall|r2: int, k2: int|
                        0 <= r2 < alloc@.len() && 0 <= k2 < alloc@[r2]@.len() implies owner.dom().contains(
                        #[trigger] alloc@[r2]@[k2],
                    ) && owner[alloc@[r2]@[k2]] == (r2, k2) by {
                        if r2 != r {
                            assert(alloc@[r2] == old_alloc[r2]);
                            assert(alloc@[r2]@[k2] != p);
                        } else if k2 < k {
                            assert(alloc@[r2]@[k2] == old_alloc[r2]@[k2]);
                            assert(alloc@[r2]@[k2] != p);
                        }
                    }
                    assert forall|q: u32|
                        #[trigger] owner.dom().contains(q) <==> exists|x: int|
                            0 <= x < h@.len() && dealt(h@, x, cnt as int, idx + 1) && #[trigger] h@[x].0 == q by {
                        if q == p {
                            assert(dealt(h@, idx as int, cnt as int, idx + 1));
                        }
                        if exists|x: int| 0 <= x < h@.len() && dealt(h@, x, cnt as int, idx + 1) && #[trigger] h@[x].0 == q {
                            let x = choose|x: int| 0 <= x < h@.len() && dealt(h@, x, cnt as int, idx + 1) && #[trigger] h@[x].0 == q;
                            if x != idx {
                                assert(dealt(h@, x, cnt as int, idx as int));
                            }
                        }
                    }
                }
            } else {
                proof {
                    assert forall|q: u32|
                        #[trigger] owner.dom().contains(q) <==> exists|x: int|
                            0 <= x < h@.len() && dealt(h@, x, cnt as int, idx + 1) && #[trigger] h@[x].0 == q by {
                        if exists|x: int| 0 <= x < h@.len() && dealt(h@, x, cnt as int, idx + 1) && #[trigger] h@[x].0 == q {
                            let x = choose|x: int| 0 <= x < h@.len() && dealt(h@, x, cnt as int, idx + 1) && #[trigger] h@[x].0 == q;
                            assert(dealt(h@, x, cnt as int, idx as int));
                        }
                    }
                }
            }
            idx = idx + 1;
        }
        proof {
            assert forall|q: u32|
                #[trigger] owner.dom().contains(q) <==> exists|x: int|
                    0 <= x < h@.len() && dealt(h@, x, cnt + 1, 0) && #[trigger] h@[x].0 == q by {
                if exists|x: int| 0 <= x < h@.len() && dealt(h@, x, cnt + 1, 0) && #[trigger] h@[x].0 == q {
                    let x = choose|x: int| 0 <= x < h@.len() && dealt(h@, x, cnt + 1, 0) && #[trigger] h@[x].0 == q;
                    assert(dealt(h@, x, cnt as int, h@.len() as int));
                }
                if exists|x: int| 0 <= x < h@.len() && dealt(h@, x, cnt as int, h@.len() as int) && #[trigger] h@[x].0 == q {
                    let x = choose|x: int| 0 <= x < h@.len() && dealt(h@, x, cnt as int, h@.len() as int) && #[trigger] h@[x].0 == q;
                    assert(dealt(h@, x, cnt + 1, 0));
                }
            }
        }
        cnt = cnt + 1;
    }
    proof {
        assert forall|e: int| 0 <= e < h@.len() implies owner.dom().contains(#[trigger] h@[e].0) by {
            assert(dealt(h@, e, cnt as int, 0));
        }
    }
    (alloc, Ghost(owner))
}


/// How many pieces of the list of peer `id` at most `b` connections have (none
/// when the peer got no list).
pub open spec fn peer_list_load(
    conns: Seq<BitFieldInfo>,
    r: Seq<(String, Vec<u32>)>,
    id: Seq<char>,
    b: nat,
) -> nat {
    if exists|j: int| 0 <= j < r.len() && #[trigger] r[j].0@ == id {
        count_le(conns, r[choose|j: int| 0 <= j < r.len() && #[trigger] r[j].0@ == id].1@, b)
    } else {
        0
    }
}

/// Each piece went to a peer that had no more pieces than any other peer
/// that has it: when a piece stands at position `k` of a peer's list, every
/// peer that has it was given at least `k` pieces that no more connections
/// have.
pub open spec fn least_loaded_choice(conns: Seq<BitFieldInfo>, r: Seq<(String, Vec<u32>)>) -> bool {
    forall|i: int, k: int, c: int|
        0 <= i < r.len() && 0 <= k < r[i].1@.len() && 0 <= c < conns.len()
            && #[trigger] conns[c].present_pieces@.contains(#[trigger] r[i].1@[k]) ==> k <= peer_list_load(
            conns,
            r,
            conns[c].peer_id@,
            holder_count(conns, r[i].1@[k]),
        )
}

/// Which pieces each peer downloads: every piece that some peer has goes to
/// exactly one peer that has it. Pieces that fewer peers have are dealt out
/// first, so each peer's list comes rarest first; each goes to the peer that
/// was given the fewest pieces so far, the candidates shuffled first when
/// more than two peers have the piece. Connections with the same peer id
/// count as one peer.
pub fn peer_pieces_selection(connections: &Vec<BitFieldInfo>) -> (r: Vec<(String, Vec<u32>)>)
    ensures
        sound_allocation(connections@, r@),
        forall|i: int, k1: int, k2: int|
            0 <= i < r@.len() && 0 <= k1 < k2 < r@[i].1@.len() ==> holder_count(
                connections@,
                #[trigger] r@[i].1@[k1],
            ) <= holder_count(connections@, #[trigger] r@[i].1@[k2]),
        least_loaded_choice(connections@, r@),
{
    let rep = representatives(connections);
    let h = piece_holders(connections, &rep);
    let (mut alloc, Ghost(owner)) = allocate(connections, &rep, &h);
    let ghost full = alloc@;
    let mut out: Vec<(String, Vec<u32>)> = Vec::new();
    let ghost mut src: Seq<int> = Seq::empty();
    while alloc.len() > 0
        invariant
            reps_ok(connections@, rep@),
            alloc_ok(connections@, rep@, full, owner),
            alloc@.len() <= full.len(),
            forall|x: int| 0 <= x < alloc@.len() ==> #[trigger] alloc@[x] == full[x],
            out@.len() == src.len(),
            forall|i: int|
                0 <= i < src.len() ==> {
                    &&& alloc@.len() <= #[trigger] src[i] < full.len()
                    &&& full[src[i]]@.len() > 0
                    &&& out@[i].0@ == connections@[src[i]].peer_id@
                    &&& out@[i].1@ == full[src[i]]@
                },
            forall|i: int, j: int| 0 <= i < j < src.len() ==> src[i] > src[j],
            forall|x: int|
                alloc@.len() <= x < full.len() && (#[trigger] full[x])@.len() > 0 ==> exists|i: int|
                    0 <= i < src.len() && src[i] == x,
        decreases alloc@.len(),
    {
        let ghost old_src = src;
        let ghost old_len = alloc@.len();
        let list = alloc.pop().unwrap();
        let x = alloc.len();
        assert(list == full[x as int]);
        if list.len() > 0 {
            let id = connections[x].peer_id.clone();
            out.push((id, list));
            proof {
                src = src.push(x as int);
            }
        }
        proof {
            assert forall|y: int|
                alloc@.len() <= y < full.len() && (#[trigger] full[y])@.len() > 0 implies exists|
                i: int,
            | 0 <= i < src.len() && src[i] == y by {
                if y == x {
                    assert(src[src.len() - 1] == y);
                } else {
                    assert(old_len <= y);
                    let i = choose|i: int| 0 <= i < old_src.len() && old_src[i] == y;
                    assert(src[i] == y);
                }
            }
        }
    }
    proof {
        let r = out@;
        assert forall|i: int, j: int| 0 <= i < j < r.len() implies r[i].0@ != r[j].0@ by {
            let a = src[i];
            let b = src[j];
            assert(is_rep(rep@, a) && is_rep(rep@, b));
            assert(b < a);
            assert(rep@[a] == a);
        }
        assert forall|i: int| 0 <= i < r.len() implies (#[trigger] r[i]).1@.len() > 0 by {
            assert(full[src[i]]@.len() > 0);
        }
        assert forall|i: int, k1: int, k2: int|
            0 <= i < r.len() && 0 <= k1 < k2 < r[i].1@.len() implies holder_count(
                connections@,
                #[trigger] r[i].1@[k1],
            ) <= holder_count(connections@, #[trigger] r[i].1@[k2]) by {
            assert(r[i].1@ == full[src[i]]@);
            assert(full[src[i]]@[k1] == r[i].1@[k1]);
            assert(full[src[i]]@[k2] == r[i].1@[k2]);
        }
        assert forall|i: int, k: int, c: int|
            0 <= i < r.len() && 0 <= k < r[i].1@.len() && 0 <= c < connections@.len()
                && #[trigger] connections@[c].present_pieces@.contains(#[trigger] r[i].1@[k]) implies k <= peer_list_load(
                connections@,
                r,
                connections@[c].peer_id@,
                holder_count(connections@, r[i].1@[k]),
            ) by {
            let q = r[i].1@[k];
            let b = holder_count(connections@, q);
            assert(r[i].1@ == full[src[i]]@);
            assert(full[src[i]]@[k] == q);
            assert(connections@[c].present_pieces@.contains(full[src[i]]@[k]));
            let rc = rep@[c] as int;
            assert(rep@[c] <= c);
            assert(k <= count_le(connections@, full[rc]@, b));
            if full[rc]@.len() > 0 {
                let j = choose|j: int| 0 <= j < src.len() && src[j] == rc;
                assert(r[j].0@ == connections@[rc].peer_id@);
                assert(r[j].0@ == connections@[c].peer_id@);
                let id = connections@[c].peer_id@;
                assert(exists|j2: int| 0 <= j2 < r.len() && #[trigger] r[j2].0@ == id);
                let j2 = choose|j2: int| 0 <= j2 < r.len() && #[trigger] r[j2].0@ == id;
                if j2 != j {
                    if j2 < j {
                        assert(r[j2].0@ != r[j].0@);
                    } else {
                        assert(r[j].0@ != r[j2].0@);
                    }
                }
                assert(r[j].1@ == full[rc]@);
            } else {
                assert(count_le(connections@, full[rc]@, b) == 0);
            }
        }
        assert forall|i: int, k: int|
            0 <= i < r.len() && 0 <= k < r[i].1@.len() implies holds(
            connections@,
            r[i].0@,
            #[trigger] r[i].1@[k],
        ) by {
            assert(r[i].1@[k] == full[src[i]]@[k]);
        }
        assert forall|p: u32| offered(connections@, p) implies exists|i: int, k: int|
            0 <= i < r.len() && 0 <= k < r[i].1@.len() && #[trigger] r[i].1@[k] == p by {
            let e = choose|e: int| 0 <= e < h@.len() && #[trigger] h@[e].0 == p;
            assert(owner.dom().contains(h@[e].0));
            let (x, k) = owner[p];
            assert(full[x]@[k] == p);
            let i = choose|i: int| 0 <= i < src.len() && src[i] == x;
            assert(r[i].1@[k] == p);
        }
        assert forall|i1: int, k1: int, i2: int, k2: int|
            0 <= i1 < r.len() && 0 <= k1 < r[i1].1@.len() && 0 <= i2 < r.len() && 0 <= k2
                < r[i2].1@.len() && #[trigger] r[i1].1@[k1] == #[trigger] r[i2].1@[k2] implies i1
            == i2 && k1 == k2 by {
            assert(r[i1].1@[k1] == full[src[i1]]@[k1]);
            assert(r[i2].1@[k2] == full[src[i2]]@[k2]);
            assert(owner[full[src[i1]]@[k1]] == (src[i1], k1));
            assert(owner[full[src[i2]]@[k2]] == (src[i2], k2));
            if i1 < i2 {
                assert(src[i1] > src[i2]);
            } else if i2 < i1 {
                assert(src[i2] > src[i1]);
            }
        }
    }
    out
}


/// The pieces that entries for peer `id` deal out, up to entry `n` (and, of
/// entry `n`, its first `m` pieces).
pub open spec fn dealt_upto(a: Seq<(String, Vec<u32>)>, id: Seq<char>, n: int, m: int) -> Set<u32> {
    Set::new(
        |p: u32|
            exists|j: int, k: int|
                0 <= j < a.len() && a[j].0@ == id && 0 <= k < a[j].1@.len() && (j < n || (j == n
                    && k < m)) && #[trigger] a[j].1@[k] == p,
    )
}

/// The pieces an allocation deals to peer `id`.
pub open spec fn dealt_to(a: Seq<(String, Vec<u32>)>, id: Seq<char>) -> Set<u32> {
    dealt_upto(a, id, a.len() as int, 0)
}

/// Adds to the pieces allocated to the connection of peer `peer_id` exactly
/// those an allocation deals to that peer.
pub fn record_allocation(
    allocated: &mut HashSet<u32>,
    peer_id: &String,
    allocation: &Vec<(String, Vec<u32>)>,
)
    ensures
        final(allocated)@ == old(allocated)@.union(dealt_to(allocation@, peer_id@)),
{
    let ghost a = allocation@;
    let ghost id = peer_id@;
    let mut j: usize = 0;
    while j < allocation.len()
        invariant
            a == allocation@,
            id == peer_id@,
            j <= a.len(),
            allocated@ == old(allocated)@.union(dealt_upto(a, id, j as int, 0)),
        decreases a.len() - j,
    {
        if allocation[j].0 == *peer_id {
            let list = &allocation[j].1;
            let mut k: usize = 0;
            while k < list.len()
                invariant
                    a == allocation@,
                    id == peer_id@,
                    j < a.len(),
                    a[j as int].0@ == id,
                    *list == a[j as int].1,
                    k <= list@.len(),
                    allocated@ == old(allocated)@.union(dealt_upto(a, id, j as int, k as int)),
                decreases list@.len() - k,
            {
                let ghost before = allocated@;
                allocated.insert(list[k]);
                proof {
                    assert(dealt_upto(a, id, j as int, k + 1) =~= dealt_upto(a, id, j as int, k as int).insert(
                        list@[k as int],
                    )) by {
                        assert(a[j as int].1@[k as int] == list@[k as int]);
                    }
                }
                k = k + 1;
            }
            proof {
                assert(dealt_upto(a, id, j + 1, 0) =~= dealt_upto(a, id, j as int, k as int));
            }
        } else {
            proof {
                assert(dealt_upto(a, id, j + 1, 0) =~= dealt_upto(a, id, j as int, 0));
            }
        }
        j = j + 1;
    }
}

impl BlockStore {
    /// The book: for each piece that blocks came for, each piece once, the
    /// bytes downloaded of it.
    pub fn pieces_received(&self) -> (r: Vec<(u32, usize)>)
        requires
            self.wf(),
        ensures
            r@ == self.book@,
            keys_distinct(r@),
            forall|p: u32| book_value(r@, p) == #[trigger] self.downloaded_of(p),
    {
        let mut out: Vec<(u32, usize)> = Vec::new();
        let mut i: usize = 0;
        while i < self.book.len()
            invariant
                i <= self.book@.len(),
                out@ == self.book@.take(i as int),
            decreases self.book@.len() - i,
        {
            out.push(self.book[i]);
            i = i + 1;
            assert(out@ =~= self.book@.take(i as int));
        }
        assert(out@ =~= self.book@);
        out
    }

    /// The bytes downloaded of piece `index`.
    pub fn downloaded_bytes(&self, index: u32) -> (r: usize)
        requires
            self.wf(),
        ensures
            r == self.downloaded_of(index),
    {
        book_get(&self.book, index)
    }
}

/// Each piece occurs once.
pub open spec fn keys_distinct(b: Seq<(u32, usize)>) -> bool {
    forall|i: int, j: int| 0 <= i < j < b.len() ==> b[i].0 != b[j].0
}

/// The bytes a book records for piece `p`, 0 when it has none.
pub open spec fn book_value(b: Seq<(u32, usize)>, p: u32) -> nat
    decreases b.len(),
{
    if b.len() == 0 {
        0
    } else if b.last().0 == p {
        b.last().1 as nat
    } else {
        book_value(b.drop_last(), p)
    }
}

/// The most bytes any book records for piece `p`.
pub open spec fn progress_of(books: Seq<Seq<(u32, usize)>>, p: u32) -> nat
    decreases books.len(),
{
    if books.len() == 0 {
        0
    } else {
        let a = progress_of(books.drop_last(), p);
        let b = book_value(books.last(), p);
        if a >= b {
            a
        } else {
            b
        }
    }
}

/// Some book has an entry for piece `p`.
pub open spec fn listed(books: Seq<Seq<(u32, usize)>>, p: u32) -> bool {
    exists|c: int, i: int| 0 <= c < books.len() && 0 <= i < books[c].len() && #[trigger] books[c][i].0 == p
}

/// The progress of the pieces `ks`, added up.
pub open spec fn sum_progress(books: Seq<Seq<(u32, usize)>>, ks: Seq<u32>) -> nat
    decreases ks.len(),
{
    if ks.len() == 0 {
        0
    } else {
        sum_progress(books, ks.drop_last()) + progress_of(books, ks.last())
    }
}

proof fn lemma_book_value_push(b: Seq<(u32, usize)>, x: (u32, usize), p: u32)
    ensures
        book_value(b.push(x), p) == if x.0 == p {
            x.1 as nat
        } else {
            book_value(b, p)
        },
{
    assert(b.push(x).drop_last() =~= b);
}

proof fn lemma_book_value_absent(b: Seq<(u32, usize)>, p: u32)
    requires
        forall|i: int| 0 <= i < b.len() ==> b[i].0 != p,
    ensures
        book_value(b, p) == 0,
    decreases b.len(),
{
    if b.len() > 0 {
        lemma_book_value_absent(b.drop_last(), p);
    }
}

/// The value recorded for the key at position `i`.
proof fn lemma_book_value_at(b: Seq<(u32, usize)>, i: int)
    requires
        keys_distinct(b),
        0 <= i < b.len(),
    ensures
        book_value(b, b[i].0) == b[i].1 as nat,
    decreases b.len(),
{
    if i < b.len() - 1 {
        assert(b.last().0 != b[i].0);
        assert(b.drop_last()[i] == b[i]);
        lemma_book_value_at(b.drop_last(), i);
    }
}

/// Changing the value at position `i` changes only its key's value.
proof fn lemma_book_value_update(b: Seq<(u32, usize)>, i: int, v: usize, p: u32)
    requires
        keys_distinct(b),
        0 <= i < b.len(),
    ensures
        book_value(b.update(i, (b[i].0, v)), p) == if p == b[i].0 {
            v as nat
        } else {
            book_value(b, p)
        },
    decreases b.len(),
{
    let u = b.update(i, (b[i].0, v));
    if i == b.len() - 1 {
        assert(u.drop_last() =~= b.drop_last());
    } else {
        assert(u.drop_last() =~= b.drop_last().update(i, (b[i].0, v)));
        assert(b.drop_last()[i] == b[i]);
        assert(u.last() == b.last());
        assert(b.last().0 != b[i].0);
        lemma_book_value_update(b.drop_last(), i, v, p);
    }
}

/// The value a book records for piece `index`.
fn book_get(book: &Vec<(u32, usize)>, index: u32) -> (r: usize)
    requires
        keys_distinct(book@),
    ensures
        r == book_value(book@, index),
{
    let mut i: usize = 0;
    while i < book.len()
        invariant
            i <= book@.len(),
            keys_distinct(book@),
            forall|j: int| 0 <= j < i ==> book@[j].0 != index,
        decreases book@.len() - i,
    {
        if book[i].0 == index {
            proof {
                lemma_book_value_at(book@, i as int);
            }
            return book[i].1;
        }
        i = i + 1;
    }
    proof {
        lemma_book_value_absent(book@, index);
    }
    0
}

/// Records `value` for piece `index` in a book.
fn book_set(book: &mut Vec<(u32, usize)>, index: u32, value: usize)
    requires
        keys_distinct(old(book)@),
    ensures
        keys_distinct(final(book)@),
        forall|p: u32|
            #[trigger] book_value(final(book)@, p) == if p == index {
                value as nat
            } else {
                book_value(old(book)@, p)
            },
{
    let mut i: usize = 0;
    while i < book.len()
        invariant
            i <= book@.len(),
            book@ == old(book)@,
            keys_distinct(book@),
            forall|j: int| 0 <= j < i ==> book@[j].0 != index,
        decreases book@.len() - i,
    {
        if book[i].0 == index {
            let ghost b = book@;
            book.set(i, (index, value));
            proof {
                assert(book@ == b.update(i as int, (b[i as int].0, value)));
                assert forall|p: u32| #[trigger] book_value(book@, p) == if p == index {
                    value as nat
                } else {
                    book_value(b, p)
                } by {
                    lemma_book_value_update(b, i as int, value, p);
                }
                assert forall|a: int, c: int| 0 <= a < c < book@.len() implies book@[a].0 != book@[c].0 by {
                    assert(book@[a].0 == b[a].0 && book@[c].0 == b[c].0);
                }
            }
            return;
        }
        i = i + 1;
    }
    let ghost b = book@;
    book.push((index, value));
    proof {
        assert forall|p: u32| #[trigger] book_value(book@, p) == if p == index {
            value as nat
        } else {
            book_value(b, p)
        } by {
            lemma_book_value_push(b, (index, value), p);
        }
        assert forall|a: int, c: int| 0 <= a < c < book@.len() implies book@[a].0 != book@[c].0 by {
            if c == b.len() {
                assert(book@[a] == b[a]);
            } else {
                assert(book@[a] == b[a] && book@[c] == b[c]);
            }
        }
    }
}

/// The bytes downloaded so far: for each piece, the most bytes any
/// connection received for it, added up; `None` when the total does not fit
/// in a `usize`.
pub fn downloaded_total(books: &Vec<Vec<(u32, usize)>>) -> (r: Option<u64>)
    requires
        forall|c: int| 0 <= c < books@.len() ==> keys_distinct(#[trigger] books@[c]@),
    ensures
        exists|ks: Seq<u32>|
            {
                &&& ks.no_duplicates()
                &&& forall|p: u32| ks.contains(p) <==> listed(Seq::new(books@.len(), |c: int| books@[c]@), p)
                &&& r == if sum_progress(Seq::new(books@.len(), |c: int| books@[c]@), ks) <= usize::MAX {
                    Some(sum_progress(Seq::new(books@.len(), |c: int| books@[c]@), ks) as u64)
                } else {
                    None
                }
            },
{
    let ghost bs = Seq::new(books@.len(), |c: int| books@[c]@);
    let mut merged: Vec<(u32, usize)> = Vec::new();
    let mut c: usize = 0;
    while c < books.len()
        invariant
            bs == Seq::new(books@.len(), |c: int| books@[c]@),
            forall|x: int| 0 <= x < books@.len() ==> keys_distinct(#[trigger] books@[x]@),
            c <= books@.len(),
            keys_distinct(merged@),
            forall|p: u32|
                (exists|i: int| 0 <= i < merged@.len() && #[trigger] merged@[i].0 == p) <==> listed(
                    bs.take(c as int),
                    p,
                ),
            forall|i: int|
                0 <= i < merged@.len() ==> (#[trigger] merged@[i]).1 as nat == progress_of(
                    bs.take(c as int),
                    merged@[i].0,
                ),
        decreases books@.len() - c,
    {
        let book = &books[c];
        let ghost done = bs.take(c as int);
        let mut k: usize = 0;
        proof {
            let d0 = done.push(book@.take(0));
            assert(d0.drop_last() =~= done);
            assert(book@.take(0) =~= Seq::<(u32, usize)>::empty());
            assert forall|q: u32| #[trigger] listed(d0, q) == listed(done, q) by {
                if listed(d0, q) {
                    let (cc, ii) = choose|cc: int, ii: int| 0 <= cc < d0.len() && 0 <= ii < d0[cc].len() && #[trigger] d0[cc][ii].0 == q;
                    assert(done[cc][ii] == d0[cc][ii]);
                }
                if listed(done, q) {
                    let (cc, ii) = choose|cc: int, ii: int| 0 <= cc < done.len() && 0 <= ii < done[cc].len() && #[trigger] done[cc][ii].0 == q;
                    assert(d0[cc][ii] == done[cc][ii]);
                }
            }
            assert forall|q: u32| #[trigger] progress_of(d0, q) == progress_of(done, q) by {
                assert(book_value(book@.take(0), q) == 0);
            }
        }
        while k < book.len()
            invariant
                bs == Seq::new(books@.len(), |c: int| books@[c]@),
                c < books@.len(),
                book@ == bs[c as int],
                keys_distinct(book@),
                done == bs.take(c as int),
                k <= book@.len(),
                keys_distinct(merged@),
                forall|p: u32|
                    (exists|i: int| 0 <= i < merged@.len() && #[trigger] merged@[i].0 == p) <==> listed(
                        done.push(book@.take(k as int)),
                        p,
                    ),
                forall|i: int|
                    0 <= i < merged@.len() ==> (#[trigger] merged@[i]).1 as nat == progress_of(
                        done.push(book@.take(k as int)),
                        merged@[i].0,
                    ),
            decreases book@.len() - k,
        {
            let (p, v) = book[k];
            let ghost before = done.push(book@.take(k as int));
            let ghost after = done.push(book@.take(k + 1));
            proof {
                assert(book@.take(k + 1) =~= book@.take(k as int).push(book@[k as int]));
                assert(after.drop_last() =~= done);
                assert(before.drop_last() =~= done);
                assert forall|q: u32| #[trigger] progress_of(after, q) == if q == p {
                    let a = progress_of(done, q);
                    if a >= v {
                        a
                    } else {
                        v as nat
                    }
                } else {
                    progress_of(before, q)
                } by {
                    lemma_book_value_push(book@.take(k as int), book@[k as int], q);
                    if q == p {
                        assert forall|i: int| 0 <= i < book@.take(k as int).len() implies book@.take(k as int)[i].0 != p by {
                            assert(book@[i].0 != book@[k as int].0);
                        }
                        lemma_book_value_absent(book@.take(k as int), p);
                    }
                }
                assert forall|q: u32| listed(after, q) <==> (listed(before, q) || q == p) by {
                    if listed(after, q) {
                        let (cc, ii) = choose|cc: int, ii: int| 0 <= cc < after.len() && 0 <= ii < after[cc].len() && #[trigger] after[cc][ii].0 == q;
                        if cc < c || ii < k {
                            assert(before[cc][ii] == after[cc][ii]);
                        }
                    }
                    if listed(before, q) {
                        let (cc, ii) = choose|cc: int, ii: int| 0 <= cc < before.len() && 0 <= ii < before[cc].len() && #[trigger] before[cc][ii].0 == q;
                        assert(after[cc][ii] == before[cc][ii]);
                    }
                    if q == p {
                        assert(after[c as int][k as int].0 == p);
                    }
                }
                assert(forall|i: int| 0 <= i < k ==> book@.take(k as int)[i].0 != p) by {
                    assert forall|i: int| 0 <= i < k implies book@.take(k as int)[i].0 != p by {
                        assert(book@[i].0 != book@[k as int].0);
                    }
                }
                assert(progress_of(before, p) == progress_of(done, p)) by {
                    lemma_book_value_absent(book@.take(k as int), p);
                }
            }
            let mut e: usize = 0;
            while e < merged.len() && merged[e].0 != p
                invariant
                    e <= merged@.len(),
                    forall|x: int| 0 <= x < e ==> merged@[x].0 != p,
                decreases merged@.len() - e,
            {
                e = e + 1;
            }
            let ghost old_m = merged@;
            if e < merged.len() {
                let (q, w) = merged.remove(e);
                let m = if w >= v {
                    w
                } else {
                    v
                };
                merged.insert(e, (q, m));
                proof {
                    assert(merged@ =~= old_m.update(e as int, (q, m)));
                    assert forall|i: int| 0 <= i < merged@.len() implies (#[trigger] merged@[i]).1 as nat
                        == progress_of(after, merged@[i].0) by {
                        if i != e {
                            assert(merged@[i] == old_m[i]);
                            assert(old_m[i].0 != old_m[e as int].0);
                        }
                    }
                    assert forall|pp: u32|
                        (exists|i: int| 0 <= i < merged@.len() && #[trigger] merged@[i].0 == pp) <==> listed(after, pp) by {
                        if exists|i: int| 0 <= i < merged@.len() && #[trigger] merged@[i].0 == pp {
                            let i = choose|i: int| 0 <= i < merged@.len() && #[trigger] merged@[i].0 == pp;
                            assert(old_m[i].0 == pp);
                        }
                        if exists|i: int| 0 <= i < old_m.len() && #[trigger] old_m[i].0 == pp {
                            let i = choose|i: int| 0 <= i < old_m.len() && #[trigger] old_m[i].0 == pp;
                            assert(merged@[i].0 == pp);
                        }
                    }
                    assert forall|a: int, b: int| 0 <= a < b < merged@.len() implies merged@[a].0 != merged@[b].0 by {
                        assert(merged@[a].0 == old_m[a].0 && merged@[b].0 == old_m[b].0);
                    }
                }
            } else {
                merged.push((p, v));
                proof {
                    assert(!listed(before, p)) by {
                        if listed(before, p) {
                            let i = choose|i: int| 0 <= i < old_m.len() && #[trigger] old_m[i].0 == p;
                        }
                    }
                    assert(progress_of(done, p) == 0) by {
                        lemma_progress_unlisted(done, p);
                        if listed(done, p) {
                            let (cc, ii) = choose|cc: int, ii: int| 0 <= cc < done.len() && 0 <= ii < done[cc].len() && #[trigger] done[cc][ii].0 == p;
                            assert(before[cc][ii] == done[cc][ii]);
                        }
                    }
                    assert forall|i: int| 0 <= i < merged@.len() implies (#[trigger] merged@[i]).1 as nat
                        == progress_of(after, merged@[i].0) by {
                        if i < old_m.len() {
                            assert(merged@[i] == old_m[i]);
                        }
                    }
                    assert forall|pp: u32|
                        (exists|i: int| 0 <= i < merged@.len() && #[trigger] merged@[i].0 == pp) <==> listed(after, pp) by {
                        if exists|i: int| 0 <= i < merged@.len() && #[trigger] merged@[i].0 == pp {
                            let i = choose|i: int| 0 <= i < merged@.len() && #[trigger] merged@[i].0 == pp;
                            if i < old_m.len() {
                                assert(old_m[i].0 == pp);
                            }
                        }
                        if exists|i: int| 0 <= i < old_m.len() && #[trigger] old_m[i].0 == pp {
                            let i = choose|i: int| 0 <= i < old_m.len() && #[trigger] old_m[i].0 == pp;
                            assert(merged@[i].0 == pp);
                        }
                        if pp == p {
                            assert(merged@[old_m.len() as int].0 == p);
                        }
                    }
                    assert forall|a: int, b: int| 0 <= a < b < merged@.len() implies merged@[a].0 != merged@[b].0 by {
                        if b == old_m.len() {
                            assert(merged@[a] == old_m[a]);
                        } else {
                            assert(merged@[a] == old_m[a] && merged@[b] == old_m[b]);
                        }
                    }
                }
            }
            k = k + 1;
        }
        proof {
            assert(book@.take(book@.len() as int) =~= book@);
            assert(done.push(book@) =~= bs.take(c + 1));
        }
        c = c + 1;
    }
    assert(bs.take(c as int) =~= bs);
    assert(forall|p: u32|
        (exists|i: int| 0 <= i < merged@.len() && #[trigger] merged@[i].0 == p) <==> listed(bs, p));
    let ghost ks = Seq::new(merged@.len(), |i: int| merged@[i].0);
    let mut total: usize = 0;
    let mut i: usize = 0;
    while i < merged.len()
        invariant
            i <= merged@.len(),
            ks == Seq::new(merged@.len(), |i: int| merged@[i].0),
            bs == Seq::new(books@.len(), |c: int| books@[c]@),
            keys_distinct(merged@),
            forall|p: u32|
                (exists|i: int| 0 <= i < merged@.len() && #[trigger] merged@[i].0 == p) <==> listed(bs, p),
            forall|j: int| 0 <= j < merged@.len() ==> (#[trigger] merged@[j]).1 as nat == progress_of(bs, merged@[j].0),
            total as nat == sum_progress(bs, ks.take(i as int)),
        decreases merged@.len() - i,
    {
        assert(ks.take(i + 1).drop_last() =~= ks.take(i as int));
        match total.checked_add(merged[i].1) {
            Some(t) => {
                total = t;
            },
            None => {
                proof {
                    lemma_sum_progress_prefix(bs, ks, i + 1);
                    lemma_ks_facts(bs, merged@, ks);
                    assert(sum_progress(bs, ks.take(i + 1)) == total + merged@[i as int].1);
                    assert(sum_progress(bs, ks) > usize::MAX);
                    assert(ks.no_duplicates() && (forall|p: u32| ks.contains(p) <==> listed(bs, p)));
                }
                return None;
            },
        }
        i = i + 1;
    }
    proof {
        assert(ks.take(i as int) =~= ks);
        lemma_ks_facts(bs, merged@, ks);
        assert(ks.no_duplicates() && (forall|p: u32| ks.contains(p) <==> listed(bs, p)));
    }
    Some(total as u64)
}

proof fn lemma_ks_facts(bs: Seq<Seq<(u32, usize)>>, merged: Seq<(u32, usize)>, ks: Seq<u32>)
    requires
        ks == Seq::new(merged.len(), |i: int| merged[i].0),
        keys_distinct(merged),
        forall|p: u32|
            (exists|i: int| 0 <= i < merged.len() && #[trigger] merged[i].0 == p) <==> listed(bs, p),
    ensures
        ks.no_duplicates(),
        forall|p: u32| ks.contains(p) <==> listed(bs, p),
{
    assert forall|i: int, j: int| 0 <= i < ks.len() && 0 <= j < ks.len() && i != j implies ks[i]
        != ks[j] by {
        if i < j {
            assert(merged[i].0 != merged[j].0);
        } else {
            assert(merged[j].0 != merged[i].0);
        }
    }
    assert forall|p: u32| ks.contains(p) <==> listed(bs, p) by {
        if listed(bs, p) {
            let j = choose|j: int| 0 <= j < merged.len() && #[trigger] merged[j].0 == p;
            assert(ks[j] == p);
        }
        if ks.contains(p) {
            let j = choose|j: int| 0 <= j < ks.len() && ks[j] == p;
            assert(merged[j].0 == p);
        }
    }
}

proof fn lemma_progress_unlisted(books: Seq<Seq<(u32, usize)>>, p: u32)
    requires
        !listed(books, p),
    ensures
        progress_of(books, p) == 0,
    decreases books.len(),
{
    if books.len() > 0 {
        let d = books.drop_last();
        assert(!listed(d, p)) by {
            if listed(d, p) {
                let (cc, ii) = choose|cc: int, ii: int| 0 <= cc < d.len() && 0 <= ii < d[cc].len() && #[trigger] d[cc][ii].0 == p;
                assert(books[cc][ii].0 == p);
            }
        }
        lemma_progress_unlisted(d, p);
        assert forall|i: int| 0 <= i < books.last().len() implies books.last()[i].0 != p by {
            assert(books[books.len() - 1][i] == books.last()[i]);
        }
        lemma_book_value_absent(books.last(), p);
    }
}

proof fn lemma_sum_progress_prefix(books: Seq<Seq<(u32, usize)>>, ks: Seq<u32>, n: int)
    requires
        0 <= n <= ks.len(),
    ensures
        sum_progress(books, ks.take(n)) <= sum_progress(books, ks),
    decreases ks.len() - n,
{
    if n < ks.len() {
        lemma_sum_progress_prefix(books, ks, n + 1);
        assert(ks.take(n + 1).drop_last() =~= ks.take(n));
    } else {
        assert(ks.take(n) =~= ks);
    }
}

} // verus!
