//! Putting a piece together from its blocks: the blocks kept for a piece do
//! not depend on the order in which they arrive, and the blocks of a piece,
//! received in any order, put together give the piece.
use vstd::prelude::*;

use crate::connection::connection::{
    concat_blocks, insert_block, lemma_blocks_tile_piece, lemma_total_pieces, sorted_begins,
    spec_block, spec_block_count, spec_total_pieces, BLOCK_SIZE,
};

verus! {

/// The blocks kept after `arrivals` came in, in that order, starting from
/// none (what `BlockStore::record_block` does to the blocks of one piece).
pub open spec fn insert_all(arrivals: Seq<(u32, Seq<u8>)>) -> Seq<(u32, Seq<u8>)>
    decreases arrivals.len(),
{
    if arrivals.len() == 0 {
        Seq::empty()
    } else {
        insert_block(insert_all(arrivals.drop_last()), arrivals.last().0, arrivals.last().1)
    }
}

/// No two blocks share an offset.
pub open spec fn distinct_begins(a: Seq<(u32, Seq<u8>)>) -> bool {
    forall|i: int, j: int| 0 <= i < j < a.len() ==> a[i].0 != a[j].0
}

/// Two sequences hold the same blocks.
pub open spec fn same_blocks(a: Seq<(u32, Seq<u8>)>, b: Seq<(u32, Seq<u8>)>) -> bool {
    forall|x: (u32, Seq<u8>)| a.contains(x) <==> b.contains(x)
}

/// The blocks of a piece as requested: block `i` starts at `i * BLOCK_SIZE`
/// and holds the bytes of the piece from there, a block size of them or
/// what is left.
pub open spec fn piece_tiles(data: Seq<u8>) -> Seq<(u32, Seq<u8>)> {
    Seq::new(
        spec_block_count(data.len() as int) as nat,
        |i: int|
            {
                let (begin, len) = spec_block(data.len() as int, i);
                (begin as u32, data.subrange(begin, begin + len))
            },
    )
}

proof fn lemma_sorted_skip(s: Seq<(u32, Seq<u8>)>)
    requires
        sorted_begins(s),
        s.len() > 0,
    ensures
        sorted_begins(s.skip(1)),
        forall|j: int| 0 <= j < s.skip(1).len() ==> s[0].0 < #[trigger] s.skip(1)[j].0,
{
    let t = s.skip(1);
    assert forall|i: int, j: int| 0 <= i < j < t.len() implies t[i].0 < t[j].0 by {
        assert(t[i] == s[i + 1] && t[j] == s[j + 1]);
    }
    assert forall|j: int| 0 <= j < t.len() implies s[0].0 < #[trigger] t[j].0 by {
        assert(t[j] == s[j + 1]);
    }
}

/// Storing a block at a new offset keeps the offsets rising and adds just
/// that block.
proof fn lemma_insert_new(s: Seq<(u32, Seq<u8>)>, b: u32, blk: Seq<u8>)
    requires
        sorted_begins(s),
        forall|j: int| 0 <= j < s.len() ==> #[trigger] s[j].0 != b,
    ensures
        sorted_begins(insert_block(s, b, blk)),
        forall|x: (u32, Seq<u8>)|
            #[trigger] insert_block(s, b, blk).contains(x) <==> (s.contains(x) || x == (b, blk)),
    decreases s.len(),
{
    let r = insert_block(s, b, blk);
    if s.len() == 0 {
        assert(r =~= seq![(b, blk)]);
        assert forall|x: (u32, Seq<u8>)| #[trigger] r.contains(x) <==> (s.contains(x) || x == (
            b,
            blk,
        )) by {
            if x == (b, blk) {
                assert(r[0] == x);
            }
        }
    } else if s[0].0 > b {
        assert(r =~= seq![(b, blk)] + s);
        assert forall|i: int, j: int| 0 <= i < j < r.len() implies r[i].0 < r[j].0 by {
            assert(r[j] == s[j - 1]);
            if i > 0 {
                assert(r[i] == s[i - 1]);
            } else if j - 1 > 0 {
                assert(s[0].0 < s[j - 1].0);
            }
        }
        assert forall|x: (u32, Seq<u8>)| #[trigger] r.contains(x) <==> (s.contains(x) || x == (
            b,
            blk,
        )) by {
            if r.contains(x) {
                let k = choose|k: int| 0 <= k < r.len() && r[k] == x;
                if k > 0 {
                    assert(s[k - 1] == x);
                }
            }
            if s.contains(x) {
                let k = choose|k: int| 0 <= k < s.len() && s[k] == x;
                assert(r[k + 1] == x);
            }
            if x == (b, blk) {
                assert(r[0] == x);
            }
        }
    } else {
        assert(s[0].0 != b);
        let t = s.skip(1);
        lemma_sorted_skip(s);
        assert forall|j: int| 0 <= j < t.len() implies #[trigger] t[j].0 != b by {
            assert(t[j] == s[j + 1]);
        }
        lemma_insert_new(t, b, blk);
        let rt = insert_block(t, b, blk);
        assert(r =~= seq![s[0]] + rt);
        assert forall|j: int| 0 <= j < rt.len() implies s[0].0 < #[trigger] rt[j].0 by {
            assert(rt.contains(rt[j]));
            if rt[j] != (b, blk) {
                assert(t.contains(rt[j]));
                let k = choose|k: int| 0 <= k < t.len() && t[k] == rt[j];
                assert(s[0].0 < t[k].0);
            }
        }
        assert forall|i: int, j: int| 0 <= i < j < r.len() implies r[i].0 < r[j].0 by {
            assert(r[j] == rt[j - 1]);
            if i > 0 {
                assert(r[i] == rt[i - 1]);
            }
        }
        assert forall|x: (u32, Seq<u8>)| #[trigger] r.contains(x) <==> (s.contains(x) || x == (
            b,
            blk,
        )) by {
            if r.contains(x) {
                let k = choose|k: int| 0 <= k < r.len() && r[k] == x;
                if k > 0 {
                    assert(rt[k - 1] == x);
                    assert(rt.contains(x));
                    if t.contains(x) {
                        let q = choose|q: int| 0 <= q < t.len() && t[q] == x;
                        assert(s[q + 1] == x);
                    }
                } else {
                    assert(s[0] == x);
                }
            }
            if s.contains(x) {
                let k = choose|k: int| 0 <= k < s.len() && s[k] == x;
                if k > 0 {
                    assert(t[k - 1] == x);
                    assert(t.contains(x));
                    assert(rt.contains(x));
                    let q = choose|q: int| 0 <= q < rt.len() && rt[q] == x;
                    assert(r[q + 1] == x);
                } else {
                    assert(r[0] == x);
                }
            }
            if x == (b, blk) {
                assert(rt.contains(x));
                let q = choose|q: int| 0 <= q < rt.len() && rt[q] == x;
                assert(r[q + 1] == x);
            }
        }
    }
}

/// Blocks at distinct offsets, received in order, are kept in rising order
/// of offset, each of them and nothing else.
proof fn lemma_insert_all(a: Seq<(u32, Seq<u8>)>)
    requires
        distinct_begins(a),
    ensures
        sorted_begins(insert_all(a)),
        same_blocks(insert_all(a), a),
    decreases a.len(),
{
    if a.len() == 0 {
        assert(insert_all(a) =~= a);
    } else {
        let p = a.drop_last();
        assert(distinct_begins(p)) by {
            assert forall|i: int, j: int| 0 <= i < j < p.len() implies p[i].0 != p[j].0 by {
                assert(p[i] == a[i] && p[j] == a[j]);
            }
        }
        lemma_insert_all(p);
        let s = insert_all(p);
        let last = a.last();
        assert forall|j: int| 0 <= j < s.len() implies #[trigger] s[j].0 != last.0 by {
            assert(s.contains(s[j]));
            assert(p.contains(s[j]));
            let k = choose|k: int| 0 <= k < p.len() && p[k] == s[j];
            assert(a[k] == s[j]);
            assert(a[k].0 != a[a.len() - 1].0);
        }
        lemma_insert_new(s, last.0, last.1);
        assert forall|x: (u32, Seq<u8>)| #[trigger] insert_all(a).contains(x) <==> a.contains(x) by {
            if a.contains(x) {
                let k = choose|k: int| 0 <= k < a.len() && a[k] == x;
                if k < a.len() - 1 {
                    assert(p[k] == x);
                    assert(p.contains(x));
                }
            }
            if p.contains(x) {
                let k = choose|k: int| 0 <= k < p.len() && p[k] == x;
                assert(a[k] == x);
            }
        }
    }
}

/// Two sequences of blocks in strictly rising order of offset that hold the
/// same blocks are the same.
proof fn lemma_sorted_unique(r1: Seq<(u32, Seq<u8>)>, r2: Seq<(u32, Seq<u8>)>)
    requires
        sorted_begins(r1),
        sorted_begins(r2),
        same_blocks(r1, r2),
    ensures
        r1 == r2,
    decreases r1.len(),
{
    if r1.len() == 0 {
        if r2.len() > 0 {
            assert(r2.contains(r2[0]));
        }
        assert(r1 =~= r2);
    } else {
        assert(r1.contains(r1[0]));
        let k2 = choose|k: int| 0 <= k < r2.len() && r2[k] == r1[0];
        assert(r2.contains(r2[0]));
        let k1 = choose|k: int| 0 <= k < r1.len() && r1[k] == r2[0];
        if k1 > 0 {
            assert(r1[0].0 < r1[k1].0);
        }
        if k2 > 0 {
            assert(r2[0].0 < r2[k2].0);
        }
        assert(k2 == 0);
        let t1 = r1.skip(1);
        let t2 = r2.skip(1);
        lemma_sorted_skip(r1);
        lemma_sorted_skip(r2);
        assert forall|x: (u32, Seq<u8>)| t1.contains(x) <==> t2.contains(x) by {
            if t1.contains(x) {
                let q = choose|q: int| 0 <= q < t1.len() && t1[q] == x;
                assert(r1[q + 1] == x);
                assert(r2.contains(x));
                let w = choose|w: int| 0 <= w < r2.len() && r2[w] == x;
                assert(r1[0].0 < x.0);
                assert(w != 0);
                assert(t2[w - 1] == x);
            }
            if t2.contains(x) {
                let q = choose|q: int| 0 <= q < t2.len() && t2[q] == x;
                assert(r2[q + 1] == x);
                assert(r1.contains(x));
                let w = choose|w: int| 0 <= w < r1.len() && r1[w] == x;
                assert(r2[0].0 < x.0);
                assert(w != 0);
                assert(t1[w - 1] == x);
            }
        }
        lemma_sorted_unique(t1, t2);
        assert(r1 =~= seq![r1[0]] + t1);
        assert(r2 =~= seq![r2[0]] + t2);
    }
}

/// The blocks kept for a piece do not depend on the order in which they
/// arrive: the same blocks, each at its own offset, received in any two
/// orders, are kept alike, in rising order of offset.
pub proof fn lemma_arrival_order_irrelevant(a: Seq<(u32, Seq<u8>)>, b: Seq<(u32, Seq<u8>)>)
    requires
        distinct_begins(a),
        distinct_begins(b),
        same_blocks(a, b),
    ensures
        insert_all(a) == insert_all(b),
        sorted_begins(insert_all(a)),
{
    lemma_insert_all(a);
    lemma_insert_all(b);
    lemma_sorted_unique(insert_all(a), insert_all(b));
}

/// The blocks of a piece start at rising offsets that fit a `u32`.
proof fn lemma_tiles_sorted(data: Seq<u8>)
    requires
        0 < data.len() <= u32::MAX,
    ensures
        sorted_begins(piece_tiles(data)),
        distinct_begins(piece_tiles(data)),
        forall|i: int|
            0 <= i < piece_tiles(data).len() ==> (#[trigger] piece_tiles(data)[i]).0 == i
                * BLOCK_SIZE,
{
    let len = data.len() as int;
    let n = spec_block_count(len);
    let t = piece_tiles(data);
    lemma_total_pieces(len, BLOCK_SIZE as int);
    assert(n == spec_total_pieces(len, BLOCK_SIZE as int));
    assert forall|i: int| 0 <= i < t.len() implies (#[trigger] t[i]).0 == i * BLOCK_SIZE by {
        assert(i * BLOCK_SIZE <= (n - 1) * BLOCK_SIZE) by (nonlinear_arith)
            requires
                i < n,
        ;
        assert(0 <= i * BLOCK_SIZE) by (nonlinear_arith)
            requires
                0 <= i,
        ;
    }
    assert forall|i: int, j: int| 0 <= i < j < t.len() implies t[i].0 < t[j].0 by {
        assert(i * BLOCK_SIZE < j * BLOCK_SIZE) by (nonlinear_arith)
            requires
                i < j,
        ;
    }
}

/// The first `k` blocks of a piece, put together, are its first bytes, up to
/// where block `k - 1` ends.
proof fn lemma_concat_tiles(data: Seq<u8>, k: int)
    requires
        0 < data.len() <= u32::MAX,
        0 <= k <= spec_block_count(data.len() as int),
    ensures
        concat_blocks(piece_tiles(data).take(k)) == data.take(
            if k == 0 {
                0
            } else {
                spec_block(data.len() as int, k - 1).0 + spec_block(data.len() as int, k - 1).1
            },
        ),
    decreases k,
{
    let len = data.len() as int;
    let t = piece_tiles(data);
    lemma_blocks_tile_piece(len);
    if k == 0 {
        assert(t.take(0) =~= Seq::<(u32, Seq<u8>)>::empty());
        assert(data.take(0) =~= Seq::<u8>::empty());
    } else {
        lemma_concat_tiles(data, k - 1);
        assert(t.take(k).drop_last() =~= t.take(k - 1));
        let (b, l) = spec_block(len, k - 1);
        assert(0 < l);
        if k > 1 {
            assert(spec_block(len, k - 2).0 + spec_block(len, k - 2).1 == b);
        }
        assert(b + l <= len) by {
            if k < spec_block_count(len) {
                assert(spec_block(len, k - 1).0 + spec_block(len, k - 1).1 == spec_block(len, k).0);
                assert(0 < spec_block(len, k).1);
                lemma_blocks_end_inside(len, k);
            }
        }
        assert(t.take(k).last().1 == data.subrange(b, b + l));
        assert(data.take(b) + data.subrange(b, b + l) =~= data.take(b + l));
    }
}

/// Every block of a piece ends inside it.
proof fn lemma_blocks_end_inside(len: int, k: int)
    requires
        len > 0,
        0 <= k < spec_block_count(len),
    ensures
        spec_block(len, k).0 + spec_block(len, k).1 <= len,
    decreases spec_block_count(len) - k,
{
    lemma_blocks_tile_piece(len);
    if k < spec_block_count(len) - 1 {
        lemma_blocks_end_inside(len, k + 1);
        assert(spec_block(len, k).0 + spec_block(len, k).1 == spec_block(len, k + 1).0);
        assert(0 < spec_block(len, k + 1).1);
    }
}

/// The blocks of a piece, each received once in any order, put together in
/// order of offset, give the piece.
pub proof fn lemma_blocks_assemble_piece(data: Seq<u8>, arrivals: Seq<(u32, Seq<u8>)>)
    requires
        0 < data.len() <= u32::MAX,
        distinct_begins(arrivals),
        same_blocks(arrivals, piece_tiles(data)),
    ensures
        concat_blocks(insert_all(arrivals)) == data,
{
    let len = data.len() as int;
    let t = piece_tiles(data);
    lemma_tiles_sorted(data);
    lemma_arrival_order_irrelevant(arrivals, t);
    lemma_insert_all(t);
    lemma_sorted_unique(insert_all(t), t);
    lemma_concat_tiles(data, spec_block_count(len));
    lemma_blocks_tile_piece(len);
    lemma_total_pieces(len, BLOCK_SIZE as int);
    assert(t.take(spec_block_count(len)) =~= t);
    assert(data.take(len) =~= data);
}

} // verus!
