use std::collections::HashSet;

use torrex::connection::connection::{
    block_count, block_plan, check_integrity, downloaded_total, peer_pieces_selection, piece_length,
    record_allocation, save_offset,
    total_pieces, BitFieldInfo, BlockReceiver, BlockStore, IntegrityError, PeerSetup, PieceOutcome, Progress,
    ReceiveOutcome,
};
use torrex::connection::message::MessageType;
use torrex::cryptography::sha1_hash;
use torrex::utils::text::hex_string;

#[test]
fn piece_counts_and_lengths() {
    assert_eq!(total_pieces(100, 30), 4);
    assert_eq!(total_pieces(90, 30), 3);
    assert_eq!(piece_length(0, 100, 30), 30);
    assert_eq!(piece_length(2, 100, 30), 30);
    assert_eq!(piece_length(3, 100, 30), 10);
    assert_eq!(piece_length(2, 90, 30), 30);
    let total: usize = (0..total_pieces(100, 30) as u32)
        .map(|i| piece_length(i, 100, 30))
        .sum();
    assert_eq!(total, 100);
}

#[test]
fn blocks_tile_a_piece() {
    assert_eq!(block_count(40_000), 3);
    assert_eq!(block_count(16_384), 1);
    let plan = block_plan(40_000, 3);
    assert_eq!(plan, vec![(0, 16_384), (16_384, 16_384), (32_768, 7_232)]);
    let plan = block_plan(16_384, 1);
    assert_eq!(plan, vec![(0, 16_384)]);
}

#[test]
fn blocks_are_put_together_in_order_of_offset() {
    let mut store = BlockStore::new();
    store.record_block(3, 4, b"5678".to_vec());
    store.record_block(3, 0, b"1234".to_vec());
    store.record_block(9, 0, b"zz".to_vec());
    assert_eq!(store.assemble(3).unwrap(), b"12345678".to_vec());
    assert_eq!(store.received_bytes(3), 8);
    assert!(store.is_piece_complete(3, 8));
    assert!(!store.is_piece_complete(3, 9));
    assert!(store.assemble(4).is_none());
    // A block sent again replaces the first one and is counted once.
    store.record_block(3, 4, b"abcd".to_vec());
    assert_eq!(store.assemble(3).unwrap(), b"1234abcd".to_vec());
    assert_eq!(store.received_bytes(3), 8);
    // A shorter block at the same offset replaces it and counts its own bytes.
    store.record_block(3, 4, b"x".to_vec());
    assert_eq!(store.assemble(3).unwrap(), b"1234x".to_vec());
    assert_eq!(store.received_bytes(3), 5);
    assert!(!store.is_piece_complete(3, 8));
}

#[test]
fn a_block_sent_twice_does_not_complete_a_piece() {
    let mut store = BlockStore::new();
    let mut rx = BlockReceiver::new();
    let block = MessageType::Piece { index: 0, begin: 0, block: vec![7] };
    assert_eq!(rx.on_message(&mut store, Some(block.clone()), 2), ReceiveOutcome::Continue);
    assert_eq!(rx.on_message(&mut store, Some(block), 2), ReceiveOutcome::Continue);
    assert_eq!(store.received_bytes(0), 1);
    let rest = MessageType::Piece { index: 0, begin: 1, block: vec![8] };
    assert_eq!(rx.on_message(&mut store, Some(rest), 2), ReceiveOutcome::PieceComplete);
    assert_eq!(store.assemble(0).unwrap(), vec![7, 8]);
}

#[test]
fn a_saved_piece_is_dropped_from_the_store() {
    let mut store = BlockStore::new();
    store.record_block(1, 0, b"ab".to_vec());
    store.record_block(2, 0, b"cd".to_vec());
    store.remove_piece(1);
    assert!(store.assemble(1).is_none());
    assert_eq!(store.received_bytes(1), 0);
    assert_eq!(store.assemble(2).unwrap(), b"cd".to_vec());
    assert_eq!(store.received_bytes(2), 2);
    store.remove_piece(7);
    assert_eq!(store.received_bytes(2), 2);
    // What was downloaded of a saved piece is still counted.
    assert_eq!(store.downloaded_bytes(1), 2);
    let mut book = store.pieces_received();
    book.sort();
    assert_eq!(book, vec![(1, 2), (2, 2)]);
    assert_eq!(downloaded_total(&vec![store.pieces_received()]), Some(4));
}

#[test]
fn the_book_keeps_the_most_bytes_a_piece_held() {
    let mut store = BlockStore::new();
    store.record_block(0, 0, b"abcd".to_vec());
    assert_eq!(store.downloaded_bytes(0), 4);
    // A shorter block in its place holds fewer bytes; the book keeps 4.
    store.record_block(0, 0, b"x".to_vec());
    assert_eq!(store.received_bytes(0), 1);
    assert_eq!(store.downloaded_bytes(0), 4);
    store.record_block(0, 1, b"yyyy".to_vec());
    assert_eq!(store.downloaded_bytes(0), 5);
    assert_eq!(store.downloaded_bytes(3), 0);
}

#[test]
fn each_connection_gets_the_pieces_dealt_to_it() {
    let allocation = vec![("a".to_string(), vec![1, 2]), ("b".to_string(), vec![3])];
    let mut mine: HashSet<u32> = [9].into_iter().collect();
    record_allocation(&mut mine, &"a".to_string(), &allocation);
    assert_eq!(mine, [1, 2, 9].into_iter().collect());
    let mut none: HashSet<u32> = HashSet::new();
    record_allocation(&mut none, &"c".to_string(), &allocation);
    assert!(none.is_empty());
}

#[test]
fn a_piece_counts_only_once_checked_and_written() {
    let ok: Result<Vec<u8>, IntegrityError> = Ok(vec![1]);
    let bad: Result<Vec<u8>, IntegrityError> = Err(IntegrityError::HashMismatch);
    assert_eq!(PieceOutcome::after_check(&ok, true), PieceOutcome::Saved);
    assert_eq!(PieceOutcome::after_check(&ok, false), PieceOutcome::SaveFailed);
    assert_eq!(PieceOutcome::after_check(&bad, true), PieceOutcome::Rejected(IntegrityError::HashMismatch));
    assert!(PieceOutcome::Saved.completed());
    assert!(!PieceOutcome::SaveFailed.completed());
    assert!(!PieceOutcome::NotHeld.completed());
    assert!(!PieceOutcome::Incomplete.completed());
    assert!(!PieceOutcome::Rejected(IntegrityError::NoBuffer).completed());
}

#[test]
fn integrity_check() {
    let mut store = BlockStore::new();
    store.record_block(0, 0, b"ab".to_vec());
    store.record_block(0, 2, b"c".to_vec());
    // SHA-1 of "abc".
    let good = "a9993e364706816aba3e25717850c26c9cd0d89d".to_string();
    assert_eq!(hex_string(&sha1_hash(b"abc")), good);
    let pieces = vec![good.clone()];
    assert_eq!(check_integrity(&store, 0, &pieces, 3), Ok(b"abc".to_vec()));
    assert_eq!(
        check_integrity(&store, 0, &pieces, 4),
        Err(IntegrityError::LengthMismatch { expected: 4, got: 3 })
    );
    assert_eq!(check_integrity(&store, 1, &pieces, 3), Err(IntegrityError::NoBuffer));
    let wrong = vec!["0000000000000000000000000000000000000000".to_string()];
    assert_eq!(check_integrity(&store, 0, &wrong, 3), Err(IntegrityError::HashMismatch));
}

#[test]
fn where_pieces_are_saved() {
    assert_eq!(save_offset(&None, 3, 100), Some(300));
    assert_eq!(save_offset(&Some("download".to_string()), 3, 100), Some(300));
    assert_eq!(save_offset(&Some("download_piece".to_string()), 3, 100), None);
    assert_eq!(save_offset(&None, u32::MAX, u32::MAX), Some(u32::MAX as u64 * u32::MAX as u64));
}

#[test]
fn receiving_blocks_until_the_piece_is_complete() {
    let mut store = BlockStore::new();
    let mut rx = BlockReceiver::new();
    assert!(rx.more_expected(2));
    let first = MessageType::Piece { index: 0, begin: 0, block: vec![1; 10] };
    assert_eq!(rx.on_message(&mut store, Some(first), 15), ReceiveOutcome::Continue);
    assert_eq!(rx.received_blocks, 1);
    let second = MessageType::Piece { index: 0, begin: 10, block: vec![2; 5] };
    assert_eq!(rx.on_message(&mut store, Some(second), 15), ReceiveOutcome::PieceComplete);
    assert!(!rx.more_expected(2));
}

#[test]
fn receiving_gives_up_after_five_failures_in_a_row() {
    let mut store = BlockStore::new();
    let mut rx = BlockReceiver::new();
    for _ in 0..4 {
        assert_eq!(rx.on_message(&mut store, None, 10), ReceiveOutcome::Continue);
    }
    // A keep-alive clears the failures.
    assert_eq!(
        rx.on_message(&mut store, Some(MessageType::Unknown(0, vec![])), 10),
        ReceiveOutcome::Continue
    );
    assert_eq!(rx.consecutive_failure, 0);
    for _ in 0..4 {
        assert_eq!(rx.on_message(&mut store, Some(MessageType::Choke), 10), ReceiveOutcome::Continue);
    }
    assert_eq!(
        rx.on_message(&mut store, Some(MessageType::Unknown(9, vec![])), 10),
        ReceiveOutcome::TooManyFailures
    );
}

#[test]
fn exchange_after_handshake_accepts_a_ready_peer() {
    let mut setup = PeerSetup::new();
    let mut info = BitFieldInfo::new();
    let bitfield = MessageType::BitField(vec![0b1010_0000, 0b1000_0001]);
    let step = setup.on_message(&mut info, Some(&bitfield), 10);
    assert!(step.send_interested && !step.finished);
    let expected: HashSet<u32> = [0, 2, 8].into_iter().collect();
    assert_eq!(info.present_pieces, expected);
    let step = setup.on_message(&mut info, Some(&MessageType::Have(5)), 10);
    assert!(!step.send_interested);
    assert!(info.present_pieces.contains(&5));
    let step = setup.on_message(&mut info, Some(&MessageType::Unchoke), 10);
    assert!(step.mark_unchoked && step.finished);
    assert!(setup.accepted());
}

#[test]
fn exchange_after_handshake_times_out_on_chokes() {
    let mut setup = PeerSetup::new();
    let mut info = BitFieldInfo::new();
    let have = MessageType::Have(1);
    let step = setup.on_message(&mut info, Some(&have), 10);
    assert!(step.send_interested);
    // The message that brought progress counts as the first of three.
    for i in 0..2 {
        let step = setup.on_message(&mut info, Some(&MessageType::Choke), 10);
        assert_eq!(step.finished, i == 1);
    }
    assert!(!setup.accepted());
}

#[test]
fn exchange_after_handshake_ends_on_a_read_error() {
    let mut setup = PeerSetup::new();
    let mut info = BitFieldInfo::new();
    let step = setup.on_message(&mut info, None, 10);
    assert!(step.finished);
    assert!(!setup.accepted());
}

fn peer(id: &str, pieces: &[u32]) -> BitFieldInfo {
    let mut info = BitFieldInfo::new();
    info.record_bitfield(id.to_string(), pieces.iter().copied().collect());
    info
}

#[test]
fn every_piece_goes_to_exactly_one_peer_that_has_it() {
    let conns = vec![
        peer("a", &[0, 1, 2, 3]),
        peer("b", &[1, 2, 3, 4]),
        peer("c", &[2, 3]),
        peer("a", &[5]),
    ];
    let allocation = peer_pieces_selection(&conns);
    let mut seen = HashSet::new();
    let mut ids = HashSet::new();
    for (id, pieces) in &allocation {
        assert!(ids.insert(id.clone()));
        assert!(!pieces.is_empty());
        for p in pieces {
            assert!(seen.insert(*p), "piece {p} given twice");
            assert!(conns.iter().any(|c| &c.peer_id == id && c.present_pieces.contains(p)));
        }
    }
    let all: HashSet<u32> = (0..6).collect();
    assert_eq!(seen, all);
    // Pieces only one peer has go to it.
    let of = |id: &str| allocation.iter().find(|(i, _)| i == id).map(|(_, p)| p.clone()).unwrap_or_default();
    assert!(of("a").contains(&0));
    assert!(of("a").contains(&5));
    assert!(of("b").contains(&4));
}

#[test]
fn nothing_to_allocate_without_pieces() {
    assert!(peer_pieces_selection(&vec![]).is_empty());
    assert!(peer_pieces_selection(&vec![peer("a", &[])]).is_empty());
}

#[test]
fn progress_keeps_its_fields() {
    let p = Progress::new(10, 2, Some(1), 3, "status".to_string(), None);
    assert_eq!(p.downloaded, 10);
    assert_eq!(p.download_speed, 2);
    assert_eq!(p.upload_speed, Some(1));
    assert_eq!(p.peers, 3);
    assert_eq!(p.status, "status");
    assert_eq!(p.eta, None);
}

#[test]
fn a_piece_is_put_together_whatever_order_its_blocks_arrive_in() {
    let data: Vec<u8> = (0..40_000u32).map(|i| (i % 251) as u8).collect();
    let plan = block_plan(data.len(), block_count(data.len()));
    let orders: [[usize; 3]; 3] = [[0, 1, 2], [2, 0, 1], [1, 2, 0]];
    for order in orders {
        let mut store = BlockStore::new();
        for &i in &order {
            let (begin, len) = plan[i];
            store.record_block(5, begin as u32, data[begin..begin + len].to_vec());
        }
        assert_eq!(store.assemble(5).unwrap(), data);
        assert!(store.is_piece_complete(5, data.len()));
    }
}

#[test]
fn shared_pieces_are_split_evenly_and_rarest_first() {
    let conns = vec![peer("a", &[0, 1, 2, 3, 4, 5, 6]), peer("b", &[0, 1, 2, 3, 4, 5, 6, 9])];
    let allocation = peer_pieces_selection(&conns);
    let of = |id: &str| allocation.iter().find(|(i, _)| i == id).map(|(_, p)| p.clone()).unwrap_or_default();
    let a = of("a");
    let b = of("b");
    // Piece 9 only `b` has, so it is dealt out first.
    assert_eq!(b[0], 9);
    assert_eq!(a.len() + b.len(), 8);
    // Each shared piece goes to the peer with fewer pieces so far, `a` on a
    // tie: a, a, b, a, b, a, b.
    assert_eq!(a.len(), 4);
    assert_eq!(b.len(), 4);
}
