use torrex::connection::handshake::Handshake;
use torrex::handshake::Handshake as BorrowedHandshake;

#[test]
fn handshake_bytes() {
    let info_hash = vec![7u8; 20];
    let peer_id = b"-qB4250-123456789012".to_vec();
    let h = Handshake::init(info_hash.clone(), peer_id.clone());
    let bytes = h.to_bytes();
    assert_eq!(bytes.len(), 68);
    assert_eq!(bytes[0], 19);
    assert_eq!(&bytes[1..20], b"BitTorrent protocol");
    assert_eq!(&bytes[20..28], &[0u8; 8]);
    assert_eq!(&bytes[28..48], &info_hash[..]);
    assert_eq!(&bytes[48..], &peer_id[..]);
    assert!(!h.is_magnet_supported());
}

#[test]
fn reserving_the_magnet_bit() {
    let mut h = Handshake::init(vec![1u8; 20], vec![2u8; 20]);
    let bytes = h.reserve_magnetlink().to_bytes();
    assert_eq!(bytes[25], 0x10);
    assert!(h.is_magnet_supported());
    assert_eq!(h.reserved, vec![0, 0, 0, 0, 0, 0x10, 0, 0]);
}

#[test]
fn handshake_reads_back() {
    let mut h = Handshake::init(vec![9u8; 20], vec![0xab; 20]);
    let bytes = h.reserve_magnetlink().to_bytes();
    assert!(Handshake::is_parsable(&bytes));
    let reply = h.parse_handshake(&bytes);
    assert!(reply.is_magnet_supported());
    assert_eq!(reply.peer_id, vec![0xab; 20]);
    assert_eq!(reply.remote_peer_id(), "ab".repeat(20));
    assert_eq!(reply.to_bytes(), bytes);
}

#[test]
fn short_or_invalid_replies_are_not_parsable() {
    assert!(!Handshake::is_parsable(&[0u8; 47]));
    let mut bytes = vec![0u8; 68];
    bytes[1] = 0xff;
    assert!(!Handshake::is_parsable(&bytes));
}

#[test]
fn remote_peer_id_is_lower_case_hex() {
    let h = Handshake::init(vec![], vec![0x00, 0x0f, 0xa0, 0xff]);
    assert_eq!(h.remote_peer_id(), "000fa0ff");
}

#[test]
fn borrowed_handshake_and_reply() {
    let info_hash = vec![3u8; 20];
    let peer_id = [4u8; 20];
    let h = BorrowedHandshake::init(&info_hash, &peer_id);
    let bytes = h.to_bytes();
    assert_eq!(bytes.len(), 68);
    let reply = h.parse_handshake(&bytes);
    assert_eq!(reply.length, 19);
    assert_eq!(reply.string, "BitTorrent protocol");
    assert_eq!(reply.reserved, vec![0u8; 8]);
    assert_eq!(reply.info_hash, info_hash);
    assert_eq!(reply.peer_id, peer_id.to_vec());
}
