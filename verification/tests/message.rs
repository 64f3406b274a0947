use std::collections::HashSet;

use torrex::connection::message::{
    bitfield_pieces, decode_frame, frame_length, interested_message, parse_message, read_be_u32,
    request_message, MessageType,
};

#[test]
fn request_frame_bytes() {
    let frame = request_message(1, 16_384, 32_768);
    assert_eq!(
        frame,
        vec![0, 0, 0, 13, 6, 0, 0, 0, 1, 0, 0, 0x80, 0, 0, 0, 0x40, 0]
    );
}

#[test]
fn request_frame_reads_back() {
    let frame = request_message(7, 100, 200);
    assert_eq!(frame_length(&frame), 13);
    let msg = parse_message(frame[4], &frame[5..]);
    assert_eq!(msg, MessageType::Request { index: 7, begin: 200, length: 100 });
}

#[test]
fn interested_frame() {
    let frame = interested_message();
    assert_eq!(frame, vec![0, 0, 0, 1, 2]);
    assert_eq!(frame_length(&frame), 1);
    assert_eq!(parse_message(frame[4], &frame[5..]), MessageType::Interested);
}

#[test]
fn messages_by_id() {
    assert_eq!(parse_message(0, &[]), MessageType::Choke);
    assert_eq!(parse_message(1, &[]), MessageType::Unchoke);
    assert_eq!(parse_message(3, &[]), MessageType::NotInterested);
    assert_eq!(parse_message(4, &[0, 0, 1, 2]), MessageType::Have(258));
    assert_eq!(parse_message(5, &[0xff]), MessageType::BitField(vec![0xff]));
    assert_eq!(
        parse_message(7, &[0, 0, 0, 2, 0, 0, 0, 4, 9, 9]),
        MessageType::Piece { index: 2, begin: 4, block: vec![9, 9] }
    );
    assert_eq!(
        parse_message(8, &[0, 0, 0, 1, 0, 0, 0, 2, 0, 0, 0, 3]),
        MessageType::Cancel { index: 1, begin: 2, length: 3 }
    );
    assert_eq!(parse_message(20, &[3, 1, 2]), MessageType::Extended(3, vec![1, 2]));
    assert_eq!(parse_message(20, &[]), MessageType::Extended(0, vec![]));
    assert_eq!(parse_message(42, &[1]), MessageType::Unknown(42, vec![1]));
}

#[test]
fn keep_alive() {
    assert_eq!(decode_frame(0, 5, &[]), MessageType::Unknown(0, vec![]));
    assert_eq!(decode_frame(1, 1, &[]), MessageType::Unchoke);
}

#[test]
fn big_endian_numbers() {
    assert_eq!(read_be_u32(&[0x12, 0x34, 0x56, 0x78, 0x9a], 1), 0x3456789a);
}

#[test]
fn bitfield_bits_are_pieces() {
    let all = bitfield_pieces(&[0b1010_0000, 0b0000_0001], None);
    let expected: HashSet<u32> = [0, 2, 15].into_iter().collect();
    assert_eq!(all, expected);
    let below = bitfield_pieces(&[0b1010_0000, 0b0000_0001], Some(3));
    let expected: HashSet<u32> = [0, 2].into_iter().collect();
    assert_eq!(below, expected);
    assert!(bitfield_pieces(&[], None).is_empty());
}
