use torrex::extension::magnet_link::extended_handshake::{
    ExtendedExchange, ExtendedHandshake, ExtendedHandshakeError,
};
use torrex::extension::magnet_link::extended_metadata::{
    ExtendedMetadataExchange, MetadataError, MetadataMessageType,
};
use torrex::extension::magnet_link::Parser;
use torrex::peers::{PeersField, ResponseParams};

#[test]
fn extension_handshake_message() {
    let mut h = ExtendedHandshake::new();
    let msg = h
        .insert_payload(vec![("ut_metadata".to_string(), 16)])
        .to_full_message();
    let dict = b"d1:md11:ut_metadatai16eee";
    let mut expected = vec![0, 0, 0, (dict.len() + 2) as u8, 20, 0];
    expected.extend_from_slice(dict);
    assert_eq!(msg, expected);
    assert_eq!(h.message_length as usize, dict.len() + 2);
}

#[test]
fn extension_names_are_sorted_and_last_wins() {
    let mut h = ExtendedHandshake::new();
    h.insert_payload(vec![
        ("ut_pex".to_string(), 1),
        ("ut_metadata".to_string(), 2),
        ("ut_pex".to_string(), 3),
    ]);
    let names: Vec<(String, u8)> = h.payload.dict.m.clone();
    assert_eq!(names, vec![("ut_metadata".to_string(), 2), ("ut_pex".to_string(), 3)]);
    assert_eq!(
        h.to_bytes().unwrap(),
        b"d1:md11:ut_metadatai2e6:ut_pexi3eee".to_vec()
    );
}

#[test]
fn message_id_and_length_setters() {
    let mut h = ExtendedHandshake::new();
    assert_eq!(h.insert_message_id(7).message_id, 7);
    assert_eq!(h.insert_message_len(9).message_length, 9);
}

#[test]
fn extension_handshake_reply() {
    let mut payload = vec![20u8, 0];
    payload.extend_from_slice(b"d1:md11:ut_metadatai3e6:ut_pexi1e5:ut_hxi9ee13:metadata_sizei3000e1:v4:test6:youripi1ee");
    // `yourip` must be a byte string.
    assert_eq!(
        ExtendedHandshake::parse_reply(&payload).unwrap_err(),
        ExtendedHandshakeError::Malformed
    );
    let mut payload = vec![20u8, 0];
    payload.extend_from_slice(b"d1:md11:ut_metadatai3e6:ut_pexi1e5:ut_hxi9ee13:metadata_sizei3000e1:v4:test6:yourip4:abcd1:zi0ee");
    let r = ExtendedHandshake::parse_reply(&payload).unwrap();
    assert_eq!(r.m.ut_metadata, 3);
    assert_eq!(r.m.ut_pex, Some(1));
    assert_eq!(r.m.extra.len(), 1);
    assert_eq!(r.m.extra[0].0, b"ut_hx".to_vec());
    assert_eq!(r.metadata_size, Some(3000));
    assert_eq!(r.reqq, None);
    assert_eq!(r.v.as_deref(), Some("test"));
    assert_eq!(r.yourip, Some(b"abcd".to_vec()));
    assert_eq!(r.extra.len(), 1);
    assert_eq!(r.extra[0].0, b"z".to_vec());
}

#[test]
fn extension_handshake_reply_errors() {
    assert_eq!(
        ExtendedHandshake::parse_reply(&[5]).unwrap_err(),
        ExtendedHandshakeError::NotAnExtendedHandshake
    );
    assert_eq!(
        ExtendedHandshake::parse_reply(&[20, 1, b'd', b'e']).unwrap_err(),
        ExtendedHandshakeError::NotAnExtendedHandshake
    );
    assert_eq!(
        ExtendedHandshake::parse_reply(&[20, 0, b'i', b'1', b'e']).unwrap_err(),
        ExtendedHandshakeError::Malformed
    );
    let r = ExtendedHandshake::parse_reply(&[20, 0, b'd', b'e']).unwrap();
    assert_eq!(r.m.ut_metadata, 0);
    let mut big = vec![20u8, 0];
    big.extend_from_slice(b"d1:md11:ut_metadatai300eee");
    assert_eq!(
        ExtendedHandshake::parse_reply(&big).unwrap_err(),
        ExtendedHandshakeError::Malformed
    );
}

#[test]
fn metadata_request_message() {
    let mut m = ExtendedMetadataExchange::new();
    assert_eq!(m.message_id, 0);
    let bytes = m
        .set_message_id(Some(20))
        .set_extension_message_id(3)
        .set_request(Some(0))
        .to_bytes();
    let dict = b"d8:msg_typei0e5:piecei0ee";
    let mut expected = vec![0, 0, 0, (dict.len() + 2) as u8, 20, 3];
    expected.extend_from_slice(dict);
    assert_eq!(bytes, expected);
    assert_eq!(m.set_message_id(None).message_id, 20);
    m.set_request(None);
    assert_eq!(m.message.payload, MetadataMessageType::Request { msg_type: 0, piece: 0 });
}

#[test]
fn metadata_data_message() {
    let m = ExtendedMetadataExchange::data_response(9, 20, 2, 1, 0, 5);
    let dict = b"d8:msg_typei1e5:piecei0e10:total_sizei5ee";
    let mut expected = vec![0, 0, 0, (dict.len() + 2) as u8, 20, 2];
    expected.extend_from_slice(dict);
    assert_eq!(m.to_bytes(), expected);
}

#[test]
fn metadata_reply() {
    let info = b"d6:lengthi10e4:name1:x12:piece lengthi16e6:pieces0:e";
    let mut payload = vec![20u8, 2];
    payload.extend_from_slice(format!("d8:msg_typei1e5:piecei0e10:total_sizei{}ee", info.len()).as_bytes());
    payload.extend_from_slice(info);
    let (m, parsed) = ExtendedMetadataExchange::parse_data(77, &payload).unwrap();
    assert_eq!(m.message_len, 77);
    assert_eq!(m.message_id, 20);
    assert_eq!(m.message.extd_msg_id, 2);
    assert_eq!(
        m.message.payload,
        MetadataMessageType::Data { msg_type: 1, piece: 0, total_size: info.len() }
    );
    assert_eq!(parsed.name, "x");
    assert_eq!(parsed.piece_length, 16);
}

#[test]
fn metadata_reply_errors() {
    assert_eq!(ExtendedMetadataExchange::parse_data(0, &[1]).unwrap_err(), MetadataError::TooShort);
    assert_eq!(
        ExtendedMetadataExchange::parse_data(0, b"\x14\x02i1e").unwrap_err(),
        MetadataError::NotADictionary
    );
    assert_eq!(
        ExtendedMetadataExchange::parse_data(0, b"\x14\x02d8:msg_typei1ee").unwrap_err(),
        MetadataError::MissingField
    );
    assert_eq!(
        ExtendedMetadataExchange::parse_data(0, b"\x14\x02d8:msg_typei1e5:piecei0e10:total_sizei999ee").unwrap_err(),
        MetadataError::SizeTooLarge
    );
    assert_eq!(
        ExtendedMetadataExchange::parse_data(0, b"\x14\x02d8:msg_typei1e5:piecei0e10:total_sizei2ee").unwrap_err(),
        MetadataError::InvalidInfo
    );
}

#[test]
fn extended_exchange_setters() {
    let mut parser = Parser::new("magnet:?xt=urn:btih:ab".to_string());
    let mut ex = ExtendedExchange::new(&mut parser);
    assert!(ex.peers_ip().is_empty());
    ex.set_request(vec![1; 20], "id".to_string(), None, 6881, 0, 0, 999, None, 1)
        .set_url("http://tracker/announce".to_string());
    assert_eq!(ex.peers.request.port, 6881);
    assert_eq!(ex.peers.request.left, 999);
    assert_eq!(ex.peers.announce_url, "http://tracker/announce");
    ex.peers.response = Some(ResponseParams {
        peers: PeersField::Compact(vec![10, 0, 0, 1, 0x1a, 0xe1]),
        ..Default::default()
    });
    assert_eq!(ex.peers_ip(), vec!["10.0.0.1:6881".to_string()]);
}

#[test]
fn written_data_message_reads_back() {
    let info = b"d6:lengthi10e4:name1:x12:piece lengthi16e6:pieces0:e";
    let sent = ExtendedMetadataExchange::data_response(0, 20, 3, 1, 7, info.len());
    let mut payload = sent.to_bytes()[4..].to_vec();
    payload.extend_from_slice(info);
    let (m, parsed) = ExtendedMetadataExchange::parse_data(5, &payload).unwrap();
    assert_eq!(m.message_id, 20);
    assert_eq!(m.message.extd_msg_id, 3);
    assert_eq!(
        m.message.payload,
        MetadataMessageType::Data { msg_type: 1, piece: 7, total_size: info.len() }
    );
    assert_eq!(parsed.name, "x");
    assert_eq!(parsed.piece_length, 16);
}

#[test]
fn written_extension_handshake_reads_back() {
    let mut h = ExtendedHandshake::new();
    let msg = h
        .insert_payload(vec![
            ("ut_pex".to_string(), 1),
            ("lt_donthave".to_string(), 7),
            ("ut_metadata".to_string(), 16),
        ])
        .to_full_message();
    let r = ExtendedHandshake::parse_reply(&msg[4..]).unwrap();
    assert_eq!(r.m.ut_metadata, 16);
    assert_eq!(r.m.ut_pex, Some(1));
    assert_eq!(r.m.extra.len(), 1);
    assert_eq!(r.m.extra[0].0, b"lt_donthave".to_vec());
    assert!(matches!(r.m.extra[0].1, torrex::bytes_bencode::BencodeValue::Int(7)));
    assert!(r.metadata_size.is_none() && r.reqq.is_none() && r.v.is_none() && r.yourip.is_none());
    assert!(r.extra.is_empty());
}

#[test]
fn a_new_exchange_keeps_its_parser_and_default_request() {
    let mut parser = Parser::new("magnet:?xt=urn:btih:ab".to_string());
    let ex = ExtendedExchange::new(&mut parser);
    assert_eq!(ex.parser.link, "magnet:?xt=urn:btih:ab");
    assert!(ex.peers.announce_url.is_empty());
    assert!(ex.peers.request.info_hash.is_empty() && ex.peers.request.peer_id.is_empty());
    assert_eq!((ex.peers.request.port, ex.peers.request.left, ex.peers.request.compact), (0, 0, 0));
    assert!(ex.peers.request.ip.is_none() && ex.peers.request.event.is_none());
    assert!(ex.peers.response.is_none());
}
