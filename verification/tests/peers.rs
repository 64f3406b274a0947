use torrex::peers::{Event, PeerDict, Peers, PeersField, RequestParams, ResponseParams};
use torrex::random::{
    generate_magnet_peerid, generate_peerid, magnet_peer_id_from_letters, peer_id_from_draws,
};
use torrex::utils::config::{config_root, ConfigRoot};

#[test]
fn compact_peers() {
    let r = ResponseParams {
        peers: PeersField::Compact(vec![127, 0, 0, 1, 0x1a, 0xe1, 192, 168, 1, 20, 0, 80, 9]),
        ..Default::default()
    };
    assert_eq!(r.peers_ip(), vec!["127.0.0.1:6881".to_string(), "192.168.1.20:80".to_string()]);
}

#[test]
fn dictionary_peers() {
    let r = ResponseParams {
        peers: PeersField::Dict(vec![PeerDict { ip: "example.org".to_string(), peer_id: None, port: 51413 }]),
        ..Default::default()
    };
    assert_eq!(r.peers_ip(), vec!["example.org:51413".to_string()]);
    assert!(ResponseParams::default().peers_ip().is_empty());
}

#[test]
fn announce_query() {
    let base = RequestParams::default();
    let p = base.new(vec![0xff, 0x00], "-qB4250-000000000000".to_string(), None, 6881, 1, 2, 999, Some(Event::Started), 1);
    let q = p.query_pairs();
    let names: Vec<&str> = q.iter().map(|(k, _)| k.as_str()).collect();
    assert_eq!(names, vec!["info_hash", "peer_id", "port", "uploaded", "downloaded", "left", "compact", "event"]);
    assert_eq!(q[0].1, vec![0xff, 0x00]);
    assert_eq!(q[1].1, b"-qB4250-000000000000".to_vec());
    assert_eq!(q[2].1, b"6881".to_vec());
    assert_eq!(q[5].1, b"999".to_vec());
    assert_eq!(q[6].1, b"1".to_vec());
    assert_eq!(q[7].1, b"started".to_vec());
    let quiet = base.build(vec![], String::new(), None, 0, 0, 0, 0, Some(Event::Empty), 0);
    assert_eq!(quiet.query_pairs().len(), 7);
    assert_eq!(Event::Completed.as_text(), "completed");
    assert_eq!(Event::Stopped.as_text(), "stopped");
}

#[test]
fn peers_setters() {
    let mut peers = Peers::new();
    assert!(peers.response.is_none());
    peers.announce_url("http://t/announce".to_string());
    assert_eq!(peers.announce_url, "http://t/announce");
}

#[test]
fn peer_ids() {
    let id = generate_peerid();
    assert_eq!(id.len(), 20);
    assert!(id.starts_with("-qB4250-"));
    assert!(id[8..].chars().all(|c| c.is_ascii_digit()));
    let id = generate_magnet_peerid();
    assert_eq!(id.len(), 20);
    assert!(id.starts_with("-RU1000-"));
    assert!(id[8..].chars().all(|c| c.is_ascii_alphabetic()));
}

#[test]
fn peer_ids_from_their_draws() {
    let draws: Vec<u8> = vec![0, 9, 10, 255, 37, 100, 1, 2, 3, 4, 5, 6];
    assert_eq!(peer_id_from_draws(&draws), "-qB4250-090570123456");
    let letters: Vec<u8> = b"abcXYZqwertY".to_vec();
    assert_eq!(magnet_peer_id_from_letters(&letters), "-RU1000-abcXYZqwertY");
}

#[test]
fn where_the_configuration_lies() {
    assert!(matches!(
        config_root(Some("/x".to_string()), Some("/h".to_string())),
        Some(ConfigRoot::XdgConfigHome(x)) if x == "/x"
    ));
    assert!(matches!(config_root(None, Some("/h".to_string())), Some(ConfigRoot::HomeConfig(h)) if h == "/h"));
    assert!(config_root(None, None).is_none());
}
