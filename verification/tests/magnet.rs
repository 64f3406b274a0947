use torrex::extension::magnet_link::Parser;

#[test]
fn parse() {
    let link = "magnet:?xt=urn:btih:4344503b7e797ebf31582327a5baae35b11bda01&dn=ubuntu-16.04-desktop-amd64.iso&tr=http%3A%2F%2Ftorrent.ubuntu.com%3A6969%2Fannounce&tr=http%3A%2F%2Fipv6.torrent.ubuntu.com%3A6969%2Fannounce";
    let mut parser = Parser::new(link.to_string());
    let parser = parser.parse();
    println!("parser: {:#?}", parser);
    assert_eq!(parser.magnet_link.xt, "4344503b7e797ebf31582327a5baae35b11bda01");
    assert_eq!(parser.magnet_link.dn.as_deref(), Some("ubuntu-16.04-desktop-amd64.iso"));
    assert_eq!(
        parser.magnet_link.tr.as_deref(),
        Some("http://ipv6.torrent.ubuntu.com:6969/announce")
    );
}

#[test]
fn verify_magnet_prefix() {
    assert!(Parser::new("magnet:?xt=urn:btih:ab".to_string()).verify_magnet());
    assert!(!Parser::new("http://example.com".to_string()).verify_magnet());
    assert!(!Parser::new("magnet".to_string()).verify_magnet());
}

#[test]
fn parts_without_value_and_unknown_keys_change_nothing() {
    let mut parser = Parser::new("magnet:?foo&x.pe=1.2.3.4:5&dn=a+b%20c".to_string());
    parser.parse();
    assert_eq!(parser.magnet_link.xt, "");
    assert_eq!(parser.magnet_link.dn.as_deref(), Some("a+b c"));
    assert_eq!(parser.magnet_link.tr, None);
}

#[test]
fn bad_percent_sequences() {
    let mut parser = Parser::new("magnet:?dn=%zz%4&tr=%FF".to_string());
    parser.parse();
    assert_eq!(parser.magnet_link.dn.as_deref(), Some("%zz%4"));
    // %FF is not UTF-8: the value becomes empty.
    assert_eq!(parser.magnet_link.tr.as_deref(), Some(""));
}

#[test]
fn repeated_prefixes_are_taken_off() {
    let mut parser = Parser::new("magnet:?magnet:?xt=urn:btih:urn:btih:abc".to_string());
    parser.parse();
    assert_eq!(parser.magnet_link.xt, "abc");
}

#[test]
fn info_hash_from_the_hex_of_xt() {
    let mut p = Parser::new("magnet:?xt=urn:btih:0aFF10&dn=x".to_string());
    let link = &p.parse().magnet_link;
    assert_eq!(link.info_hash(), Some(vec![0x0a, 0xff, 0x10]));
    let mut odd = Parser::new("magnet:?xt=urn:btih:abc".to_string());
    assert_eq!(odd.parse().magnet_link.info_hash(), None);
    let mut bad = Parser::new("magnet:?xt=urn:btih:zz".to_string());
    assert_eq!(bad.parse().magnet_link.info_hash(), None);
}
