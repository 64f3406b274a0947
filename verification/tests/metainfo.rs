use sha1::{Digest, Sha1};

use torrex::bytes_bencode::decode_prefix;
use torrex::metainfo::{FileKey, Info, TorrentFile};

fn single_file_torrent() -> (Vec<u8>, Vec<u8>) {
    let mut info = b"d6:lengthi100e4:name5:a.txt12:piece lengthi50e6:pieces40:".to_vec();
    info.extend_from_slice(&[1u8; 20]);
    info.extend_from_slice(&[0xabu8; 20]);
    info.push(b'e');
    let mut file = b"d8:announce14:http://tracker4:info".to_vec();
    file.extend_from_slice(&info);
    file.push(b'e');
    (file, info)
}

#[test]
fn test_read_file() {
    let meta = TorrentFile::new();
    // The bytes of a metainfo file, as reading `./sample.torrent` would give them.
    let (output, _) = single_file_torrent();
    match TorrentFile::from_bencode(&output) {
        Some(meta_info) => {
            let (_length, _files) = match &meta_info.info.key {
                FileKey::SingleFile { length } => (Some(length), None),
                FileKey::MultiFile { files } => (None, Some(files)),
            };
            let info_hash = meta.info_hash(&output).unwrap();
            println!("MetaInfo:{:#?}", meta_info);
            println!("info_hash: {:02x?}", info_hash);
            println!("Pieces Hash{:#?}", meta_info.info.pieces_hashes());
        }
        None => println!("Error occured while reading file."),
    }
}

#[test]
fn single_file_metainfo() {
    let (file, info_bytes) = single_file_torrent();
    let meta = TorrentFile::new().parse_metafile(&file);
    assert_eq!(meta.announce, "http://tracker");
    assert_eq!(meta.info.name, "a.txt");
    assert_eq!(meta.info.piece_length, 50);
    assert_eq!(meta.info.pieces.len(), 40);
    assert!(matches!(meta.info.key, FileKey::SingleFile { length: 100 }));
    let hashes = meta.info.pieces_hashes();
    assert_eq!(hashes, vec!["01".repeat(20), "ab".repeat(20)]);
    let hash = meta.info_hash(&file).unwrap();
    assert_eq!(hash, Sha1::digest(&info_bytes).to_vec());
}

#[test]
fn multi_file_metainfo() {
    let file = b"d8:announce1:u4:infod5:filesld6:lengthi3e4:pathl1:a1:beed6:lengthi4e4:pathl1:ceee4:name1:d12:piece lengthi8e6:pieces0:ee";
    let meta = TorrentFile::from_bencode(file).unwrap();
    match &meta.info.key {
        FileKey::MultiFile { files } => {
            assert_eq!(files.len(), 2);
            assert_eq!(files[0].length, 3);
            assert_eq!(files[0].path, vec!["a".to_string(), "b".to_string()]);
            assert_eq!(files[1].length, 4);
            assert_eq!(files[1].path, vec!["c".to_string()]);
        }
        other => panic!("expected several files, got {:?}", other),
    }
}

#[test]
fn invalid_metainfo() {
    assert!(TorrentFile::from_bencode(b"d8:announce1:ue").is_none());
    assert!(TorrentFile::from_bencode(b"i1e").is_none());
    assert!(TorrentFile::from_bencode(b"").is_none());
    // A negative piece length is not a length.
    let (v, _) = decode_prefix(b"d6:lengthi1e4:name1:a12:piece lengthi-1e6:pieces0:e").unwrap();
    assert!(Info::from_value(&v).is_none());
}

#[test]
fn info_hash_needs_the_tag() {
    assert!(TorrentFile::new().info_hash(b"d8:announce1:ue").is_none());
}

#[test]
fn new_torrent_is_empty() {
    let t = TorrentFile::new();
    assert!(t.announce.is_empty());
    assert!(matches!(t.info.key, FileKey::SingleFile { length: 0 }));
}

#[test]
fn length_of_a_single_file_torrent() {
    assert_eq!(FileKey::SingleFile { length: 42 }.single_length(), Some(42));
    assert_eq!(FileKey::MultiFile { files: vec![] }.single_length(), None);
}
