use torrex::extension::magnet_link::ExtendedMetadataExchange;
use torrex::metainfo::{Info, TorrentFile};
use torrex::state::{DownloadKind, DownloadState};

#[test]
fn download_kinds() {
    let mut meta = TorrentFile::new();
    meta.announce = "http://tracker".to_string();
    let s = DownloadState::new_meta(meta);
    match &s.kind {
        DownloadKind::meta(m) => assert_eq!(m.announce, "http://tracker"),
        _ => panic!("expected a torrent file"),
    }
    let info = Info { name: "x".to_string(), ..Default::default() };
    let s = DownloadState::new_magnet((ExtendedMetadataExchange::new(), info));
    match &s.kind {
        DownloadKind::magnet((_, i)) => assert_eq!(i.name, "x"),
        _ => panic!("expected a magnet link"),
    }
}
