//! What is known of a download before it starts: the metainfo of a torrent
//! file, or the metadata exchange and `info` dictionary of a magnet link.
use vstd::prelude::*;

use crate::extension::magnet_link::ExtendedMetadataExchange;
use crate::metainfo::{Info, TorrentFile};

verus! {

#[allow(non_camel_case_types)]
#[derive(Debug)]
pub enum DownloadKind {
    meta(TorrentFile),
    magnet((ExtendedMetadataExchange, Info)),
}

#[derive(Debug)]
pub struct DownloadState {
    pub kind: DownloadKind,
}

impl DownloadState {
    /// A download from a torrent file.
    pub fn new_meta(meta: TorrentFile) -> (r: Self)
        ensures
            r.kind == DownloadKind::meta(meta),
    {
        DownloadState { kind: DownloadKind::meta(meta) }
    }

    /// A download from a magnet link.
    pub fn new_magnet(magnet: (ExtendedMetadataExchange, Info)) -> (r: Self)
        ensures
            r.kind == DownloadKind::magnet(magnet),
    {
        DownloadState { kind: DownloadKind::magnet(magnet) }
    }
}

} // verus!
