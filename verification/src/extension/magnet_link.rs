pub mod bencode_out;
pub mod extended_handshake;
pub mod extended_metadata;
pub mod parser;

pub use extended_handshake::{ExtendedExchange, ExtendedHandshake};
pub use extended_metadata::{ExtendedMetadataExchange, MetadataMessage, MetadataMessageType};
pub use parser::{MagnetLink, Parser};
