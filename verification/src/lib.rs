use vstd::prelude::*;

pub mod bencode;
pub mod bencode_encoding;
pub mod bytes_bencode;
pub mod connection;
pub mod decimal;
pub mod extension;
pub mod handshake;
pub mod metainfo;
pub mod peers;
pub mod state;
pub mod utils;

pub use connection::message;
pub use utils::cryptography;
pub use utils::random;

verus! {
} // verus!
