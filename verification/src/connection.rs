pub mod connection;
pub mod download;
pub mod handshake;
pub mod message;
pub mod reassembly;
