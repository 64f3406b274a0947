pub mod config;
pub mod cryptography;
pub mod random;
pub mod text;
