pub mod magnet_link;
