//! A block device kept as fixed-size chunks, each chunk stored as one
//! message of a chat service.
pub mod bridge;
pub mod config;
pub mod layout;
pub mod test_bridge;
pub mod discord_drive;
