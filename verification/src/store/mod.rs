//! Shreds in memory and on disk.

pub mod shred;
pub mod slot_meta;
