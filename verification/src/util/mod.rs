//! Helpers.

pub mod shred;
