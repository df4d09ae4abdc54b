//! A lightweight Solana networking sidecar: shred ingestion, repair, caching
//! and the peer-to-peer overlay, together with the deterministic simulator
//! that the overlay is tested under.
#![allow(unused_imports)]

pub mod addr;
pub mod codec;
pub mod digest;
pub mod layout;
pub mod ordmap;
pub mod overlay;
pub mod overlay_sim;
pub mod packet_filter;
pub mod pubkey;
pub mod repair;
pub mod repair_delivery;
pub mod rng;
pub mod rpc;
pub mod solana_rpc;
pub mod store;
pub mod text;
pub mod time;
pub mod types;
pub mod util;
