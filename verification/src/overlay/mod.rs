//! The peer-to-peer overlay and the simulator that it is tested under.

pub mod classify;
pub mod connections;
pub mod env;
pub mod quic;
pub mod service;
pub mod sim;
pub mod transport;
pub mod turbine;
