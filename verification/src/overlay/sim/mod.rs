//! The deterministic network simulator: a discrete-event loop that drives
//! real nodes under virtual time, with seeded randomness everywhere, faults
//! on every link and NAT boxes on the wire.

pub mod arrivals;
pub mod crypto;
pub mod gateway;
pub mod highseam;
pub mod likeness;
pub mod links;
pub mod mem_transport;
pub mod nat_box;
pub mod net;
pub mod order;
pub mod port_mapping;
pub mod probe_order;
pub mod quic_likeness;
pub mod replay;
pub mod scenario;
pub mod seam;
pub mod trace;
pub mod world;

pub use world::{HostId, NodeOptions, ProbeDatagram, SimWorld};
