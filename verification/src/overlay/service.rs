//! The protocol core that a node runs on top of its transport.

use vstd::prelude::*;
use crate::addr::SocketAddr;
use crate::overlay::env::{EnvView, OverlayEnv, SocketId};
use crate::pubkey::Pubkey;

verus! {

/// Whether a node feeds shreds into the overlay or only takes them out.
#[derive(Clone, Copy, Debug, PartialEq, Eq, Structural)]
pub enum OverlayMode {
    Source,
    Sink,
}

/// What a node's core is configured with.
#[derive(Debug)]
pub struct OverlayConfig {
    pub enabled: bool,
    pub mode: OverlayMode,
    pub bind_addr: SocketAddr,
    pub advertised_addr: Option<SocketAddr>,
    pub static_peers: Vec<SocketAddr>,
    pub fanout: usize,
    pub repair_addr: Option<SocketAddr>,
    pub shred_version: Option<u16>,
    pub peer_ttl_ms: u64,
}

/// A configuration as the contracts speak of it.
#[verifier::ext_equal]
pub struct ConfigView {
    pub enabled: bool,
    pub mode: OverlayMode,
    pub bind_addr: SocketAddr,
    pub advertised_addr: Option<SocketAddr>,
    pub static_peers: Seq<SocketAddr>,
    pub fanout: usize,
    pub repair_addr: Option<SocketAddr>,
    pub shred_version: Option<u16>,
    pub peer_ttl_ms: u64,
}

impl OverlayConfig {
    pub open spec fn view(&self) -> ConfigView {
        ConfigView {
            enabled: self.enabled,
            mode: self.mode,
            bind_addr: self.bind_addr,
            advertised_addr: self.advertised_addr,
            static_peers: self.static_peers@,
            fanout: self.fanout,
            repair_addr: self.repair_addr,
            shred_version: self.shred_version,
            peer_ttl_ms: self.peer_ttl_ms,
        }
    }
}

#[derive(Debug)]
pub enum CoreEvent {
    /// A shred for the packet filter.
    ShredForFilter(Vec<u8>),
    PeerConnected { peer: SocketAddr, pubkey: Option<Pubkey> },
    PeerDisconnected { peer: SocketAddr },
}

/// What a node asks a peer for over a repair stream.
#[derive(Clone, Copy, Debug, PartialEq, Eq, Structural)]
pub enum OverlayRepairReq {
    /// The shred at `shred_index`.
    WindowIndex { slot: u64, shred_index: u32 },
    /// The topmost shred of the slot, at `shred_index` or above it.
    HighestWindowIndex { slot: u64, shred_index: u32 },
}

/// The protocol core of a node, driven without I/O. The relations say what a
/// call of each method may come to; they are the core's own, and any holds of
/// a core that does not say otherwise.
pub trait OverlayCore {
    /// A datagram leads from here to `after`, and the environment to
    /// `env_after`.
    open spec fn takes_datagram(
        &self,
        env: EnvView,
        socket: SocketId,
        from: SocketAddr,
        datagram: Seq<u8>,
        after: &Self,
        env_after: EnvView,
    ) -> bool {
        true
    }

    /// A timer leads from here to `after`, and the environment to `env_after`.
    open spec fn takes_timer(&self, env: EnvView, after: &Self, env_after: EnvView) -> bool {
        true
    }

    /// A shred of the node's own leads from here to `after`, and the
    /// environment to `env_after`.
    open spec fn takes_source_packet(
        &self,
        env: EnvView,
        packet: Seq<u8>,
        after: &Self,
        env_after: EnvView,
    ) -> bool {
        true
    }

    /// Asked for its next timer, the core gives `deadline` and is then `after`.
    open spec fn is_due(&self, deadline: Option<u64>, after: &Self) -> bool {
        true
    }

    /// Asked for its events, the core gives `events` and is then `after`.
    open spec fn tells(&self, events: Seq<CoreEvent>, after: &Self) -> bool {
        true
    }

    fn on_datagram<E: OverlayEnv>(
        &mut self,
        env: &mut E,
        socket: SocketId,
        from: SocketAddr,
        datagram: &[u8],
    )
        ensures
            old(self).takes_datagram(
                old(env).seen(),
                socket,
                from,
                datagram@,
                &*final(self),
                final(env).seen(),
            ),
    ;

    fn on_timer<E: OverlayEnv>(&mut self, env: &mut E)
        ensures
            old(self).takes_timer(old(env).seen(), &*final(self), final(env).seen()),
    ;

    /// Feeds a shred that the node itself received from the cluster.
    fn on_source_packet<E: OverlayEnv>(&mut self, env: &mut E, packet: &[u8])
        ensures
            old(self).takes_source_packet(old(env).seen(), packet@, &*final(self), final(env).seen()),
    ;

    /// When the next timer is due.
    fn poll_timeout(&mut self) -> (deadline: Option<u64>)
        ensures
            old(self).is_due(deadline, &*final(self)),
    ;

    /// Takes the core's events, oldest first.
    fn take_events(&mut self) -> (events: Vec<CoreEvent>)
        ensures
            old(self).tells(events@, &*final(self)),
    ;
}

} // verus!
