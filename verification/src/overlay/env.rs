//! What a node sees of the world around it.

use vstd::prelude::*;
use crate::addr::{IpAddr, SocketAddr};

verus! {

/// One of a node's sockets.
#[derive(Clone, Copy, Debug, PartialEq, Eq, Structural)]
pub struct SocketId(pub u32);

impl SocketId {
    /// The socket that every node binds first.
    pub fn primary() -> (id: Self)
        ensures
            id == SocketId(0),
    {
        SocketId(0)
    }
}

#[derive(Clone, Copy, Debug, PartialEq, Eq, Structural)]
pub enum BindError {
    /// Another socket of the host holds the port.
    AlreadyBound(SocketAddr),
    /// The host has no socket numbers left.
    TooManySockets,
    /// There are no sockets to bind here.
    NoSockets,
}

/// What a node can tell of its environment.
#[verifier::ext_equal]
pub struct EnvView {
    /// What was sent and has not left yet, oldest first.
    pub sent: Seq<(SocketId, SocketAddr, Seq<u8>)>,
    /// What the clock reads, where it stands still.
    pub clock: Option<u64>,
    pub lan_ip: Option<IpAddr>,
    pub sockets: Seq<SocketAddr>,
    /// The port that is bound next where none is named.
    pub next_ephemeral: u16,
    /// The state of the generator.
    pub rng: Seq<int>,
}

impl EnvView {
    /// An environment of which nothing is known.
    pub open spec fn unknown() -> Self {
        EnvView {
            sent: Seq::empty(),
            clock: None,
            lan_ip: None,
            sockets: Seq::empty(),
            next_ephemeral: 0,
            rng: Seq::empty(),
        }
    }

    /// The clock may read `now`.
    pub open spec fn reads(self, now: u64) -> bool {
        self.clock matches Some(at) ==> now == at
    }

    /// `after` is this environment but for what was sent.
    pub open spec fn sends_to(self, after: Self) -> bool {
        after == (EnvView { sent: after.sent, ..self })
    }
}

/// The low seam: the clock, the sockets and the randomness that a node runs
/// on. Time is in nanoseconds.
pub trait OverlayEnv {
    open spec fn seen(&self) -> EnvView {
        EnvView::unknown()
    }

    fn now(&self) -> (now: u64)
        ensures
            self.seen().reads(now),
    ;

    fn next_u64(&mut self) -> (n: u64)
        ensures
            final(self).seen() == (EnvView { rng: final(self).seen().rng, ..old(self).seen() }),
    ;

    fn send(&mut self, from: SocketId, to: SocketAddr, datagram: &[u8])
        ensures
            final(self).seen() == (EnvView {
                sent: old(self).seen().sent.push((from, to, datagram@)),
                ..old(self).seen()
            }),
    ;

    fn bind(&mut self, port: Option<u16>) -> (r: Result<SocketId, BindError>)
        ensures
            final(self).seen() == (EnvView {
                sockets: final(self).seen().sockets,
                next_ephemeral: final(self).seen().next_ephemeral,
                ..old(self).seen()
            }),
    ;
}

} // verus!
