//! The connection and datagram surface that the overlay programs against.

use std::collections::VecDeque;
use vstd::prelude::*;
use crate::addr::SocketAddr;
use crate::overlay::env::{EnvView, OverlayEnv, SocketId};
use crate::pubkey::Pubkey;

verus! {

#[derive(Debug)]
pub enum TransportEvent {
    Connected { peer: SocketAddr, pubkey: Option<Pubkey> },
    Disconnected { peer: SocketAddr, reason: String },
}

/// A transport event as the contracts speak of it.
pub enum TransportEventView {
    Connected { peer: SocketAddr, pubkey: Option<Pubkey> },
    Disconnected { peer: SocketAddr, reason: Seq<char> },
}

pub open spec fn transport_event(event: TransportEvent) -> TransportEventView {
    match event {
        TransportEvent::Connected { peer, pubkey } => TransportEventView::Connected {
            peer,
            pubkey,
        },
        TransportEvent::Disconnected { peer, reason } => TransportEventView::Disconnected {
            peer,
            reason: reason@,
        },
    }
}

pub open spec fn transport_events(events: Seq<TransportEvent>) -> Seq<TransportEventView> {
    Seq::new(events.len(), |i: int| transport_event(events[i]))
}

/// What addressed byte vectors hold.
pub open spec fn addressed(v: Seq<(SocketAddr, Vec<u8>)>) -> Seq<(SocketAddr, Seq<u8>)> {
    Seq::new(v.len(), |i: int| (v[i].0, v[i].1@))
}

#[derive(Clone, Copy, Debug, PartialEq, Eq, Structural)]
pub enum QueueError {
    /// The transport holds as many connections as it may.
    ConnectionLimit,
    /// The connection could not be started.
    ConnectFailed,
}

/// The high seam: what a node does with connections and datagrams. The QUIC
/// transport is the real one; simulation at protocol scale puts an in-memory
/// one in its place. The relations say what a call of each method may come to;
/// they are the transport's own, and any holds of one that does not say
/// otherwise.
pub trait OverlayTransport {
    /// A datagram to send leads from here to `after` and the result `r`, and
    /// the environment to `env_after`.
    open spec fn takes_outbound(
        &self,
        env: EnvView,
        to: SocketAddr,
        payload: Seq<u8>,
        r: Result<(), QueueError>,
        after: &Self,
        env_after: EnvView,
    ) -> bool {
        true
    }

    /// A datagram leads from here to `after`, and the environment to
    /// `env_after`.
    open spec fn takes_datagram(
        &self,
        env: EnvView,
        socket: SocketId,
        from: SocketAddr,
        datagram: Seq<u8>,
        after: &Self,
        env_after: EnvView,
    ) -> bool {
        true
    }

    /// A timer leads from here to `after`, and the environment to `env_after`.
    open spec fn takes_timer(&self, env: EnvView, after: &Self, env_after: EnvView) -> bool {
        true
    }

    /// Asked for its next timer, the transport gives `deadline` and is then
    /// `after`.
    open spec fn is_due(&self, deadline: Option<u64>, after: &Self) -> bool {
        true
    }

    /// Asked for what it received, the transport gives `inbound` and is then
    /// `after`.
    open spec fn hands_out(&self, inbound: Seq<(SocketAddr, Vec<u8>)>, after: &Self) -> bool {
        true
    }

    /// Asked for its events, the transport gives `events` and is then `after`.
    open spec fn tells(&self, events: Seq<TransportEvent>, after: &Self) -> bool {
        true
    }

    /// Queues an unreliable datagram to `to`, dialing if there is no
    /// connection.
    fn queue_datagram<E: OverlayEnv>(
        &mut self,
        env: &mut E,
        to: SocketAddr,
        payload: Vec<u8>,
    ) -> (r: Result<(), QueueError>)
        ensures
            old(self).takes_outbound(old(env).seen(), to, payload@, r, &*final(self), final(env).seen()),
    ;

    /// Feeds a UDP datagram received on the local socket `socket`.
    fn on_datagram<E: OverlayEnv>(
        &mut self,
        env: &mut E,
        socket: SocketId,
        from: SocketAddr,
        datagram: &[u8],
    )
        ensures
            old(self).takes_datagram(
                old(env).seen(),
                socket,
                from,
                datagram@,
                &*final(self),
                final(env).seen(),
            ),
    ;

    /// Fires due timers. It may be called early: deadlines are checked again.
    fn on_timer<E: OverlayEnv>(&mut self, env: &mut E)
        ensures
            old(self).takes_timer(old(env).seen(), &*final(self), final(env).seen()),
    ;

    /// When the next timer is due.
    fn poll_timeout(&mut self) -> (deadline: Option<u64>)
        ensures
            old(self).is_due(deadline, &*final(self)),
    ;

    /// Takes the application datagrams received from peers, oldest first.
    fn take_inbound(&mut self) -> (inbound: Vec<(SocketAddr, Vec<u8>)>)
        ensures
            old(self).hands_out(inbound@, &*final(self)),
    ;

    /// Takes the transport's events, oldest first.
    fn take_events(&mut self) -> (events: Vec<TransportEvent>)
        ensures
            old(self).tells(events@, &*final(self)),
    ;

    /// The verified identity at the other end of the connection to `peer`.
    fn peer_identity(&self, peer: SocketAddr) -> Option<Pubkey>;
}

/// A queue of at most `cap` items after one more: the oldest makes room.
pub open spec fn pushed_bounded<T>(queue: Seq<T>, value: T, cap: int) -> Seq<T> {
    if queue.len() >= cap && queue.len() > 0 {
        queue.skip(1).push(value)
    } else {
        queue.push(value)
    }
}

/// Appends `value`, dropping the oldest item of a full queue.
pub fn push_bounded<T>(queue: &mut VecDeque<T>, value: T, cap: usize)
    ensures
        final(queue)@ == pushed_bounded(old(queue)@, value, cap as int),
{
    let ghost before = queue@;
    if queue.len() >= cap {
        let _ = queue.pop_front();
        assert(before.len() > 0 ==> queue@ =~= before.skip(1));
    }
    queue.push_back(value);
    assert(queue@ =~= pushed_bounded(before, value, cap as int));
}

/// A bounded queue stays within its bound, and the newest item is in it.
pub proof fn law_push_bounded<T>(queue: Seq<T>, value: T, cap: int)
    requires
        0 < cap,
        queue.len() <= cap,
    ensures
        pushed_bounded(queue, value, cap).len() <= cap,
        pushed_bounded(queue, value, cap).last() == value,
        queue.len() < cap ==> pushed_bounded(queue, value, cap) == queue.push(value),
{
}

/// A full queue loses its oldest item, and that alone.
pub proof fn law_oldest_makes_room<T>(queue: Seq<T>, value: T, i: int)
    requires
        0 < queue.len(),
        0 <= i < queue.len() - 1,
    ensures
        pushed_bounded(queue, value, queue.len() as int).len() == queue.len(),
        pushed_bounded(queue, value, queue.len() as int)[i] == queue[i + 1],
        pushed_bounded(queue, value, queue.len() as int).last() == value,
{
}

} // verus!
