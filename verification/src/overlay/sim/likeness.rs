//! One seed gives one execution. Two runs of a world may differ in what their
//! datagrams hold, since handshakes draw keys by chance, but not in how long
//! these are, when they are sent or what comes of them: where the machines keep
//! to that, so does the world, and its trace is the same.

use vstd::prelude::*;
use crate::addr::SocketAddr;
use crate::overlay::env::{EnvView, OverlayEnv, SocketId};
use crate::overlay::service::{CoreEvent, OverlayCore};
use crate::overlay::sim::mem_transport::MemTransport;
use crate::overlay::sim::nat_box::{FirewallView, Flow};
use crate::overlay::sim::net::LinkParams;
use crate::overlay::sim::trace::TraceEvent;
use crate::overlay::sim::world::{
    core_notes, inbound_notes, lemma_popped_wf, lemma_reaches_prefix, outbox_view, outgoing, queued,
    through_chain, transport_notes, CallView, EventView, HostView, KindView, LinkKey, Machine, Node,
    NoteView, OptionsView, Outgoing, QueuedView, SendView, Sim, SimEnv, WorldView, MAX_HOSTS,
    TIMER_MIN_ADVANCE_NANOS,
};
use crate::overlay::transport::{
    addressed, transport_event, transport_events, OverlayTransport, QueueError, TransportEvent,
};
use crate::rng::{range_u64_draw, ratio_draw};
use crate::time::{bumped, sat_u64};

verus! {

/// What counts as the same in two runs: of the cores, of the transports and of
/// the bytes of datagrams.
#[verifier::reject_recursive_types(C)]
#[verifier::reject_recursive_types(T)]
pub struct Likeness<C, T> {
    pub cores: spec_fn(C, C) -> bool,
    pub transports: spec_fn(T, T) -> bool,
    pub bytes: spec_fn(Seq<u8>, Seq<u8>) -> bool,
}

/// Bytes that count as the same, and of which there are equally many.
pub open spec fn bytes_alike(
    bytes: spec_fn(Seq<u8>, Seq<u8>) -> bool,
    x: Seq<u8>,
    y: Seq<u8>,
) -> bool {
    x.len() == y.len() && bytes(x, y)
}

pub open spec fn event_alike(
    bytes: spec_fn(Seq<u8>, Seq<u8>) -> bool,
    a: EventView,
    b: EventView,
) -> bool {
    match (a, b) {
        (
            EventView::Delivery { to_host: h1, src: s1, dst: d1, payload: x },
            EventView::Delivery { to_host: h2, src: s2, dst: d2, payload: y },
        ) => h1 == h2 && s1 == s2 && d1 == d2 && bytes_alike(bytes, x, y),
        (EventView::Timer { .. }, EventView::Timer { .. }) => a == b,
        _ => false,
    }
}

pub open spec fn queue_alike(
    bytes: spec_fn(Seq<u8>, Seq<u8>) -> bool,
    a: Seq<QueuedView>,
    b: Seq<QueuedView>,
) -> bool {
    &&& a.len() == b.len()
    &&& forall|i: int|
        0 <= i < a.len() ==> {
            &&& (#[trigger] a[i]).at == b[i].at
            &&& a[i].seq == b[i].seq
            &&& event_alike(bytes, a[i].event, b[i].event)
        }
}

/// Worlds without probes that differ at most in what the datagrams on their
/// way hold.
pub open spec fn world_alike(
    bytes: spec_fn(Seq<u8>, Seq<u8>) -> bool,
    a: WorldView,
    b: WorldView,
) -> bool {
    &&& a == (WorldView { queue: a.queue, ..b })
    &&& queue_alike(bytes, a.queue, b.queue)
    &&& forall|i: int| 0 <= i < a.hosts.len() ==> !((#[trigger] a.hosts[i]).kind is Probe)
}

pub open spec fn sent_alike(
    bytes: spec_fn(Seq<u8>, Seq<u8>) -> bool,
    a: Seq<(SocketId, SocketAddr, Seq<u8>)>,
    b: Seq<(SocketId, SocketAddr, Seq<u8>)>,
) -> bool {
    &&& a.len() == b.len()
    &&& forall|i: int|
        0 <= i < a.len() ==> {
            &&& (#[trigger] a[i]).0 == b[i].0
            &&& a[i].1 == b[i].1
            &&& bytes_alike(bytes, a[i].2, b[i].2)
        }
}

pub open spec fn sends_alike(
    bytes: spec_fn(Seq<u8>, Seq<u8>) -> bool,
    a: Seq<SendView>,
    b: Seq<SendView>,
) -> bool {
    &&& a.len() == b.len()
    &&& forall|i: int|
        0 <= i < a.len() ==> {
            &&& (#[trigger] a[i]).from == b[i].from
            &&& a[i].to == b[i].to
            &&& bytes_alike(bytes, a[i].payload, b[i].payload)
        }
}

/// Environments with a clock that stands still, which differ at most in what the
/// datagrams hold that were sent.
pub open spec fn env_alike(
    bytes: spec_fn(Seq<u8>, Seq<u8>) -> bool,
    a: EnvView,
    b: EnvView,
) -> bool {
    &&& a == (EnvView { sent: a.sent, ..b })
    &&& a.clock is Some
    &&& sent_alike(bytes, a.sent, b.sent)
}

/// Calls that differ at most in what the datagram holds that came in.
pub open spec fn call_alike(
    bytes: spec_fn(Seq<u8>, Seq<u8>) -> bool,
    a: CallView,
    b: CallView,
) -> bool {
    match (a, b) {
        (
            CallView::Datagram { socket: k1, src: s1, payload: x },
            CallView::Datagram { socket: k2, src: s2, payload: y },
        ) => k1 == k2 && s1 == s2 && bytes_alike(bytes, x, y),
        _ => a == b,
    }
}

impl<C: OverlayCore, T: OverlayTransport> Likeness<C, T> {
    /// Cores that are alike do alike things when they are called alike: they
    /// send as many bytes to the same places, report the same and set the same
    /// timers.
    #[verifier::opaque]
    pub open spec fn kept_by_cores(self) -> bool {
        &&& forall|
            a: C,
            b: C,
            e1: EnvView,
            e2: EnvView,
            socket: SocketId,
            from: SocketAddr,
            d1: Seq<u8>,
            d2: Seq<u8>,
            a1: C,
            b1: C,
            x1: EnvView,
            x2: EnvView,
        |
            #![trigger a.takes_datagram(e1, socket, from, d1, &a1, x1), b.takes_datagram(e2, socket, from, d2, &b1, x2)]
            (self.cores)(a, b) && env_alike(self.bytes, e1, e2) && bytes_alike(self.bytes, d1, d2)
                && a.takes_datagram(e1, socket, from, d1, &a1, x1) && b.takes_datagram(
                e2,
                socket,
                from,
                d2,
                &b1,
                x2,
            ) ==> (self.cores)(a1, b1) && env_alike(self.bytes, x1, x2)
        &&& forall|a: C, b: C, e1: EnvView, e2: EnvView, a1: C, b1: C, x1: EnvView, x2: EnvView|
            #![trigger a.takes_timer(e1, &a1, x1), b.takes_timer(e2, &b1, x2)]
            (self.cores)(a, b) && env_alike(self.bytes, e1, e2) && a.takes_timer(e1, &a1, x1)
                && b.takes_timer(e2, &b1, x2) ==> (self.cores)(a1, b1) && env_alike(
                self.bytes,
                x1,
                x2,
            )
        &&& forall|
            a: C,
            b: C,
            e1: EnvView,
            e2: EnvView,
            packet: Seq<u8>,
            a1: C,
            b1: C,
            x1: EnvView,
            x2: EnvView,
        |
            #![trigger a.takes_source_packet(e1, packet, &a1, x1), b.takes_source_packet(e2, packet, &b1, x2)]
            (self.cores)(a, b) && env_alike(self.bytes, e1, e2) && a.takes_source_packet(
                e1,
                packet,
                &a1,
                x1,
            ) && b.takes_source_packet(e2, packet, &b1, x2) ==> (self.cores)(a1, b1) && env_alike(
                self.bytes,
                x1,
                x2,
            )
        &&& forall|a: C, b: C, d1: Option<u64>, d2: Option<u64>, a1: C, b1: C|
            #![trigger a.is_due(d1, &a1), b.is_due(d2, &b1)]
            (self.cores)(a, b) && a.is_due(d1, &a1) && b.is_due(d2, &b1) ==> d1 == d2
                && (self.cores)(a1, b1)
        &&& forall|a: C, b: C, v1: Seq<CoreEvent>, v2: Seq<CoreEvent>, a1: C, b1: C|
            #![trigger a.tells(v1, &a1), b.tells(v2, &b1)]
            (self.cores)(a, b) && a.tells(v1, &a1) && b.tells(v2, &b1) ==> core_notes(v1)
                == core_notes(v2) && (self.cores)(a1, b1)
    }

    /// Transports that are alike do alike things when they are called alike.
    #[verifier::opaque]
    pub open spec fn kept_by_transports(self) -> bool {
        &&& forall|
            a: T,
            b: T,
            e1: EnvView,
            e2: EnvView,
            socket: SocketId,
            from: SocketAddr,
            d1: Seq<u8>,
            d2: Seq<u8>,
            a1: T,
            b1: T,
            x1: EnvView,
            x2: EnvView,
        |
            #![trigger a.takes_datagram(e1, socket, from, d1, &a1, x1), b.takes_datagram(e2, socket, from, d2, &b1, x2)]
            (self.transports)(a, b) && env_alike(self.bytes, e1, e2) && bytes_alike(
                self.bytes,
                d1,
                d2,
            ) && a.takes_datagram(e1, socket, from, d1, &a1, x1) && b.takes_datagram(
                e2,
                socket,
                from,
                d2,
                &b1,
                x2,
            ) ==> (self.transports)(a1, b1) && env_alike(self.bytes, x1, x2)
        &&& forall|a: T, b: T, e1: EnvView, e2: EnvView, a1: T, b1: T, x1: EnvView, x2: EnvView|
            #![trigger a.takes_timer(e1, &a1, x1), b.takes_timer(e2, &b1, x2)]
            (self.transports)(a, b) && env_alike(self.bytes, e1, e2) && a.takes_timer(e1, &a1, x1)
                && b.takes_timer(e2, &b1, x2) ==> (self.transports)(a1, b1) && env_alike(
                self.bytes,
                x1,
                x2,
            )
        &&& forall|
            a: T,
            b: T,
            e1: EnvView,
            e2: EnvView,
            to: SocketAddr,
            payload: Seq<u8>,
            r1: Result<(), QueueError>,
            r2: Result<(), QueueError>,
            a1: T,
            b1: T,
            x1: EnvView,
            x2: EnvView,
        |
            #![trigger a.takes_outbound(e1, to, payload, r1, &a1, x1), b.takes_outbound(e2, to, payload, r2, &b1, x2)]
            (self.transports)(a, b) && env_alike(self.bytes, e1, e2) && a.takes_outbound(
                e1,
                to,
                payload,
                r1,
                &a1,
                x1,
            ) && b.takes_outbound(e2, to, payload, r2, &b1, x2) ==> (self.transports)(a1, b1)
                && env_alike(self.bytes, x1, x2)
        &&& forall|a: T, b: T, d1: Option<u64>, d2: Option<u64>, a1: T, b1: T|
            #![trigger a.is_due(d1, &a1), b.is_due(d2, &b1)]
            (self.transports)(a, b) && a.is_due(d1, &a1) && b.is_due(d2, &b1) ==> d1 == d2
                && (self.transports)(a1, b1)
        &&& forall|a: T, b: T, v1: Seq<TransportEvent>, v2: Seq<TransportEvent>, a1: T, b1: T|
            #![trigger a.tells(v1, &a1), b.tells(v2, &b1)]
            (self.transports)(a, b) && a.tells(v1, &a1) && b.tells(v2, &b1) ==> transport_notes(v1)
                == transport_notes(v2) && (self.transports)(a1, b1)
        &&& forall|
            a: T,
            b: T,
            v1: Seq<(SocketAddr, Vec<u8>)>,
            v2: Seq<(SocketAddr, Vec<u8>)>,
            a1: T,
            b1: T,
        |
            #![trigger a.hands_out(v1, &a1), b.hands_out(v2, &b1)]
            (self.transports)(a, b) && a.hands_out(v1, &a1) && b.hands_out(v2, &b1)
                ==> inbound_notes(v1) == inbound_notes(v2) && (self.transports)(a1, b1)
    }

    /// The machines keep to the likeness.
    pub open spec fn is_kept(self) -> bool {
        self.kept_by_cores() && self.kept_by_transports()
    }

    pub open spec fn machines(self, a: Machine<C, T>, b: Machine<C, T>) -> bool {
        match (a, b) {
            (Machine::Overlay(x), Machine::Overlay(y)) => (self.cores)(x, y),
            (Machine::Transport(x), Machine::Transport(y)) => (self.transports)(x, y),
            (Machine::Probe, Machine::Probe) => true,
            _ => false,
        }
    }

    pub open spec fn nodes(self, a: Node<C, T>, b: Node<C, T>) -> bool {
        self.machines(a.machine, b.machine) && env_alike(self.bytes, a.env.seen(), b.env.seen())
    }

    /// Worlds that are alike, with machines in them that are.
    pub open spec fn sims(self, a: Sim<C, T>, b: Sim<C, T>) -> bool {
        &&& world_alike(self.bytes, a.world, b.world)
        &&& a.nodes.len() == a.world.hosts.len()
        &&& a.nodes.len() == b.nodes.len()
        &&& forall|i: int| 0 <= i < a.nodes.len() ==> self.nodes(#[trigger] a.nodes[i], b.nodes[i])
    }
}

proof fn lemma_queued_alike(
    bytes: spec_fn(Seq<u8>, Seq<u8>) -> bool,
    a: Seq<QueuedView>,
    b: Seq<QueuedView>,
    x: QueuedView,
    y: QueuedView,
)
    requires
        queue_alike(bytes, a, b),
        x.at == y.at,
        x.seq == y.seq,
        event_alike(bytes, x.event, y.event),
    ensures
        queue_alike(bytes, queued(a, x), queued(b, y)),
    decreases a.len(),
{
    if a.len() > 0 {
        assert(a[a.len() - 1].at == b[a.len() - 1].at);
        if a.last().at > x.at {
            assert forall|i: int| 0 <= i < a.len() - 1 implies {
                &&& (#[trigger] a.drop_last()[i]).at == b.drop_last()[i].at
                &&& a.drop_last()[i].seq == b.drop_last()[i].seq
                &&& event_alike(bytes, a.drop_last()[i].event, b.drop_last()[i].event)
            } by {
                assert(a[i].at == b[i].at);
            }
            lemma_queued_alike(bytes, a.drop_last(), b.drop_last(), x, y);
        }
    }
}

proof fn lemma_pushed_alike(
    bytes: spec_fn(Seq<u8>, Seq<u8>) -> bool,
    a: WorldView,
    b: WorldView,
    at: u64,
    x: EventView,
    y: EventView,
)
    requires
        world_alike(bytes, a, b),
        event_alike(bytes, x, y),
    ensures
        world_alike(bytes, a.pushed(at, x), b.pushed(at, y)),
        a.pushed(at, x).hosts == a.hosts,
{
    if a.seq < u64::MAX {
        let seq = (a.seq + 1) as u64;
        lemma_queued_alike(
            bytes,
            a.queue,
            b.queue,
            QueuedView { at, seq, event: x },
            QueuedView { at, seq, event: y },
        );
    }
}

proof fn lemma_posted_alike(
    bytes: spec_fn(Seq<u8>, Seq<u8>) -> bool,
    a: WorldView,
    b: WorldView,
    key: LinkKey,
    params: LinkParams,
    src: SocketAddr,
    to: SocketAddr,
    x: Seq<u8>,
    y: Seq<u8>,
)
    requires
        world_alike(bytes, a, b),
        bytes_alike(bytes, x, y),
    ensures
        world_alike(
            bytes,
            a.posted(key, params, src, to, x),
            b.posted(key, params, src, to, y),
        ),
        a.posted(key, params, src, to, x).hosts == a.hosts,
{
    let (delay, rng1) = if params.delay_max.nanos > params.delay_min.nanos {
        range_u64_draw(a.rng, params.delay_min.nanos, params.delay_max.nanos)
    } else {
        (params.delay_min.nanos, a.rng)
    };
    let p = params.reorder_probability;
    let (reordered, rng2) = if p.numerator > 0 {
        ratio_draw(rng1, p.numerator, p.denominator)
    } else {
        (false, rng1)
    };
    let arrival = sat_u64(a.now + delay);
    let horizon = if a.horizon.dom().contains(key) {
        a.horizon[key]
    } else {
        0
    };
    let at = if !reordered && arrival < horizon {
        horizon
    } else {
        arrival
    };
    let after = if reordered {
        a.horizon
    } else {
        a.horizon.insert(key, at)
    };
    let w1 = WorldView { rng: rng2, horizon: after, ..a };
    let w2 = WorldView { rng: rng2, horizon: after, ..b };
    assert(world_alike(bytes, w1, w2));
    lemma_pushed_alike(
        bytes,
        w1,
        w2,
        at,
        EventView::Delivery { to_host: key.to, src, dst: to, payload: x },
        EventView::Delivery { to_host: key.to, src, dst: to, payload: y },
    );
}

proof fn lemma_faulted_alike(
    bytes: spec_fn(Seq<u8>, Seq<u8>) -> bool,
    a: WorldView,
    b: WorldView,
    key: LinkKey,
    params: LinkParams,
    src: SocketAddr,
    to: SocketAddr,
    x: Seq<u8>,
    y: Seq<u8>,
)
    requires
        world_alike(bytes, a, b),
        bytes_alike(bytes, x, y),
    ensures
        world_alike(
            bytes,
            a.faulted(key, params, src, to, x),
            b.faulted(key, params, src, to, y),
        ),
        a.faulted(key, params, src, to, x).hosts == a.hosts,
{
    let p = params.drop_probability;
    let (dropped, rng1) = ratio_draw(a.rng, p.numerator, p.denominator);
    if !dropped {
        let q = params.duplicate_probability;
        let (twice, rng2) = if q.numerator > 0 {
            ratio_draw(rng1, q.numerator, q.denominator)
        } else {
            (false, rng1)
        };
        let a2 = WorldView { rng: rng2, ..a };
        let b2 = WorldView { rng: rng2, ..b };
        assert(world_alike(bytes, a2, b2));
        if twice {
            let event = TraceEvent::LinkDuplicated {
                from: key.from,
                to: key.to,
            };
            let a3 = a2.recorded(event);
            let b3 = b2.recorded(event);
            assert(world_alike(bytes, a3, b3));
            lemma_posted_alike(bytes, a3, b3, key, params, src, to, x, y);
            lemma_posted_alike(
                bytes,
                a3.posted(key, params, src, to, x),
                b3.posted(key, params, src, to, y),
                key,
                params,
                src,
                to,
                x,
                y,
            );
        } else {
            lemma_posted_alike(bytes, a2, b2, key, params, src, to, x, y);
        }
    }
}

proof fn lemma_linked_alike(
    bytes: spec_fn(Seq<u8>, Seq<u8>) -> bool,
    a: WorldView,
    b: WorldView,
    sender: u32,
    src: SocketAddr,
    to: SocketAddr,
    x: Seq<u8>,
    y: Seq<u8>,
)
    requires
        world_alike(bytes, a, b),
        bytes_alike(bytes, x, y),
    ensures
        world_alike(bytes, a.linked(sender, src, to, x), b.linked(sender, src, to, y)),
        a.linked(sender, src, to, x).hosts == a.hosts,
{
    if a.owners.dom().contains(to.ip) {
        let owner = a.owners[to.ip];
        let params = a.link(sender, owner);
        let len = x.len() as usize;
        if params.up && !(params.mtu is Some && len > params.mtu->0) {
            let event = TraceEvent::HostSend {
                host: sender,
                from: src,
                to,
                len,
            };
            assert(world_alike(bytes, a.recorded(event), b.recorded(event)));
            lemma_faulted_alike(
                bytes,
                a.recorded(event),
                b.recorded(event),
                LinkKey { from: sender, to: owner },
                params,
                src,
                to,
                x,
                y,
            );
        }
    }
}

proof fn lemma_routed_alike(
    bytes: spec_fn(Seq<u8>, Seq<u8>) -> bool,
    a: WorldView,
    b: WorldView,
    sender: u32,
    from: SocketAddr,
    to: SocketAddr,
    x: Seq<u8>,
    y: Seq<u8>,
)
    requires
        world_alike(bytes, a, b),
        bytes_alike(bytes, x, y),
        sender < a.hosts.len(),
    ensures
        world_alike(bytes, a.routed(sender, from, to, x), b.routed(sender, from, to, y)),
        a.routed(sender, from, to, x).hosts.len() == a.hosts.len(),
{
    let host = a.hosts[sender as int];
    assert(!(host.kind is Probe));
    let firewall = match host.firewall {
        Some(f) => Some(
            FirewallView {
                flows: f.flows.insert(Flow { local: from, remote: to }, a.now),
                ..f
            },
        ),
        None => None,
    };
    let (src, chain, trace) = through_chain(host.chain, 0, a.now, from, to, sender, a.trace);
    let hosts = a.hosts.update(sender as int, HostView { chain, firewall, ..host });
    let v = WorldView { hosts, trace, ..a };
    let w = WorldView { hosts, trace, ..b };
    assert(world_alike(bytes, v, w));
    if let Some(src) = src {
        lemma_linked_alike(bytes, v, w, sender, src, to, x, y);
    }
}

proof fn lemma_routed_all_alike(
    bytes: spec_fn(Seq<u8>, Seq<u8>) -> bool,
    a: WorldView,
    b: WorldView,
    sender: u32,
    x: Seq<SendView>,
    y: Seq<SendView>,
)
    requires
        world_alike(bytes, a, b),
        sends_alike(bytes, x, y),
        sender < a.hosts.len(),
    ensures
        world_alike(bytes, a.routed_all(sender, x), b.routed_all(sender, y)),
        a.routed_all(sender, x).hosts.len() == a.hosts.len(),
    decreases x.len(),
{
    if x.len() > 0 {
        assert forall|i: int| 0 <= i < x.len() - 1 implies {
            &&& (#[trigger] x.drop_last()[i]).from == y.drop_last()[i].from
            &&& x.drop_last()[i].to == y.drop_last()[i].to
            &&& bytes_alike(bytes, x.drop_last()[i].payload, y.drop_last()[i].payload)
        } by {
            assert(x[i].from == y[i].from);
        }
        lemma_routed_all_alike(bytes, a, b, sender, x.drop_last(), y.drop_last());
        assert(x[x.len() - 1].from == y[x.len() - 1].from);
        lemma_routed_alike(
            bytes,
            a.routed_all(sender, x.drop_last()),
            b.routed_all(sender, y.drop_last()),
            sender,
            x.last().from,
            x.last().to,
            x.last().payload,
            y.last().payload,
        );
    }
}

proof fn lemma_noted_all_alike(
    bytes: spec_fn(Seq<u8>, Seq<u8>) -> bool,
    a: WorldView,
    b: WorldView,
    host: u32,
    notes: Seq<NoteView>,
)
    requires
        world_alike(bytes, a, b),
        host < a.hosts.len(),
    ensures
        world_alike(bytes, a.noted_all(host, notes), b.noted_all(host, notes)),
        a.noted_all(host, notes).hosts.len() == a.hosts.len(),
    decreases notes.len(),
{
    if notes.len() > 0 {
        lemma_noted_all_alike(bytes, a, b, host, notes.drop_last());
        let w1 = a.noted_all(host, notes.drop_last());
        let w2 = b.noted_all(host, notes.drop_last());
        assert(w1.noted(host, notes.last()).queue == w1.queue);
        assert(w2.noted(host, notes.last()).queue == w2.queue);
        assert(!(w1.hosts[host as int].kind is Probe));
    }
}

proof fn lemma_scheduled_alike(
    bytes: spec_fn(Seq<u8>, Seq<u8>) -> bool,
    a: WorldView,
    b: WorldView,
    host: u32,
    deadline: Option<u64>,
)
    requires
        world_alike(bytes, a, b),
        host < a.hosts.len(),
    ensures
        world_alike(bytes, a.scheduled(host, deadline), b.scheduled(host, deadline)),
        a.scheduled(host, deadline).hosts.len() == a.hosts.len(),
{
    let entry = a.hosts[host as int];
    assert(!(entry.kind is Probe));
    if entry.up {
        if let Some(due) = deadline {
            let soonest = sat_u64(
                a.now + TIMER_MIN_ADVANCE_NANOS,
            );
            let at = if due > soonest {
                due
            } else {
                soonest
            };
            if entry.next_timer != Some(at) {
                let generation = bumped(entry.timer_generation);
                let hosts = a.hosts.update(
                    host as int,
                    HostView {
                        next_timer: Some(at),
                        timer_generation: generation,
                        ..entry
                    },
                );
                let w1 = WorldView { hosts, ..a };
                let w2 = WorldView { hosts, ..b };
                assert(world_alike(bytes, w1, w2));
                lemma_pushed_alike(
                    bytes,
                    w1,
                    w2,
                    at,
                    EventView::Timer { host, generation },
                    EventView::Timer { host, generation },
                );
            }
        }
    }
}

/// What an outbox comes to depends on what it holds alone.
proof fn lemma_outgoing_alike(
    bytes: spec_fn(Seq<u8>, Seq<u8>) -> bool,
    a: Seq<Outgoing>,
    b: Seq<Outgoing>,
    sockets: Seq<SocketAddr>,
)
    requires
        sent_alike(bytes, outbox_view(a), outbox_view(b)),
    ensures
        sends_alike(bytes, outgoing(a, sockets), outgoing(b, sockets)),
    decreases a.len(),
{
    assert(a.len() == outbox_view(a).len());
    assert(b.len() == outbox_view(b).len());
    if a.len() > 0 {
        assert(outbox_view(a.drop_last()) =~= outbox_view(a).drop_last());
        assert(outbox_view(b.drop_last()) =~= outbox_view(b).drop_last());
        assert forall|i: int| 0 <= i < a.len() - 1 implies {
            &&& (#[trigger] outbox_view(a.drop_last())[i]).0 == outbox_view(b.drop_last())[i].0
            &&& outbox_view(a.drop_last())[i].1 == outbox_view(b.drop_last())[i].1
            &&& bytes_alike(
                bytes,
                outbox_view(a.drop_last())[i].2,
                outbox_view(b.drop_last())[i].2,
            )
        } by {
            assert(outbox_view(a)[i].0 == outbox_view(b)[i].0);
        }
        lemma_outgoing_alike(bytes, a.drop_last(), b.drop_last(), sockets);
        assert(outbox_view(a)[a.len() - 1].0 == outbox_view(b)[a.len() - 1].0);
    }
}

proof fn lemma_called_alike<C: OverlayCore, T: OverlayTransport>(
    l: Likeness<C, T>,
    a: Node<C, T>,
    b: Node<C, T>,
    now: u64,
    x: CallView,
    y: CallView,
    one: Node<C, T>,
    other: Node<C, T>,
)
    requires
        l.is_kept(),
        l.nodes(a, b),
        call_alike(l.bytes, x, y),
        a.called(now, x, one),
        b.called(now, y, other),
    ensures
        l.nodes(one, other),
{
    reveal(Likeness::kept_by_cores);
    reveal(Likeness::kept_by_transports);
    let ea = SimEnv { now, ..a.env };
    let eb = SimEnv { now, ..b.env };
    assert(env_alike(l.bytes, ea.seen(), eb.seen()));
    match a.machine {
        Machine::Transport(transport) => {
            let t2 = b.machine->Transport_0;
            let t1_after = one.machine->Transport_0;
            let t2_after = other.machine->Transport_0;
            if let CallView::Send { to, payload } = x {
                let r1 = choose|r: Result<(), QueueError>| #[trigger]
                    transport.takes_outbound(ea.seen(), to, payload, r, &t1_after, one.env.seen());
                let r2 = choose|r: Result<(), QueueError>| #[trigger]
                    t2.takes_outbound(eb.seen(), to, payload, r, &t2_after, other.env.seen());
                assert(transport.takes_outbound(
                    ea.seen(),
                    to,
                    payload,
                    r1,
                    &t1_after,
                    one.env.seen(),
                ));
                assert(t2.takes_outbound(eb.seen(), to, payload, r2, &t2_after, other.env.seen()));
            }
        },
        _ => {},
    }
}

proof fn lemma_reported_alike<C: OverlayCore, T: OverlayTransport>(
    l: Likeness<C, T>,
    a: Node<C, T>,
    b: Node<C, T>,
    n1: Seq<NoteView>,
    one: Node<C, T>,
    n2: Seq<NoteView>,
    other: Node<C, T>,
)
    requires
        l.is_kept(),
        l.nodes(a, b),
        a.reported(n1, one),
        b.reported(n2, other),
    ensures
        n1 == n2,
        l.nodes(one, other),
{
    reveal(Likeness::kept_by_cores);
    reveal(Likeness::kept_by_transports);
    match a.machine {
        Machine::Overlay(core) => {
            let second = b.machine->Overlay_0;
            let c1 = one.machine->Overlay_0;
            let c2 = other.machine->Overlay_0;
            let v1 = choose|events: Seq<CoreEvent>| #[trigger]
                core.tells(events, &c1) && n1 == core_notes(events);
            let v2 = choose|events: Seq<CoreEvent>| #[trigger]
                second.tells(events, &c2) && n2 == core_notes(events);
            assert(core.tells(v1, &c1) && second.tells(v2, &c2));
        },
        Machine::Transport(transport) => {
            let second = b.machine->Transport_0;
            let t1 = one.machine->Transport_0;
            let t2 = other.machine->Transport_0;
            let (v1, m1, i1) = choose|
                events: Seq<TransportEvent>,
                told: T,
                inbound: Seq<(SocketAddr, Vec<u8>)>,
            |
                #![trigger transport.tells(events, &told), told.hands_out(inbound, &t1)]
                transport.tells(events, &told) && told.hands_out(inbound, &t1) && n1
                    == transport_notes(events) + inbound_notes(inbound);
            let (v2, m2, i2) = choose|
                events: Seq<TransportEvent>,
                told: T,
                inbound: Seq<(SocketAddr, Vec<u8>)>,
            |
                #![trigger second.tells(events, &told), told.hands_out(inbound, &t2)]
                second.tells(events, &told) && told.hands_out(inbound, &t2) && n2
                    == transport_notes(events) + inbound_notes(inbound);
            assert(transport.tells(v1, &m1) && second.tells(v2, &m2));
            assert(m1.hands_out(i1, &t1) && m2.hands_out(i2, &t2));
        },
        Machine::Probe => {
            assert(n1 =~= n2);
        },
    }
}

proof fn lemma_due_alike<C: OverlayCore, T: OverlayTransport>(
    l: Likeness<C, T>,
    a: Node<C, T>,
    b: Node<C, T>,
    d1: Option<u64>,
    one: Node<C, T>,
    d2: Option<u64>,
    other: Node<C, T>,
)
    requires
        l.is_kept(),
        l.nodes(a, b),
        a.due(d1, one),
        b.due(d2, other),
    ensures
        d1 == d2,
        l.nodes(one, other),
{
    reveal(Likeness::kept_by_cores);
    reveal(Likeness::kept_by_transports);
}

proof fn lemma_wound_up_alike<C: OverlayCore, T: OverlayTransport>(
    l: Likeness<C, T>,
    a: Sim<C, T>,
    b: Sim<C, T>,
    host: u32,
    one: Sim<C, T>,
    other: Sim<C, T>,
)
    requires
        l.is_kept(),
        l.sims(a, b),
        host < a.nodes.len(),
        a.wound_up(host, one),
        b.wound_up(host, other),
    ensures
        l.sims(one, other),
{
    let h = host as int;
    let (q1, n1, t1, d1) = choose|
        quiet: Node<C, T>,
        notes: Seq<NoteView>,
        told: Node<C, T>,
        deadline: Option<u64>,
    | #[trigger]
        a.wound_up_by(host, quiet, notes, told, deadline, one);
    let (q2, n2, t2, d2) = choose|
        quiet: Node<C, T>,
        notes: Seq<NoteView>,
        told: Node<C, T>,
        deadline: Option<u64>,
    | #[trigger]
        b.wound_up_by(host, quiet, notes, told, deadline, other);
    assert(l.nodes(a.nodes[h], b.nodes[h]));
    assert(outbox_view(q1.env.outbox@) =~= outbox_view(q2.env.outbox@));
    assert(l.nodes(q1, q2));
    lemma_reported_alike(l, q1, q2, n1, t1, n2, t2);
    lemma_due_alike(l, t1, t2, d1, one.nodes[h], d2, other.nodes[h]);
    let s1 = outgoing(a.nodes[h].env.outbox@, a.nodes[h].env.sockets@);
    let s2 = outgoing(b.nodes[h].env.outbox@, b.nodes[h].env.sockets@);
    assert(a.nodes[h].env.seen().sockets == b.nodes[h].env.seen().sockets);
    lemma_outgoing_alike(
        l.bytes,
        a.nodes[h].env.outbox@,
        b.nodes[h].env.outbox@,
        a.nodes[h].env.sockets@,
    );
    lemma_noted_all_alike(l.bytes, a.world, b.world, host, n1);
    let x = a.world.noted_all(host, n1);
    let y = b.world.noted_all(host, n1);
    lemma_routed_all_alike(l.bytes, x, y, host, s1, s2);
    lemma_scheduled_alike(l.bytes, x.routed_all(host, s1), y.routed_all(host, s2), host, d1);
    assert forall|i: int| 0 <= i < one.nodes.len() implies l.nodes(
        #[trigger] one.nodes[i],
        other.nodes[i],
    ) by {
        if i != h {
            assert(one.nodes[i] == a.nodes[i]);
            assert(other.nodes[i] == b.nodes[i]);
            assert(l.nodes(a.nodes[i], b.nodes[i]));
        }
    }
}

pub proof fn lemma_reacted_alike<C: OverlayCore, T: OverlayTransport>(
    l: Likeness<C, T>,
    a: Sim<C, T>,
    b: Sim<C, T>,
    host: u32,
    x: CallView,
    y: CallView,
    one: Sim<C, T>,
    other: Sim<C, T>,
)
    requires
        l.is_kept(),
        l.sims(a, b),
        host < a.nodes.len(),
        call_alike(l.bytes, x, y),
        a.reacted(host, x, one),
        b.reacted(host, y, other),
    ensures
        l.sims(one, other),
{
    let h = host as int;
    let now = a.world.now;
    let r1 = choose|ran: Node<C, T>| #[trigger]
        a.nodes[h].called(now, x, ran) && a.with_ran(host, ran).wound_up(host, one);
    let r2 = choose|ran: Node<C, T>| #[trigger]
        b.nodes[h].called(now, y, ran) && b.with_ran(host, ran).wound_up(host, other);
    assert(l.nodes(a.nodes[h], b.nodes[h]));
    lemma_called_alike(l, a.nodes[h], b.nodes[h], now, x, y, r1, r2);
    let p = a.with_ran(host, r1);
    let q = b.with_ran(host, r2);
    assert(r1.env.seen().sockets == r2.env.seen().sockets);
    assert(r1.env.seen().next_ephemeral == r2.env.seen().next_ephemeral);
    assert(world_alike(l.bytes, p.world, q.world));
    assert forall|i: int| 0 <= i < p.nodes.len() implies l.nodes(
        #[trigger] p.nodes[i],
        q.nodes[i],
    ) by {
        if i != h {
            assert(l.nodes(a.nodes[i], b.nodes[i]));
        }
    }
    assert(l.sims(p, q));
    lemma_wound_up_alike(l, p, q, host, one, other);
}

pub proof fn lemma_timed_alike<C: OverlayCore, T: OverlayTransport>(
    l: Likeness<C, T>,
    a: Sim<C, T>,
    b: Sim<C, T>,
    host: u32,
    one: Sim<C, T>,
    other: Sim<C, T>,
)
    requires
        l.is_kept(),
        l.sims(a, b),
        host < a.nodes.len(),
        a.timed(host, one),
        b.timed(host, other),
    ensures
        l.sims(one, other),
        one.nodes.len() == a.nodes.len(),
{
    let h = host as int;
    let d1 = choose|deadline: Option<u64>|
        {
            &&& #[trigger] a.nodes[h].due(deadline, one.nodes[h])
            &&& one.world == a.world.scheduled(host, deadline)
            &&& one.nodes == a.nodes.update(h, one.nodes[h])
        };
    let d2 = choose|deadline: Option<u64>|
        {
            &&& #[trigger] b.nodes[h].due(deadline, other.nodes[h])
            &&& other.world == b.world.scheduled(host, deadline)
            &&& other.nodes == b.nodes.update(h, other.nodes[h])
        };
    assert(l.nodes(a.nodes[h], b.nodes[h]));
    lemma_due_alike(l, a.nodes[h], b.nodes[h], d1, one.nodes[h], d2, other.nodes[h]);
    lemma_scheduled_alike(l.bytes, a.world, b.world, host, d1);
    assert forall|i: int| 0 <= i < one.nodes.len() implies l.nodes(
        #[trigger] one.nodes[i],
        other.nodes[i],
    ) by {
        if i != h {
            assert(one.nodes[i] == a.nodes[i]);
            assert(other.nodes[i] == b.nodes[i]);
            assert(l.nodes(a.nodes[i], b.nodes[i]));
        }
    }
}

/// What changes in the world alone keeps its machines.
pub proof fn lemma_world_changed<C: OverlayCore, T: OverlayTransport>(
    l: Likeness<C, T>,
    a: Sim<C, T>,
    b: Sim<C, T>,
    x: WorldView,
    y: WorldView,
)
    requires
        l.sims(a, b),
        world_alike(l.bytes, x, y),
        x.hosts.len() == a.world.hosts.len(),
    ensures
        l.sims(Sim { world: x, ..a }, Sim { world: y, ..b }),
{
    let p = Sim { world: x, ..a };
    let q = Sim { world: y, ..b };
    assert forall|i: int| 0 <= i < p.nodes.len() implies l.nodes(
        #[trigger] p.nodes[i],
        q.nodes[i],
    ) by {
        assert(l.nodes(a.nodes[i], b.nodes[i]));
    }
}

proof fn lemma_handled_alike<C: OverlayCore, T: OverlayTransport>(
    l: Likeness<C, T>,
    a: Sim<C, T>,
    b: Sim<C, T>,
    x: EventView,
    y: EventView,
    one: Sim<C, T>,
    other: Sim<C, T>,
)
    requires
        l.is_kept(),
        l.sims(a, b),
        event_alike(l.bytes, x, y),
        a.world.names_host(x),
        a.handled(x, one),
        b.handled(y, other),
    ensures
        l.sims(one, other),
{
    match (x, y) {
        (
            EventView::Delivery { to_host, src, dst, payload },
            EventView::Delivery { payload: second, .. },
        ) => {
            let (arrival, v) = a.world.arrived(to_host, src, dst, payload);
            let (arrival2, w) = b.world.arrived(to_host, src, dst, second);
            assert(!(a.world.hosts[to_host as int].kind is Probe));
            assert(arrival == arrival2);
            assert(world_alike(l.bytes, v, w));
            lemma_world_changed(l, a, b, v, w);
            if arrival is Some {
                let socket = (arrival->0).0;
                lemma_reacted_alike(
                    l,
                    Sim { world: v, ..a },
                    Sim { world: w, ..b },
                    to_host,
                    CallView::Datagram { socket, src, payload },
                    CallView::Datagram { socket, src, payload: second },
                    one,
                    other,
                );
            }
        },
        (EventView::Timer { host, generation }, _) => {
            let entry = a.world.hosts[host as int];
            assert(!(entry.kind is Probe));
            let v = a.world.fired(host);
            let w = b.world.fired(host);
            assert(world_alike(l.bytes, v, w));
            lemma_world_changed(l, a, b, v, w);
            if entry.up && entry.timer_generation == generation {
                lemma_reacted_alike(
                    l,
                    Sim { world: v, ..a },
                    Sim { world: w, ..b },
                    host,
                    CallView::Timer,
                    CallView::Timer,
                    one,
                    other,
                );
            }
        },
        _ => {},
    }
}

proof fn lemma_reaches_alike<C: OverlayCore, T: OverlayTransport>(
    l: Likeness<C, T>,
    a: Sim<C, T>,
    b: Sim<C, T>,
    n: nat,
    target: u64,
    one: Sim<C, T>,
    other: Sim<C, T>,
)
    requires
        l.is_kept(),
        l.sims(a, b),
        a.reaches(n, target, one),
        b.reaches(n, target, other),
    ensures
        l.sims(one, other),
    decreases n,
{
    if n > 0 {
        let m1 = choose|mid: Sim<C, T>|
            a.reaches((n - 1) as nat, target, mid) && mid.wf() && #[trigger] mid.world.due(target)
                && mid.popped().handled(mid.world.queue[0].event, one);
        let m2 = choose|mid: Sim<C, T>|
            b.reaches((n - 1) as nat, target, mid) && mid.wf() && #[trigger] mid.world.due(target)
                && mid.popped().handled(mid.world.queue[0].event, other);
        lemma_reaches_alike(l, a, b, (n - 1) as nat, target, m1, m2);
        lemma_popped_wf(m1.world);
        let v = m1.world.popped();
        let w = m2.world.popped();
        assert(m1.world.queue[0].at == m2.world.queue[0].at);
        assert forall|i: int| 0 <= i < v.queue.len() implies {
            &&& (#[trigger] v.queue[i]).at == w.queue[i].at
            &&& v.queue[i].seq == w.queue[i].seq
            &&& event_alike(l.bytes, v.queue[i].event, w.queue[i].event)
        } by {
            assert(m1.world.queue[i + 1].at == m2.world.queue[i + 1].at);
        }
        assert(world_alike(l.bytes, v, w));
        lemma_world_changed(l, m1, m2, v, w);
        lemma_handled_alike(
            l,
            m1.popped(),
            m2.popped(),
            m1.world.queue[0].event,
            m2.world.queue[0].event,
            one,
            other,
        );
    }
}

/// A world without probes runs in one way only, up to what its datagrams hold,
/// as long as its machines keep to a likeness: worlds that are alike are alike
/// at every later time, and have the same trace.
pub proof fn law_run_deterministic<C: OverlayCore, T: OverlayTransport>(
    l: Likeness<C, T>,
    a: Sim<C, T>,
    b: Sim<C, T>,
    target: u64,
    one: Sim<C, T>,
    other: Sim<C, T>,
)
    requires
        l.is_kept(),
        l.sims(a, b),
        a.ran_to(target, one),
        b.ran_to(target, other),
    ensures
        l.sims(one, other),
        one.world.trace == other.world.trace,
{
    let (n, x) = choose|n: nat, last: Sim<C, T>| #[trigger]
        a.reaches(n, target, last) && !last.world.due(target) && one == (Sim {
            world: WorldView { now: target, ..last.world },
            ..last
        });
    let (m, y) = choose|m: nat, last: Sim<C, T>| #[trigger]
        b.reaches(m, target, last) && !last.world.due(target) && other == (Sim {
            world: WorldView { now: target, ..last.world },
            ..last
        });
    if n < m {
        lemma_reaches_prefix(b, n, m, target, y);
        let mid = choose|mid: Sim<C, T>|
            b.reaches(n, target, mid) && #[trigger] mid.world.due(target);
        lemma_reaches_alike(l, a, b, n, target, x, mid);
        assert(x.world.queue[0].at == mid.world.queue[0].at);
    } else if m < n {
        lemma_reaches_prefix(a, m, n, target, x);
        let mid = choose|mid: Sim<C, T>|
            a.reaches(m, target, mid) && #[trigger] mid.world.due(target);
        lemma_reaches_alike(l, a, b, m, target, mid, y);
        assert(mid.world.queue[0].at == y.world.queue[0].at);
    }
    lemma_reaches_alike(l, a, b, n, target, x, y);
    lemma_world_changed(l, x, y, one.world, other.world);
}

pub proof fn lemma_joined_alike<C: OverlayCore, T: OverlayTransport>(
    l: Likeness<C, T>,
    a: Sim<C, T>,
    b: Sim<C, T>,
    options: OptionsView,
    kind: KindView,
    x: Machine<C, T>,
    y: Machine<C, T>,
    one: Sim<C, T>,
    other: Sim<C, T>,
)
    requires
        l.is_kept(),
        l.sims(a, b),
        l.machines(x, y),
        !(kind is Probe),
        a.world.hosts.len() < MAX_HOSTS,
        a.joined(options, kind, x, one),
        b.joined(options, kind, y, other),
    ensures
        l.sims(one, other),
        one.nodes.len() == a.nodes.len() + 1,
{
    let id = a.world.hosts.len() as u32;
    let v = a.world.with_node(options, kind);
    let w = b.world.with_node(options, kind);
    let m1 = choose|mid: Sim<C, T>| #[trigger] a.added(v, x, mid) && mid.timed(id, one);
    let m2 = choose|mid: Sim<C, T>| #[trigger] b.added(w, y, mid) && mid.timed(id, other);
    assert(world_alike(l.bytes, v, w));
    assert forall|i: int| 0 <= i < m1.nodes.len() implies l.nodes(
        #[trigger] m1.nodes[i],
        m2.nodes[i],
    ) by {
        if i < a.nodes.len() {
            assert(m1.nodes.drop_last()[i] == m1.nodes[i]);
            assert(m2.nodes.drop_last()[i] == m2.nodes[i]);
            assert(l.nodes(a.nodes[i], b.nodes[i]));
        } else {
            let p = m1.nodes.last().env;
            let q = m2.nodes.last().env;
            assert(outbox_view(p.outbox@) =~= outbox_view(q.outbox@));
            assert(p.seen() =~= q.seen());
            assert(sent_alike(l.bytes, p.seen().sent, q.seen().sent));
        }
    }
    assert(l.sims(m1, m2));
    lemma_timed_alike(l, m1, m2, id, one, other);
}

/// In-memory transports are alike where they hold the same, and bytes where
/// they are equal.
pub open spec fn mem_likeness<C>(cores: spec_fn(C, C) -> bool) -> Likeness<C, MemTransport> {
    Likeness {
        cores,
        transports: |a: MemTransport, b: MemTransport| a@ == b@,
        bytes: |x: Seq<u8>, y: Seq<u8>| x == y,
    }
}

/// In-memory transports keep to their likeness: what one does is determined by
/// what it holds and by what it is called with.
pub proof fn law_mem_transport_deterministic<C: OverlayCore>(cores: spec_fn(C, C) -> bool)
    ensures
        mem_likeness::<C>(cores).kept_by_transports(),
{
    reveal(Likeness::kept_by_transports);
    let l = mem_likeness::<C>(cores);
    assert forall|e1: EnvView, e2: EnvView| #[trigger] env_alike(l.bytes, e1, e2) implies e1
        == e2 by {
        assert(e1.sent =~= e2.sent) by {
            assert forall|i: int| 0 <= i < e1.sent.len() implies e1.sent[i] == e2.sent[i] by {
                assert(e1.sent[i].0 == e2.sent[i].0);
            }
        }
    }
    assert forall|e: EnvView| e.clock is Some implies env_alike(l.bytes, e, e) by {
    }
    assert forall|
        a: MemTransport,
        b: MemTransport,
        v1: Seq<TransportEvent>,
        v2: Seq<TransportEvent>,
        a1: MemTransport,
        b1: MemTransport,
    |
        #![trigger a.tells(v1, &a1), b.tells(v2, &b1)]
        (l.transports)(a, b) && a.tells(v1, &a1) && b.tells(v2, &b1) implies transport_notes(v1)
        == transport_notes(v2) && (l.transports)(a1, b1) by {
        lemma_events_alike(v1, v2);
    }
    assert forall|
        a: MemTransport,
        b: MemTransport,
        v1: Seq<(SocketAddr, Vec<u8>)>,
        v2: Seq<(SocketAddr, Vec<u8>)>,
        a1: MemTransport,
        b1: MemTransport,
    |
        #![trigger a.hands_out(v1, &a1), b.hands_out(v2, &b1)]
        (l.transports)(a, b) && a.hands_out(v1, &a1) && b.hands_out(v2, &b1) implies inbound_notes(
        v1,
    ) == inbound_notes(v2) && (l.transports)(a1, b1) by {
        lemma_inbound_alike(v1, v2);
    }
}

pub proof fn lemma_events_alike(a: Seq<TransportEvent>, b: Seq<TransportEvent>)
    requires
        transport_events(a) == transport_events(b),
    ensures
        transport_notes(a) == transport_notes(b),
{
    assert(a.len() == transport_events(a).len());
    assert(b.len() == transport_events(b).len());
    assert forall|i: int| 0 <= i < a.len() implies transport_notes(a)[i] == transport_notes(
        b,
    )[i] by {
        assert(transport_events(a)[i] == transport_event(a[i]));
        assert(transport_events(b)[i] == transport_event(b[i]));
        assert(a[i] is Connected == b[i] is Connected);
    }
    assert(transport_notes(a) =~= transport_notes(b));
}

pub proof fn lemma_inbound_alike(a: Seq<(SocketAddr, Vec<u8>)>, b: Seq<(SocketAddr, Vec<u8>)>)
    requires
        addressed(a) == addressed(b),
    ensures
        inbound_notes(a) == inbound_notes(b),
{
    assert(a.len() == addressed(a).len());
    assert(b.len() == addressed(b).len());
    assert forall|i: int| 0 <= i < a.len() implies inbound_notes(a)[i] == inbound_notes(b)[i] by {
        assert(addressed(a)[i] == addressed(b)[i]);
    }
    assert(inbound_notes(a) =~= inbound_notes(b));
}

} // verus!
