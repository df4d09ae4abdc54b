//! The discrete-event world: hosts, links, NAT boxes and one queue of events.
//!
//! A single loop drives the nodes under virtual time. One seed and one
//! scenario give one execution, and the trace hash is its witness.

use rand::rngs::StdRng;
use vstd::prelude::*;
use crate::addr::{IpAddr, SocketAddr};
use crate::codec::{bytes_views, copy_range, copy_vec};
use crate::digest::{hash_bytes, hash_of};
use crate::ordmap::{OrdMap, Rank};
use crate::overlay::env::{BindError, EnvView, OverlayEnv, SocketId};
use crate::overlay::quic::{counts_listed, OverlayQuicTransport, PathCounts};
use crate::overlay::service::{ConfigView, CoreEvent, OverlayConfig, OverlayCore, OverlayMode};
use crate::overlay::sim::crypto;
use crate::overlay::sim::nat_box::{
    FirewallBox, FirewallConfig, FirewallView, NatBox, NatConfig, NatStats, NatView,
};
use crate::overlay::sim::links::{
    delayed_within, is_certain, keeps_to_link, lemma_posted_within, lemma_within_twice,
};
use crate::overlay::sim::net::LinkParams;
use crate::overlay::sim::scenario::ScenarioKit;
use crate::overlay::sim::trace::{traced, Printing, Trace, TraceEvent, TraceView};
use crate::overlay::transport::{
    addressed, OverlayTransport, QueueError, TransportEvent,
};
use crate::pubkey::Pubkey;
use crate::rng::{
    keyed_state, random_range_u64, random_ratio, range_u64_draw, ratio_draw, rng_state,
    seed_from_bytes, seed_from_u64, seeded_state,
};
use crate::text::{decimal_of, put_decimal};
use crate::time::{bump, bumped, sat_u64, Duration};
use crate::types::PACKET_DATA_SIZE;

verus! {

pub const MAX_HOSTS: usize = 200;

pub const MAX_DELIVERED_SHREDS: usize = 65_536;

pub const MAX_PROBE_RECEIVED: usize = 8_192;

pub const EPHEMERAL_PORT_START: u16 = 49_152;

/// Timers never fire at or before the current instant: virtual time advances
/// even for deadlines that have passed.
pub const TIMER_MIN_ADVANCE_NANOS: u64 = 1_000;

#[derive(Clone, Copy, Debug, PartialEq, Eq, Structural)]
pub struct HostId(pub u32);

/// A directed pair of hosts.
#[derive(Clone, Copy, Debug, PartialEq, Eq, Structural)]
pub struct LinkKey {
    pub from: u32,
    pub to: u32,
}

impl Rank for LinkKey {
    open spec fn rank(self) -> int {
        self.from * 0x1_0000_0000 + self.to
    }

    proof fn rank_injective(a: Self, b: Self) {
    }

    fn before(&self, other: &Self) -> (r: bool) {
        self.from < other.from || (self.from == other.from && self.to < other.to)
    }
}

/// What a probe received.
#[derive(Debug)]
pub struct ProbeDatagram {
    pub at_nanos: u64,
    pub socket: SocketId,
    pub src: SocketAddr,
    pub dst: SocketAddr,
    pub payload: Vec<u8>,
}

pub struct ProbeView {
    pub at_nanos: u64,
    pub socket: SocketId,
    pub src: SocketAddr,
    pub dst: SocketAddr,
    pub payload: Seq<u8>,
}

impl ProbeDatagram {
    pub open spec fn view(&self) -> ProbeView {
        ProbeView {
            at_nanos: self.at_nanos,
            socket: self.socket,
            src: self.src,
            dst: self.dst,
            payload: self.payload@,
        }
    }
}

/// What a host has taken in, by what runs on it.
pub enum KindView {
    Overlay(Seq<Seq<u8>>),
    Transport(Seq<(SocketAddr, Seq<u8>)>),
    Probe(Seq<ProbeView>),
}

/// A host as the contracts speak of it: all but the state of the machine that
/// runs on it.
#[verifier::ext_equal]
pub struct HostView {
    pub up: bool,
    pub chain: Seq<NatView>,
    pub firewall: Option<FirewallView>,
    pub lan_ip: IpAddr,
    /// Who the node is; a probe is nobody.
    pub identity: Option<Pubkey>,
    /// What a node that runs a core was set up with.
    pub setup: Option<OptionsView>,
    pub sockets: Seq<SocketAddr>,
    pub next_ephemeral: u16,
    pub kind: KindView,
    pub timer_generation: u64,
    pub next_timer: Option<u64>,
}

pub enum EventView {
    Delivery { to_host: u32, src: SocketAddr, dst: SocketAddr, payload: Seq<u8> },
    Timer { host: u32, generation: u64 },
}

pub struct QueuedView {
    pub at: u64,
    pub seq: u64,
    pub event: EventView,
}

/// A datagram that a host sends.
pub struct SendView {
    pub from: SocketAddr,
    pub to: SocketAddr,
    pub payload: Seq<u8>,
}

/// What a machine reports.
pub enum NoteView {
    Shred(Seq<u8>),
    Connected { peer: SocketAddr, pubkey: Option<Pubkey> },
    Disconnected { peer: SocketAddr },
    App { from: SocketAddr, payload: Seq<u8> },
}

/// The queue with `e` in it, after every event that is not later.
pub open spec fn queued(q: Seq<QueuedView>, e: QueuedView) -> Seq<QueuedView>
    decreases q.len(),
{
    if q.len() == 0 || q.last().at <= e.at {
        q.push(e)
    } else {
        queued(q.drop_last(), e).push(q.last())
    }
}

/// Carries a datagram out through the boxes from `level` on. Gives the source
/// address that it leaves with, unless a box drops it.
pub open spec fn through_chain(
    chain: Seq<NatView>,
    level: nat,
    now: u64,
    src: SocketAddr,
    to: SocketAddr,
    host: u32,
    trace: TraceView,
) -> (Option<SocketAddr>, Seq<NatView>, TraceView)
    decreases chain.len() - level,
{
    if level >= chain.len() {
        (Some(src), chain, trace)
    } else {
        let (r, after) = chain[level as int].sent_out(now, src, to);
        let rest = chain.update(level as int, after);
        match r {
            Ok(pass) => through_chain(
                rest,
                level + 1,
                now,
                pass.external,
                to,
                host,
                if pass.created {
                    trace.recorded(
                        now,
                        TraceEvent::NatMapped {
                            host,
                            level: (level % 256) as u8,
                            internal: src,
                            external: pass.external,
                        },
                    )
                } else {
                    trace
                },
            ),
            Err(reason) => (
                None,
                rest,
                trace.recorded(
                    now,
                    TraceEvent::NatDropped {
                        host,
                        level: (level % 256) as u8,
                        reason: reason.label(),
                    },
                ),
            ),
        }
    }
}

/// Carries a datagram in through the boxes below `level`, outermost first. A
/// box acts on what is addressed to it. Gives the address that the datagram
/// ends up with, unless a box drops it.
pub open spec fn into_chain(
    chain: Seq<NatView>,
    level: nat,
    now: u64,
    src: SocketAddr,
    dst: SocketAddr,
    host: u32,
    trace: TraceView,
) -> (Option<SocketAddr>, Seq<NatView>, TraceView)
    decreases level,
{
    if level == 0 || level > chain.len() {
        (Some(dst), chain, trace)
    } else {
        let at = (level - 1) as nat;
        if dst.ip != chain[at as int].external_ip {
            into_chain(chain, at, now, src, dst, host, trace)
        } else {
            let (r, after) = chain[at as int].let_in(now, src, dst);
            let rest = chain.update(at as int, after);
            match r {
                Ok(internal) => into_chain(rest, at, now, src, internal, host, trace),
                Err(reason) => (
                    None,
                    rest,
                    trace.recorded(
                        now,
                        TraceEvent::NatDropped {
                            host,
                            level: (at % 256) as u8,
                            reason: reason.label(),
                        },
                    ),
                ),
            }
        }
    }
}

/// The world as the contracts speak of it.
#[verifier::ext_equal]
pub struct WorldView {
    pub seed: u64,
    pub now: u64,
    pub seq: u64,
    pub queue: Seq<QueuedView>,
    pub hosts: Seq<HostView>,
    pub default_link: LinkParams,
    pub links: Map<LinkKey, LinkParams>,
    /// The latest delivery scheduled on each link, which FIFO traffic does not
    /// overtake.
    pub horizon: Map<LinkKey, u64>,
    pub owners: Map<IpAddr, u32>,
    pub rng: Seq<int>,
    pub trace: TraceView,
}

impl WorldView {
    /// The world before anything is in it.
    pub open spec fn empty(seed: u64) -> Self {
        WorldView {
            seed,
            now: 0,
            seq: 0,
            queue: Seq::empty(),
            hosts: Seq::empty(),
            default_link: LinkParams::clean(),
            links: Map::empty(),
            horizon: Map::empty(),
            owners: Map::empty(),
            rng: seeded_state(seed),
            trace: TraceView::empty(),
        }
    }

    /// Events are in order of time, then of arrival; addresses and events
    /// belong to hosts; link parameters are probabilities.
    pub open spec fn wf(self) -> bool {
        &&& self.hosts.len() <= MAX_HOSTS
        &&& self.default_link.wf()
        &&& forall|k: LinkKey| #[trigger] self.links.dom().contains(k) ==> self.links[k].wf()
        &&& forall|ip: IpAddr| #[trigger]
            self.owners.dom().contains(ip) ==> self.owners[ip] < self.hosts.len()
        &&& forall|i: int|
            0 <= i < self.queue.len() ==> (#[trigger] self.queue[i]).seq <= self.seq
                && self.names_host(self.queue[i].event)
        &&& forall|i: int, j: int|
            #![trigger self.queue[i], self.queue[j]]
            0 <= i < j < self.queue.len() ==> self.queue[i].at < self.queue[j].at || (
            self.queue[i].at == self.queue[j].at && self.queue[i].seq < self.queue[j].seq)
    }

    pub open spec fn names_host(self, event: EventView) -> bool {
        match event {
            EventView::Delivery { to_host, .. } => to_host < self.hosts.len(),
            EventView::Timer { host, .. } => host < self.hosts.len(),
        }
    }

    pub open spec fn recorded(self, event: TraceEvent) -> Self {
        WorldView { trace: self.trace.recorded(self.now, event), ..self }
    }

    /// One more event on the queue. A world that has numbered as many events
    /// as it can takes no more.
    pub open spec fn pushed(self, at: u64, event: EventView) -> Self {
        if self.seq == u64::MAX {
            self
        } else {
            let seq = (self.seq + 1) as u64;
            WorldView { seq, queue: queued(self.queue, QueuedView { at, seq, event }), ..self }
        }
    }

    /// What the link from `from` to `to` is like.
    pub open spec fn link(self, from: u32, to: u32) -> LinkParams {
        let key = LinkKey { from, to };
        if self.links.dom().contains(key) {
            self.links[key]
        } else {
            self.default_link
        }
    }

    /// Schedules one copy of a datagram on a link: after a delay within the
    /// link's bounds and, unless it escapes the order, no earlier than what
    /// was scheduled before it.
    pub open spec fn posted(
        self,
        key: LinkKey,
        params: LinkParams,
        src: SocketAddr,
        to: SocketAddr,
        payload: Seq<u8>,
    ) -> Self {
        let (delay, rng1) = if params.delay_max.nanos > params.delay_min.nanos {
            range_u64_draw(self.rng, params.delay_min.nanos, params.delay_max.nanos)
        } else {
            (params.delay_min.nanos, self.rng)
        };
        let p = params.reorder_probability;
        let (reordered, rng2) = if p.numerator > 0 {
            ratio_draw(rng1, p.numerator, p.denominator)
        } else {
            (false, rng1)
        };
        let arrival = sat_u64(self.now + delay);
        let horizon = if self.horizon.dom().contains(key) {
            self.horizon[key]
        } else {
            0
        };
        let at = if !reordered && arrival < horizon {
            horizon
        } else {
            arrival
        };
        let w = WorldView {
            rng: rng2,
            horizon: if reordered {
                self.horizon
            } else {
                self.horizon.insert(key, at)
            },
            ..self
        };
        w.pushed(at, EventView::Delivery { to_host: key.to, src, dst: to, payload })
    }

    /// What the network does with a datagram that left host `sender` from
    /// `src`: finds the host at `to` and applies the link's faults.
    pub open spec fn linked(
        self,
        sender: u32,
        src: SocketAddr,
        to: SocketAddr,
        payload: Seq<u8>,
    ) -> Self {
        if !self.owners.dom().contains(to.ip) {
            self.recorded(TraceEvent::NoRoute { from: sender, to })
        } else {
            let owner = self.owners[to.ip];
            let params = self.link(sender, owner);
            let len = payload.len() as usize;
            if !params.up {
                self.recorded(TraceEvent::LinkDown { from: sender, to: owner })
            } else if params.mtu is Some && len > params.mtu->0 {
                self.recorded(
                    TraceEvent::MtuDropped { from: sender, to: owner, len, mtu: params.mtu->0 },
                )
            } else {
                let sent = self.recorded(TraceEvent::HostSend { host: sender, from: src, to, len });
                sent.faulted(LinkKey { from: sender, to: owner }, params, src, to, payload)
            }
        }
    }

    /// Drops, duplicates and delays a datagram on a link.
    pub open spec fn faulted(
        self,
        key: LinkKey,
        params: LinkParams,
        src: SocketAddr,
        to: SocketAddr,
        payload: Seq<u8>,
    ) -> Self {
        let p = params.drop_probability;
        let (dropped, rng1) = ratio_draw(self.rng, p.numerator, p.denominator);
        let w1 = WorldView { rng: rng1, ..self };
        if dropped {
            w1.recorded(
                TraceEvent::LinkDropped { from: key.from, to: key.to, len: payload.len() as usize },
            )
        } else {
            let q = params.duplicate_probability;
            let (twice, rng2) = if q.numerator > 0 {
                ratio_draw(rng1, q.numerator, q.denominator)
            } else {
                (false, rng1)
            };
            let w2 = WorldView { rng: rng2, ..w1 };
            if twice {
                w2.recorded(TraceEvent::LinkDuplicated { from: key.from, to: key.to }).posted(
                    key,
                    params,
                    src,
                    to,
                    payload,
                ).posted(key, params, src, to, payload)
            } else {
                w2.posted(key, params, src, to, payload)
            }
        }
    }

    /// Carries a datagram from a socket of host `sender` towards `to`: through
    /// the firewall and the NAT boxes at once, then over the link. Inbound
    /// filtering happens on delivery, so that mappings can expire in flight.
    pub open spec fn routed(
        self,
        sender: u32,
        from: SocketAddr,
        to: SocketAddr,
        payload: Seq<u8>,
    ) -> Self {
        let host = self.hosts[sender as int];
        let firewall = match host.firewall {
            Some(f) => Some(
                FirewallView {
                    flows: f.flows.insert(
                        crate::overlay::sim::nat_box::Flow { local: from, remote: to },
                        self.now,
                    ),
                    ..f
                },
            ),
            None => None,
        };
        let (src, chain, trace) = through_chain(
            host.chain,
            0,
            self.now,
            from,
            to,
            sender,
            self.trace,
        );
        let w = WorldView {
            hosts: self.hosts.update(sender as int, HostView { chain, firewall, ..host }),
            trace,
            ..self
        };
        match src {
            None => w,
            Some(src) => w.linked(sender, src, to, payload),
        }
    }

    /// Routes datagrams one after the other.
    pub open spec fn routed_all(self, sender: u32, sends: Seq<SendView>) -> Self
        decreases sends.len(),
    {
        if sends.len() == 0 {
            self
        } else {
            let s = sends.last();
            self.routed_all(sender, sends.drop_last()).routed(sender, s.from, s.to, s.payload)
        }
    }

    /// Brings a datagram to a host: in through the boxes and the firewall to
    /// the socket that has its address. Gives the socket and the address, if
    /// it gets there.
    pub open spec fn arrived(
        self,
        to_host: u32,
        src: SocketAddr,
        dst: SocketAddr,
        payload: Seq<u8>,
    ) -> (Option<(SocketId, SocketAddr)>, Self) {
        let host = self.hosts[to_host as int];
        if !host.up {
            (None, self)
        } else {
            let (inner, chain, trace) = into_chain(
                host.chain,
                host.chain.len(),
                self.now,
                src,
                dst,
                to_host,
                self.trace,
            );
            let w = WorldView {
                hosts: self.hosts.update(to_host as int, HostView { chain, ..host }),
                trace,
                ..self
            };
            match inner {
                None => (None, w),
                Some(dst) => w.screened(to_host, src, dst, payload),
            }
        }
    }

    /// The firewall's part of a delivery, and the search for the socket.
    pub open spec fn screened(
        self,
        to_host: u32,
        src: SocketAddr,
        dst: SocketAddr,
        payload: Seq<u8>,
    ) -> (Option<(SocketId, SocketAddr)>, Self) {
        let host = self.hosts[to_host as int];
        let (passed, firewall) = match host.firewall {
            Some(f) => {
                let (r, after) = f.let_in(self.now, src, dst);
                (r, Some(after))
            },
            None => (Ok(()), None),
        };
        let w = WorldView {
            hosts: self.hosts.update(to_host as int, HostView { firewall, ..host }),
            ..self
        };
        match passed {
            Err(reason) => (
                None,
                w.recorded(
                    TraceEvent::NatDropped {
                        host: to_host,
                        level: (host.chain.len() % 256) as u8,
                        reason: reason.label(),
                    },
                ),
            ),
            Ok(_) => {
                if host.sockets.contains(dst) {
                    let socket = SocketId(host.sockets.index_of_first(dst)->0 as u32);
                    (
                        Some((socket, dst)),
                        w.recorded(
                            TraceEvent::Delivered {
                                host: to_host,
                                src,
                                dst,
                                len: payload.len() as usize,
                            },
                        ).probed(to_host, socket, src, dst, payload),
                    )
                } else {
                    (None, w.recorded(TraceEvent::NoSocket { host: to_host, dst }))
                }
            },
        }
    }

    /// A probe keeps what it receives, up to a limit.
    pub open spec fn probed(
        self,
        to_host: u32,
        socket: SocketId,
        src: SocketAddr,
        dst: SocketAddr,
        payload: Seq<u8>,
    ) -> Self {
        let host = self.hosts[to_host as int];
        match host.kind {
            KindView::Probe(received) if received.len() < MAX_PROBE_RECEIVED => {
                let datagram = ProbeView { at_nanos: self.now, socket, src, dst, payload };
                WorldView {
                    hosts: self.hosts.update(
                        to_host as int,
                        HostView { kind: KindView::Probe(received.push(datagram)), ..host },
                    ),
                    ..self
                }
            },
            _ => self,
        }
    }

    /// Takes down one report of a host's machine.
    pub open spec fn noted(self, host: u32, note: NoteView) -> Self {
        let entry = self.hosts[host as int];
        match note {
            NoteView::Shred(payload) => {
                let w = self.recorded(
                    TraceEvent::ShredDelivered { host, payload_hash: hash_of(payload) },
                );
                match entry.kind {
                    KindView::Overlay(delivered) if delivered.len() < MAX_DELIVERED_SHREDS => {
                        WorldView {
                            hosts: self.hosts.update(
                                host as int,
                                HostView {
                                    kind: KindView::Overlay(delivered.push(payload)),
                                    ..entry
                                },
                            ),
                            ..w
                        }
                    },
                    _ => w,
                }
            },
            NoteView::Connected { peer, pubkey } => self.recorded(
                TraceEvent::PeerConnected { host, peer, pubkey },
            ),
            NoteView::Disconnected { peer } => self.recorded(
                TraceEvent::PeerDisconnected { host, peer },
            ),
            NoteView::App { from, payload } => {
                let w = self.recorded(
                    TraceEvent::AppDatagram { host, from, payload_hash: hash_of(payload) },
                );
                match entry.kind {
                    KindView::Transport(received) if received.len() < MAX_DELIVERED_SHREDS => {
                        WorldView {
                            hosts: self.hosts.update(
                                host as int,
                                HostView {
                                    kind: KindView::Transport(received.push((from, payload))),
                                    ..entry
                                },
                            ),
                            ..w
                        }
                    },
                    _ => w,
                }
            },
        }
    }

    pub open spec fn noted_all(self, host: u32, notes: Seq<NoteView>) -> Self
        decreases notes.len(),
    {
        if notes.len() == 0 {
            self
        } else {
            self.noted_all(host, notes.drop_last()).noted(host, notes.last())
        }
    }

    /// Sets a host's timer for `deadline`, but never for the current instant.
    pub open spec fn scheduled(self, host: u32, deadline: Option<u64>) -> Self {
        let entry = self.hosts[host as int];
        if !entry.up || entry.kind is Probe {
            self
        } else {
            match deadline {
                None => WorldView {
                    hosts: self.hosts.update(host as int, HostView { next_timer: None, ..entry }),
                    ..self
                },
                Some(due) => {
                    let soonest = sat_u64(self.now + TIMER_MIN_ADVANCE_NANOS);
                    let at = if due > soonest {
                        due
                    } else {
                        soonest
                    };
                    if entry.next_timer == Some(at) {
                        self
                    } else {
                        let generation = bumped(entry.timer_generation);
                        (WorldView {
                            hosts: self.hosts.update(
                                host as int,
                                HostView {
                                    next_timer: Some(at),
                                    timer_generation: generation,
                                    ..entry
                                },
                            ),
                            ..self
                        }).pushed(at, EventView::Timer { host, generation })
                    }
                },
            }
        }
    }

    /// A host's sockets as its machine left them.
    pub open spec fn with_sockets(
        self,
        host: u32,
        sockets: Seq<SocketAddr>,
        next_ephemeral: u16,
    ) -> Self {
        WorldView {
            hosts: self.hosts.update(
                host as int,
                HostView { sockets, next_ephemeral, ..self.hosts[host as int] },
            ),
            ..self
        }
    }
}

/// A node to be put into the world.
#[derive(Debug)]
pub struct NodeOptions {
    pub mode: OverlayMode,
    pub static_peers: Vec<SocketAddr>,
    /// The NAT chain, innermost first; empty for a publicly routable host.
    pub nats: Vec<NatConfig>,
    /// Gives a public host an IPv6 address in place of an IPv4 one. A host
    /// behind NAT boxes stays on IPv4.
    pub ipv6: bool,
    /// A firewall in front of the host.
    pub firewall: Option<FirewallConfig>,
    pub bind_port: u16,
    pub fanout: usize,
    pub peer_ttl: Duration,
    pub shred_version: u16,
    /// `None` disables keepalives.
    pub keep_alive_interval: Option<Duration>,
    pub max_idle_timeout: Option<Duration>,
    pub initial_mtu: Option<u16>,
}

/// Options as the contracts speak of them.
#[verifier::ext_equal]
pub struct OptionsView {
    pub mode: OverlayMode,
    pub static_peers: Seq<SocketAddr>,
    pub nats: Seq<NatConfig>,
    pub ipv6: bool,
    pub firewall: Option<FirewallConfig>,
    pub bind_port: u16,
    pub fanout: usize,
    pub peer_ttl: Duration,
    pub shred_version: u16,
    pub keep_alive_interval: Option<Duration>,
    pub max_idle_timeout: Option<Duration>,
    pub initial_mtu: Option<u16>,
}

impl OptionsView {
    /// A public node without peers, with keepalives.
    pub open spec fn plain() -> Self {
        OptionsView {
            mode: OverlayMode::Sink,
            static_peers: Seq::empty(),
            nats: Seq::empty(),
            ipv6: false,
            firewall: None,
            bind_port: 65_410,
            fanout: 8,
            peer_ttl: Duration { nanos: 30_000_000_000 },
            shred_version: 0,
            keep_alive_interval: Some(Duration { nanos: 10_000_000_000 }),
            max_idle_timeout: Some(Duration { nanos: 30_000_000_000 }),
            initial_mtu: None,
        }
    }
}

impl NodeOptions {
    pub open spec fn view(&self) -> OptionsView {
        OptionsView {
            mode: self.mode,
            static_peers: self.static_peers@,
            nats: self.nats@,
            ipv6: self.ipv6,
            firewall: self.firewall,
            bind_port: self.bind_port,
            fanout: self.fanout,
            peer_ttl: self.peer_ttl,
            shred_version: self.shred_version,
            keep_alive_interval: self.keep_alive_interval,
            max_idle_timeout: self.max_idle_timeout,
            initial_mtu: self.initial_mtu,
        }
    }
}

impl NodeOptions {
    fn copied(&self) -> (options: Self)
        ensures
            options@ == self@,
    {
        NodeOptions {
            mode: self.mode,
            static_peers: copy_vec(&self.static_peers),
            nats: copy_vec(&self.nats),
            ipv6: self.ipv6,
            firewall: self.firewall,
            bind_port: self.bind_port,
            fanout: self.fanout,
            peer_ttl: self.peer_ttl,
            shred_version: self.shred_version,
            keep_alive_interval: self.keep_alive_interval,
            max_idle_timeout: self.max_idle_timeout,
            initial_mtu: self.initial_mtu,
        }
    }
}

impl Default for NodeOptions {
    fn default() -> (options: Self)
        ensures
            options@ == OptionsView::plain(),
    {
        NodeOptions {
            mode: OverlayMode::Sink,
            static_peers: Vec::new(),
            nats: Vec::new(),
            ipv6: false,
            firewall: None,
            bind_port: 65_410,
            fanout: 8,
            peer_ttl: Duration::from_secs(30),
            shred_version: 0,
            keep_alive_interval: Some(Duration::from_secs(10)),
            max_idle_timeout: Some(Duration::from_secs(30)),
            initial_mtu: None,
        }
    }
}

/// A datagram on its way out of a host.
pub struct Outgoing {
    pub socket: SocketId,
    pub to: SocketAddr,
    pub payload: Vec<u8>,
}

/// What a simulated host's machine sees: the virtual clock, a seeded
/// generator, and an outbox that the world routes from.
pub struct SimEnv {
    pub now: u64,
    pub lan_ip: IpAddr,
    pub sockets: Vec<SocketAddr>,
    pub outbox: Vec<Outgoing>,
    pub rng: StdRng,
    pub next_ephemeral: u16,
}

impl SimEnv {
    /// The port that `bind(port)` asks for, and the ephemeral port after it.
    pub open spec fn port_for(self, port: Option<u16>) -> (u16, u16) {
        match port {
            Some(port) => (port, self.next_ephemeral),
            None => (
                self.next_ephemeral,
                if self.next_ephemeral == u16::MAX {
                    EPHEMERAL_PORT_START
                } else {
                    (self.next_ephemeral + 1) as u16
                },
            ),
        }
    }

    /// Binds a socket, on an ephemeral port if none is named.
    pub fn bind_socket(&mut self, port: Option<u16>) -> (r: Result<SocketId, BindError>)
        ensures
            bound(*old(self), port, r, *final(self)),
    {
        let chosen: u16 = match port {
            Some(port) => port,
            None => {
                let port: u16 = self.next_ephemeral;
                self.next_ephemeral = if port == u16::MAX {
                    EPHEMERAL_PORT_START
                } else {
                    port + 1
                };
                port
            },
        };
        let addr = SocketAddr::new(self.lan_ip, chosen);
        if position(&self.sockets, addr).is_some() {
            return Err(BindError::AlreadyBound(addr));
        }
        let n: usize = self.sockets.len();
        if n as u64 > u32::MAX as u64 {
            return Err(BindError::TooManySockets);
        }
        self.sockets.push(addr);
        Ok(SocketId(n as u32))
    }
}

/// `after` and `r` are what binding a socket in `env` comes to.
pub open spec fn bound(
    env: SimEnv,
    port: Option<u16>,
    r: Result<SocketId, BindError>,
    after: SimEnv,
) -> bool {
    let (port, next) = env.port_for(port);
    let addr = SocketAddr { ip: env.lan_ip, port };
    let n = env.sockets@.len();
    &&& r == (if env.sockets@.contains(addr) {
        Err(BindError::AlreadyBound(addr))
    } else if n > u32::MAX {
        Err(BindError::TooManySockets)
    } else {
        Ok(SocketId(n as u32))
    })
    &&& after.sockets@ == (if r is Ok {
        env.sockets@.push(addr)
    } else {
        env.sockets@
    })
    &&& after.next_ephemeral == next
    &&& after.now == env.now
    &&& after.lan_ip == env.lan_ip
    &&& after.outbox == env.outbox
    &&& after.rng == env.rng
}

impl OverlayEnv for SimEnv {
    open spec fn seen(&self) -> EnvView {
        EnvView {
            sent: outbox_view(self.outbox@),
            clock: Some(self.now),
            lan_ip: Some(self.lan_ip),
            sockets: self.sockets@,
            next_ephemeral: self.next_ephemeral,
            rng: rng_state(self.rng),
        }
    }

    fn now(&self) -> (now: u64)
        ensures
            now == self.now,
    {
        self.now
    }

    fn next_u64(&mut self) -> (n: u64)
        ensures
            (n, rng_state(final(self).rng)) == crate::rng::u64_draw(rng_state(old(self).rng)),
            *final(self) == (SimEnv { rng: final(self).rng, ..*old(self) }),
    {
        crate::rng::random_u64(&mut self.rng)
    }

    fn send(&mut self, from: SocketId, to: SocketAddr, datagram: &[u8])
        ensures
            *final(self) == (SimEnv { outbox: final(self).outbox, ..*old(self) }),
    {
        let ghost before = self.outbox@;
        self.outbox.push(
            Outgoing { socket: from, to, payload: copy_range(datagram, 0, datagram.len()) },
        );
        proof {
            assert(datagram@.subrange(0, datagram@.len() as int) =~= datagram@);
            assert(outbox_view(self.outbox@) =~= outbox_view(before).push((from, to, datagram@)));
        }
    }

    fn bind(&mut self, port: Option<u16>) -> (r: Result<SocketId, BindError>)
        ensures
            bound(*old(self), port, r, *final(self)),
    {
        self.bind_socket(port)
    }
}

pub open spec fn outbox_view(outbox: Seq<Outgoing>) -> Seq<(SocketId, SocketAddr, Seq<u8>)> {
    Seq::new(outbox.len(), |i: int| (outbox[i].socket, outbox[i].to, outbox[i].payload@))
}

/// Where `addr` first stands in `addrs`.
fn position(addrs: &Vec<SocketAddr>, addr: SocketAddr) -> (r: Option<usize>)
    ensures
        r is Some <==> addrs@.contains(addr),
        r matches Some(i) ==> i < addrs@.len() && addrs@[i as int] == addr && addrs@.index_of_first(
            addr,
        ) == Some(i as int),
{
    let mut i: usize = 0;
    while i < addrs.len()
        invariant
            i <= addrs@.len(),
            forall|j: int| 0 <= j < i ==> addrs@[j] != addr,
        decreases addrs@.len() - i,
    {
        if addrs[i] == addr {
            proof {
                addrs@.index_of_first_ensures(addr);
            }
            return Some(i);
        }
        i += 1;
    }
    None
}

/// A node that runs an overlay core.
pub struct OverlayNode<C> {
    core: C,
    pubkey: Pubkey,
    options: NodeOptions,
    delivered: Vec<Vec<u8>>,
}

/// A node that runs a bare transport, without a core on top: connections but
/// no gossip, so that scenarios can have connections that are truly idle.
pub struct TransportNode<T> {
    transport: T,
    pubkey: Pubkey,
    received: Vec<(SocketAddr, Vec<u8>)>,
}

/// A scriptable host without a machine: it sends what it is told to and keeps
/// what it receives.
pub struct ProbeNode {
    received: Vec<ProbeDatagram>,
}

pub enum HostKind<C, T> {
    Overlay(OverlayNode<C>),
    Transport(TransportNode<T>),
    Probe(ProbeNode),
}

pub open spec fn probes(v: Seq<ProbeDatagram>) -> Seq<ProbeView> {
    Seq::new(v.len(), |i: int| v[i]@)
}

impl<C, T> HostKind<C, T> {
    spec fn identity(&self) -> Option<Pubkey> {
        match self {
            HostKind::Overlay(node) => Some(node.pubkey),
            HostKind::Transport(node) => Some(node.pubkey),
            HostKind::Probe(_) => None,
        }
    }

    spec fn setup(&self) -> Option<OptionsView> {
        match self {
            HostKind::Overlay(node) => Some(node.options@),
            _ => None,
        }
    }

    spec fn view(&self) -> KindView {
        match self {
            HostKind::Overlay(node) => KindView::Overlay(bytes_views(node.delivered@)),
            HostKind::Transport(node) => KindView::Transport(addressed(node.received@)),
            HostKind::Probe(node) => KindView::Probe(probes(node.received@)),
        }
    }

    spec fn machine(&self) -> Machine<C, T> {
        match self {
            HostKind::Overlay(node) => Machine::Overlay(node.core),
            HostKind::Transport(node) => Machine::Transport(node.transport),
            HostKind::Probe(_) => Machine::Probe,
        }
    }
}

/// The machine that runs on a host; there is none on a probe.
pub enum Machine<C, T> {
    Overlay(C),
    Transport(T),
    Probe,
}

/// A host's machine and what it sees of the world.
pub struct Node<C, T> {
    pub env: SimEnv,
    pub machine: Machine<C, T>,
}

/// What a machine is called with.
pub enum CallView {
    Datagram { socket: SocketId, src: SocketAddr, payload: Seq<u8> },
    Timer,
    Send { to: SocketAddr, payload: Seq<u8> },
    SourcePacket { payload: Seq<u8> },
}

/// What a core's events come to as reports.
pub open spec fn core_notes(events: Seq<CoreEvent>) -> Seq<NoteView> {
    Seq::new(
        events.len(),
        |i: int|
            match events[i] {
                CoreEvent::ShredForFilter(packet) => NoteView::Shred(packet@),
                CoreEvent::PeerConnected { peer, pubkey } => NoteView::Connected { peer, pubkey },
                CoreEvent::PeerDisconnected { peer } => NoteView::Disconnected { peer },
            },
    )
}

/// What a transport's events come to as reports.
pub open spec fn transport_notes(events: Seq<TransportEvent>) -> Seq<NoteView> {
    Seq::new(
        events.len(),
        |i: int|
            match events[i] {
                TransportEvent::Connected { peer, pubkey } => NoteView::Connected { peer, pubkey },
                TransportEvent::Disconnected { peer, .. } => NoteView::Disconnected { peer },
            },
    )
}

/// What a transport received comes to as reports.
pub open spec fn inbound_notes(inbound: Seq<(SocketAddr, Vec<u8>)>) -> Seq<NoteView> {
    Seq::new(
        inbound.len(),
        |i: int| NoteView::App { from: inbound[i].0, payload: inbound[i].1@ },
    )
}

/// The datagrams of an outbox, each from the address of its socket. One from a
/// socket that is not bound goes nowhere.
pub open spec fn outgoing(outbox: Seq<Outgoing>, sockets: Seq<SocketAddr>) -> Seq<SendView>
    decreases outbox.len(),
{
    if outbox.len() == 0 {
        Seq::empty()
    } else {
        let rest = outgoing(outbox.drop_last(), sockets);
        let out = outbox.last();
        if out.socket.0 < sockets.len() {
            rest.push(
                SendView {
                    from: sockets[out.socket.0 as int],
                    to: out.to,
                    payload: out.payload@,
                },
            )
        } else {
            rest
        }
    }
}

/// Called with `call`, `core` leads to `after`. It is never called with a
/// datagram to send.
pub open spec fn core_called<C: OverlayCore>(
    core: C,
    env: SimEnv,
    call: CallView,
    after: C,
    env_after: SimEnv,
) -> bool {
    match call {
        CallView::Datagram { socket, src, payload } => core.takes_datagram(
            env.seen(),
            socket,
            src,
            payload,
            &after,
            env_after.seen(),
        ),
        CallView::Timer => core.takes_timer(env.seen(), &after, env_after.seen()),
        CallView::SourcePacket { payload } => core.takes_source_packet(
            env.seen(),
            payload,
            &after,
            env_after.seen(),
        ),
        CallView::Send { .. } => after == core && env_after == env,
    }
}

/// A datagram to send leads from `transport` to `after`, whether it could be
/// queued or not.
pub open spec fn transport_queued<T: OverlayTransport>(
    transport: T,
    env: SimEnv,
    to: SocketAddr,
    payload: Seq<u8>,
    after: T,
    env_after: SimEnv,
) -> bool {
    exists|r: Result<(), QueueError>| #[trigger]
        transport.takes_outbound(env.seen(), to, payload, r, &after, env_after.seen())
}

/// Called with `call`, `transport` leads to `after`. It is never called with a
/// shred to feed in.
pub open spec fn transport_called<T: OverlayTransport>(
    transport: T,
    env: SimEnv,
    call: CallView,
    after: T,
    env_after: SimEnv,
) -> bool {
    match call {
        CallView::Datagram { socket, src, payload } => transport.takes_datagram(
            env.seen(),
            socket,
            src,
            payload,
            &after,
            env_after.seen(),
        ),
        CallView::Timer => transport.takes_timer(env.seen(), &after, env_after.seen()),
        CallView::Send { to, payload } => transport_queued(
            transport,
            env,
            to,
            payload,
            after,
            env_after,
        ),
        CallView::SourcePacket { .. } => after == transport && env_after == env,
    }
}

impl<C: OverlayCore, T: OverlayTransport> Node<C, T> {
    /// The machine, called at `now`, leads from here to `after`.
    pub open spec fn called(self, now: u64, call: CallView, after: Self) -> bool {
        let env = SimEnv { now, ..self.env };
        match (self.machine, after.machine) {
            (Machine::Overlay(core), Machine::Overlay(core_after)) => core_called(
                core,
                env,
                call,
                core_after,
                after.env,
            ),
            (Machine::Transport(transport), Machine::Transport(transport_after)) => {
                transport_called(transport, env, call, transport_after, after.env)
            },
            (Machine::Probe, Machine::Probe) => after.env == env,
            _ => false,
        }
    }

    /// One more socket leads from here to `after`.
    pub open spec fn rebound(self, addr: SocketAddr, after: Self) -> bool {
        &&& after.machine == self.machine
        &&& after.env == (SimEnv { sockets: after.env.sockets, ..self.env })
        &&& after.env.sockets@ == self.env.sockets@.push(addr)
    }

    /// What the machine wants sent was taken, which leads to `after`.
    pub open spec fn emptied(self, after: Self) -> bool {
        &&& after.machine == self.machine
        &&& after.env == (SimEnv { outbox: after.env.outbox, ..self.env })
        &&& after.env.outbox@.len() == 0
    }

    /// The machine, asked what there is to report, gives `notes`, which leads
    /// to `after`.
    pub open spec fn reported(self, notes: Seq<NoteView>, after: Self) -> bool {
        &&& after.env == self.env
        &&& match (self.machine, after.machine) {
            (Machine::Overlay(core), Machine::Overlay(core_after)) => exists|
                events: Seq<CoreEvent>,
            | #[trigger]
                core.tells(events, &core_after) && notes == core_notes(events),
            (Machine::Transport(transport), Machine::Transport(transport_after)) => exists|
                events: Seq<TransportEvent>,
                told: T,
                inbound: Seq<(SocketAddr, Vec<u8>)>,
            |
                #![trigger transport.tells(events, &told), told.hands_out(inbound, &transport_after)]
                transport.tells(events, &told) && told.hands_out(inbound, &transport_after)
                    && notes == transport_notes(events) + inbound_notes(inbound),
            (Machine::Probe, Machine::Probe) => notes.len() == 0,
            _ => false,
        }
    }

    /// The machine, asked when its timer is due, gives `deadline`, which leads
    /// to `after`.
    pub open spec fn due(self, deadline: Option<u64>, after: Self) -> bool {
        &&& after.env == self.env
        &&& match (self.machine, after.machine) {
            (Machine::Overlay(core), Machine::Overlay(core_after)) => core.is_due(
                deadline,
                &core_after,
            ),
            (Machine::Transport(transport), Machine::Transport(transport_after)) => {
                transport.is_due(deadline, &transport_after)
            },
            (Machine::Probe, Machine::Probe) => deadline is None,
            _ => false,
        }
    }
}

/// A world together with the machines that run in it.
#[verifier::ext_equal]
pub struct Sim<C, T> {
    pub world: WorldView,
    pub nodes: Seq<Node<C, T>>,
}

impl<C: OverlayCore, T: OverlayTransport> Sim<C, T> {
    /// The world before anything is in it.
    pub open spec fn empty(seed: u64) -> Self {
        Sim { world: WorldView::empty(seed), nodes: Seq::empty() }
    }

    /// `after` is this world with the timer of `host` set, for the deadline
    /// that its machine gives.
    pub open spec fn timed(self, host: u32, after: Self) -> bool {
        exists|deadline: Option<u64>|
            {
                &&& #[trigger] self.nodes[host as int].due(deadline, after.nodes[host as int])
                &&& after.world == self.world.scheduled(host, deadline)
                &&& after.nodes == self.nodes.update(host as int, after.nodes[host as int])
            }
    }

    /// `after` is this world once the machine on `host`, which has run, is
    /// settled: with its outbox taken it is `quiet`, and `told` once it has
    /// given `notes`. These are taken down, what it sends is routed, and its
    /// timer is set for `deadline`.
    pub open spec fn wound_up_by(
        self,
        host: u32,
        quiet: Node<C, T>,
        notes: Seq<NoteView>,
        told: Node<C, T>,
        deadline: Option<u64>,
        after: Self,
    ) -> bool {
        let ran = self.nodes[host as int];
        &&& ran.emptied(quiet)
        &&& quiet.reported(notes, told)
        &&& told.due(deadline, after.nodes[host as int])
        &&& after.nodes == self.nodes.update(host as int, after.nodes[host as int])
        &&& after.world == self.world.wound_up(
            host,
            notes,
            outgoing(ran.env.outbox@, ran.env.sockets@),
            deadline,
        )
    }

    /// `after` is this world once the machine on `host`, which has run, is
    /// settled.
    pub open spec fn wound_up(self, host: u32, after: Self) -> bool {
        exists|
            quiet: Node<C, T>,
            notes: Seq<NoteView>,
            told: Node<C, T>,
            deadline: Option<u64>,
        | #[trigger]
            self.wound_up_by(host, quiet, notes, told, deadline, after)
    }

    /// This world once the machine on `host` has become `ran`.
    pub open spec fn with_ran(self, host: u32, ran: Node<C, T>) -> Self {
        Sim {
            world: self.world.with_sockets(host, ran.env.sockets@, ran.env.next_ephemeral),
            nodes: self.nodes.update(host as int, ran),
        }
    }

    /// `after` is this world once the machine on `host` has run on `call` and is
    /// settled.
    pub open spec fn reacted(self, host: u32, call: CallView, after: Self) -> bool {
        exists|ran: Node<C, T>| #[trigger]
            self.nodes[host as int].called(self.world.now, call, ran) && self.with_ran(
                host,
                ran,
            ).wound_up(host, after)
    }

    /// The world at the time of its first event, which is taken off.
    pub open spec fn popped(self) -> Self {
        Sim { world: self.world.popped(), ..self }
    }

    /// `after` is this world once `event` has been handled.
    pub open spec fn handled(self, event: EventView, after: Self) -> bool {
        match event {
            EventView::Delivery { to_host, src, dst, payload } => {
                let (arrival, w) = self.world.arrived(to_host, src, dst, payload);
                let there = Sim { world: w, ..self };
                if arrival is Some && !(self.world.hosts[to_host as int].kind is Probe) {
                    there.reacted(
                        to_host,
                        CallView::Datagram { socket: (arrival->0).0, src, payload },
                        after,
                    )
                } else {
                    after == there
                }
            },
            EventView::Timer { host, generation } => {
                let entry = self.world.hosts[host as int];
                let fired = Sim { world: self.world.fired(host), ..self };
                if !entry.up || entry.timer_generation != generation {
                    after == self
                } else if entry.kind is Probe {
                    after == fired
                } else {
                    fired.reacted(host, CallView::Timer, after)
                }
            },
        }
    }

    /// Handling `n` events that are due by `target`, each in its turn, can
    /// lead to `after`.
    pub open spec fn reaches(self, n: nat, target: u64, after: Self) -> bool
        decreases n,
    {
        if n == 0 {
            after == self
        } else {
            exists|mid: Self|
                self.reaches((n - 1) as nat, target, mid) && mid.wf() && #[trigger] mid.world.due(
                    target,
                ) && mid.popped().handled(mid.world.queue[0].event, after)
        }
    }

    /// `after` is this world at `target`, once all that was due by then has
    /// been handled.
    pub open spec fn ran_to(self, target: u64, after: Self) -> bool {
        exists|n: nat, last: Self| #[trigger]
            self.reaches(n, target, last) && !last.world.due(target) && after == (Sim {
                world: WorldView { now: target, ..last.world },
                ..last
            })
    }
}

struct Host<C, T> {
    up: bool,
    nat_chain: Vec<NatBox>,
    firewall: Option<FirewallBox>,
    lan_ip: IpAddr,
    env: SimEnv,
    kind: HostKind<C, T>,
    timer_generation: u64,
    next_timer: Option<u64>,
}

pub open spec fn chain_view(chain: Seq<NatBox>) -> Seq<NatView> {
    Seq::new(chain.len(), |i: int| chain[i]@)
}

pub open spec fn firewall_view(firewall: Option<FirewallBox>) -> Option<FirewallView> {
    match firewall {
        Some(f) => Some(f@),
        None => None,
    }
}

pub open spec fn chain_wf(chain: Seq<NatBox>) -> bool {
    forall|i: int| 0 <= i < chain.len() ==> (#[trigger] chain[i]).wf()
}

impl<C, T> Host<C, T> {
    spec fn view(&self) -> HostView {
        HostView {
            up: self.up,
            chain: chain_view(self.nat_chain@),
            firewall: firewall_view(self.firewall),
            lan_ip: self.lan_ip,
            identity: self.kind.identity(),
            setup: self.kind.setup(),
            sockets: self.env.sockets@,
            next_ephemeral: self.env.next_ephemeral,
            kind: self.kind.view(),
            timer_generation: self.timer_generation,
            next_timer: self.next_timer,
        }
    }

    spec fn wf(&self) -> bool {
        &&& chain_wf(self.nat_chain@)
        &&& self.firewall matches Some(f) ==> f.wf()
    }

    spec fn node(&self) -> Node<C, T> {
        Node { env: self.env, machine: self.kind.machine() }
    }
}

/// What a machine is called with.
enum Call<'a> {
    Datagram { socket: SocketId, src: SocketAddr, payload: &'a [u8] },
    Timer,
    Send { to: SocketAddr, payload: &'a [u8] },
    SourcePacket { payload: &'a [u8] },
}

impl<'a> Call<'a> {
    spec fn view(&self) -> CallView {
        match self {
            Call::Datagram { socket, src, payload } => CallView::Datagram {
                socket: *socket,
                src: *src,
                payload: payload@,
            },
            Call::Timer => CallView::Timer,
            Call::Send { to, payload } => CallView::Send { to: *to, payload: payload@ },
            Call::SourcePacket { payload } => CallView::SourcePacket { payload: payload@ },
        }
    }
}

impl<C: OverlayCore, T: OverlayTransport> Host<C, T> {
    /// Calls the machine.
    fn call(&mut self, now: u64, call: Call)
        ensures
            old(self).node().called(now, call.view(), final(self).node()),
            final(self).nat_chain == old(self).nat_chain,
            final(self).firewall == old(self).firewall,
            final(self).view() == (HostView {
                sockets: final(self).env.sockets@,
                next_ephemeral: final(self).env.next_ephemeral,
                ..old(self).view()
            }),
    {
        self.env.now = now;
        let ghost env = self.env;
        match &mut self.kind {
            HostKind::Overlay(node) => call_core(&mut node.core, &mut self.env, call),
            HostKind::Transport(node) => call_transport(&mut node.transport, &mut self.env, call),
            HostKind::Probe(_) => {},
        }
        assert(env == (SimEnv { now, ..old(self).env }));
    }
}

fn call_core<C: OverlayCore>(core: &mut C, env: &mut SimEnv, call: Call)
    ensures
        core_called(*old(core), *old(env), call.view(), *final(core), *final(env)),
{
    match call {
        Call::Datagram { socket, src, payload } => core.on_datagram(env, socket, src, payload),
        Call::Timer => core.on_timer(env),
        Call::SourcePacket { payload } => core.on_source_packet(env, payload),
        Call::Send { .. } => {},
    }
}

fn call_transport<T: OverlayTransport>(transport: &mut T, env: &mut SimEnv, call: Call)
    ensures
        transport_called(*old(transport), *old(env), call.view(), *final(transport), *final(env)),
{
    match call {
        Call::Datagram { socket, src, payload } => {
            transport.on_datagram(env, socket, src, payload)
        },
        Call::Timer => transport.on_timer(env),
        Call::Send { to, payload } => {
            let copy = copy_range(payload, 0, payload.len());
            assert(copy@ =~= payload@);
            let ghost (had, seen) = (*transport, *env);
            let r = transport.queue_datagram(env, to, copy);
            assert(had.takes_outbound(seen.seen(), to, payload@, r, &*transport, env.seen()));
            assert(transport_queued(had, seen, to, payload@, *transport, *env));
        },
        Call::SourcePacket { .. } => {},
    }
}

enum EventKind {
    Delivery { to_host: u32, src: SocketAddr, dst: SocketAddr, payload: Vec<u8> },
    Timer { host: u32, generation: u64 },
}

impl EventKind {
    spec fn view(&self) -> EventView {
        match self {
            EventKind::Delivery { to_host, src, dst, payload } => EventView::Delivery {
                to_host: *to_host,
                src: *src,
                dst: *dst,
                payload: payload@,
            },
            EventKind::Timer { host, generation } => EventView::Timer {
                host: *host,
                generation: *generation,
            },
        }
    }
}

struct QueuedEvent {
    at: u64,
    seq: u64,
    kind: EventKind,
}

impl QueuedEvent {
    spec fn view(&self) -> QueuedView {
        QueuedView { at: self.at, seq: self.seq, event: self.kind.view() }
    }
}

spec fn queue_view(q: Seq<QueuedEvent>) -> Seq<QueuedView> {
    Seq::new(q.len(), |i: int| q[i].view())
}

spec fn hosts_view<C, T>(hosts: Seq<Host<C, T>>) -> Seq<HostView> {
    Seq::new(hosts.len(), |i: int| hosts[i].view())
}

spec fn nodes_view<C, T>(hosts: Seq<Host<C, T>>) -> Seq<Node<C, T>> {
    Seq::new(hosts.len(), |i: int| hosts[i].node())
}

/// Carries a datagram out through a NAT chain.
#[verifier::loop_isolation(false)]
fn chain_outbound(
    chain: &mut Vec<NatBox>,
    now: u64,
    from: SocketAddr,
    to: SocketAddr,
    host: u32,
    trace: &mut Trace,
) -> (r: Option<SocketAddr>)
    requires
        chain_wf(old(chain)@),
    ensures
        chain_wf(final(chain)@),
        final(chain)@.len() == old(chain)@.len(),
        final(trace).printing() == old(trace).printing(),
        old(trace).wf() ==> final(trace).wf(),
        (r, chain_view(final(chain)@), final(trace)@) == through_chain(
            chain_view(old(chain)@),
            0,
            now,
            from,
            to,
            host,
            old(trace)@,
        ),
{
    let ghost start = chain_view(chain@);
    let ghost trace0 = trace@;
    let mut src = from;
    let mut level: usize = 0;
    let n: usize = chain.len();
    while level < n
        invariant
            level <= n,
            chain@.len() == n,
            chain_wf(chain@),
            trace.printing() == old(trace).printing(),
            old(trace).wf() ==> trace.wf(),
            through_chain(chain_view(chain@), level as nat, now, src, to, host, trace@)
                == through_chain(start, 0, now, from, to, host, trace0),
        decreases n - level,
    {
        let ghost before = chain_view(chain@);
        let ghost was = chain@;
        let passed = chain[level].outbound(now, src, to);
        proof {
            assert(chain_view(chain@) =~= before.update(level as int, chain@[level as int]@));
        }
        match passed {
            Ok(pass) => {
                if pass.created {
                    trace.record(
                        now,
                        &TraceEvent::NatMapped {
                            host,
                            level: (level % 256) as u8,
                            internal: src,
                            external: pass.external,
                        },
                    );
                }
                src = pass.external;
            },
            Err(reason) => {
                trace.record(
                    now,
                    &TraceEvent::NatDropped {
                        host,
                        level: (level % 256) as u8,
                        reason: reason.as_str(),
                    },
                );
                return None;
            },
        }
        level += 1;
    }
    Some(src)
}

/// Carries a datagram in through a NAT chain, outermost box first.
#[verifier::loop_isolation(false)]
fn chain_inbound(
    chain: &mut Vec<NatBox>,
    now: u64,
    src: SocketAddr,
    dst: SocketAddr,
    host: u32,
    trace: &mut Trace,
) -> (r: Option<SocketAddr>)
    requires
        chain_wf(old(chain)@),
    ensures
        chain_wf(final(chain)@),
        final(chain)@.len() == old(chain)@.len(),
        final(trace).printing() == old(trace).printing(),
        old(trace).wf() ==> final(trace).wf(),
        (r, chain_view(final(chain)@), final(trace)@) == into_chain(
            chain_view(old(chain)@),
            old(chain)@.len(),
            now,
            src,
            dst,
            host,
            old(trace)@,
        ),
{
    let ghost start = chain_view(chain@);
    let ghost trace0 = trace@;
    let n: usize = chain.len();
    let mut dst_now = dst;
    let mut level: usize = n;
    while level > 0
        invariant
            level <= n,
            chain@.len() == n,
            chain_wf(chain@),
            trace.printing() == old(trace).printing(),
            old(trace).wf() ==> trace.wf(),
            into_chain(chain_view(chain@), level as nat, now, src, dst_now, host, trace@)
                == into_chain(start, n as nat, now, src, dst, host, trace0),
        decreases level,
    {
        level -= 1;
        let ghost before = chain_view(chain@);
        if dst_now.ip() != chain[level].external_ip() {
            continue;
        }
        let passed = chain[level].inbound(now, src, dst_now);
        proof {
            assert(chain_view(chain@) =~= before.update(level as int, chain@[level as int]@));
        }
        match passed {
            Ok(internal) => {
                dst_now = internal;
            },
            Err(reason) => {
                trace.record(
                    now,
                    &TraceEvent::NatDropped {
                        host,
                        level: (level % 256) as u8,
                        reason: reason.as_str(),
                    },
                );
                return None;
            },
        }
    }
    Some(dst_now)
}

/// The simulated world. `C` is the core of its overlay nodes and `T` the
/// transport of its bare-transport nodes.
pub struct SimWorld<C, T> {
    seed: u64,
    now_nanos: u64,
    seq: u64,
    /// In order of time, then of arrival.
    queue: Vec<QueuedEvent>,
    hosts: Vec<Host<C, T>>,
    default_link: LinkParams,
    links: OrdMap<LinkKey, LinkParams>,
    /// The latest delivery scheduled on each link: FIFO links let nothing
    /// arrive before it.
    link_horizon: OrdMap<LinkKey, u64>,
    ip_owner: OrdMap<IpAddr, u32>,
    rng: StdRng,
    pub trace: Trace,
}

/// Putting `e` before the first event that is later puts it where
/// [`queued`] has it.
proof fn lemma_queued(q: Seq<QueuedView>, e: QueuedView, i: int)
    requires
        0 <= i <= q.len(),
        i > 0 ==> q[i - 1].at <= e.at,
        forall|j: int| i <= j < q.len() ==> (#[trigger] q[j]).at > e.at,
    ensures
        queued(q, e) == q.insert(i, e),
    decreases q.len(),
{
    if q.len() == 0 || q.last().at <= e.at {
        assert(i == q.len()) by {
            if i < q.len() {
                assert(q[q.len() - 1].at > e.at);
            }
        }
        assert(q.insert(i, e) =~= q.push(e));
    } else {
        assert(i < q.len());
        lemma_queued(q.drop_last(), e, i);
        assert(q.insert(i, e) =~= q.drop_last().insert(i, e).push(q.last()));
    }
}

impl WorldView {
    /// Numbering an event past all others and putting it in its place keeps
    /// the queue in order.
    pub proof fn lemma_pushed(self, at: u64, event: EventView)
        requires
            self.wf(),
            self.names_host(event),
        ensures
            self.pushed(at, event).wf(),
            self.pushed(at, event).hosts == self.hosts,
            self.pushed(at, event).queue.len() <= self.queue.len() + (self.pushed(at, event).seq
                - self.seq),
            self.seq <= self.pushed(at, event).seq,
    {
        if self.seq < u64::MAX {
            let seq = (self.seq + 1) as u64;
            let e = QueuedView { at, seq, event };
            let i = Self::slot(self.queue, at);
            Self::lemma_slot(self.queue, at);
            lemma_queued(self.queue, e, i);
            let q = self.pushed(at, event).queue;
            assert(q =~= self.queue.insert(i, e));
            let w = self.pushed(at, event);
            assert forall|k: int| 0 <= k < q.len() implies (#[trigger] q[k]).seq <= w.seq
                && w.names_host(q[k].event) by {
                if k < i {
                    assert(q[k] == self.queue[k]);
                } else if k > i {
                    assert(q[k] == self.queue[k - 1]);
                }
            }
            assert forall|a: int, b: int|
                #![trigger q[a], q[b]]
                0 <= a < b < q.len() implies q[a].at < q[b].at || (q[a].at == q[b].at && q[a].seq
                < q[b].seq) by {
                let a0 = if a < i {
                    a
                } else {
                    a - 1
                };
                let b0 = if b < i {
                    b
                } else {
                    b - 1
                };
                if a != i {
                    assert(q[a] == self.queue[a0]);
                }
                if b != i {
                    assert(q[b] == self.queue[b0]);
                }
                if a == i {
                    assert(self.queue[b0].at > at);
                } else if b == i {
                    if i > 0 {
                        assert(self.queue[i - 1].at <= at);
                        if a0 < i - 1 {
                            assert(self.queue[a0].at <= self.queue[i - 1].at);
                        }
                    }
                }
            }
        }
    }

    /// How many events of the queue are not later than `at`.
    spec fn slot(q: Seq<QueuedView>, at: u64) -> int
        decreases q.len(),
    {
        if q.len() == 0 || q.last().at <= at {
            q.len() as int
        } else {
            Self::slot(q.drop_last(), at)
        }
    }

    proof fn lemma_slot(q: Seq<QueuedView>, at: u64)
        ensures
            0 <= Self::slot(q, at) <= q.len(),
            Self::slot(q, at) > 0 ==> q[Self::slot(q, at) - 1].at <= at,
            forall|j: int| Self::slot(q, at) <= j < q.len() ==> (#[trigger] q[j]).at > at,
        decreases q.len(),
    {
        if !(q.len() == 0 || q.last().at <= at) {
            Self::lemma_slot(q.drop_last(), at);
            let i = Self::slot(q, at);
            assert forall|j: int| i <= j < q.len() implies (#[trigger] q[j]).at > at by {
                if j < q.len() - 1 {
                    assert(q.drop_last()[j].at > at);
                }
            }
            if i > 0 {
                assert(q.drop_last()[i - 1] == q[i - 1]);
            }
        }
    }
}

impl<C: OverlayCore, T: OverlayTransport> SimWorld<C, T> {
    pub closed spec fn view(&self) -> WorldView {
        WorldView {
            seed: self.seed,
            now: self.now_nanos,
            seq: self.seq,
            queue: queue_view(self.queue@),
            hosts: hosts_view(self.hosts@),
            default_link: self.default_link,
            links: self.links@,
            horizon: self.link_horizon@,
            owners: self.ip_owner@,
            rng: rng_state(self.rng),
            trace: self.trace@,
        }
    }

    /// The machines on the hosts.
    pub closed spec fn nodes(&self) -> Seq<Node<C, T>> {
        nodes_view(self.hosts@)
    }

    /// What becomes of the records of the trace.
    pub closed spec fn printing(&self) -> Printing {
        self.trace.printing()
    }

    pub open spec fn sim(&self) -> Sim<C, T> {
        Sim { world: self@, nodes: self.nodes() }
    }

    /// The tables are in order and the boxes consistent: see
    /// [`WorldView::wf`].
    pub closed spec fn wf(&self) -> bool {
        &&& self.links.wf()
        &&& self.link_horizon.wf()
        &&& self.ip_owner.wf()
        &&& self.trace.wf()
        &&& forall|i: int| 0 <= i < self.hosts@.len() ==> (#[trigger] self.hosts@[i]).wf()
        &&& self@.wf()
    }

    /// A world without hosts.
    pub fn new(seed: u64) -> (world: Self)
        ensures
            world.wf(),
            world.sim() == Sim::<C, T>::empty(seed),
            world.printing() == (Printing { verbose: false, taken: 0 }),
    {
        Self::with_trace(seed, false)
    }

    pub fn with_trace(seed: u64, verbose: bool) -> (world: Self)
        ensures
            world.wf(),
            world.sim() == Sim::<C, T>::empty(seed),
            world.printing() == (Printing { verbose, taken: 0 }),
    {
        let world = SimWorld {
            seed,
            now_nanos: 0,
            seq: 0,
            queue: Vec::new(),
            hosts: Vec::new(),
            default_link: LinkParams::default(),
            links: OrdMap::new(),
            link_horizon: OrdMap::new(),
            ip_owner: OrdMap::new(),
            rng: seed_from_u64(seed),
            trace: Trace::new(verbose),
        };
        proof {
            assert(world@.queue =~= Seq::<QueuedView>::empty());
            assert(world@.hosts =~= Seq::<HostView>::empty());
            assert(world.nodes() =~= Seq::<Node<C, T>>::empty());
        }
        world
    }

    pub fn seed(&self) -> (seed: u64)
        ensures
            seed == self@.seed,
    {
        self.seed
    }

    pub fn now_nanos(&self) -> (now: u64)
        ensures
            now == self@.now,
    {
        self.now_nanos
    }

    pub fn trace_hash(&self) -> (hash: String)
        ensures
            hash@ == crate::overlay::sim::trace::hex_of(self@.trace.state),
            hash@.len() == 64,
    {
        self.trace.hash_hex()
    }

    pub fn trace_events(&self) -> (events: u64)
        ensures
            events == self@.trace.events,
    {
        self.trace.events()
    }

    /// What a consistent world gives its callers.
    pub proof fn lemma_wf(&self)
        requires
            self.wf(),
        ensures
            self@.wf(),
            self.sim().wf(),
    {
    }

    /// The hash of the trace is that of its records.
    pub proof fn lemma_traced(&self)
        requires
            self.wf(),
        ensures
            self@.trace == traced(TraceView::empty(), self@.trace.records),
    {
    }

    /// Hands out the records that a verbose run has yet to print: those that
    /// came after the ones handed out before. A run that is not verbose keeps
    /// none.
    pub fn take_printed(&mut self) -> (records: Vec<(u64, TraceEvent)>)
        requires
            old(self).wf(),
        ensures
            final(self).wf(),
            records@ == old(self).printing().waiting(old(self)@.trace.records),
            final(self).printing() == (Printing {
                taken: old(self)@.trace.records.len(),
                ..old(self).printing()
            }),
            final(self)@ == old(self)@,
            final(self).nodes() == old(self).nodes(),
    {
        let ghost before = *self;
        let records = self.trace.take_printed();
        proof {
            assert(self@.hosts =~= before@.hosts);
            assert(self@.queue =~= before@.queue);
            assert(self@ =~= before@);
        }
        records
    }

    fn push_event(&mut self, at: u64, kind: EventKind)
        requires
            old(self).wf(),
            old(self)@.names_host(kind.view()),
        ensures
            final(self).wf(),
            final(self).printing() == old(self).printing(),
            final(self)@ == old(self)@.pushed(at, kind.view()),
            old(self)@.kept(final(self)@),
            final(self).hosts == old(self).hosts,
    {
        let ghost before = *self;
        proof {
            before@.lemma_pushed(at, kind.view());
        }
        if self.seq < u64::MAX {
            self.seq += 1;
            let seq: u64 = self.seq;
            let mut i: usize = self.queue.len();
            while i > 0 && self.queue[i - 1].at > at
                invariant
                    i <= self.queue@.len(),
                    forall|j: int| i <= j < self.queue@.len() ==> (#[trigger] self.queue@[j]).at > at,
                decreases i,
            {
                i -= 1;
            }
            let ghost q = queue_view(self.queue@);
            let ghost e = QueuedView { at, seq, event: kind.view() };
            self.queue.insert(i, QueuedEvent { at, seq, kind });
            proof {
                assert forall|j: int| i <= j < q.len() implies (#[trigger] q[j]).at > at by {
                    assert(before.queue@[j].at > at);
                }
                lemma_queued(q, e, i as int);
                assert(queue_view(self.queue@) =~= q.insert(i as int, e));
                assert(self@ =~= before@.pushed(at, e.event));
            }
        }
    }

    fn record(&mut self, event: &TraceEvent)
        requires
            old(self).wf(),
        ensures
            final(self).wf(),
            final(self).printing() == old(self).printing(),
            final(self)@ == old(self)@.recorded(*event),
            old(self)@.kept(final(self)@),
            final(self).hosts == old(self).hosts,
    {
        let ghost before = *self;
        self.trace.record(self.now_nanos, event);
        assert(self@ =~= before@.recorded(*event));
    }

    /// Schedules one copy of a datagram on a link.
    fn post(
        &mut self,
        key: LinkKey,
        params: &LinkParams,
        src: SocketAddr,
        to: SocketAddr,
        payload: &Vec<u8>,
    )
        requires
            old(self).wf(),
            params.wf(),
            key.to < old(self)@.hosts.len(),
        ensures
            final(self).wf(),
            final(self).printing() == old(self).printing(),
            final(self)@ == old(self)@.posted(key, *params, src, to, payload@),
            old(self)@.kept(final(self)@),
            final(self).hosts == old(self).hosts,
            delayed_within(old(self)@, final(self)@, key, *params),
    {
        let ghost before = *self;
        let delay_min: u64 = params.delay_min.as_nanos();
        let delay_max: u64 = params.delay_max.as_nanos();
        let delay: u64 = if delay_max > delay_min {
            random_range_u64(&mut self.rng, delay_min, delay_max)
        } else {
            delay_min
        };
        let p = params.reorder_probability;
        let reordered = if p.numerator > 0 {
            random_ratio(&mut self.rng, p.numerator, p.denominator)
        } else {
            false
        };
        let mut at: u64 = self.now_nanos.saturating_add(delay);
        if !reordered {
            let horizon: u64 = match self.link_horizon.get(&key) {
                Some(horizon) => *horizon,
                None => 0,
            };
            if at < horizon {
                at = horizon;
            }
            self.link_horizon.insert(key, at);
        }
        let ghost mid = *self;
        proof {
            assert(mid@ =~= WorldView { rng: mid@.rng, horizon: mid@.horizon, ..before@ });
        }
        let kind = EventKind::Delivery { to_host: key.to, src, dst: to, payload: copy_vec(payload) };
        assert(kind.view() == EventView::Delivery {
            to_host: key.to,
            src,
            dst: to,
            payload: payload@,
        });
        self.push_event(at, kind);
        assert(self@ =~= before@.posted(key, *params, src, to, payload@));
        proof {
            lemma_posted_within(before@, key, *params, src, to, payload@);
        }
    }

    /// Drops, duplicates and delays a datagram on a link.
    fn fault(
        &mut self,
        key: LinkKey,
        params: &LinkParams,
        src: SocketAddr,
        to: SocketAddr,
        payload: &Vec<u8>,
    )
        requires
            old(self).wf(),
            params.wf(),
            key.to < old(self)@.hosts.len(),
        ensures
            final(self).wf(),
            final(self).printing() == old(self).printing(),
            final(self)@ == old(self)@.faulted(key, *params, src, to, payload@),
            old(self)@.kept(final(self)@),
            final(self).hosts == old(self).hosts,
            delayed_within(old(self)@, final(self)@, key, *params),
            is_certain(old(self)@, final(self)@, *params),
    {
        let ghost before = *self;
        let p = params.drop_probability;
        let dropped = random_ratio(&mut self.rng, p.numerator, p.denominator);
        let ghost w1 = WorldView { rng: self@.rng, ..before@ };
        assert(self@ =~= w1);
        if dropped {
            self.record(
                &TraceEvent::LinkDropped { from: key.from, to: key.to, len: payload.len() },
            );
            assert(self@.queue == before@.queue);
            return ;
        }
        let q = params.duplicate_probability;
        let twice = if q.numerator > 0 {
            random_ratio(&mut self.rng, q.numerator, q.denominator)
        } else {
            false
        };
        let ghost w2 = WorldView { rng: self@.rng, ..w1 };
        assert(self@ =~= w2);
        if twice {
            self.record(&TraceEvent::LinkDuplicated { from: key.from, to: key.to });
            self.post(key, params, src, to, payload);
        }
        let ghost mid = self@;
        self.post(key, params, src, to, payload);
        proof {
            assert(delayed_within(before@, mid, key, *params));
            lemma_within_twice(before@, mid, self@, key, *params);
        }
    }

    /// Finds the host at `to` and carries the datagram over the link there.
    fn carry(&mut self, sender: u32, src: SocketAddr, to: SocketAddr, payload: &Vec<u8>)
        requires
            old(self).wf(),
        ensures
            final(self).wf(),
            final(self).printing() == old(self).printing(),
            final(self)@ == old(self)@.linked(sender, src, to, payload@),
            old(self)@.kept(final(self)@),
            final(self).hosts == old(self).hosts,
            old(self)@.owners.dom().contains(to.ip) ==> keeps_to_link(
                old(self)@,
                final(self)@,
                sender,
                old(self)@.owners[to.ip],
                payload@,
            ),
    {
        let owner: u32 = match self.ip_owner.get(&to.ip()) {
            Some(owner) => *owner,
            None => {
                self.record(&TraceEvent::NoRoute { from: sender, to });
                return ;
            },
        };
        let key = LinkKey { from: sender, to: owner };
        let params: LinkParams = match self.links.get(&key) {
            Some(params) => *params,
            None => self.default_link,
        };
        if !params.up {
            self.record(&TraceEvent::LinkDown { from: sender, to: owner });
            return ;
        }
        if let Some(mtu) = params.mtu {
            if payload.len() > mtu {
                self.record(
                    &TraceEvent::MtuDropped { from: sender, to: owner, len: payload.len(), mtu },
                );
                return ;
            }
        }
        self.record(&TraceEvent::HostSend { host: sender, from: src, to, len: payload.len() });
        self.fault(key, &params, src, to, payload);
    }

    /// Carries a datagram from a socket of a host towards `to`.
    fn route(&mut self, sender: u32, from: SocketAddr, to: SocketAddr, payload: &Vec<u8>)
        requires
            old(self).wf(),
            sender < old(self)@.hosts.len(),
        ensures
            final(self).wf(),
            final(self).printing() == old(self).printing(),
            final(self)@ == old(self)@.routed(sender, from, to, payload@),
            old(self)@.kept(final(self)@),
            final(self).nodes() == old(self).nodes(),
            old(self)@.owners.dom().contains(to.ip) ==> keeps_to_link(
                old(self)@,
                final(self)@,
                sender,
                old(self)@.owners[to.ip],
                payload@,
            ) || final(self)@.queue == old(self)@.queue,
    {
        let ghost before = *self;
        let now: u64 = self.now_nanos;
        let i: usize = sender as usize;
        let entry = &mut self.hosts[i];
        if let Some(firewall) = &mut entry.firewall {
            firewall.outbound(now, from, to);
        }
        let left = chain_outbound(&mut entry.nat_chain, now, from, to, sender, &mut self.trace);
        proof {
            let (src, chain, trace) = through_chain(
                before@.hosts[sender as int].chain,
                0,
                now,
                from,
                to,
                sender,
                before@.trace,
            );
            assert(self@.hosts =~= before@.hosts.update(
                sender as int,
                HostView {
                    chain,
                    firewall: self@.hosts[sender as int].firewall,
                    ..before@.hosts[sender as int]
                },
            ));
            assert(self@ =~= WorldView { hosts: self@.hosts, trace, ..before@ });
            assert(self@.wf());
            assert(self.nodes() =~= before.nodes());
        }
        if let Some(src) = left {
            self.carry(sender, src, to, payload);
        }
    }

    /// Brings a datagram to a host: in through its boxes and its firewall to
    /// the socket that has its address.
    fn arrive(
        &mut self,
        to_host: u32,
        src: SocketAddr,
        dst: SocketAddr,
        payload: &Vec<u8>,
    ) -> (r: Option<(SocketId, SocketAddr)>)
        requires
            old(self).wf(),
            to_host < old(self)@.hosts.len(),
        ensures
            final(self).wf(),
            final(self).printing() == old(self).printing(),
            (r, final(self)@) == old(self)@.arrived(to_host, src, dst, payload@),
            old(self)@.kept(final(self)@),
            final(self).nodes() == old(self).nodes(),
            r is Some ==> final(self)@.hosts[to_host as int].up,
    {
        let ghost before = *self;
        let now: u64 = self.now_nanos;
        let i: usize = to_host as usize;
        let entry = &mut self.hosts[i];
        if !entry.up {
            return None;
        }
        let inner = chain_inbound(&mut entry.nat_chain, now, src, dst, to_host, &mut self.trace);
        proof {
            let (inner, chain, trace) = into_chain(
                before@.hosts[to_host as int].chain,
                before@.hosts[to_host as int].chain.len(),
                now,
                src,
                dst,
                to_host,
                before@.trace,
            );
            assert(self@.hosts =~= before@.hosts.update(
                to_host as int,
                HostView { chain, ..before@.hosts[to_host as int] },
            ));
            assert(self@ =~= WorldView { hosts: self@.hosts, trace, ..before@ });
            assert(self@.wf());
            assert(self.nodes() =~= before.nodes());
        }
        match inner {
            None => None,
            Some(dst) => self.screen(to_host, src, dst, payload),
        }
    }

    /// The firewall's part of a delivery, and the search for the socket.
    fn screen(
        &mut self,
        to_host: u32,
        src: SocketAddr,
        dst: SocketAddr,
        payload: &Vec<u8>,
    ) -> (r: Option<(SocketId, SocketAddr)>)
        requires
            old(self).wf(),
            to_host < old(self)@.hosts.len(),
        ensures
            final(self).wf(),
            final(self).printing() == old(self).printing(),
            (r, final(self)@) == old(self)@.screened(to_host, src, dst, payload@),
            old(self)@.kept(final(self)@),
            final(self).nodes() == old(self).nodes(),
            final(self)@.hosts[to_host as int].up == old(self)@.hosts[to_host as int].up,
    {
        let ghost before = *self;
        let now: u64 = self.now_nanos;
        let i: usize = to_host as usize;
        let level: u8 = (self.hosts[i].nat_chain.len() % 256) as u8;
        let entry = &mut self.hosts[i];
        let passed = match &mut entry.firewall {
            Some(firewall) => firewall.inbound(now, src, dst),
            None => Ok(()),
        };
        let ghost w = *self;
        proof {
            assert(w@.hosts =~= before@.hosts.update(
                to_host as int,
                HostView {
                    firewall: w@.hosts[to_host as int].firewall,
                    ..before@.hosts[to_host as int]
                },
            ));
            assert(w@ =~= WorldView { hosts: w@.hosts, ..before@ });
            assert(w@.wf());
            assert(w.nodes() =~= before.nodes());
        }
        if let Err(reason) = passed {
            self.record(&TraceEvent::NatDropped { host: to_host, level, reason: reason.as_str() });
            return None;
        }
        match position(&self.hosts[i].env.sockets, dst) {
            None => {
                self.record(&TraceEvent::NoSocket { host: to_host, dst });
                None
            },
            Some(index) => {
                let socket = SocketId(index as u32);
                self.record(
                    &TraceEvent::Delivered { host: to_host, src, dst, len: payload.len() },
                );
                self.probe_note(to_host, socket, src, dst, payload);
                Some((socket, dst))
            },
        }
    }

    /// A probe keeps what it receives.
    fn probe_note(
        &mut self,
        to_host: u32,
        socket: SocketId,
        src: SocketAddr,
        dst: SocketAddr,
        payload: &Vec<u8>,
    )
        requires
            old(self).wf(),
            to_host < old(self)@.hosts.len(),
        ensures
            final(self).wf(),
            final(self).printing() == old(self).printing(),
            final(self)@ == old(self)@.probed(to_host, socket, src, dst, payload@),
            old(self)@.kept(final(self)@),
            final(self).nodes() == old(self).nodes(),
            final(self)@.hosts[to_host as int].up == old(self)@.hosts[to_host as int].up,
    {
        let ghost before = *self;
        let now: u64 = self.now_nanos;
        let i: usize = to_host as usize;
        if let HostKind::Probe(probe) = &mut self.hosts[i].kind {
            if probe.received.len() < MAX_PROBE_RECEIVED {
                let ghost had = probes(probe.received@);
                probe.received.push(
                    ProbeDatagram { at_nanos: now, socket, src, dst, payload: copy_vec(payload) },
                );
                proof {
                    assert(probes(probe.received@) =~= had.push(
                        ProbeView { at_nanos: now, socket, src, dst, payload: payload@ },
                    ));
                }
            }
        }
        proof {
            assert(self@.hosts =~= before@.probed(to_host, socket, src, dst, payload@).hosts);
            assert(self@ =~= before@.probed(to_host, socket, src, dst, payload@));
            assert(self@.wf());
            assert(self.nodes() =~= before.nodes());
        }
    }

    /// Takes down one report of a host's machine.
    fn note(&mut self, host: u32, note: Note)
        requires
            old(self).wf(),
            host < old(self)@.hosts.len(),
        ensures
            final(self).wf(),
            final(self).printing() == old(self).printing(),
            final(self)@ == old(self)@.noted(host, note@),
            old(self)@.kept(final(self)@),
            final(self).nodes() == old(self).nodes(),
    {
        let ghost before = *self;
        let i: usize = host as usize;
        match note {
            Note::Shred(payload) => {
                let payload_hash: u64 = hash_bytes(&payload);
                self.record(&TraceEvent::ShredDelivered { host, payload_hash });
                let ghost seen = payload@;
                if let HostKind::Overlay(node) = &mut self.hosts[i].kind {
                    if node.delivered.len() < MAX_DELIVERED_SHREDS {
                        let ghost had = bytes_views(node.delivered@);
                        node.delivered.push(payload);
                        assert(bytes_views(node.delivered@) =~= had.push(seen));
                    }
                }
                proof {
                    let want = before@.noted(host, NoteView::Shred(seen));
                    assert(self@.hosts =~= want.hosts);
                    assert(self@ =~= want);
                    assert(self@.wf());
                    assert(self.nodes() =~= before.nodes());
                }
            },
            Note::Connected { peer, pubkey } => {
                self.record(&TraceEvent::PeerConnected { host, peer, pubkey });
            },
            Note::Disconnected { peer } => {
                self.record(&TraceEvent::PeerDisconnected { host, peer });
            },
            Note::App { from, payload } => {
                let payload_hash: u64 = hash_bytes(&payload);
                self.record(&TraceEvent::AppDatagram { host, from, payload_hash });
                let ghost seen = payload@;
                if let HostKind::Transport(node) = &mut self.hosts[i].kind {
                    if node.received.len() < MAX_DELIVERED_SHREDS {
                        let ghost had = addressed(node.received@);
                        node.received.push((from, payload));
                        assert(addressed(node.received@) =~= had.push((from, seen)));
                    }
                }
                proof {
                    let want = before@.noted(host, NoteView::App { from, payload: seen });
                    assert(self@.hosts =~= want.hosts);
                    assert(self@ =~= want);
                    assert(self@.wf());
                    assert(self.nodes() =~= before.nodes());
                }
            },
        }
    }

    /// Sets a host's timer for `deadline`, but never for the current instant.
    fn schedule(&mut self, host: u32, deadline: Option<u64>)
        requires
            old(self).wf(),
            host < old(self)@.hosts.len(),
        ensures
            final(self).wf(),
            final(self).printing() == old(self).printing(),
            final(self)@ == old(self)@.scheduled(host, deadline),
            old(self)@.kept(final(self)@),
            final(self).nodes() == old(self).nodes(),
    {
        let ghost before = *self;
        let i: usize = host as usize;
        if !self.hosts[i].up {
            return ;
        }
        if let HostKind::Probe(_) = &self.hosts[i].kind {
            return ;
        }
        match deadline {
            None => {
                self.hosts[i].next_timer = None;
                proof {
                    assert(self@.hosts =~= before@.scheduled(host, deadline).hosts);
                    assert(self@ =~= before@.scheduled(host, deadline));
                    assert(self.nodes() =~= before.nodes());
                }
            },
            Some(due) => {
                let soonest: u64 = self.now_nanos.saturating_add(TIMER_MIN_ADVANCE_NANOS);
                let at: u64 = if due > soonest {
                    due
                } else {
                    soonest
                };
                if self.hosts[i].next_timer == Some(at) {
                    return ;
                }
                let generation: u64 = bump(self.hosts[i].timer_generation);
                self.hosts[i].next_timer = Some(at);
                self.hosts[i].timer_generation = generation;
                let ghost mid = *self;
                proof {
                    assert(mid@.hosts =~= before@.hosts.update(
                        host as int,
                        HostView {
                            next_timer: Some(at),
                            timer_generation: generation,
                            ..before@.hosts[host as int]
                        },
                    ));
                    assert(mid@ =~= WorldView { hosts: mid@.hosts, ..before@ });
                    assert(mid@.wf());
                    assert(mid.nodes() =~= before.nodes());
                }
                self.push_event(at, EventKind::Timer { host, generation });
            },
        }
    }

    /// Asks a host's machine for its next deadline and sets the timer for it.
    fn reschedule_timer(&mut self, host: u32)
        requires
            old(self).wf(),
            host < old(self)@.hosts.len(),
        ensures
            final(self).wf(),
            final(self).printing() == old(self).printing(),
            old(self).sim().timed(host, final(self).sim()),
            old(self)@.kept(final(self)@),
    {
        let ghost before = *self;
        let i: usize = host as usize;
        let deadline: Option<u64> = match &mut self.hosts[i].kind {
            HostKind::Overlay(node) => node.core.poll_timeout(),
            HostKind::Transport(node) => node.transport.poll_timeout(),
            HostKind::Probe(_) => None,
        };
        proof {
            assert(self@.hosts =~= before@.hosts);
            assert(self@ =~= before@);
            assert(self.nodes() =~= before.nodes().update(host as int, self.nodes()[host as int]));
            assert(before.nodes()[host as int].due(deadline, self.nodes()[host as int]));
        }
        self.schedule(host, deadline);
        assert(before.sim().nodes[host as int].due(deadline, self.sim().nodes[host as int]));
    }

    /// Takes the datagrams that a host's machine wants sent.
    fn take_sends(&mut self, host: u32) -> (sends: Vec<Outgoing>)
        requires
            old(self).wf(),
            host < old(self)@.hosts.len(),
        ensures
            final(self).wf(),
            final(self).printing() == old(self).printing(),
            final(self)@ == old(self)@,
            sends@ == old(self).nodes()[host as int].env.outbox@,
            old(self).nodes()[host as int].emptied(final(self).nodes()[host as int]),
            final(self).nodes() == old(self).nodes().update(
                host as int,
                final(self).nodes()[host as int],
            ),
    {
        let ghost before = *self;
        let mut sends: Vec<Outgoing> = Vec::new();
        std::mem::swap(&mut sends, &mut self.hosts[host as usize].env.outbox);
        proof {
            assert(self@.hosts =~= before@.hosts);
            assert(self@ =~= before@);
            assert(self.nodes() =~= before.nodes().update(host as int, self.nodes()[host as int]));
        }
        sends
    }

    /// Takes what a host's machine reports.
    fn take_notes(&mut self, host: u32) -> (notes: Vec<Note>)
        requires
            old(self).wf(),
            host < old(self)@.hosts.len(),
        ensures
            final(self).wf(),
            final(self).printing() == old(self).printing(),
            final(self)@ == old(self)@,
            old(self).nodes()[host as int].reported(
                note_views(notes@),
                final(self).nodes()[host as int],
            ),
            final(self).nodes() == old(self).nodes().update(
                host as int,
                final(self).nodes()[host as int],
            ),
    {
        let ghost before = *self;
        let notes: Vec<Note> = match &mut self.hosts[host as usize].kind {
            HostKind::Overlay(node) => {
                let ghost had = node.core;
                let events = node.core.take_events();
                let ghost all = events@;
                let notes = notes_of_core(events);
                assert(had.tells(all, &node.core));
                notes
            },
            HostKind::Transport(node) => {
                let ghost had = node.transport;
                let events = node.transport.take_events();
                let ghost told = node.transport;
                let inbound = node.transport.take_inbound();
                let ghost all = events@;
                let ghost arrived = inbound@;
                let notes = notes_of_transport(events, inbound);
                assert(had.tells(all, &told));
                assert(told.hands_out(arrived, &node.transport));
                notes
            },
            HostKind::Probe(_) => Vec::new(),
        };
        proof {
            assert(self@.hosts =~= before@.hosts);
            assert(self@ =~= before@);
            assert(self.nodes() =~= before.nodes().update(host as int, self.nodes()[host as int]));
            let (was, is) = (before.nodes()[host as int], self.nodes()[host as int]);
            match (was.machine, is.machine) {
                (Machine::Overlay(core), Machine::Overlay(core_after)) => {
                    assert(exists|events: Seq<CoreEvent>| #[trigger]
                        core.tells(events, &core_after) && note_views(notes@) == core_notes(
                            events,
                        ));
                },
                (Machine::Transport(transport), Machine::Transport(transport_after)) => {
                    assert(exists|
                        events: Seq<TransportEvent>,
                        told: T,
                        inbound: Seq<(SocketAddr, Vec<u8>)>,
                    |
                        #![trigger transport.tells(events, &told), told.hands_out(inbound, &transport_after)]
                        transport.tells(events, &told) && told.hands_out(inbound, &transport_after)
                            && note_views(notes@) == transport_notes(events) + inbound_notes(
                            inbound,
                        ));
                },
                _ => {},
            }
            assert(was.reported(note_views(notes@), is));
        }
        notes
    }

    /// Settles a host after its machine has run: takes down the reports,
    /// routes what it sends and sets its timer.
    fn post_process(&mut self, host: u32)
        requires
            old(self).wf(),
            host < old(self)@.hosts.len(),
        ensures
            final(self).wf(),
            final(self).printing() == old(self).printing(),
            old(self).sim().wound_up(host, final(self).sim()),
            old(self)@.kept(final(self)@),
    {
        let ghost start = self.sim();
        let ghost sockets = start.nodes[host as int].env.sockets@;
        let outbox = self.take_sends(host);
        let ghost quiet = self.nodes()[host as int];
        let sends = self.addressed_sends(host, outbox);
        let notes = self.take_notes(host);
        let ghost told = self.nodes()[host as int];
        let ghost reports = note_views(notes@);
        let ghost all_notes = notes@;
        let ghost machines = self.nodes();
        for note in iter: notes
            invariant
                self.wf(),
                self.printing() == old(self).printing(),
                host < self@.hosts.len(),
                start.world.kept(self@),
                self.nodes() == machines,
                iter.seq() == all_notes,
                reports == note_views(all_notes),
                self@ == start.world.noted_all(host, reports.take(iter.index() as int)),
        {
            let ghost k = iter.index() as int;
            self.note(host, note);
            proof {
                assert(reports.take(k + 1).drop_last() =~= reports.take(k));
                assert(reports.take(k + 1).last() == note@);
            }
        }
        assert(reports.take(reports.len() as int) =~= reports);
        let ghost noted = self@;
        let ghost send_views = sends_view(sends@);
        let mut i: usize = 0;
        while i < sends.len()
            invariant
                self.wf(),
                self.printing() == old(self).printing(),
                host < self@.hosts.len(),
                start.world.kept(self@),
                self.nodes() == machines,
                i <= sends@.len(),
                send_views == sends_view(sends@),
                self@ == noted.routed_all(host, send_views.take(i as int)),
            decreases sends@.len() - i,
        {
            self.route(host, sends[i].0, sends[i].1, &sends[i].2);
            i += 1;
            proof {
                assert(send_views.take(i as int).drop_last() =~= send_views.take(i - 1));
            }
        }
        assert(send_views.take(i as int) =~= send_views);
        let ghost sent = self.sim();
        self.reschedule_timer(host);
        proof {
            let deadline = choose|deadline: Option<u64>|
                {
                    &&& #[trigger] sent.nodes[host as int].due(
                        deadline,
                        self.nodes()[host as int],
                    )
                    &&& self@ == sent.world.scheduled(host, deadline)
                };
            assert(self.nodes() =~= start.nodes.update(host as int, self.nodes()[host as int]));
            assert(start.wound_up_by(host, quiet, reports, told, deadline, self.sim()));
        }
    }

    /// Gives the datagrams of an outbox the addresses of their sockets.
    fn addressed_sends(&self, host: u32, outbox: Vec<Outgoing>) -> (sends: Vec<
        (SocketAddr, SocketAddr, Vec<u8>),
    >)
        requires
            self.wf(),
            host < self@.hosts.len(),
        ensures
            sends_view(sends@) == outgoing(outbox@, self.nodes()[host as int].env.sockets@),
    {
        let ghost all = outbox@;
        let sockets = &self.hosts[host as usize].env.sockets;
        let mut sends: Vec<(SocketAddr, SocketAddr, Vec<u8>)> = Vec::new();
        assert(sends_view(sends@) =~= outgoing(all.take(0), sockets@));
        for out in iter: outbox
            invariant
                iter.seq() == all,
                sends_view(sends@) == outgoing(all.take(iter.index() as int), sockets@),
        {
            let ghost had = sends_view(sends@);
            let ghost k = iter.index() as int;
            proof {
                assert(all.take(k + 1).drop_last() =~= all.take(k));
                assert(all.take(k + 1).last() == out);
            }
            if (out.socket.0 as usize) < sockets.len() {
                let from = sockets[out.socket.0 as usize];
                let ghost sent = SendView { from, to: out.to, payload: out.payload@ };
                sends.push((from, out.to, out.payload));
                assert(sends_view(sends@) =~= had.push(sent));
            }
        }
        assert(all.take(all.len() as int) =~= all);
        sends
    }

    /// Lets a host's machine run: on a datagram, on its timer, on a datagram
    /// to send or on a shred to feed in.
    fn run_machine(&mut self, host: u32, call: Call)
        requires
            old(self).wf(),
            host < old(self)@.hosts.len(),
            !(old(self)@.hosts[host as int].kind is Probe),
        ensures
            final(self).wf(),
            final(self).printing() == old(self).printing(),
            old(self)@.kept(final(self)@),
            old(self).sim().reacted(host, call.view(), final(self).sim()),
    {
        let ghost start = *self;
        let now: u64 = self.now_nanos;
        self.hosts[host as usize].call(now, call);
        let ghost ran = *self;
        proof {
            let node = ran.nodes()[host as int];
            let want = start.sim().with_ran(host, node);
            assert(ran.hosts@[host as int].node() == node);
            assert(start.hosts@[host as int].node() == start.nodes()[host as int]);
            assert(ran@.hosts =~= want.world.hosts);
            assert(ran@ =~= want.world);
            assert(ran.nodes() =~= want.nodes);
            assert(ran@.wf());
            assert(start@.kept(ran@));
        }
        self.post_process(host);
    }

    /// Delivers a datagram to a host.
    fn deliver(&mut self, to_host: u32, src: SocketAddr, dst: SocketAddr, payload: Vec<u8>)
        requires
            old(self).wf(),
            to_host < old(self)@.hosts.len(),
        ensures
            final(self).wf(),
            final(self).printing() == old(self).printing(),
            old(self)@.kept(final(self)@),
            old(self).sim().handled(
                EventView::Delivery { to_host, src, dst, payload: payload@ },
                final(self).sim(),
            ),
    {
        let arrival = self.arrive(to_host, src, dst, &payload);
        let is_probe = match &self.hosts[to_host as usize].kind {
            HostKind::Probe(_) => true,
            _ => false,
        };
        if let Some((socket, _)) = arrival {
            if !is_probe {
                self.run_machine(to_host, Call::Datagram { socket, src, payload: &payload });
            }
        }
    }

    /// Handles one event of the queue.
    fn dispatch(&mut self, kind: EventKind)
        requires
            old(self).wf(),
            old(self)@.names_host(kind.view()),
        ensures
            final(self).wf(),
            final(self).printing() == old(self).printing(),
            old(self)@.kept(final(self)@),
            old(self).sim().handled(kind.view(), final(self).sim()),
    {
        match kind {
            EventKind::Timer { host, generation } => {
                let ghost before = *self;
                let i: usize = host as usize;
                if !self.hosts[i].up || self.hosts[i].timer_generation != generation {
                    return ;
                }
                self.hosts[i].next_timer = None;
                proof {
                    assert(self@.hosts =~= before@.fired(host).hosts);
                    assert(self@ =~= before@.fired(host));
                    assert(self@.wf());
                    assert(self.nodes() =~= before.nodes());
                }
                let is_probe = match &self.hosts[i].kind {
                    HostKind::Probe(_) => true,
                    _ => false,
                };
                if !is_probe {
                    self.run_machine(host, Call::Timer);
                }
            },
            EventKind::Delivery { to_host, src, dst, payload } => {
                self.deliver(to_host, src, dst, payload);
            },
        }
    }

    /// Lets `duration` of virtual time pass, with all that is due in it.
    pub fn run_for(&mut self, duration: Duration)
        requires
            old(self).wf(),
        ensures
            final(self).wf(),
            final(self).printing() == old(self).printing(),
            old(self)@.lasting(final(self)@),
            final(self)@.now == sat_u64(old(self)@.now + duration.nanos),
            forall|i: int|
                0 <= i < final(self)@.queue.len() ==> (#[trigger] final(self)@.queue[i]).at
                    > final(self)@.now,
            old(self).sim().ran_to(final(self)@.now, final(self).sim()),
    {
        let ghost start = self.sim();
        let target: u64 = self.now_nanos.saturating_add(duration.as_nanos());
        let ghost mut n: nat = 0;
        while self.queue.len() > 0 && self.queue[0].at <= target
            invariant
                self.wf(),
                self.printing() == old(self).printing(),
                start.world.lasting(self@),
                start.reaches(n, target, self.sim()),
            decreases 2 * (u64::MAX - self.seq) + self.queue@.len(),
        {
            let ghost before = *self;
            assert(before@.queue[0] == before.queue@[0].view());
            let event = self.queue.remove(0);
            if event.at > self.now_nanos {
                self.now_nanos = event.at;
            }
            proof {
                assert(queue_view(self.queue@) =~= before@.queue.skip(1));
                assert(self@ =~= before@.popped());
                lemma_popped_wf(before@);
            }
            self.dispatch(event.kind);
            proof {
                assert(start.reaches(n + 1, target, self.sim())) by {
                    assert(before.sim().wf());
                    assert(start.reaches(n, target, before.sim()) && before.sim().world.due(target)
                        && before.sim().popped().handled(before@.queue[0].event, self.sim()));
                }
                n = n + 1;
            }
        }
        let ghost last = *self;
        self.now_nanos = target;
        proof {
            assert(self@ =~= WorldView { now: target, ..last@ });
            assert(self@.wf());
            assert(!last@.due(target)) by {
                if last@.queue.len() > 0 {
                    assert(last@.queue[0] == last.queue@[0].view());
                }
            }
            assert forall|i: int| 0 <= i < self@.queue.len() implies (#[trigger] self@.queue[i]).at
                > target by {
                assert(last@.queue[0] == last.queue@[0].view());
                if i > 0 {
                    assert(last@.queue[0].at <= last@.queue[i].at);
                }
            }
            assert(start.reaches(n, target, last.sim()));
            assert(self.nodes() == last.nodes());
            assert(start.ran_to(target, self.sim()));
        }
    }
}

spec fn sends_view(sends: Seq<(SocketAddr, SocketAddr, Vec<u8>)>) -> Seq<SendView> {
    Seq::new(
        sends.len(),
        |i: int| SendView { from: sends[i].0, to: sends[i].1, payload: sends[i].2@ },
    )
}

pub proof fn lemma_popped_wf(w: WorldView)
    requires
        w.wf(),
        w.queue.len() > 0,
    ensures
        w.popped().wf(),
        w.popped().names_host(w.queue[0].event),
{
    let q = w.popped().queue;
    assert forall|i: int| 0 <= i < q.len() implies (#[trigger] q[i]).seq <= w.seq
        && w.popped().names_host(q[i].event) by {
        assert(q[i] == w.queue[i + 1]);
    }
    assert forall|i: int, j: int|
        #![trigger q[i], q[j]]
        0 <= i < j < q.len() implies q[i].at < q[j].at || (q[i].at == q[j].at && q[i].seq
        < q[j].seq) by {
        assert(q[i] == w.queue[i + 1]);
        assert(q[j] == w.queue[j + 1]);
    }
}

/// What a machine reports.
enum Note {
    Shred(Vec<u8>),
    Connected { peer: SocketAddr, pubkey: Option<Pubkey> },
    Disconnected { peer: SocketAddr },
    App { from: SocketAddr, payload: Vec<u8> },
}

impl Note {
    spec fn view(&self) -> NoteView {
        match self {
            Note::Shred(payload) => NoteView::Shred(payload@),
            Note::Connected { peer, pubkey } => NoteView::Connected { peer: *peer, pubkey: *pubkey },
            Note::Disconnected { peer } => NoteView::Disconnected { peer: *peer },
            Note::App { from, payload } => NoteView::App { from: *from, payload: payload@ },
        }
    }
}

spec fn note_views(notes: Seq<Note>) -> Seq<NoteView> {
    Seq::new(notes.len(), |i: int| notes[i].view())
}

fn notes_of_core(events: Vec<CoreEvent>) -> (notes: Vec<Note>)
    ensures
        note_views(notes@) == core_notes(events@),
{
    let ghost all = core_notes(events@);
    let mut notes: Vec<Note> = Vec::new();
    for event in iter: events
        invariant
            iter.seq() == events@,
            all == core_notes(events@),
            note_views(notes@) == all.take(iter.index() as int),
    {
        let ghost k = iter.index() as int;
        let note = match event {
            CoreEvent::ShredForFilter(packet) => Note::Shred(packet),
            CoreEvent::PeerConnected { peer, pubkey } => Note::Connected { peer, pubkey },
            CoreEvent::PeerDisconnected { peer } => Note::Disconnected { peer },
        };
        let ghost had = notes@;
        assert(note@ == all[k]);
        notes.push(note);
        assert(note_views(notes@) =~= note_views(had).push(all[k]));
        assert(note_views(notes@) =~= all.take(k + 1));
    }
    assert(all.take(all.len() as int) =~= all);
    notes
}

fn notes_of_transport(events: Vec<TransportEvent>, inbound: Vec<(SocketAddr, Vec<u8>)>) -> (notes:
    Vec<Note>)
    ensures
        note_views(notes@) == transport_notes(events@) + inbound_notes(inbound@),
{
    let ghost first = transport_notes(events@);
    let ghost second = inbound_notes(inbound@);
    let mut notes: Vec<Note> = Vec::new();
    for event in iter: events
        invariant
            iter.seq() == events@,
            first == transport_notes(events@),
            note_views(notes@) == first.take(iter.index() as int),
    {
        let ghost k = iter.index() as int;
        let note = match event {
            TransportEvent::Connected { peer, pubkey } => Note::Connected { peer, pubkey },
            TransportEvent::Disconnected { peer, .. } => Note::Disconnected { peer },
        };
        let ghost had = notes@;
        assert(note@ == first[k]);
        notes.push(note);
        assert(note_views(notes@) =~= note_views(had).push(first[k]));
        assert(note_views(notes@) =~= first.take(k + 1));
    }
    assert(note_views(notes@) =~= first + second.take(0));
    for datagram in iter: inbound
        invariant
            iter.seq() == inbound@,
            second == inbound_notes(inbound@),
            note_views(notes@) == first + second.take(iter.index() as int),
    {
        let ghost k = iter.index() as int;
        let note = Note::App { from: datagram.0, payload: datagram.1 };
        let ghost had = notes@;
        assert(note@ == second[k]);
        notes.push(note);
        assert(note_views(notes@) =~= note_views(had).push(second[k]));
        assert(note_views(notes@) =~= first + second.take(k + 1));
    }
    assert(second.take(second.len() as int) =~= second);
    notes
}

impl WorldView {
    /// What no step changes: the clock, the links, who owns which address,
    /// what kind each host is and how its network is laid out. Events are only
    /// added under new numbers.
    pub open spec fn kept(self, after: Self) -> bool {
        &&& after.seed == self.seed
        &&& after.now == self.now
        &&& after.default_link == self.default_link
        &&& after.links == self.links
        &&& after.owners == self.owners
        &&& self.seq <= after.seq
        &&& after.queue.len() <= self.queue.len() + (after.seq - self.seq)
        &&& after.hosts.len() == self.hosts.len()
        &&& forall|i: int|
            #![trigger after.hosts[i]]
            0 <= i < self.hosts.len() ==> self.hosts[i].kept(after.hosts[i])
    }
}

impl HostView {
    pub open spec fn kept(self, after: Self) -> bool {
        &&& after.lan_ip == self.lan_ip
        &&& after.identity == self.identity
        &&& after.setup == self.setup
        &&& after.chain.len() == self.chain.len()
        &&& (after.firewall is Some) == (self.firewall is Some)
        &&& (after.kind is Probe) == (self.kind is Probe)
        &&& (after.kind is Overlay) == (self.kind is Overlay)
        &&& self.kind is Probe ==> after.sockets == self.sockets
    }
}

impl WorldView {
    /// The world after a host's machine has left these reports, these
    /// datagrams to send and this deadline.
    pub open spec fn wound_up(
        self,
        host: u32,
        notes: Seq<NoteView>,
        sends: Seq<SendView>,
        deadline: Option<u64>,
    ) -> Self {
        self.noted_all(host, notes).routed_all(host, sends).scheduled(host, deadline)
    }

    /// An event is due by `target`.
    pub open spec fn due(self, target: u64) -> bool {
        self.queue.len() > 0 && self.queue[0].at <= target
    }

    /// The world at the time of its first event, which is taken off.
    pub open spec fn popped(self) -> Self {
        WorldView {
            now: if self.queue[0].at > self.now {
                self.queue[0].at
            } else {
                self.now
            },
            queue: self.queue.skip(1),
            ..self
        }
    }

    /// A host whose timer has gone off.
    pub open spec fn fired(self, host: u32) -> Self {
        WorldView {
            hosts: self.hosts.update(
                host as int,
                HostView { next_timer: None, ..self.hosts[host as int] },
            ),
            ..self
        }
    }

    /// What holds of a world for good: its seed, its links, who owns which
    /// address, and what kind each host is and how its network is laid out.
    pub open spec fn lasting(self, after: Self) -> bool {
        &&& after.seed == self.seed
        &&& after.default_link == self.default_link
        &&& after.links == self.links
        &&& after.owners == self.owners
        &&& after.hosts.len() == self.hosts.len()
        &&& forall|i: int|
            #![trigger after.hosts[i]]
            0 <= i < self.hosts.len() ==> self.hosts[i].kept(after.hosts[i])
    }

    /// Nothing but probes runs in this world.
    pub open spec fn probes_only(self) -> bool {
        forall|i: int| 0 <= i < self.hosts.len() ==> (#[trigger] self.hosts[i]).kind is Probe
    }
}

/// A world of probes is determined by its state: handling what is due leads
/// to one outcome only.
pub proof fn law_probe_world_deterministic<C: OverlayCore, T: OverlayTransport>(
    a: Sim<C, T>,
    b: Sim<C, T>,
    n: nat,
    target: u64,
    one: Sim<C, T>,
    other: Sim<C, T>,
)
    requires
        a.world == b.world,
        a.world.wf(),
        a.world.probes_only(),
        a.reaches(n, target, one),
        b.reaches(n, target, other),
    ensures
        one.world == other.world,
        one.nodes == a.nodes,
        one.world.wf(),
        one.world.probes_only(),
        one.world.hosts.len() == a.world.hosts.len(),
    decreases n,
{
    if n > 0 {
        let m1 = choose|mid: Sim<C, T>|
            a.reaches((n - 1) as nat, target, mid) && mid.wf() && #[trigger] mid.world.due(target)
                && mid.popped().handled(mid.world.queue[0].event, one);
        let m2 = choose|mid: Sim<C, T>|
            b.reaches((n - 1) as nat, target, mid) && mid.wf() && #[trigger] mid.world.due(target)
                && mid.popped().handled(mid.world.queue[0].event, other);
        law_probe_world_deterministic(a, b, (n - 1) as nat, target, m1, m2);
        lemma_popped_wf(m1.world);
        lemma_probe_step(m1.popped(), m1.world.queue[0].event, one);
        lemma_probe_step(m2.popped(), m2.world.queue[0].event, other);
    }
}

/// Before more events, there were fewer, and one more was due.
pub proof fn lemma_reaches_prefix<C: OverlayCore, T: OverlayTransport>(
    a: Sim<C, T>,
    n: nat,
    m: nat,
    target: u64,
    after: Sim<C, T>,
)
    requires
        n < m,
        a.reaches(m, target, after),
    ensures
        exists|mid: Sim<C, T>| a.reaches(n, target, mid) && #[trigger] mid.world.due(target),
    decreases m,
{
    let last = choose|mid: Sim<C, T>|
        a.reaches((m - 1) as nat, target, mid) && mid.wf() && #[trigger] mid.world.due(target)
            && mid.popped().handled(mid.world.queue[0].event, after);
    if n < m - 1 {
        lemma_reaches_prefix(a, n, (m - 1) as nat, target, last);
    }
}

/// A world of probes runs in one way only: its state determines all that
/// happens, down to the trace.
pub proof fn law_probe_run_deterministic<C: OverlayCore, T: OverlayTransport>(
    a: Sim<C, T>,
    b: Sim<C, T>,
    target: u64,
    one: Sim<C, T>,
    other: Sim<C, T>,
)
    requires
        a.world == b.world,
        a.world.wf(),
        a.world.probes_only(),
        a.ran_to(target, one),
        b.ran_to(target, other),
    ensures
        one.world == other.world,
        one.nodes == a.nodes,
        one.world.wf(),
        one.world.probes_only(),
        one.world.hosts.len() == a.world.hosts.len(),
{
    let (n, x) = choose|n: nat, last: Sim<C, T>| #[trigger]
        a.reaches(n, target, last) && !last.world.due(target) && one == (Sim {
            world: WorldView { now: target, ..last.world },
            ..last
        });
    let (m, y) = choose|m: nat, last: Sim<C, T>| #[trigger]
        b.reaches(m, target, last) && !last.world.due(target) && other == (Sim {
            world: WorldView { now: target, ..last.world },
            ..last
        });
    if n < m {
        lemma_reaches_prefix(b, n, m, target, y);
        let mid = choose|mid: Sim<C, T>|
            b.reaches(n, target, mid) && #[trigger] mid.world.due(target);
        law_probe_world_deterministic(a, b, n, target, x, mid);
    } else if m < n {
        lemma_reaches_prefix(a, m, n, target, x);
        let mid = choose|mid: Sim<C, T>|
            a.reaches(m, target, mid) && #[trigger] mid.world.due(target);
        law_probe_world_deterministic(b, a, m, target, y, mid);
    }
    law_probe_world_deterministic(a, b, n, target, x, y);
}

/// Handling an event in a world of probes leaves a world of probes.
proof fn lemma_probe_step<C: OverlayCore, T: OverlayTransport>(
    sim: Sim<C, T>,
    event: EventView,
    after: Sim<C, T>,
)
    requires
        sim.world.wf(),
        sim.world.probes_only(),
        sim.world.names_host(event),
        sim.handled(event, after),
    ensures
        after.nodes == sim.nodes,
        after.world.wf(),
        after.world.probes_only(),
        after.world.hosts.len() == sim.world.hosts.len(),
        after.world == (match event {
            EventView::Delivery { to_host, src, dst, payload } => sim.world.arrived(
                to_host,
                src,
                dst,
                payload,
            ).1,
            EventView::Timer { host, generation } => if !sim.world.hosts[host as int].up
                || sim.world.hosts[host as int].timer_generation != generation {
                sim.world
            } else {
                sim.world.fired(host)
            },
        }),
{
    let w = sim.world;
    match event {
        EventView::Delivery { to_host, .. } => {
            assert(w.hosts[to_host as int].kind is Probe);
        },
        EventView::Timer { host, .. } => {
            assert(w.hosts[host as int].kind is Probe);
        },
    }
}

impl<C: OverlayCore, T: OverlayTransport> Sim<C, T> {
    /// Every host has its node.
    pub open spec fn wf(self) -> bool {
        self.world.wf() && self.nodes.len() == self.world.hosts.len()
    }
}

/// A run neither adds machines nor takes any out.
pub proof fn lemma_ran_len<C: OverlayCore, T: OverlayTransport>(
    a: Sim<C, T>,
    target: u64,
    after: Sim<C, T>,
)
    requires
        a.ran_to(target, after),
    ensures
        after.nodes.len() == a.nodes.len(),
{
    let (n, last) = choose|n: nat, last: Sim<C, T>| #[trigger]
        a.reaches(n, target, last) && !last.world.due(target) && after == (Sim {
            world: WorldView { now: target, ..last.world },
            ..last
        });
    lemma_reaches_len(a, n, target, last);
}

proof fn lemma_reaches_len<C: OverlayCore, T: OverlayTransport>(
    a: Sim<C, T>,
    n: nat,
    target: u64,
    after: Sim<C, T>,
)
    requires
        a.reaches(n, target, after),
    ensures
        after.nodes.len() == a.nodes.len(),
    decreases n,
{
    if n > 0 {
        let mid = choose|mid: Sim<C, T>|
            a.reaches((n - 1) as nat, target, mid) && mid.wf() && #[trigger] mid.world.due(target)
                && mid.popped().handled(mid.world.queue[0].event, after);
        lemma_reaches_len(a, (n - 1) as nat, target, mid);
    }
}

/// The IPv4 address `a.b.c.d`.
pub open spec fn ipv4(a: int, b: int, c: int, d: int) -> IpAddr {
    IpAddr::V4((a * 0x100_0000 + b * 0x1_0000 + c * 0x100 + d) as u32)
}

/// The address of host `id` itself: on its own network behind NAT boxes, and
/// publicly routable without.
pub open spec fn host_ip(id: int, natted: bool, ipv6: bool) -> IpAddr {
    if natted {
        ipv4(10, id, 0, 2)
    } else if ipv6 {
        IpAddr::V6(
            (0x2001_0db8_0000_0000_0000_0000_0000_0002u128 + (id + 1)
                * 0x1_0000_0000_0000_0000) as u128,
        )
    } else {
        ipv4(203, 0, 113, id + 1)
    }
}

/// The address of the outer side of host `id`'s NAT box at `level`.
pub open spec fn box_ip(id: int, level: int) -> IpAddr {
    ipv4(198, 51, level % 256, id + 1)
}

/// What the generator of the NAT box at `level` is seeded under.
pub open spec fn box_label(level: nat) -> Seq<u8> {
    vstd::utf8::encode_utf8("nat-"@) + decimal_of(level)
}

/// Host `id`'s NAT boxes before any traffic.
pub open spec fn fresh_chain(seed: u64, id: u32, nats: Seq<NatConfig>) -> Seq<NatView> {
    Seq::new(
        nats.len(),
        |level: int|
            NatView::fresh(
                nats[level],
                box_ip(id as int, level),
                crypto::derived_u64(seed, id, box_label(level as nat)),
            ),
    )
}

impl WorldView {
    /// The world with one more host in it. Its outermost address is the one
    /// that can be routed to.
    pub open spec fn with_host(
        self,
        nats: Seq<NatConfig>,
        ipv6: bool,
        firewall: Option<FirewallConfig>,
        bind_port: Option<u16>,
        identity: Option<Pubkey>,
        setup: Option<OptionsView>,
        kind: KindView,
    ) -> Self {
        let id = self.hosts.len() as int;
        let ip = host_ip(id, nats.len() > 0, ipv6);
        let host = HostView {
            up: true,
            chain: fresh_chain(self.seed, id as u32, nats),
            firewall: match firewall {
                Some(config) => Some(
                    FirewallView {
                        config,
                        flows: Map::empty(),
                        pinholes: Map::empty(),
                        stats: crate::overlay::sim::nat_box::FirewallStats {
                            filtered_drops: 0,
                            pinholes_installed: 0,
                        },
                    },
                ),
                None => None,
            },
            lan_ip: ip,
            identity,
            setup,
            sockets: match bind_port {
                Some(port) => seq![SocketAddr { ip, port }],
                None => Seq::empty(),
            },
            next_ephemeral: EPHEMERAL_PORT_START,
            kind,
            timer_generation: 0,
            next_timer: None,
        };
        let outer = if nats.len() > 0 {
            box_ip(id, nats.len() - 1)
        } else {
            ip
        };
        WorldView {
            hosts: self.hosts.push(host),
            owners: self.owners.insert(outer, id as u32),
            ..self
        }
    }

    /// The world with one more node in it.
    pub open spec fn with_node(self, options: OptionsView, kind: KindView) -> Self {
        self.with_host(
            options.nats,
            options.ipv6,
            options.firewall,
            Some(options.bind_port),
            Some(crypto::derived_identity(self.seed, self.hosts.len() as u32)),
            if kind is Overlay {
                Some(options)
            } else {
                None
            },
            kind,
        )
    }

    /// What the core of the next node is configured with.
    pub open spec fn config_for(self, options: OptionsView) -> ConfigView {
        Self::config_at(self.hosts.len() as int, options)
    }

    /// What the core of the node on host `id` is configured with.
    pub open spec fn config_at(id: int, options: OptionsView) -> ConfigView {
        let ip = host_ip(id, options.nats.len() > 0, options.ipv6);
        let repair_port = if options.bind_port < u16::MAX {
            (options.bind_port + 1) as u16
        } else {
            (options.bind_port - 1) as u16
        };
        ConfigView {
            enabled: true,
            mode: options.mode,
            bind_addr: SocketAddr { ip, port: options.bind_port },
            advertised_addr: None,
            static_peers: options.static_peers,
            fanout: options.fanout,
            repair_addr: Some(SocketAddr { ip, port: repair_port }),
            shred_version: Some(options.shred_version),
            peer_ttl_ms: (options.peer_ttl.nanos / 1_000_000) as u64,
        }
    }

    /// A host switched on or off, and the record of it.
    pub open spec fn switched(self, host: u32, up: bool) -> Self {
        let entry = self.hosts[host as int];
        let after = if up {
            HostView { up, ..entry }
        } else {
            HostView {
                up,
                next_timer: None,
                timer_generation: bumped(entry.timer_generation),
                ..entry
            }
        };
        (WorldView { hosts: self.hosts.update(host as int, after), ..self }).recorded(
            if up {
                TraceEvent::HostUp { host }
            } else {
                TraceEvent::HostDown { host }
            },
        )
    }
}

impl WorldView {
    /// An overlay node that is up again, with nothing delivered.
    pub open spec fn restarted(self, host: u32) -> Self {
        WorldView {
            hosts: self.hosts.update(
                host as int,
                HostView {
                    up: true,
                    kind: KindView::Overlay(Seq::empty()),
                    ..self.hosts[host as int]
                },
            ),
            ..self
        }
    }
}

/// What the machine of host `id` sees when it is put into the world.
pub open spec fn fresh_env(w: WorldView, id: int, env: SimEnv) -> bool {
    &&& env.now == w.now
    &&& env.lan_ip == w.hosts[id].lan_ip
    &&& env.sockets@ == w.hosts[id].sockets
    &&& env.outbox@.len() == 0
    &&& rng_state(env.rng) == keyed_state(
        crypto::derived(w.seed, id as u32, vstd::utf8::encode_utf8("env-rng"@)),
    )
    &&& env.next_ephemeral == w.hosts[id].next_ephemeral
}

impl<C: OverlayCore, T: OverlayTransport> Sim<C, T> {
    /// `after` is `world`, which has one more host than this one, with `machine`
    /// on that.
    pub open spec fn added(self, world: WorldView, machine: Machine<C, T>, after: Self) -> bool {
        &&& after.world == world
        &&& after.nodes.len() == self.nodes.len() + 1
        &&& after.nodes.drop_last() == self.nodes
        &&& after.nodes.last().machine == machine
        &&& fresh_env(world, world.hosts.len() - 1, after.nodes.last().env)
    }

    /// `after` is this world once a node has joined it, with its timer set.
    pub open spec fn joined(
        self,
        options: OptionsView,
        kind: KindView,
        machine: Machine<C, T>,
        after: Self,
    ) -> bool {
        exists|mid: Self| #[trigger]
            self.added(self.world.with_node(options, kind), machine, mid) && mid.timed(
                self.world.hosts.len() as u32,
                after,
            )
    }

    /// This world with `machine` on `host`.
    pub open spec fn with_machine(self, host: u32, machine: Machine<C, T>) -> Self {
        Sim {
            nodes: self.nodes.update(host as int, Node { machine, ..self.nodes[host as int] }),
            ..self
        }
    }
}

impl<C: OverlayCore, T: OverlayTransport> Sim<C, T> {
    /// `after` is this world once the node on `host`, which was set up with
    /// `options`, runs a fresh core of the kit and has nothing delivered.
    pub open spec fn restarted_by<K: ScenarioKit<Core = C, Transport = T>>(
        self,
        host: HostId,
        options: OptionsView,
        kit: K,
        kit_after: K,
        after: Self,
    ) -> bool {
        exists|core: C| #[trigger]
            kit.makes_core(
                self.world.seed,
                host,
                WorldView::config_at(host.0 as int, options),
                options,
                self.world.now,
                core,
                &kit_after,
            ) && (Sim { world: self.world.restarted(host.0), ..self }).with_machine(
                host.0,
                Machine::Overlay(core),
            ).timed(host.0, after)
    }
}

/// All boxes of a chain can be built.
pub open spec fn nats_wf(nats: Seq<NatConfig>) -> bool {
    forall|i: int| 0 <= i < nats.len() ==> (#[trigger] nats[i]).wf()
}

impl<C: OverlayCore, T: OverlayTransport> SimWorld<C, T> {
    fn host_ip(id: u32, natted: bool, ipv6: bool) -> (ip: IpAddr)
        requires
            id < MAX_HOSTS,
        ensures
            ip == host_ip(id as int, natted, ipv6),
    {
        if natted {
            IpAddr::v4(10, id as u8, 0, 2)
        } else if ipv6 {
            IpAddr::V6(
                0x2001_0db8_0000_0000_0000_0000_0000_0002u128 + (id as u128 + 1)
                    * 0x1_0000_0000_0000_0000,
            )
        } else {
            IpAddr::v4(203, 0, 113, (id + 1) as u8)
        }
    }

    /// The NAT boxes of host `id`.
    fn nat_chain(&self, id: u32, nats: &Vec<NatConfig>) -> (chain: Vec<NatBox>)
        requires
            id < MAX_HOSTS,
            nats_wf(nats@),
        ensures
            chain_wf(chain@),
            chain_view(chain@) == fresh_chain(self@.seed, id, nats@),
    {
        let mut chain: Vec<NatBox> = Vec::new();
        let mut level: usize = 0;
        while level < nats.len()
            invariant
                level <= nats@.len(),
                id < MAX_HOSTS,
                nats_wf(nats@),
                chain@.len() == level,
                chain_wf(chain@),
                forall|i: int|
                    0 <= i < level ==> (#[trigger] chain@[i])@ == fresh_chain(
                        self@.seed,
                        id,
                        nats@,
                    )[i],
            decreases nats@.len() - level,
        {
            let mut label: Vec<u8> = Vec::new();
            crate::codec::put_bytes(&mut label, "nat-".as_bytes());
            put_decimal(&mut label, level as u64);
            assert(label@ =~= box_label(level as nat));
            let seed: u64 = crypto::first_u64(crypto::derive_label(self.seed, id, &label));
            let external_ip = IpAddr::v4(198, 51, (level % 256) as u8, (id + 1) as u8);
            chain.push(NatBox::new(nats[level], external_ip, seed));
            level += 1;
        }
        assert(chain_view(chain@) =~= fresh_chain(self@.seed, id, nats@));
        chain
    }

    /// Puts a host into the world.
    fn push_host(
        &mut self,
        nats: &Vec<NatConfig>,
        ipv6: bool,
        firewall: Option<FirewallConfig>,
        bind_port: Option<u16>,
        kind: HostKind<C, T>,
    ) -> (id: u32)
        requires
            old(self).wf(),
            old(self)@.hosts.len() < MAX_HOSTS,
            nats_wf(nats@),
        ensures
            final(self).wf(),
            final(self).printing() == old(self).printing(),
            id == old(self)@.hosts.len(),
            old(self).sim().added(
                old(self)@.with_host(
                    nats@,
                    ipv6,
                    firewall,
                    bind_port,
                    kind.identity(),
                    kind.setup(),
                    kind.view(),
                ),
                kind.machine(),
                final(self).sim(),
            ),
    {
        let ghost before = *self;
        let ghost kind_view = kind.view();
        let ghost identity = kind.identity();
        let ghost setup = kind.setup();
        let id: u32 = self.hosts.len() as u32;
        let natted = nats.len() > 0;
        let lan_ip = Self::host_ip(id, natted, ipv6);
        let outer = if natted {
            IpAddr::v4(198, 51, ((nats.len() - 1) % 256) as u8, (id + 1) as u8)
        } else {
            lan_ip
        };
        self.ip_owner.insert(outer, id);
        let mut sockets: Vec<SocketAddr> = Vec::new();
        if let Some(port) = bind_port {
            sockets.push(SocketAddr::new(lan_ip, port));
        }
        let env = SimEnv {
            now: self.now_nanos,
            lan_ip,
            sockets,
            outbox: Vec::new(),
            rng: seed_from_bytes(crypto::derive_bytes(self.seed, id, "env-rng")),
            next_ephemeral: EPHEMERAL_PORT_START,
        };
        let chain = self.nat_chain(id, nats);
        let wall = match firewall {
            Some(config) => Some(FirewallBox::new(config)),
            None => None,
        };
        let host = Host {
            up: true,
            nat_chain: chain,
            firewall: wall,
            lan_ip,
            env,
            kind,
            timer_generation: 0,
            next_timer: None,
        };
        let ghost host_view = host.view();
        self.hosts.push(host);
        proof {
            let want = before@.with_host(
                nats@,
                ipv6,
                firewall,
                bind_port,
                identity,
                setup,
                kind_view,
            );
            assert(host_view =~= want.hosts.last());
            assert(self@.hosts =~= before@.hosts.push(host_view));
            assert(self@.hosts =~= want.hosts);
            assert(self@ =~= want);
            assert(self.nodes().drop_last() =~= before.nodes());
            assert(fresh_env(self@, id as int, self.nodes().last().env));
            assert(self@.wf()) by {
                assert forall|i: int| 0 <= i < self@.queue.len() implies (
                #[trigger] self@.queue[i]).seq <= self@.seq && self@.names_host(
                    self@.queue[i].event,
                ) by {
                    assert(before@.names_host(before@.queue[i].event));
                }
            }
        }
        id
    }

    /// What the core of the next node is to be configured with.
    pub fn node_config(&self, options: &NodeOptions) -> (config: OverlayConfig)
        requires
            self.wf(),
            self@.hosts.len() < MAX_HOSTS,
        ensures
            config@ == self@.config_for(options@),
    {
        Self::config_of(self.hosts.len() as u32, options)
    }

    fn config_of(id: u32, options: &NodeOptions) -> (config: OverlayConfig)
        requires
            id < MAX_HOSTS,
        ensures
            config@ == WorldView::config_at(id as int, options@),
    {
        let ip = Self::host_ip(id, options.nats.len() > 0, options.ipv6);
        let repair_port: u16 = if options.bind_port < u16::MAX {
            options.bind_port + 1
        } else {
            options.bind_port - 1
        };
        OverlayConfig {
            enabled: true,
            mode: options.mode,
            bind_addr: SocketAddr::new(ip, options.bind_port),
            advertised_addr: None,
            static_peers: copy_vec(&options.static_peers),
            fanout: options.fanout,
            repair_addr: Some(SocketAddr::new(ip, repair_port)),
            shred_version: Some(options.shred_version),
            peer_ttl_ms: options.peer_ttl.as_millis(),
        }
    }

    /// The id that the next host gets.
    pub fn next_host(&self) -> (host: HostId)
        requires
            self.wf(),
        ensures
            host.0 == self@.hosts.len(),
    {
        HostId(self.hosts.len() as u32)
    }

    /// Adds a node that runs `core`.
    pub fn add_node(&mut self, options: &NodeOptions, core: C) -> (host: HostId)
        requires
            old(self).wf(),
            old(self)@.hosts.len() < MAX_HOSTS,
            nats_wf(options.nats@),
        ensures
            final(self).wf(),
            final(self).printing() == old(self).printing(),
            host.0 == old(self)@.hosts.len(),
            old(self)@.with_node(options@, KindView::Overlay(Seq::empty())).kept(final(self)@),
            old(self).sim().joined(
                options@,
                KindView::Overlay(Seq::empty()),
                Machine::Overlay(core),
                final(self).sim(),
            ),
            final(self)@.hosts[host.0 as int].sockets.len() == 1,
    {
        let id: u32 = self.hosts.len() as u32;
        let pubkey = crypto::derive_pubkey(self.seed, id);
        let kind = HostKind::Overlay(
            OverlayNode { core, pubkey, options: options.copied(), delivered: Vec::new() },
        );
        assert(kind.view() == KindView::Overlay(Seq::empty())) by {
            assert(bytes_views(Seq::<Vec<u8>>::empty()) =~= Seq::<Seq<u8>>::empty());
        }
        self.push_host(
            &options.nats,
            options.ipv6,
            options.firewall,
            Some(options.bind_port),
            kind,
        );
        let ghost mid = self.sim();
        let ghost w = old(self)@.with_node(options@, KindView::Overlay(Seq::empty()));
        assert(mid.world == w);
        self.reschedule_timer(id);
        HostId(id)
    }

    /// Adds a host that runs only a transport: dial with
    /// [`Self::transport_send`], read with [`Self::transport_received`].
    pub fn add_transport_node(&mut self, options: &NodeOptions, transport: T) -> (host: HostId)
        requires
            old(self).wf(),
            old(self)@.hosts.len() < MAX_HOSTS,
            nats_wf(options.nats@),
        ensures
            final(self).wf(),
            final(self).printing() == old(self).printing(),
            host.0 == old(self)@.hosts.len(),
            old(self)@.with_node(options@, KindView::Transport(Seq::empty())).kept(final(self)@),
            old(self).sim().joined(
                options@,
                KindView::Transport(Seq::empty()),
                Machine::Transport(transport),
                final(self).sim(),
            ),
            final(self)@.hosts[host.0 as int].sockets.len() == 1,
    {
        let id: u32 = self.hosts.len() as u32;
        let pubkey = crypto::derive_pubkey(self.seed, id);
        let kind = HostKind::Transport(TransportNode { transport, pubkey, received: Vec::new() });
        assert(kind.view() == KindView::Transport(Seq::empty())) by {
            assert(addressed(Seq::<(SocketAddr, Vec<u8>)>::empty()) =~= Seq::<
                (SocketAddr, Seq<u8>),
            >::empty());
        }
        self.push_host(
            &options.nats,
            options.ipv6,
            options.firewall,
            Some(options.bind_port),
            kind,
        );
        let ghost mid = self.sim();
        let ghost w = old(self)@.with_node(options@, KindView::Transport(Seq::empty()));
        assert(mid.world == w);
        self.reschedule_timer(id);
        HostId(id)
    }

    /// Adds a scriptable bare host: it sends raw datagrams and keeps all that
    /// it receives. Public probes act as observers; those behind NAT boxes
    /// are what is observed.
    pub fn add_probe(&mut self, nats: &Vec<NatConfig>) -> (host: HostId)
        requires
            old(self).wf(),
            old(self)@.hosts.len() < MAX_HOSTS,
            nats_wf(nats@),
        ensures
            final(self).wf(),
            final(self).printing() == old(self).printing(),
            host.0 == old(self)@.hosts.len(),
            old(self).sim().added(
                old(self)@.with_host(
                    nats@,
                    false,
                    None,
                    None,
                    None,
                    None,
                    KindView::Probe(Seq::empty()),
                ),
                Machine::Probe,
                final(self).sim(),
            ),
    {
        let kind = HostKind::Probe(ProbeNode { received: Vec::new() });
        assert(kind.view() == KindView::Probe(Seq::empty())) by {
            assert(probes(Seq::<ProbeDatagram>::empty()) =~= Seq::<ProbeView>::empty());
        }
        HostId(self.push_host(nats, false, None, None, kind))
    }

    /// Binds `port` on a probe. The port must be free.
    pub fn probe_bind(&mut self, host: HostId, port: u16) -> (socket: SocketId)
        requires
            old(self).wf(),
            host.0 < old(self)@.hosts.len(),
            ({
                let entry = old(self)@.hosts[host.0 as int];
                &&& !entry.sockets.contains(SocketAddr { ip: entry.lan_ip, port })
                &&& entry.sockets.len() <= u32::MAX
            }),
        ensures
            final(self).wf(),
            final(self).printing() == old(self).printing(),
            ({
                let entry = old(self)@.hosts[host.0 as int];
                &&& socket.0 == entry.sockets.len()
                &&& final(self)@ == (WorldView {
                    hosts: old(self)@.hosts.update(
                        host.0 as int,
                        HostView {
                            sockets: entry.sockets.push(SocketAddr { ip: entry.lan_ip, port }),
                            ..entry
                        },
                    ),
                    ..old(self)@
                })
                &&& final(self).nodes() == old(self).nodes().update(
                    host.0 as int,
                    final(self).nodes()[host.0 as int],
                )
                &&& old(self).nodes()[host.0 as int].rebound(
                    SocketAddr { ip: entry.lan_ip, port },
                    final(self).nodes()[host.0 as int],
                )
            }),
    {
        let ghost before = *self;
        let i: usize = host.0 as usize;
        let addr = SocketAddr::new(self.hosts[i].lan_ip, port);
        let n: usize = self.hosts[i].env.sockets.len();
        self.hosts[i].env.sockets.push(addr);
        proof {
            let entry = before@.hosts[host.0 as int];
            assert(self@.hosts =~= before@.hosts.update(
                host.0 as int,
                HostView { sockets: entry.sockets.push(addr), ..entry },
            ));
            assert(self@ =~= WorldView { hosts: self@.hosts, ..before@ });
            assert(self@.wf());
            assert(self.nodes() =~= before.nodes().update(
                host.0 as int,
                self.nodes()[host.0 as int],
            ));
        }
        SocketId(n as u32)
    }

    /// Sends a raw datagram from a socket of a host.
    pub fn probe_send(&mut self, host: HostId, socket: SocketId, to: SocketAddr, payload: &Vec<u8>)
        requires
            old(self).wf(),
            host.0 < old(self)@.hosts.len(),
            socket.0 < old(self)@.hosts[host.0 as int].sockets.len(),
        ensures
            final(self).wf(),
            final(self).printing() == old(self).printing(),
            old(self)@.kept(final(self)@),
            final(self)@ == old(self)@.routed(
                host.0,
                old(self)@.hosts[host.0 as int].sockets[socket.0 as int],
                to,
                payload@,
            ),
            final(self).nodes() == old(self).nodes(),
            old(self)@.owners.dom().contains(to.ip) ==> keeps_to_link(
                old(self)@,
                final(self)@,
                host.0,
                old(self)@.owners[to.ip],
                payload@,
            ) || final(self)@.queue == old(self)@.queue,
    {
        let from = self.hosts[host.0 as usize].env.sockets[socket.0 as usize];
        self.route(host.0, from, to, payload);
    }

    /// What a probe received; nothing for another host.
    pub fn probe_received(&self, host: HostId) -> (received: &[ProbeDatagram])
        requires
            self.wf(),
            host.0 < self@.hosts.len(),
        ensures
            probes(received@) == (match self@.hosts[host.0 as int].kind {
                KindView::Probe(received) => received,
                _ => Seq::empty(),
            }),
    {
        match &self.hosts[host.0 as usize].kind {
            HostKind::Probe(probe) => probe.received.as_slice(),
            _ => {
                let none: &[ProbeDatagram] = &[];
                assert(probes(none@) =~= Seq::<ProbeView>::empty());
                none
            },
        }
    }

    /// Queues an application datagram on a bare-transport host, which dials
    /// `to` on first use.
    pub fn transport_send(&mut self, host: HostId, to: SocketAddr, payload: &Vec<u8>)
        requires
            old(self).wf(),
            host.0 < old(self)@.hosts.len(),
            old(self)@.hosts[host.0 as int].kind is Transport,
        ensures
            final(self).wf(),
            final(self).printing() == old(self).printing(),
            old(self)@.kept(final(self)@),
            old(self).sim().reacted(
                host.0,
                CallView::Send { to, payload: payload@ },
                final(self).sim(),
            ),
    {
        self.run_machine(host.0, Call::Send { to, payload });
    }

    /// What a bare-transport host received; nothing for another host.
    pub fn transport_received(&self, host: HostId) -> (received: &[(SocketAddr, Vec<u8>)])
        requires
            self.wf(),
            host.0 < self@.hosts.len(),
        ensures
            addressed(received@) == (match self@.hosts[host.0 as int].kind {
                KindView::Transport(received) => received,
                _ => Seq::empty(),
            }),
    {
        match &self.hosts[host.0 as usize].kind {
            HostKind::Transport(node) => node.received.as_slice(),
            _ => {
                let none: &[(SocketAddr, Vec<u8>)] = &[];
                assert(addressed(none@) =~= Seq::<(SocketAddr, Seq<u8>)>::empty());
                none
            },
        }
    }

    /// The shreds that an overlay node delivered; nothing for another host.
    pub fn delivered_shreds(&self, host: HostId) -> (shreds: &[Vec<u8>])
        requires
            self.wf(),
            host.0 < self@.hosts.len(),
        ensures
            bytes_views(shreds@) == (match self@.hosts[host.0 as int].kind {
                KindView::Overlay(delivered) => delivered,
                _ => Seq::empty(),
            }),
    {
        match &self.hosts[host.0 as usize].kind {
            HostKind::Overlay(node) => node.delivered.as_slice(),
            _ => {
                let none: &[Vec<u8>] = &[];
                assert(bytes_views(none@) =~= Seq::<Seq<u8>>::empty());
                none
            },
        }
    }

    /// The address that a public host can be dialed at. A host behind NAT
    /// boxes has none.
    pub fn public_addr(&self, host: HostId) -> (addr: SocketAddr)
        requires
            self.wf(),
            host.0 < self@.hosts.len(),
            self@.hosts[host.0 as int].chain.len() == 0,
            self@.hosts[host.0 as int].sockets.len() > 0,
        ensures
            addr == self@.hosts[host.0 as int].sockets[0],
    {
        self.hosts[host.0 as usize].env.sockets[0]
    }

    /// The address of a host's first socket.
    pub fn local_addr(&self, host: HostId) -> (addr: SocketAddr)
        requires
            self.wf(),
            host.0 < self@.hosts.len(),
            self@.hosts[host.0 as int].sockets.len() > 0,
        ensures
            addr == self@.hosts[host.0 as int].sockets[0],
    {
        self.hosts[host.0 as usize].env.sockets[0]
    }

    /// The identity of a node, which a probe does not have.
    pub fn overlay_pubkey(&self, host: HostId) -> (pubkey: Option<Pubkey>)
        requires
            self.wf(),
            host.0 < self@.hosts.len(),
        ensures
            pubkey == self@.hosts[host.0 as int].identity,
    {
        match &self.hosts[host.0 as usize].kind {
            HostKind::Overlay(node) => Some(node.pubkey),
            HostKind::Transport(node) => Some(node.pubkey),
            HostKind::Probe(_) => None,
        }
    }

    /// The counters of a host's NAT boxes, innermost first.
    pub fn nat_stats(&self, host: HostId) -> (stats: Vec<NatStats>)
        requires
            self.wf(),
            host.0 < self@.hosts.len(),
        ensures
            stats@ == Seq::new(
                self@.hosts[host.0 as int].chain.len(),
                |i: int| self@.hosts[host.0 as int].chain[i].stats,
            ),
    {
        let chain = &self.hosts[host.0 as usize].nat_chain;
        let mut stats: Vec<NatStats> = Vec::new();
        let mut i: usize = 0;
        while i < chain.len()
            invariant
                i <= chain@.len(),
                stats@ == Seq::new(i as nat, |j: int| chain@[j]@.stats),
            decreases chain@.len() - i,
        {
            stats.push(chain[i].stats());
            i += 1;
            assert(stats@ =~= Seq::new(i as nat, |j: int| chain@[j]@.stats));
        }
        assert(stats@ =~= Seq::new(
            self@.hosts[host.0 as int].chain.len(),
            |i: int| self@.hosts[host.0 as int].chain[i].stats,
        ));
        stats
    }

    /// How many datagrams a host's firewall dropped; none without one.
    pub fn firewall_drops(&self, host: HostId) -> (drops: u64)
        requires
            self.wf(),
            host.0 < self@.hosts.len(),
        ensures
            drops == (match self@.hosts[host.0 as int].firewall {
                Some(f) => f.stats.filtered_drops,
                None => 0,
            }),
    {
        match &self.hosts[host.0 as usize].firewall {
            Some(firewall) => firewall.stats().filtered_drops,
            None => 0,
        }
    }

    /// The address of the outer side of a NAT box.
    pub fn external_ip(&self, host: HostId, level: usize) -> (ip: IpAddr)
        requires
            self.wf(),
            host.0 < self@.hosts.len(),
            level < self@.hosts[host.0 as int].chain.len(),
        ensures
            ip == self@.hosts[host.0 as int].chain[level as int].external_ip,
    {
        self.hosts[host.0 as usize].nat_chain[level].external_ip()
    }

    pub fn set_default_link(&mut self, params: LinkParams)
        requires
            old(self).wf(),
            params.wf(),
        ensures
            final(self).wf(),
            final(self).printing() == old(self).printing(),
            final(self)@ == (WorldView { default_link: params, ..old(self)@ }),
            final(self).nodes() == old(self).nodes(),
    {
        self.default_link = params;
    }

    pub fn set_link(&mut self, from: HostId, to: HostId, params: LinkParams)
        requires
            old(self).wf(),
            params.wf(),
        ensures
            final(self).wf(),
            final(self).printing() == old(self).printing(),
            final(self)@ == (WorldView {
                links: old(self)@.links.insert(LinkKey { from: from.0, to: to.0 }, params),
                ..old(self)@
            }),
            final(self).nodes() == old(self).nodes(),
    {
        self.links.insert(LinkKey { from: from.0, to: to.0 }, params);
    }

    pub fn set_link_bidir(&mut self, a: HostId, b: HostId, params: LinkParams)
        requires
            old(self).wf(),
            params.wf(),
        ensures
            final(self).wf(),
            final(self).printing() == old(self).printing(),
            final(self)@ == (WorldView {
                links: old(self)@.links.insert(LinkKey { from: a.0, to: b.0 }, params).insert(
                    LinkKey { from: b.0, to: a.0 },
                    params,
                ),
                ..old(self)@
            }),
            final(self).nodes() == old(self).nodes(),
    {
        self.set_link(a, b, params);
        self.set_link(b, a, params);
    }

    /// Switches a host on or off.
    pub fn set_host_up(&mut self, host: HostId, up: bool)
        requires
            old(self).wf(),
            host.0 < old(self)@.hosts.len(),
        ensures
            final(self).wf(),
            final(self).printing() == old(self).printing(),
            old(self)@.kept(final(self)@),
            old(self)@.hosts[host.0 as int].up == up ==> final(self).sim() == old(self).sim(),
            old(self)@.hosts[host.0 as int].up && !up ==> final(self).sim() == (Sim {
                world: old(self)@.switched(host.0, false),
                ..old(self).sim()
            }),
            !old(self)@.hosts[host.0 as int].up && up ==> (Sim {
                world: old(self)@.switched(host.0, true),
                ..old(self).sim()
            }).timed(host.0, final(self).sim()),
    {
        let ghost before = *self;
        let i: usize = host.0 as usize;
        if self.hosts[i].up == up {
            return ;
        }
        self.hosts[i].up = up;
        if !up {
            self.hosts[i].next_timer = None;
            self.hosts[i].timer_generation = bump(self.hosts[i].timer_generation);
        }
        let ghost mid = *self;
        proof {
            assert(mid@.hosts =~= before@.switched(host.0, up).hosts);
            assert(mid@ =~= WorldView { hosts: mid@.hosts, ..before@ });
            assert(mid@.wf());
            assert(mid.nodes() =~= before.nodes());
        }
        if up {
            self.record(&TraceEvent::HostUp { host: host.0 });
            assert(self@ =~= before@.switched(host.0, up));
            self.reschedule_timer(host.0);
        } else {
            self.record(&TraceEvent::HostDown { host: host.0 });
            assert(self@ =~= before@.switched(host.0, up));
        }
    }

    /// A host that runs a core was set up with options.
    pub proof fn lemma_setup(&self, host: HostId)
        requires
            host.0 < self@.hosts.len(),
        ensures
            (self@.hosts[host.0 as int].kind is Overlay) == (self@.hosts[host.0 as int].setup is Some),
    {
    }

    /// Churn: the node comes back with a fresh core and nothing delivered. The
    /// core is one of `kit`, for the same host, configuration and options as the
    /// one before. It changes nothing on a host that is not an overlay node.
    pub fn restart_overlay_node<K: ScenarioKit<Core = C, Transport = T>>(
        &mut self,
        host: HostId,
        kit: &mut K,
    )
        requires
            old(self).wf(),
            host.0 < old(self)@.hosts.len(),
        ensures
            final(self).wf(),
            final(self).printing() == old(self).printing(),
            old(self)@.kept(final(self)@),
            match old(self)@.hosts[host.0 as int].setup {
                Some(options) => old(self).sim().restarted_by(
                    host,
                    options,
                    *old(kit),
                    *final(kit),
                    final(self).sim(),
                ),
                None => final(self).sim() == old(self).sim() && *final(kit) == *old(kit),
            },
    {
        let ghost before = *self;
        let i: usize = host.0 as usize;
        let core = match &self.hosts[i].kind {
            HostKind::Overlay(node) => {
                let config = Self::config_of(host.0, &node.options);
                kit.core_for(self.seed, host, config, &node.options, self.now_nanos)
            },
            _ => {
                return ;
            },
        };
        let ghost machine = Machine::<C, T>::Overlay(core);
        let entry = &mut self.hosts[i];
        if let HostKind::Overlay(node) = &mut entry.kind {
            node.core = core;
            node.delivered = Vec::new();
            entry.up = true;
        }
        proof {
            assert(bytes_views(Seq::<Vec<u8>>::empty()) =~= Seq::<Seq<u8>>::empty());
            assert(self@.hosts =~= before@.restarted(host.0).hosts);
            assert(self@ =~= before@.restarted(host.0));
            assert(self@.wf());
            assert(self.nodes() =~= before.sim().with_machine(host.0, machine).nodes);
        }
        self.reschedule_timer(host.0);
    }

    /// Feeds a shred into a node, as the packet filter would. It fits a
    /// packet.
    pub fn inject_shred(&mut self, host: HostId, payload: &Vec<u8>)
        requires
            old(self).wf(),
            host.0 < old(self)@.hosts.len(),
            payload@.len() <= PACKET_DATA_SIZE,
        ensures
            final(self).wf(),
            final(self).printing() == old(self).printing(),
            old(self)@.kept(final(self)@),
            if old(self)@.hosts[host.0 as int].kind is Probe {
                final(self).sim() == old(self).sim()
            } else {
                old(self).sim().reacted(
                    host.0,
                    CallView::SourcePacket { payload: payload@ },
                    final(self).sim(),
                )
            },
    {
        let is_probe = match &self.hosts[host.0 as usize].kind {
            HostKind::Probe(_) => true,
            _ => false,
        };
        if !is_probe {
            self.run_machine(host.0, Call::SourcePacket { payload });
        }
    }
}

proof fn lemma_posted(
    w: WorldView,
    key: LinkKey,
    params: LinkParams,
    src: SocketAddr,
    to: SocketAddr,
    payload: Seq<u8>,
)
    requires
        w.wf(),
        key.to < w.hosts.len(),
    ensures
        w.posted(key, params, src, to, payload).wf(),
        w.posted(key, params, src, to, payload).hosts == w.hosts,
{
    let after = w.posted(key, params, src, to, payload);
    let event = EventView::Delivery { to_host: key.to, src, dst: to, payload };
    assert forall|x: WorldView, at: u64|
        x == (WorldView { rng: x.rng, horizon: x.horizon, ..w }) implies (#[trigger] x.pushed(
        at,
        event,
    )).wf() && x.pushed(at, event).hosts == w.hosts by {
        assert(x.wf());
        x.lemma_pushed(at, event);
    }
}

/// Sending a datagram keeps a world in order, and its hosts what they are.
#[verifier::rlimit(40)]
pub proof fn lemma_routed(
    w: WorldView,
    sender: u32,
    from: SocketAddr,
    to: SocketAddr,
    payload: Seq<u8>,
)
    requires
        w.wf(),
        sender < w.hosts.len(),
    ensures
        w.routed(sender, from, to, payload).wf(),
        w.routed(sender, from, to, payload).hosts.len() == w.hosts.len(),
        w.probes_only() ==> w.routed(sender, from, to, payload).probes_only(),
{
    let host = w.hosts[sender as int];
    let (src, chain, trace) = through_chain(host.chain, 0, w.now, from, to, sender, w.trace);
    let after = w.routed(sender, from, to, payload);
    let passed = WorldView {
        hosts: w.hosts.update(
            sender as int,
            HostView {
                chain,
                firewall: match host.firewall {
                    Some(f) => Some(
                        FirewallView {
                            flows: f.flows.insert(
                                crate::overlay::sim::nat_box::Flow { local: from, remote: to },
                                w.now,
                            ),
                            ..f
                        },
                    ),
                    None => None,
                },
                ..host
            },
        ),
        trace,
        ..w
    };
    assert(passed.wf());
    if let Some(src) = src {
        assert(after == passed.linked(sender, src, to, payload));
        if passed.owners.dom().contains(to.ip) {
            let owner = passed.owners[to.ip];
            let params = passed.link(sender, owner);
            let key = LinkKey { from: sender, to: owner };
            assert forall|x: WorldView|
                x == (WorldView {
                    rng: x.rng,
                    trace: x.trace,
                    horizon: x.horizon,
                    queue: x.queue,
                    seq: x.seq,
                    ..passed
                }) && x.wf() implies (#[trigger] x.posted(key, params, src, to, payload)).wf()
                && x.posted(key, params, src, to, payload).hosts == passed.hosts by {
                lemma_posted(x, key, params, src, to, payload);
            }
            let sent = passed.recorded(
                TraceEvent::HostSend { host: sender, from: src, to, len: payload.len() as usize },
            );
            assert(sent.wf());
            let p = params.drop_probability;
            let (dropped, rng1) = ratio_draw(sent.rng, p.numerator, p.denominator);
            let w1 = WorldView { rng: rng1, ..sent };
            assert(w1.wf());
            let q = params.duplicate_probability;
            let (twice, rng2) = if q.numerator > 0 {
                ratio_draw(rng1, q.numerator, q.denominator)
            } else {
                (false, rng1)
            };
            let w2 = WorldView { rng: rng2, ..w1 };
            assert(w2.wf());
            let w3 = w2.recorded(TraceEvent::LinkDuplicated { from: key.from, to: key.to });
            assert(w3.wf());
            lemma_posted(w2, key, params, src, to, payload);
            lemma_posted(w3, key, params, src, to, payload);
            lemma_posted(w3.posted(key, params, src, to, payload), key, params, src, to, payload);
        }
        assert(after.hosts == passed.hosts);
    }
}

/// Another probe keeps a world in order.
pub proof fn lemma_with_probe(w: WorldView, nats: Seq<NatConfig>)
    requires
        w.wf(),
        w.hosts.len() < MAX_HOSTS,
    ensures
        ({
            let after = w.with_host(nats, false, None, None, None, None, KindView::Probe(Seq::empty()));
            &&& after.wf()
            &&& after.hosts.len() == w.hosts.len() + 1
            &&& w.probes_only() ==> after.probes_only()
        }),
{
    let after = w.with_host(nats, false, None, None, None, None, KindView::Probe(Seq::empty()));
    assert forall|i: int| 0 <= i < after.queue.len() implies (#[trigger] after.queue[i]).seq
        <= after.seq && after.names_host(after.queue[i].event) by {
        assert(w.names_host(w.queue[i].event));
    }
}

/// A link that does not reorder is FIFO: what is scheduled on it arrives no
/// earlier than what was scheduled before, and never in the past.
pub proof fn law_fifo_link(
    w: WorldView,
    key: LinkKey,
    params: LinkParams,
    src: SocketAddr,
    to: SocketAddr,
    payload: Seq<u8>,
)
    requires
        params.reorder_probability.numerator == 0,
    ensures
        ({
            let after = w.posted(key, params, src, to, payload);
            &&& after.horizon.dom().contains(key)
            &&& after.horizon[key] >= w.now
            &&& w.horizon.dom().contains(key) ==> after.horizon[key] >= w.horizon[key]
            &&& w.seq < u64::MAX ==> after.queue == queued(
                w.queue,
                QueuedView {
                    at: after.horizon[key],
                    seq: (w.seq + 1) as u64,
                    event: EventView::Delivery { to_host: key.to, src, dst: to, payload },
                },
            )
        }),
{
}

/// A partitioned link carries nothing: the world only records the attempt.
pub proof fn law_partition_carries_nothing(
    w: WorldView,
    sender: u32,
    src: SocketAddr,
    to: SocketAddr,
    payload: Seq<u8>,
)
    requires
        w.owners.dom().contains(to.ip),
        !w.link(sender, w.owners[to.ip]).up,
    ensures
        w.linked(sender, src, to, payload).queue == w.queue,
        w.linked(sender, src, to, payload).hosts == w.hosts,
        w.linked(sender, src, to, payload).rng == w.rng,
{
}

/// A datagram above the link's MTU is dropped, and one within it is sent.
pub proof fn law_mtu_clamp(
    w: WorldView,
    sender: u32,
    src: SocketAddr,
    to: SocketAddr,
    payload: Seq<u8>,
)
    requires
        w.owners.dom().contains(to.ip),
        w.link(sender, w.owners[to.ip]).up,
        payload.len() <= usize::MAX,
    ensures
        ({
            let owner = w.owners[to.ip];
            let params = w.link(sender, owner);
            let len = payload.len() as usize;
            w.linked(sender, src, to, payload) == (if params.mtu is Some && payload.len()
                > params.mtu->0 {
                w.recorded(
                    TraceEvent::MtuDropped { from: sender, to: owner, len, mtu: params.mtu->0 },
                )
            } else {
                w.recorded(TraceEvent::HostSend { host: sender, from: src, to, len }).faulted(
                    LinkKey { from: sender, to: owner },
                    params,
                    src,
                    to,
                    payload,
                )
            })
        }),
{
}

impl<C: OverlayCore> SimWorld<C, OverlayQuicTransport> {
    /// What each connection of a bare-transport host has counted.
    pub fn transport_stats(&self, host: HostId) -> (r: Vec<(SocketAddr, PathCounts)>)
        requires
            self.wf(),
            host.0 < self@.hosts.len(),
        ensures
            match self.nodes()[host.0 as int].machine {
                Machine::Transport(transport) => transport.is_whole() ==> counts_listed(
                    transport@.connections,
                    r@,
                ),
                _ => r@.len() == 0,
            },
    {
        match &self.hosts[host.0 as usize].kind {
            HostKind::Transport(node) => node.transport.connection_stats(),
            _ => Vec::new(),
        }
    }

    /// How many datagrams of a bare-transport host wait for their connections.
    pub fn transport_pending(&self, host: HostId) -> (n: usize)
        requires
            self.wf(),
            host.0 < self@.hosts.len(),
        ensures
            match self.nodes()[host.0 as int].machine {
                Machine::Transport(transport) => transport.is_whole() ==> transport.holds_back(
                    n as nat,
                ),
                _ => n == 0,
            },
    {
        match &self.hosts[host.0 as usize].kind {
            HostKind::Transport(node) => node.transport.pending_datagrams(),
            _ => 0,
        }
    }
}

} // verus!
