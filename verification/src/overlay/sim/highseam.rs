//! Simulation at protocol scale: the transport is an in-memory authenticated
//! one, so that hundreds to thousands of cores run their gossip, advert and
//! turbine logic cheaply, without QUIC, TLS or NATs.
//!
//! Time advances in fixed ticks of one second. Datagrams sent during a tick
//! are delivered in the next one, in the order of their senders, then of their
//! sending; an optional seeded drop probability models lossy links. Dials to a
//! known listening address succeed at once.

use rand::rngs::StdRng;
use vstd::prelude::*;
use crate::addr::{IpAddr, SocketAddr};
use crate::codec::{bytes_views, copy_range, le_bytes, put_bytes, put_le};
use crate::digest::{sha256, sha256_of};
use crate::ordmap::{OrdMap, Rank};
use crate::overlay::env::{BindError, EnvView, OverlayEnv, SocketId};
use crate::overlay::service::{OverlayConfig, OverlayMode, OverlayRepairReq};
use crate::overlay::sim::crypto::{derive_bytes, derive_pubkey, derived, derived_identity};
use crate::overlay::sim::mem_transport::{
    stream_ops,
    MemStreamOp,
    MemTransport,
    MemView,
    OpView,
    OverlayStreamId,
};
use crate::overlay::sim::net::Probability;
use crate::overlay::sim::trace::{hex_of, to_hex};
use crate::overlay::sim::world::{outbox_view, Outgoing};
use crate::overlay::transport::{addressed, OverlayTransport};
use crate::pubkey::Pubkey;
use crate::rng::{
    keyed_state, random_ratio, random_u64, ratio_draw, rng_state, seed_from_bytes, seed_from_u64,
    seeded_state, u64_draw,
};
use crate::time::Duration;
use crate::types::PACKET_DATA_SIZE;

verus! {

/// A tick, in nanoseconds.
pub const TICK: u64 = 1_000_000_000;

/// The place of a shred in a node's store.
#[derive(Clone, Copy, Debug, PartialEq, Eq, Structural)]
pub struct StoreKey {
    pub slot: u64,
    pub index: u32,
}

impl Rank for StoreKey {
    open spec fn rank(self) -> int {
        self.slot * 0x1_0000_0000 + self.index
    }

    proof fn rank_injective(a: Self, b: Self) {
    }

    fn before(&self, other: &Self) -> (r: bool) {
        self.slot < other.slot || (self.slot == other.slot && self.index < other.index)
    }
}

/// A node's shreds in memory, from which it serves repair.
pub type SimShredStore = OrdMap<StoreKey, Vec<u8>>;

/// The shreds of a store.
pub open spec fn shreds_of(store: Map<StoreKey, Vec<u8>>) -> Map<StoreKey, Seq<u8>> {
    store.map_values(|v: Vec<u8>| v@)
}

/// The place at which a store answers `request`, if it does: for the topmost
/// shred, no place of the slot lies above it.
pub open spec fn answers_at(
    store: Map<StoreKey, Seq<u8>>,
    request: OverlayRepairReq,
    key: StoreKey,
) -> bool {
    store.dom().contains(key) && match request {
        OverlayRepairReq::WindowIndex { slot, shred_index } => key == (StoreKey {
            slot,
            index: shred_index,
        }),
        OverlayRepairReq::HighestWindowIndex { slot, shred_index } => {
            &&& key.slot == slot
            &&& shred_index <= key.index
            &&& forall|other: StoreKey| #[trigger]
                store.dom().contains(other) && other.slot == slot ==> other.index <= key.index
        },
    }
}

/// `shred` is what a store answers `request` with.
pub open spec fn repair_answer(
    store: Map<StoreKey, Seq<u8>>,
    request: OverlayRepairReq,
    shred: Option<Seq<u8>>,
) -> bool {
    match shred {
        Some(bytes) => exists|key: StoreKey| #[trigger]
            answers_at(store, request, key) && bytes == store[key],
        None => forall|key: StoreKey| !#[trigger] answers_at(store, request, key),
    }
}

/// What a store holds for `request`.
pub fn lookup_repair(store: &SimShredStore, request: &OverlayRepairReq) -> (r: Option<Vec<u8>>)
    requires
        store.wf(),
    ensures
        repair_answer(shreds_of(store@), *request, maybe_bytes(r)),
{
    match request {
        OverlayRepairReq::WindowIndex { slot, shred_index } => {
            let key = StoreKey { slot: *slot, index: *shred_index };
            match store.get(&key) {
                Some(bytes) => {
                    let out: Vec<u8> = copy_range(bytes, 0, bytes.len());
                    proof {
                        assert(out@ =~= bytes@);
                        assert(answers_at(shreds_of(store@), *request, key));
                    }
                    Some(out)
                },
                None => None,
            }
        },
        OverlayRepairReq::HighestWindowIndex { slot, shred_index } => {
            let n: usize = store.len();
            let mut i: usize = n;
            while i > 0
                invariant
                    store.wf(),
                    *request == (OverlayRepairReq::HighestWindowIndex {
                        slot: *slot,
                        shred_index: *shred_index,
                    }),
                    i <= n,
                    n == store.entries().len(),
                    forall|j: int|
                        i <= j < n ==> (#[trigger] store.entries()[j]).0.slot > *slot,
                decreases i,
            {
                let (key, bytes) = store.at(i - 1);
                if key.slot <= *slot {
                    if key.slot == *slot && key.index >= *shred_index {
                        let out: Vec<u8> = copy_range(bytes, 0, bytes.len());
                        proof {
                            assert(out@ =~= bytes@);
                            lemma_topmost(*store, *slot, i - 1);
                            assert(answers_at(shreds_of(store@), *request, *key));
                        }
                        return Some(out);
                    }
                    proof {
                        assert forall|other: StoreKey| !#[trigger]
                            answers_at(shreds_of(store@), *request, other) by {
                            if answers_at(shreds_of(store@), *request, other) {
                                let j = store.index_of(other);
                                assert(store.has(other));
                                if j < i - 1 {
                                    assert(store.entries()[j].0.rank() < store.entries()[i
                                        - 1].0.rank());
                                    assert(key.slot == *slot);
                                    assert(shreds_of(store@).dom().contains(*key));
                                }
                            }
                        }
                    }
                    return None;
                }
                i -= 1;
            }
            proof {
                assert forall|other: StoreKey| !#[trigger]
                    answers_at(shreds_of(store@), *request, other) by {
                    if answers_at(shreds_of(store@), *request, other) {
                        assert(store.has(other));
                        assert(store.entries()[store.index_of(other)].0.slot > *slot);
                    }
                }
            }
            None
        },
    }
}

/// The last entry of a slot is its topmost.
proof fn lemma_topmost(store: SimShredStore, slot: u64, at: int)
    requires
        store.wf(),
        0 <= at < store.entries().len(),
        store.entries()[at].0.slot == slot,
        forall|j: int|
            at < j < store.entries().len() ==> (#[trigger] store.entries()[j]).0.slot > slot,
    ensures
        forall|other: StoreKey| #[trigger]
            shreds_of(store@).dom().contains(other) && other.slot == slot ==> other.index
                <= store.entries()[at].0.index,
{
    assert forall|other: StoreKey| #[trigger]
        shreds_of(store@).dom().contains(other) && other.slot == slot implies other.index
        <= store.entries()[at].0.index by {
        assert(store.has(other));
        let j = store.index_of(other);
        if j < at {
            assert(store.entries()[j].0.rank() < store.entries()[at].0.rank());
        }
    }
}

/// What a node saw of a repair that it asked for.
#[derive(Debug)]
pub enum SimRepairEvent {
    Response { at_nanos: u64, stream: u64, peer: Pubkey, shred: Option<Vec<u8>> },
    Failed { at_nanos: u64, stream: u64, peer: Pubkey },
}

pub enum RepairEventView {
    Response { at: u64, stream: u64, peer: Pubkey, shred: Option<Seq<u8>> },
    Failed { at: u64, stream: u64, peer: Pubkey },
}

pub open spec fn maybe_bytes(shred: Option<Vec<u8>>) -> Option<Seq<u8>> {
    match shred {
        Some(bytes) => Some(bytes@),
        None => None,
    }
}

impl SimRepairEvent {
    pub open spec fn view(&self) -> RepairEventView {
        match *self {
            SimRepairEvent::Response { at_nanos, stream, peer, shred } => {
                RepairEventView::Response {
                    at: at_nanos,
                    stream,
                    peer,
                    shred: maybe_bytes(shred),
                }
            },
            SimRepairEvent::Failed { at_nanos, stream, peer } => RepairEventView::Failed {
                at: at_nanos,
                stream,
                peer,
            },
        }
    }
}

/// What a core tells the harness.
#[allow(inconsistent_fields)]
#[derive(Debug)]
pub enum HighSeamEvent {
    /// A shred for the packet filter.
    ShredForFilter(Vec<u8>),
    /// A peer asks for a shred over `stream`.
    RepairRequest { stream: OverlayStreamId, request: OverlayRepairReq },
    /// A peer has answered over `stream`.
    RepairResponse { stream: OverlayStreamId, peer: Pubkey, shred: Option<Vec<u8>> },
    RepairFailed { stream: OverlayStreamId, peer: Pubkey },
    PeerConnected { peer: SocketAddr, pubkey: Option<Pubkey> },
    PeerDisconnected { peer: SocketAddr },
}

/// An advert that a core holds, as far as digests go.
#[derive(Clone, Copy, Debug, PartialEq, Eq, Structural)]
pub struct AdvertSummary {
    pub pubkey: Pubkey,
    pub seq: u64,
    /// How many direct addresses it names.
    pub direct_addrs: u8,
}

/// The protocol core of a node over the in-memory transport. The relations say
/// what a call of each method may come to, for the core, the environment and
/// the transport; they are the core's own, and any holds of a core that does
/// not say otherwise.
pub trait HighSeamCore {
    /// What a datagram leads to.
    open spec fn takes_datagram(
        &self,
        env: EnvView,
        transport: MemView,
        from: SocketAddr,
        datagram: Seq<u8>,
        after: &Self,
        env_after: EnvView,
        transport_after: MemView,
    ) -> bool {
        true
    }

    /// What a timer leads to.
    open spec fn takes_timer(
        &self,
        env: EnvView,
        transport: MemView,
        after: &Self,
        env_after: EnvView,
        transport_after: MemView,
    ) -> bool {
        true
    }

    /// What a shred of the node's own leads to.
    open spec fn takes_source_packet(
        &self,
        env: EnvView,
        transport: MemView,
        packet: Seq<u8>,
        after: &Self,
        env_after: EnvView,
        transport_after: MemView,
    ) -> bool {
        true
    }

    /// What something on the transport leads to.
    open spec fn takes_activity(
        &self,
        env: EnvView,
        transport: MemView,
        after: &Self,
        env_after: EnvView,
        transport_after: MemView,
    ) -> bool {
        true
    }

    /// What asking for a repair leads to, which gives `stream`.
    open spec fn takes_request(
        &self,
        env: EnvView,
        transport: MemView,
        peer: Pubkey,
        request: OverlayRepairReq,
        stream: Option<OverlayStreamId>,
        after: &Self,
        env_after: EnvView,
        transport_after: MemView,
    ) -> bool {
        true
    }

    /// What the answer to a repair request leads to.
    open spec fn takes_answer(
        &self,
        env: EnvView,
        transport: MemView,
        stream: OverlayStreamId,
        shred: Option<Seq<u8>>,
        after: &Self,
        env_after: EnvView,
        transport_after: MemView,
    ) -> bool {
        true
    }

    /// Asked for its events, the core gives `events` and is then `after`.
    open spec fn tells(&self, events: Seq<HighSeamEvent>, after: &Self) -> bool {
        true
    }

    /// The core shows `adverts` as live at `now`.
    open spec fn shows(&self, now: u64, adverts: Seq<AdvertSummary>) -> bool {
        true
    }

    /// The core counts `dropped` shreds that reached nobody.
    open spec fn counts_dropped(&self, dropped: u64) -> bool {
        true
    }

    /// The core counts `invalid` adverts that it turned down.
    open spec fn counts_invalid(&self, invalid: u64) -> bool {
        true
    }

    fn on_datagram<E: OverlayEnv>(
        &mut self,
        env: &mut E,
        transport: &mut MemTransport,
        from: SocketAddr,
        datagram: &[u8],
    )
        ensures
            old(self).takes_datagram(
                old(env).seen(),
                old(transport)@,
                from,
                datagram@,
                &*final(self),
                final(env).seen(),
                final(transport)@,
            ),
    ;

    fn on_timer<E: OverlayEnv>(&mut self, env: &mut E, transport: &mut MemTransport)
        ensures
            old(self).takes_timer(
                old(env).seen(),
                old(transport)@,
                &*final(self),
                final(env).seen(),
                final(transport)@,
            ),
    ;

    /// Feeds a shred that the node itself received from the cluster.
    fn on_source_packet<E: OverlayEnv>(
        &mut self,
        env: &mut E,
        transport: &mut MemTransport,
        packet: &[u8],
    )
        ensures
            old(self).takes_source_packet(
                old(env).seen(),
                old(transport)@,
                packet@,
                &*final(self),
                final(env).seen(),
                final(transport)@,
            ),
    ;

    /// Something has happened on the transport's connections or streams.
    fn on_transport_activity<E: OverlayEnv>(&mut self, env: &mut E, transport: &mut MemTransport)
        ensures
            old(self).takes_activity(
                old(env).seen(),
                old(transport)@,
                &*final(self),
                final(env).seen(),
                final(transport)@,
            ),
    ;

    /// Opens a repair stream to a connected peer.
    fn request_repair<E: OverlayEnv>(
        &mut self,
        env: &mut E,
        transport: &mut MemTransport,
        peer: Pubkey,
        request: OverlayRepairReq,
    ) -> (stream: Option<OverlayStreamId>)
        ensures
            old(self).takes_request(
                old(env).seen(),
                old(transport)@,
                peer,
                request,
                stream,
                &*final(self),
                final(env).seen(),
                final(transport)@,
            ),
    ;

    /// Answers the repair request on `stream`.
    fn on_repair_response<E: OverlayEnv>(
        &mut self,
        env: &mut E,
        transport: &mut MemTransport,
        stream: OverlayStreamId,
        shred: Option<Vec<u8>>,
    )
        ensures
            old(self).takes_answer(
                old(env).seen(),
                old(transport)@,
                stream,
                maybe_bytes(shred),
                &*final(self),
                final(env).seen(),
                final(transport)@,
            ),
    ;

    /// Takes the core's events, oldest first.
    fn take_events(&mut self) -> (events: Vec<HighSeamEvent>)
        ensures
            old(self).tells(events@, &*final(self)),
    ;

    /// The adverts that are live at `now`.
    fn gossip_snapshot(&self, now: u64) -> (adverts: Vec<AdvertSummary>)
        ensures
            self.shows(now, adverts@),
    ;

    fn dropped_unreachable(&self) -> (dropped: u64)
        ensures
            self.counts_dropped(dropped),
    ;

    fn invalid_adverts(&self) -> (invalid: u64)
        ensures
            self.counts_invalid(invalid),
    ;
}

/// What a core of the high seam runs on.
pub struct HighSeamEnv {
    pub now: u64,
    pub rng: StdRng,
    pub outbox: Vec<Outgoing>,
}

impl OverlayEnv for HighSeamEnv {
    open spec fn seen(&self) -> EnvView {
        EnvView {
            sent: outbox_view(self.outbox@),
            clock: Some(self.now),
            rng: rng_state(self.rng),
            ..EnvView::unknown()
        }
    }

    fn now(&self) -> (now: u64)
        ensures
            now == self.now,
    {
        self.now
    }

    fn next_u64(&mut self) -> (n: u64)
        ensures
            (n, rng_state(final(self).rng)) == u64_draw(rng_state(old(self).rng)),
            *final(self) == (HighSeamEnv { rng: final(self).rng, ..*old(self) }),
    {
        random_u64(&mut self.rng)
    }

    fn send(&mut self, from: SocketId, to: SocketAddr, datagram: &[u8])
        ensures
            *final(self) == (HighSeamEnv { outbox: final(self).outbox, ..*old(self) }),
    {
        let ghost before = self.outbox@;
        self.outbox.push(
            Outgoing { socket: from, to, payload: copy_range(datagram, 0, datagram.len()) },
        );
        proof {
            assert(datagram@.subrange(0, datagram@.len() as int) =~= datagram@);
            assert(outbox_view(self.outbox@) =~= outbox_view(before).push((from, to, datagram@)));
        }
    }

    fn bind(&mut self, port: Option<u16>) -> (r: Result<SocketId, BindError>)
        ensures
            r == Err::<SocketId, BindError>(BindError::NoSockets),
            *final(self) == *old(self),
    {
        Err(BindError::NoSockets)
    }
}

/// A node to be put into the net.
#[derive(Debug)]
pub struct HighSeamNodeOptions {
    pub mode: OverlayMode,
    pub static_peers: Vec<SocketAddr>,
    /// Whether the node advertises its address; one behind a NAT does not.
    pub direct: bool,
    pub fanout: usize,
    pub peer_ttl: Duration,
}

impl Default for HighSeamNodeOptions {
    fn default() -> (options: Self)
        ensures
            options.mode == OverlayMode::Sink,
            options.static_peers@.len() == 0,
            options.direct,
            options.fanout == 8,
            options.peer_ttl.nanos == 30_000_000_000,
    {
        HighSeamNodeOptions {
            mode: OverlayMode::Sink,
            static_peers: Vec::new(),
            direct: true,
            fanout: 8,
            peer_ttl: Duration::from_secs(30),
        }
    }
}

/// A node as the contracts speak of it.
#[verifier::ext_equal]
pub struct NodeView {
    pub pubkey: Pubkey,
    pub addr: SocketAddr,
    pub up: bool,
    pub transport: MemView,
    /// What the core has sent and the harness has not picked up.
    pub outbox: Seq<(SocketId, SocketAddr, Seq<u8>)>,
    /// What will be delivered in the next tick.
    pub in_flight: Seq<(SocketAddr, Seq<u8>)>,
    pub delivered: Seq<Seq<u8>>,
    pub repair_events: Seq<RepairEventView>,
    pub store: Map<StoreKey, Seq<u8>>,
}

/// A net as the contracts speak of it.
#[verifier::ext_equal]
pub struct NetView {
    pub seed: u64,
    pub ticks: u64,
    pub nodes: Seq<NodeView>,
    pub by_addr: Map<SocketAddr, usize>,
    pub by_pubkey: Map<Pubkey, usize>,
    /// Stream operations on their way: the sender, and whom they are for.
    pub ops: Seq<(usize, Pubkey, OpView)>,
    /// Dials on their way: who dials, and where.
    pub dials: Seq<(usize, SocketAddr)>,
    pub drop: Probability,
    pub rng: Seq<int>,
}

pub open spec fn without_socket(sent: Seq<(SocketId, SocketAddr, Seq<u8>)>) -> Seq<
    (SocketAddr, Seq<u8>),
> {
    Seq::new(sent.len(), |i: int| (sent[i].1, sent[i].2))
}

pub open spec fn ops_from(index: usize, ops: Seq<(Pubkey, OpView)>) -> Seq<
    (usize, Pubkey, OpView),
> {
    Seq::new(ops.len(), |i: int| (index, ops[i].0, ops[i].1))
}

pub open spec fn dials_from(index: usize, dials: Seq<SocketAddr>) -> Seq<(usize, SocketAddr)> {
    Seq::new(dials.len(), |i: int| (index, dials[i]))
}

impl NodeView {
    /// Nothing waits to be picked up.
    pub open spec fn is_drained(self) -> bool {
        &&& self.outbox.len() == 0
        &&& self.transport.ops.len() == 0
        &&& self.transport.dials.len() == 0
        &&& self.transport.deferred.len() == 0
    }

    /// `after` is this node later on, whatever its core has done.
    pub open spec fn evolves(self, after: Self) -> bool {
        &&& after.pubkey == self.pubkey
        &&& after.addr == self.addr
        &&& after.up == self.up
        &&& after.store == self.store
        &&& self.in_flight.is_prefix_of(after.in_flight)
        &&& self.delivered.is_prefix_of(after.delivered)
        &&& self.repair_events.is_prefix_of(after.repair_events)
    }

    /// An event that the core raised is taken in: shreds are kept, and so is
    /// what becomes of repairs that the node asked for.
    pub open spec fn noted(self, event: HighSeamEvent, ticks: u64) -> Self {
        match event {
            HighSeamEvent::ShredForFilter(bytes) => NodeView {
                delivered: self.delivered.push(bytes@),
                ..self
            },
            HighSeamEvent::RepairResponse { stream, peer, shred } => NodeView {
                repair_events: self.repair_events.push(
                    RepairEventView::Response {
                        at: ticks,
                        stream: stream.0,
                        peer,
                        shred: maybe_bytes(shred),
                    },
                ),
                ..self
            },
            HighSeamEvent::RepairFailed { stream, peer } => NodeView {
                repair_events: self.repair_events.push(
                    RepairEventView::Failed { at: ticks, stream: stream.0, peer },
                ),
                ..self
            },
            _ => self,
        }
    }
}

/// Every event that a core raised, taken in.
pub open spec fn all_noted(node: NodeView, events: Seq<HighSeamEvent>, ticks: u64) -> NodeView
    decreases events.len(),
{
    if events.len() == 0 {
        node
    } else {
        all_noted(node, events.drop_last(), ticks).noted(events.last(), ticks)
    }
}

/// The repair requests among a core's events.
pub open spec fn lookups_of(events: Seq<HighSeamEvent>) -> Seq<(OverlayStreamId, OverlayRepairReq)>
    decreases events.len(),
{
    if events.len() == 0 {
        Seq::empty()
    } else {
        let rest = lookups_of(events.drop_last());
        match events.last() {
            HighSeamEvent::RepairRequest { stream, request } => rest.push((stream, request)),
            _ => rest,
        }
    }
}

impl NetView {
    /// Addresses and keys lead to nodes.
    pub open spec fn names_wf(self) -> bool {
        &&& forall|a: SocketAddr| #[trigger]
            self.by_addr.dom().contains(a) ==> self.by_addr[a] < self.nodes.len()
        &&& forall|p: Pubkey| #[trigger]
            self.by_pubkey.dom().contains(p) ==> self.by_pubkey[p] < self.nodes.len()
    }

    pub open spec fn wf(self) -> bool {
        &&& self.names_wf()
        &&& forall|i: int| 0 <= i < self.ops.len() ==> (#[trigger] self.ops[i]).0
            < self.nodes.len()
        &&& forall|i: int| 0 <= i < self.dials.len() ==> (#[trigger] self.dials[i]).0
            < self.nodes.len()
        &&& self.drop.wf()
    }

    /// The time, in nanoseconds: the count of ticks wraps at 32 bits.
    pub open spec fn now(self) -> u64 {
        ((self.ticks % 0x1_0000_0000) * TICK) as u64
    }

    pub open spec fn with_node(self, index: int, node: NodeView) -> Self {
        NetView { nodes: self.nodes.update(index, node), ..self }
    }

    pub open spec fn with_transport(self, index: int, transport: MemView) -> Self {
        self.with_node(index, NodeView { transport, ..self.nodes[index] })
    }

    /// What node `index` has sent is picked up: its datagrams, then those that
    /// a connection has released, its stream operations and its dials.
    pub open spec fn collected(self, index: int) -> Self {
        let node = self.nodes[index];
        NetView {
            ops: self.ops + ops_from(index as usize, node.transport.ops),
            dials: self.dials + dials_from(index as usize, node.transport.dials),
            ..self.with_node(
                index,
                NodeView {
                    outbox: Seq::empty(),
                    in_flight: node.in_flight + without_socket(node.outbox)
                        + node.transport.deferred,
                    transport: MemView {
                        ops: Seq::empty(),
                        dials: Seq::empty(),
                        deferred: Seq::empty(),
                        ..node.transport
                    },
                    ..node
                },
            )
        }
    }

    /// `after` is this net once the core of node `index` has run: other nodes
    /// are as they were, and whatever is new on the way comes from it.
    pub open spec fn touched(self, index: int, after: Self) -> bool {
        &&& after == (NetView {
            nodes: self.nodes.update(index, after.nodes[index]),
            ops: after.ops,
            dials: after.dials,
            ..self
        })
        &&& self.nodes[index].evolves(after.nodes[index])
        &&& self.ops.is_prefix_of(after.ops)
        &&& self.dials.is_prefix_of(after.dials)
        &&& forall|i: int|
            self.ops.len() <= i < after.ops.len() ==> (#[trigger] after.ops[i]).0 == index
        &&& forall|i: int|
            self.dials.len() <= i < after.dials.len() ==> (#[trigger] after.dials[i]).0 == index
    }

    /// A connection between two nodes is up, first on the side of `a`.
    pub open spec fn connected(self, a: int, b: int) -> Self {
        let half = self.with_transport(
            a,
            self.nodes[a].transport.with_connection(self.nodes[b].pubkey, self.nodes[b].addr),
        );
        half.with_transport(
            b,
            half.nodes[b].transport.with_connection(self.nodes[a].pubkey, self.nodes[a].addr),
        )
    }

    /// The node at `addr`, if it is up.
    pub open spec fn up_at(self, addr: SocketAddr) -> Option<usize> {
        if self.by_addr.dom().contains(addr) && self.nodes[self.by_addr[addr] as int].up {
            Some(self.by_addr[addr])
        } else {
            None
        }
    }

    /// The node `pubkey`, if it is up.
    pub open spec fn up_as(self, pubkey: Pubkey) -> Option<usize> {
        if self.by_pubkey.dom().contains(pubkey) && self.nodes[self.by_pubkey[pubkey] as int].up {
            Some(self.by_pubkey[pubkey])
        } else {
            None
        }
    }

    /// Whether the link drops the next datagram, and the generator after that.
    pub open spec fn drop_drawn(self) -> (bool, Self) {
        if self.drop.numerator > 0 {
            let (dropped, rng) = ratio_draw(
                self.rng,
                self.drop.numerator,
                self.drop.denominator,
            );
            (dropped, NetView { rng, ..self })
        } else {
            (false, self)
        }
    }

    /// Before a datagram from `from` reaches `target`: where `target` has no
    /// connection to the address, one to the node that has it is set up.
    pub open spec fn dialed_on_demand(self, from: SocketAddr, target: int) -> Self {
        if self.by_addr.dom().contains(from) && !self.nodes[target].transport.by_addr.dom().contains(
            from,
        ) {
            self.connected(self.by_addr[from] as int, target)
        } else {
            self
        }
    }

    /// Stream operations arrive at their targets, as far as these are up. None
    /// is dropped on the way.
    pub open spec fn ops_arrived(self, ops: Seq<(usize, Pubkey, OpView)>) -> (Self, Set<int>)
        decreases ops.len(),
    {
        if ops.len() == 0 {
            (self, Set::empty())
        } else {
            let (net, woken) = self.ops_arrived(ops.drop_last());
            let (from, to, op) = ops.last();
            match net.up_as(to) {
                Some(target) => (
                    net.with_transport(
                        target as int,
                        net.nodes[target as int].transport.delivered(
                            net.nodes[from as int].pubkey,
                            op,
                        ),
                    ),
                    woken.insert(target as int),
                ),
                None => (net, woken),
            }
        }
    }

    /// Whether a dial from `from` to `addr` sets up a connection: someone else
    /// is up there, and there is none yet.
    pub open spec fn dial_lands(self, from: usize, addr: SocketAddr) -> Option<usize> {
        match self.up_at(addr) {
            Some(target) if target != from
                && !self.nodes[from as int].transport.by_addr.dom().contains(addr) => Some(target),
            _ => None,
        }
    }

    /// Dials arrive, and each sets up a connection or nothing.
    pub open spec fn dials_arrived(self, dials: Seq<(usize, SocketAddr)>) -> (Self, Set<int>)
        decreases dials.len(),
    {
        if dials.len() == 0 {
            (self, Set::empty())
        } else {
            let (net, woken) = self.dials_arrived(dials.drop_last());
            let (from, addr) = dials.last();
            match net.dial_lands(from, addr) {
                Some(target) => (
                    net.connected(from as int, target as int),
                    woken.insert(from as int).insert(target as int),
                ),
                None => (net, woken),
            }
        }
    }

    /// What is on the way at the start of a tick, taken off it.
    pub open spec fn cleared(self) -> Self {
        NetView {
            ticks: (self.ticks + 1) as u64,
            nodes: Seq::new(
                self.nodes.len(),
                |i: int| NodeView { in_flight: Seq::empty(), ..self.nodes[i] },
            ),
            ops: Seq::empty(),
            dials: Seq::empty(),
            ..self
        }
    }

    pub open spec fn queues(self) -> Seq<Seq<(SocketAddr, Seq<u8>)>> {
        Seq::new(self.nodes.len(), |i: int| self.nodes[i].in_flight)
    }
}

/// A core and what it sees of the net.
pub struct Seam<C> {
    pub core: C,
    pub env: HighSeamEnv,
}

/// What a core is called with. Asking for a repair gives a stream.
#[allow(inconsistent_fields)]
pub enum SeamCall {
    Datagram { from: SocketAddr, bytes: Seq<u8> },
    Timer,
    SourcePacket { packet: Seq<u8> },
    Activity,
    Request { peer: Pubkey, request: OverlayRepairReq, stream: Option<OverlayStreamId> },
    Answer { stream: OverlayStreamId, shred: Option<Seq<u8>> },
}

/// Called with `call`, a core leads to `after`.
pub open spec fn seam_called<C: HighSeamCore>(
    core: C,
    env: HighSeamEnv,
    transport: MemView,
    call: SeamCall,
    after: C,
    env_after: HighSeamEnv,
    transport_after: MemView,
) -> bool {
    match call {
        SeamCall::Datagram { from, bytes } => core.takes_datagram(
            env.seen(),
            transport,
            from,
            bytes,
            &after,
            env_after.seen(),
            transport_after,
        ),
        SeamCall::Timer => core.takes_timer(
            env.seen(),
            transport,
            &after,
            env_after.seen(),
            transport_after,
        ),
        SeamCall::SourcePacket { packet } => core.takes_source_packet(
            env.seen(),
            transport,
            packet,
            &after,
            env_after.seen(),
            transport_after,
        ),
        SeamCall::Activity => core.takes_activity(
            env.seen(),
            transport,
            &after,
            env_after.seen(),
            transport_after,
        ),
        SeamCall::Request { peer, request, stream } => core.takes_request(
            env.seen(),
            transport,
            peer,
            request,
            stream,
            &after,
            env_after.seen(),
            transport_after,
        ),
        SeamCall::Answer { stream, shred } => core.takes_answer(
            env.seen(),
            transport,
            stream,
            shred,
            &after,
            env_after.seen(),
            transport_after,
        ),
    }
}

/// A net together with the cores that run in it.
#[verifier::ext_equal]
pub struct Net<C> {
    pub view: NetView,
    pub seams: Seq<Seam<C>>,
}

impl<C: HighSeamCore> Net<C> {
    /// The core of node `index`, called with `call`, leads to `after`.
    pub open spec fn called(self, index: int, call: SeamCall, after: Self) -> bool {
        let was = self.seams[index];
        let is = after.seams[index];
        let node = self.view.nodes[index];
        let transport = after.view.nodes[index].transport;
        &&& seam_called(
            was.core,
            HighSeamEnv { now: self.view.now(), ..was.env },
            node.transport,
            call,
            is.core,
            is.env,
            transport,
        )
        &&& after.seams == self.seams.update(index, is)
        &&& after.view == self.view.with_node(
            index,
            NodeView { transport, outbox: is.env.seen().sent, ..node },
        )
    }

    /// What node `index` has sent is picked up, which leads to `after`.
    pub open spec fn gathered(self, index: int, after: Self) -> bool {
        let was = self.seams[index];
        let is = after.seams[index];
        &&& is.core == was.core
        &&& is.env == (HighSeamEnv { outbox: is.env.outbox, ..was.env })
        &&& is.env.outbox@.len() == 0
        &&& after.seams == self.seams.update(index, is)
        &&& after.view == self.view.collected(index)
    }

    /// The core of node `index` gives `events`, which are taken in and lead to
    /// `after`.
    pub open spec fn noted(self, index: int, events: Seq<HighSeamEvent>, after: Self) -> bool {
        let was = self.seams[index];
        let is = after.seams[index];
        &&& was.core.tells(events, &is.core)
        &&& is.env == was.env
        &&& after.seams == self.seams.update(index, is)
        &&& after.view == self.view.with_node(
            index,
            all_noted(self.view.nodes[index], events, self.view.ticks),
        )
    }

    /// The core of node `index` is handed the answer to a repair request from
    /// the node's store.
    pub open spec fn answered(
        self,
        index: int,
        lookup: (OverlayStreamId, OverlayRepairReq),
        after: Self,
    ) -> bool {
        exists|shred: Option<Seq<u8>>| #[trigger]
            repair_answer(self.view.nodes[index].store, lookup.1, shred) && self.called(
                index,
                SeamCall::Answer { stream: lookup.0, shred },
                after,
            )
    }

    /// Repair requests are answered one after the other.
    pub open spec fn all_answered(
        self,
        index: int,
        lookups: Seq<(OverlayStreamId, OverlayRepairReq)>,
        after: Self,
    ) -> bool
        decreases lookups.len(),
    {
        if lookups.len() == 0 {
            after == self
        } else {
            exists|mid: Self|
                self.all_answered(index, lookups.drop_last(), mid) && #[trigger] mid.answered(
                    index,
                    lookups.last(),
                    after,
                )
        }
    }

    /// One round of seeing to node `index`: what it has sent is picked up,
    /// which leads to `picked`; its core's events are taken in, which leads to
    /// `told`; and the repair requests among them are answered.
    pub open spec fn round_by(
        self,
        index: int,
        picked: Self,
        events: Seq<HighSeamEvent>,
        told: Self,
        after: Self,
    ) -> bool {
        &&& self.gathered(index, picked)
        &&& picked.noted(index, events, told)
        &&& lookups_of(events).len() > 0
        &&& told.all_answered(index, lookups_of(events), after)
    }

    pub open spec fn round(self, index: int, after: Self) -> bool {
        exists|picked: Self, events: Seq<HighSeamEvent>, told: Self| #[trigger]
            self.round_by(index, picked, events, told, after)
    }

    pub open spec fn rounds(self, index: int, n: nat, after: Self) -> bool
        decreases n,
    {
        if n == 0 {
            after == self
        } else {
            exists|mid: Self|
                self.rounds(index, (n - 1) as nat, mid) && #[trigger] mid.round(index, after)
        }
    }

    /// Node `index` has been seen to for `n` rounds, which leads to `last`, and
    /// then once more, when its core had no repair request to answer.
    pub open spec fn settled_by(
        self,
        index: int,
        n: nat,
        last: Self,
        picked: Self,
        events: Seq<HighSeamEvent>,
        after: Self,
    ) -> bool {
        &&& self.rounds(index, n, last)
        &&& last.gathered(index, picked)
        &&& picked.noted(index, events, after)
        &&& lookups_of(events).len() == 0 || n == u64::MAX
        &&& n <= u64::MAX
    }

    /// `after` is this net once node `index` has been seen to.
    pub open spec fn settled(self, index: int, after: Self) -> bool {
        exists|n: nat, last: Self, picked: Self, events: Seq<HighSeamEvent>| #[trigger]
            self.settled_by(index, n, last, picked, events, after)
    }

    /// `after` is this net once the core of node `index` has been called with
    /// `call` and the node has been seen to. Other nodes are as they were, and
    /// all that it sent has been picked up.
    pub open spec fn reacted(self, index: int, call: SeamCall, after: Self) -> bool {
        &&& self.view.touched(index, after.view)
        &&& after.view.nodes[index].is_drained()
        &&& self.ran(index, call, after)
    }

    pub open spec fn ran(self, index: int, call: SeamCall, after: Self) -> bool {
        exists|called: Self| #[trigger]
            self.called(index, call, called) && called.settled(index, after)
    }

    pub open spec fn with_view(self, view: NetView) -> Self {
        Net { view, ..self }
    }

    /// `after` is this net once a datagram from `from` to `to` has come
    /// through, or was lost.
    pub open spec fn datagram_passed(
        self,
        from: SocketAddr,
        to: SocketAddr,
        bytes: Seq<u8>,
        after: Self,
    ) -> bool {
        let (dropped, drawn) = self.view.drop_drawn();
        match drawn.up_at(to) {
            Some(target) if !dropped => self.with_view(
                drawn.dialed_on_demand(from, target as int),
            ).reacted(target as int, SeamCall::Datagram { from, bytes }, after),
            _ => after == self.with_view(drawn),
        }
    }

    /// `after` is this net once the datagrams of one sender have passed.
    pub open spec fn queue_passed(
        self,
        from: SocketAddr,
        queue: Seq<(SocketAddr, Seq<u8>)>,
        after: Self,
    ) -> bool
        decreases queue.len(),
    {
        if queue.len() == 0 {
            after == self
        } else {
            exists|mid: Self|
                self.queue_passed(from, queue.drop_last(), mid) && #[trigger] mid.datagram_passed(
                    from,
                    queue.last().0,
                    queue.last().1,
                    after,
                )
        }
    }

    /// `after` is this net once the datagrams of every sender have passed, in
    /// the order of the senders.
    pub open spec fn queues_passed(
        self,
        queues: Seq<Seq<(SocketAddr, Seq<u8>)>>,
        after: Self,
    ) -> bool
        decreases queues.len(),
    {
        if queues.len() == 0 {
            after == self
        } else {
            exists|mid: Self|
                self.queues_passed(queues.drop_last(), mid) && #[trigger] mid.queue_passed(
                    self.view.nodes[queues.len() - 1].addr,
                    queues.last(),
                    after,
                )
        }
    }

    /// `after` is this net once the timer of node `index` has fired, if the
    /// node is up.
    pub open spec fn timer_fired(self, index: int, after: Self) -> bool {
        if self.view.nodes[index].up {
            self.reacted(index, SeamCall::Timer, after)
        } else {
            after == self
        }
    }

    /// `after` is this net once the timers of the first `n` nodes have fired.
    pub open spec fn timers_fired(self, n: int, after: Self) -> bool
        decreases n,
    {
        if n <= 0 {
            after == self
        } else {
            exists|mid: Self|
                self.timers_fired(n - 1, mid) && #[trigger] mid.timer_fired(n - 1, after)
        }
    }

    /// `after` is this net once node `index` has seen to its transport, if it
    /// is among `woken`.
    pub open spec fn woke(self, woken: Set<int>, index: int, after: Self) -> bool {
        if woken.contains(index) {
            self.reacted(index, SeamCall::Activity, after)
        } else {
            after == self
        }
    }

    /// `after` is this net once those of `woken` among the first `n` nodes
    /// have seen to their transports.
    pub open spec fn all_woke(self, woken: Set<int>, n: int, after: Self) -> bool
        decreases n,
    {
        if n <= 0 {
            after == self
        } else {
            exists|mid: Self|
                self.all_woke(woken, n - 1, mid) && #[trigger] mid.woke(woken, n - 1, after)
        }
    }

    /// Stream operations arrive, and their targets see to them.
    pub open spec fn ops_passed(self, ops: Seq<(usize, Pubkey, OpView)>, after: Self) -> bool {
        let (view, woken) = self.view.ops_arrived(ops);
        self.with_view(view).all_woke(woken, self.view.nodes.len() as int, after)
    }

    /// Dials arrive, and those whom they connected see to it.
    pub open spec fn dials_passed(self, dials: Seq<(usize, SocketAddr)>, after: Self) -> bool {
        let (view, woken) = self.view.dials_arrived(dials);
        self.with_view(view).all_woke(woken, self.view.nodes.len() as int, after)
    }

    /// `after` is this net one tick later: the timers have fired, which leads
    /// to `fired`, and what was on the way at the start of the tick has
    /// arrived: the datagrams, which leads to `passed`, the stream operations,
    /// which leads to `streamed`, and the dials.
    pub open spec fn ticked_by(self, fired: Self, passed: Self, streamed: Self, after: Self) -> bool {
        &&& self.with_view(self.view.cleared()).timers_fired(
            self.view.nodes.len() as int,
            fired,
        )
        &&& fired.queues_passed(self.view.queues(), passed)
        &&& passed.ops_passed(self.view.ops, streamed)
        &&& streamed.dials_passed(self.view.dials, after)
    }

    /// `after` is this net one tick later.
    pub open spec fn ticked(self, after: Self) -> bool {
        exists|fired: Self, passed: Self, streamed: Self| #[trigger]
            self.ticked_by(fired, passed, streamed, after)
    }

    /// `after` is this net with one more node, which runs `core`.
    pub open spec fn joined(self, core: C, after: Self) -> bool {
        let index = self.view.nodes.len() as int;
        let addr = address_of(index);
        let pubkey = derived_identity(self.view.seed, index as u32);
        let node = NodeView {
            pubkey,
            addr,
            up: true,
            transport: MemView::empty(),
            outbox: Seq::empty(),
            in_flight: Seq::empty(),
            delivered: Seq::empty(),
            repair_events: Seq::empty(),
            store: Map::empty(),
        };
        &&& after.view == (NetView {
            nodes: self.view.nodes.push(node),
            by_addr: self.view.by_addr.insert(addr, index as usize),
            by_pubkey: self.view.by_pubkey.insert(pubkey, index as usize),
            ..self.view
        })
        &&& after.seams.len() == index + 1
        &&& after.seams.drop_last() == self.seams
        &&& after.seams.last().core == core
        &&& fresh_seam(self.view, index, after.seams.last().env)
    }

    /// `after` is this net `count` ticks later.
    pub open spec fn ran_for(self, count: nat, after: Self) -> bool
        decreases count,
    {
        if count == 0 {
            after == self
        } else {
            exists|mid: Self|
                self.ran_for((count - 1) as nat, mid) && mid.view.wf() && #[trigger] mid.ticked(
                    after,
                )
        }
    }
}

/// A node of the net: its core, and what the core runs on.
pub struct HighSeamNode<C> {
    core: C,
    env: HighSeamEnv,
    transport: MemTransport,
    pubkey: Pubkey,
    addr: SocketAddr,
    in_flight: Vec<(SocketAddr, Vec<u8>)>,
    delivered: Vec<Vec<u8>>,
    store: SimShredStore,
    repair_events: Vec<SimRepairEvent>,
    up: bool,
}

pub open spec fn repair_views(events: Seq<SimRepairEvent>) -> Seq<RepairEventView> {
    Seq::new(events.len(), |i: int| events[i]@)
}

impl<C: HighSeamCore> HighSeamNode<C> {
    pub closed spec fn view(&self) -> NodeView {
        NodeView {
            pubkey: self.pubkey,
            addr: self.addr,
            up: self.up,
            transport: self.transport@,
            outbox: self.env.seen().sent,
            in_flight: addressed(self.in_flight@),
            delivered: bytes_views(self.delivered@),
            repair_events: repair_views(self.repair_events@),
            store: shreds_of(self.store@),
        }
    }

    pub closed spec fn wf(&self) -> bool {
        self.store.wf()
    }

    pub closed spec fn seam(&self) -> Seam<C> {
        Seam { core: self.core, env: self.env }
    }

    /// The core, called at `now`, leads from here to `after`.
    spec fn called(self, now: u64, call: SeamCall, after: Self) -> bool {
        &&& seam_called(
            self.core,
            HighSeamEnv { now, ..self.env },
            self.transport@,
            call,
            after.core,
            after.env,
            after.transport@,
        )
        &&& after@ == (NodeView {
            transport: after.transport@,
            outbox: after.env.seen().sent,
            ..self@
        })
        &&& after.wf()
    }

    fn timer(&mut self, now: u64)
        requires
            old(self).wf(),
        ensures
            old(self).called(now, SeamCall::Timer, *final(self)),
    {
        self.env.now = now;
        self.core.on_timer(&mut self.env, &mut self.transport);
    }

    fn datagram(&mut self, now: u64, from: SocketAddr, bytes: &[u8])
        requires
            old(self).wf(),
        ensures
            old(self).called(now, SeamCall::Datagram { from, bytes: bytes@ }, *final(self)),
    {
        self.env.now = now;
        self.core.on_datagram(&mut self.env, &mut self.transport, from, bytes);
    }

    fn activity(&mut self, now: u64)
        requires
            old(self).wf(),
        ensures
            old(self).called(now, SeamCall::Activity, *final(self)),
    {
        self.env.now = now;
        self.core.on_transport_activity(&mut self.env, &mut self.transport);
    }

    fn source_packet(&mut self, now: u64, packet: &[u8])
        requires
            old(self).wf(),
        ensures
            old(self).called(now, SeamCall::SourcePacket { packet: packet@ }, *final(self)),
    {
        self.env.now = now;
        self.core.on_source_packet(&mut self.env, &mut self.transport, packet);
    }

    fn request(&mut self, now: u64, peer: Pubkey, request: OverlayRepairReq) -> (stream: Option<
        OverlayStreamId,
    >)
        requires
            old(self).wf(),
        ensures
            old(self).called(now, SeamCall::Request { peer, request, stream }, *final(self)),
    {
        self.env.now = now;
        self.core.request_repair(&mut self.env, &mut self.transport, peer, request)
    }

    /// Answers a repair request from the store.
    fn answer(&mut self, now: u64, stream: OverlayStreamId, request: OverlayRepairReq) -> (shred:
        Ghost<Option<Seq<u8>>>)
        requires
            old(self).wf(),
        ensures
            repair_answer(old(self)@.store, request, shred@),
            old(self).called(now, SeamCall::Answer { stream, shred: shred@ }, *final(self)),
    {
        self.env.now = now;
        let shred = lookup_repair(&self.store, &request);
        let ghost found = maybe_bytes(shred);
        self.core.on_repair_response(&mut self.env, &mut self.transport, stream, shred);
        Ghost(found)
    }

    /// Takes in an event of the core, and gives the repair request that it
    /// brings, if it does.
    fn note(&mut self, event: HighSeamEvent, ticks: u64) -> (r: Option<
        (OverlayStreamId, OverlayRepairReq),
    >)
        requires
            old(self).wf(),
        ensures
            final(self).wf(),
            final(self).core == old(self).core,
            final(self).env == old(self).env,
            final(self)@ == old(self)@.noted(event, ticks),
            r == (match event {
                HighSeamEvent::RepairRequest { stream, request } => Some((stream, request)),
                _ => None,
            }),
    {
        let ghost before = *self;
        match event {
            HighSeamEvent::ShredForFilter(bytes) => {
                self.delivered.push(bytes);
                assert(bytes_views(self.delivered@) =~= bytes_views(before.delivered@).push(bytes@));
                None
            },
            HighSeamEvent::RepairRequest { stream, request } => Some((stream, request)),
            HighSeamEvent::RepairResponse { stream, peer, shred } => {
                let seen = SimRepairEvent::Response {
                    at_nanos: ticks,
                    stream: stream.0,
                    peer,
                    shred,
                };
                self.repair_events.push(seen);
                assert(repair_views(self.repair_events@) =~= repair_views(
                    before.repair_events@,
                ).push(seen@));
                None
            },
            HighSeamEvent::RepairFailed { stream, peer } => {
                let seen = SimRepairEvent::Failed { at_nanos: ticks, stream: stream.0, peer };
                self.repair_events.push(seen);
                assert(repair_views(self.repair_events@) =~= repair_views(
                    before.repair_events@,
                ).push(seen@));
                None
            },
            HighSeamEvent::PeerConnected { peer: _, pubkey: _ } => None,
            HighSeamEvent::PeerDisconnected { peer: _ } => None,
        }
    }

    /// Takes in what the core has raised, and gives the repair requests that
    /// it brought.
    fn note_events(&mut self, ticks: u64) -> (r: (
        Vec<(OverlayStreamId, OverlayRepairReq)>,
        Ghost<Seq<HighSeamEvent>>,
    ))
        requires
            old(self).wf(),
        ensures
            final(self).wf(),
            old(self).core.tells(r.1@, &final(self).core),
            final(self).env == old(self).env,
            final(self)@ == all_noted(old(self)@, r.1@, ticks),
            r.0@ == lookups_of(r.1@),
    {
        let ghost start = self@;
        let mut lookups: Vec<(OverlayStreamId, OverlayRepairReq)> = Vec::new();
        let events = self.core.take_events();
        let ghost all = events@;
        let ghost told = *self;
        assert(self@ == start);
        assert(all.take(0) =~= Seq::empty());
        for event in iter: events
            invariant
                self.wf(),
                iter.seq() == all,
                self.core == told.core,
                self.env == told.env,
                self@ == all_noted(start, all.take(iter.index()), ticks),
                lookups@ == lookups_of(all.take(iter.index())),
        {
            proof {
                let next = all.take(iter.index() + 1);
                assert(next.drop_last() =~= all.take(iter.index()));
                assert(next.last() == event);
            }
            if let Some(lookup) = self.note(event, ticks) {
                lookups.push(lookup);
            }
        }
        assert(all.take(all.len() as int) =~= all);
        (lookups, Ghost(all))
    }
}

/// Taking events in changes neither what a node has sent nor its transport.
proof fn lemma_all_noted(node: NodeView, events: Seq<HighSeamEvent>, ticks: u64)
    ensures
        node.evolves(all_noted(node, events, ticks)),
        all_noted(node, events, ticks).outbox == node.outbox,
        all_noted(node, events, ticks).transport == node.transport,
        all_noted(node, events, ticks).in_flight == node.in_flight,
    decreases events.len(),
{
    if events.len() > 0 {
        lemma_all_noted(node, events.drop_last(), ticks);
        let before = all_noted(node, events.drop_last(), ticks);
        let after = all_noted(node, events, ticks);
        assert(before.delivered.is_prefix_of(after.delivered));
        assert(before.repair_events.is_prefix_of(after.repair_events));
        assert(node.delivered.is_prefix_of(after.delivered));
        assert(node.repair_events.is_prefix_of(after.repair_events));
    }
}

/// A step that changes one node and puts nothing on the way.
proof fn lemma_touched_node(s: NetView, index: int, node: NodeView)
    requires
        0 <= index < s.nodes.len(),
        s.nodes[index].evolves(node),
    ensures
        s.touched(index, s.with_node(index, node)),
{
}

proof fn lemma_touched_twice(s: NetView, index: int, mid: NetView, after: NetView)
    requires
        0 <= index < s.nodes.len(),
        s.touched(index, mid),
        mid.touched(index, after),
    ensures
        s.touched(index, after),
{
    assert(s.nodes.update(index, after.nodes[index]) =~= mid.nodes.update(
        index,
        after.nodes[index],
    ));
    assert(after =~= NetView {
        nodes: s.nodes.update(index, after.nodes[index]),
        ops: after.ops,
        dials: after.dials,
        ..s
    });
    assert forall|i: int| s.ops.len() <= i < after.ops.len() implies (#[trigger] after.ops[i]).0
        == index by {
        if i < mid.ops.len() {
            assert(mid.ops[i] == after.ops[i]);
        }
    }
    assert forall|i: int| s.dials.len() <= i < after.dials.len() implies (
    #[trigger] after.dials[i]).0 == index by {
        if i < mid.dials.len() {
            assert(mid.dials[i] == after.dials[i]);
        }
    }
    assert(s.ops.is_prefix_of(after.ops));
    assert(s.dials.is_prefix_of(after.dials));
}

proof fn lemma_touched_collected(s: NetView, index: int)
    requires
        0 <= index < s.nodes.len(),
        s.nodes.len() <= usize::MAX,
    ensures
        s.touched(index, s.collected(index)),
        s.collected(index).nodes[index].is_drained(),
{
    let after = s.collected(index);
    assert(s.ops.is_prefix_of(after.ops));
    assert(s.dials.is_prefix_of(after.dials));
    assert(s.nodes[index].in_flight.is_prefix_of(after.nodes[index].in_flight));
    assert(s.nodes[index].delivered.is_prefix_of(after.nodes[index].delivered));
    assert(s.nodes[index].repair_events.is_prefix_of(after.nodes[index].repair_events));
}

/// What a touched net keeps of its well-formedness.
proof fn lemma_touched_wf(s: NetView, index: int, after: NetView)
    requires
        0 <= index < s.nodes.len(),
        s.wf(),
        s.touched(index, after),
    ensures
        after.wf(),
{
    assert forall|i: int| 0 <= i < after.ops.len() implies (#[trigger] after.ops[i]).0
        < after.nodes.len() by {
        if i < s.ops.len() {
            assert(s.ops[i] == after.ops[i]);
        }
    }
    assert forall|i: int| 0 <= i < after.dials.len() implies (#[trigger] after.dials[i]).0
        < after.nodes.len() by {
        if i < s.dials.len() {
            assert(s.dials[i] == after.dials[i]);
        }
    }
}

/// A deterministic net of nodes over the in-memory transport, driven by ticks.
pub struct HighSeamNet<C> {
    seed: u64,
    ticks: u64,
    nodes: Vec<HighSeamNode<C>>,
    by_addr: OrdMap<SocketAddr, usize>,
    by_pubkey: OrdMap<Pubkey, usize>,
    ops: Vec<(usize, Pubkey, MemStreamOp)>,
    dials: Vec<(usize, SocketAddr)>,
    drop_probability: Probability,
    rng: StdRng,
}

pub open spec fn op_views(ops: Seq<(usize, Pubkey, MemStreamOp)>) -> Seq<(usize, Pubkey, OpView)> {
    Seq::new(ops.len(), |i: int| (ops[i].0, ops[i].1, ops[i].2@))
}

/// The address of the node that is put in as number `index`.
pub open spec fn address_of(index: int) -> SocketAddr {
    SocketAddr {
        ip: IpAddr::V4((10 * 0x100_0000 + 83 * 0x1_0000 + (index / 250) % 256 * 0x100 + (index % 250
            + 1)) as u32),
        port: 65_410,
    }
}

/// What the core of node `index` sees when it is put into the net.
pub open spec fn fresh_seam(net: NetView, index: int, env: HighSeamEnv) -> bool {
    &&& env.now == net.now()
    &&& rng_state(env.rng) == keyed_state(
        derived(net.seed, index as u32, vstd::utf8::encode_utf8("hs-env"@)),
    )
    &&& env.outbox@.len() == 0
}

impl<C: HighSeamCore> HighSeamNet<C> {
    pub closed spec fn view(&self) -> NetView {
        NetView {
            seed: self.seed,
            ticks: self.ticks,
            nodes: Seq::new(self.nodes@.len(), |i: int| self.nodes@[i]@),
            by_addr: self.by_addr@,
            by_pubkey: self.by_pubkey@,
            ops: op_views(self.ops@),
            dials: self.dials@,
            drop: self.drop_probability,
            rng: rng_state(self.rng),
        }
    }

    /// The cores of the nodes.
    pub closed spec fn seams(&self) -> Seq<Seam<C>> {
        Seq::new(self.nodes@.len(), |i: int| self.nodes@[i].seam())
    }

    pub open spec fn net(&self) -> Net<C> {
        Net { view: self@, seams: self.seams() }
    }

    pub closed spec fn wf(&self) -> bool {
        &&& self@.wf()
        &&& self.by_addr.wf()
        &&& self.by_pubkey.wf()
        &&& forall|i: int| 0 <= i < self.nodes@.len() ==> (#[trigger] self.nodes@[i]).wf()
        &&& self.nodes@.len() <= usize::MAX
    }

    /// What a consistent net gives its callers: every node has its core.
    pub proof fn lemma_wf(&self)
        requires
            self.wf(),
        ensures
            self@.wf(),
            self.seams().len() == self@.nodes.len(),
    {
    }

    pub fn new(seed: u64) -> (net: Self)
        ensures
            net.wf(),
            net@ == (NetView {
                seed,
                ticks: 0,
                nodes: Seq::empty(),
                by_addr: Map::empty(),
                by_pubkey: Map::empty(),
                ops: Seq::empty(),
                dials: Seq::empty(),
                drop: Probability { numerator: 0, denominator: 1 },
                rng: seeded_state(seed),
            }),
            net.seams().len() == 0,
    {
        let net = HighSeamNet {
            seed,
            ticks: 0,
            nodes: Vec::new(),
            by_addr: OrdMap::new(),
            by_pubkey: OrdMap::new(),
            ops: Vec::new(),
            dials: Vec::new(),
            drop_probability: Probability::never(),
            rng: seed_from_u64(seed),
        };
        assert(net@.nodes =~= Seq::empty());
        assert(net@.ops =~= Seq::empty());
        net
    }

    pub fn set_drop_probability(&mut self, p: Probability)
        requires
            old(self).wf(),
            p.wf(),
        ensures
            final(self).wf(),
            final(self)@ == (NetView { drop: p, ..old(self)@ }),
            final(self).seams() == old(self).seams(),
    {
        self.drop_probability = p;
    }

    /// The time of the net, in nanoseconds.
    pub fn now_nanos(&self) -> (now: u64)
        ensures
            now == self@.now(),
    {
        (self.ticks % 0x1_0000_0000) * TICK
    }

    /// Node addresses are `10.83.{i/250}.{i%250+1}:65410`, in the order in
    /// which the nodes are put in.
    pub fn addr_for(index: usize) -> (addr: SocketAddr)
        ensures
            addr == address_of(index as int),
    {
        let high: u8 = ((index / 250) % 256) as u8;
        let low: u8 = (index % 250) as u8 + 1;
        SocketAddr::new(IpAddr::v4(10, 83, high, low), 65_410)
    }

    /// What node `index` is configured with.
    pub fn node_config(index: usize, options: &HighSeamNodeOptions) -> (config: OverlayConfig)
        ensures
            config.enabled,
            config.mode == options.mode,
            config.bind_addr == address_of(index as int),
            config.advertised_addr == (if options.direct {
                Some(address_of(index as int))
            } else {
                None
            }),
            config.static_peers@ == options.static_peers@,
            config.fanout == options.fanout,
            config.repair_addr is None,
            config.shred_version == Some(0u16),
            config.peer_ttl_ms == options.peer_ttl.nanos / 1_000_000,
    {
        let addr = Self::addr_for(index);
        OverlayConfig {
            enabled: true,
            mode: options.mode,
            bind_addr: addr,
            advertised_addr: if options.direct {
                Some(addr)
            } else {
                None
            },
            static_peers: crate::codec::copy_vec(&options.static_peers),
            fanout: options.fanout,
            repair_addr: None,
            shred_version: Some(0),
            peer_ttl_ms: options.peer_ttl.as_millis(),
        }
    }

    /// Puts in a node that runs `core`.
    pub fn add_node(&mut self, core: C) -> (index: usize)
        requires
            old(self).wf(),
            old(self)@.nodes.len() < u32::MAX,
        ensures
            final(self).wf(),
            index == old(self)@.nodes.len(),
            old(self).net().joined(core, final(self).net()),
    {
        let ghost before = *self;
        let index: usize = self.nodes.len();
        let addr = Self::addr_for(index);
        let pubkey = derive_pubkey(self.seed, index as u32);
        let env = HighSeamEnv {
            now: self.now_nanos(),
            rng: seed_from_bytes(derive_bytes(self.seed, index as u32, "hs-env")),
            outbox: Vec::new(),
        };
        let node = HighSeamNode {
            core,
            env,
            transport: MemTransport::new(),
            pubkey,
            addr,
            in_flight: Vec::new(),
            delivered: Vec::new(),
            store: OrdMap::new(),
            repair_events: Vec::new(),
            up: true,
        };
        proof {
            assert(node@.outbox =~= Seq::empty());
            assert(node@.in_flight =~= Seq::empty());
            assert(node@.delivered =~= Seq::empty());
            assert(node@.repair_events =~= Seq::empty());
            assert(node@.store =~= Map::empty());
        }
        self.nodes.push(node);
        self.by_addr.insert(addr, index);
        self.by_pubkey.insert(pubkey, index);
        proof {
            assert(self@.nodes =~= before@.nodes.push(node@));
            assert(self@.ops == before@.ops);
            assert(self@.dials == before@.dials);
            assert(self@.by_addr == before@.by_addr.insert(addr, index));
            assert(self@.by_pubkey == before@.by_pubkey.insert(pubkey, index));
            assert forall|a: SocketAddr| #[trigger]
                self@.by_addr.dom().contains(a) implies self@.by_addr[a] < self@.nodes.len() by {
                if a != addr {
                    assert(before@.by_addr.dom().contains(a));
                }
            }
            assert forall|p: Pubkey| #[trigger]
                self@.by_pubkey.dom().contains(p) implies self@.by_pubkey[p]
                < self@.nodes.len() by {
                if p != pubkey {
                    assert(before@.by_pubkey.dom().contains(p));
                }
            }
            assert(self.seams().drop_last() =~= before.seams());
            assert forall|i: int| 0 <= i < self.nodes@.len() implies (
            #[trigger] self.nodes@[i]).wf() by {
                if i < before.nodes@.len() {
                    assert(before.nodes@[i].wf());
                }
            }
        }
        index
    }

    pub fn node_pubkey(&self, index: usize) -> (pubkey: Pubkey)
        requires
            index < self@.nodes.len(),
        ensures
            pubkey == self@.nodes[index as int].pubkey,
    {
        self.nodes[index].pubkey
    }

    pub fn node_addr(&self, index: usize) -> (addr: SocketAddr)
        requires
            index < self@.nodes.len(),
        ensures
            addr == self@.nodes[index as int].addr,
    {
        self.nodes[index].addr
    }

    /// The shreds that node `index` has handed to its filter.
    pub fn delivered_shreds(&self, index: usize) -> (shreds: &Vec<Vec<u8>>)
        requires
            index < self@.nodes.len(),
        ensures
            bytes_views(shreds@) == self@.nodes[index as int].delivered,
    {
        &self.nodes[index].delivered
    }

    /// What node `index` saw of the repairs that it asked for, in order.
    pub fn repair_events(&self, index: usize) -> (events: &Vec<SimRepairEvent>)
        requires
            index < self@.nodes.len(),
        ensures
            repair_views(events@) == self@.nodes[index as int].repair_events,
    {
        &self.nodes[index].repair_events
    }

    pub fn node_core(&self, index: usize) -> (machine: &C)
        requires
            index < self@.nodes.len(),
        ensures
            *machine == self.seams()[index as int].core,
    {
        &self.nodes[index].core
    }

    spec fn differs_in_cores(self, after: Self) -> bool {
        &&& after == (HighSeamNet { nodes: after.nodes, ..self })
        &&& after.nodes@.len() == self.nodes@.len()
        &&& forall|i: int|
            0 <= i < self.nodes@.len() ==> #[trigger] after.nodes@[i] == (HighSeamNode {
                core: after.nodes@[i].core,
                ..self.nodes@[i]
            })
    }

    /// A node's core to change. The network around it stays as it is.
    pub fn core_mut(&mut self, index: usize) -> (machine: &mut C)
        requires
            old(self).wf(),
            index < old(self)@.nodes.len(),
        ensures
            *machine == old(self).seams()[index as int].core,
            final(self).wf(),
            final(self)@ == old(self)@,
            final(self).seams() == old(self).seams().update(
                index as int,
                Seam { core: *final(machine), ..old(self).seams()[index as int] },
            ),
    {
        let ghost before = *self;
        assert forall|after: Self| before.differs_in_cores(after) implies #[trigger] after.wf() by {
            assert forall|i: int| 0 <= i < before.nodes@.len() implies after.nodes@[i]@
                == before.nodes@[i]@ && (#[trigger] after.nodes@[i]).wf() by {
                assert(before.nodes@[i].wf());
            }
            assert(after@.nodes =~= before@.nodes);
            assert(after@ == before@);
        }
        &mut self.nodes[index].core
    }

    pub fn transport(&self, index: usize) -> (transport: &MemTransport)
        requires
            index < self@.nodes.len(),
        ensures
            transport@ == self@.nodes[index as int].transport,
    {
        &self.nodes[index].transport
    }

    /// Puts a shred into the store of node `index`.
    pub fn store_insert(&mut self, index: usize, slot: u64, shred_index: u32, shred: Vec<u8>)
        requires
            old(self).wf(),
            index < old(self)@.nodes.len(),
        ensures
            final(self).wf(),
            final(self)@ == old(self)@.with_node(
                index as int,
                NodeView {
                    store: old(self)@.nodes[index as int].store.insert(
                        StoreKey { slot, index: shred_index },
                        shred@,
                    ),
                    ..old(self)@.nodes[index as int]
                },
            ),
            final(self).seams() == old(self).seams(),
    {
        let ghost before = *self;
        assert(self.nodes@[index as int].wf());
        let node = &mut self.nodes[index];
        node.store.insert(StoreKey { slot, index: shred_index }, shred);
        proof {
            assert(self.nodes@[index as int]@.store =~= before.nodes@[index as int]@.store.insert(
                StoreKey { slot, index: shred_index },
                shred@,
            ));
            self.lemma_one_node(before, index as int);
        }
    }

    /// A step that changed one node only.
    proof fn lemma_one_node(self, before: Self, index: int)
        requires
            before.wf(),
            0 <= index < before.nodes@.len(),
            self.nodes@ == before.nodes@.update(index, self.nodes@[index]),
            self.nodes@[index].wf(),
            self == (HighSeamNet { nodes: self.nodes, ..before }),
        ensures
            self.wf(),
            self@ == before@.with_node(index, self.nodes@[index]@),
            self.seams() == before.seams().update(index, self.nodes@[index].seam()),
            self.nodes@[index].seam() == before.nodes@[index].seam() ==> self.seams()
                == before.seams(),
    {
        assert(self.seams() =~= before.seams().update(index, self.nodes@[index].seam()));
        assert(self.nodes@[index].seam() == before.nodes@[index].seam() ==> self.seams()
            =~= before.seams());
        assert(self@.nodes =~= before@.nodes.update(index, self.nodes@[index]@));
        assert(self@ =~= before@.with_node(index, self.nodes@[index]@));
        assert(before@.wf());
        assert(self@.by_addr == before@.by_addr && self@.by_pubkey == before@.by_pubkey);
        assert(self@.ops == before@.ops && self@.dials == before@.dials);
        assert(self@.wf());
        assert forall|i: int| 0 <= i < self.nodes@.len() implies (#[trigger] self.nodes@[i]).wf() by {
            if i != index {
                assert(before.nodes@[i].wf());
            }
        }
    }

    pub fn set_node_up(&mut self, index: usize, up: bool)
        requires
            old(self).wf(),
            index < old(self)@.nodes.len(),
        ensures
            final(self).wf(),
            final(self)@ == old(self)@.with_node(
                index as int,
                NodeView { up, ..old(self)@.nodes[index as int] },
            ),
            final(self).seams() == old(self).seams(),
    {
        let ghost before = *self;
        assert(self.nodes@[index as int].wf());
        let node = &mut self.nodes[index];
        node.up = up;
        proof {
            self.lemma_one_node(before, index as int);
        }
    }

    /// The transport of node `index` takes up a connection.
    fn establish(&mut self, index: usize, pubkey: Pubkey, addr: SocketAddr)
        requires
            old(self).wf(),
            index < old(self)@.nodes.len(),
        ensures
            final(self).wf(),
            final(self)@ == old(self)@.with_transport(
                index as int,
                old(self)@.nodes[index as int].transport.with_connection(pubkey, addr),
            ),
            final(self).seams() == old(self).seams(),
    {
        let ghost before = *self;
        assert(self.nodes@[index as int].wf());
        let node = &mut self.nodes[index];
        node.transport.establish(pubkey, addr);
        proof {
            self.lemma_one_node(before, index as int);
        }
    }

    /// Sets up a connection between two nodes, as if a dial had completed.
    pub fn connect(&mut self, a: usize, b: usize)
        requires
            old(self).wf(),
            a < old(self)@.nodes.len(),
            b < old(self)@.nodes.len(),
        ensures
            final(self).wf(),
            final(self)@ == old(self)@.connected(a as int, b as int),
            final(self).seams() == old(self).seams(),
    {
        let a_key = self.node_pubkey(a);
        let a_addr = self.node_addr(a);
        let b_key = self.node_pubkey(b);
        let b_addr = self.node_addr(b);
        self.establish(a, b_key, b_addr);
        self.establish(b, a_key, a_addr);
    }

    /// Takes the connection to `pubkey` down on the side of node `index`.
    pub fn disconnect(&mut self, index: usize, pubkey: &Pubkey)
        requires
            old(self).wf(),
            index < old(self)@.nodes.len(),
        ensures
            final(self).wf(),
            final(self)@ == old(self)@.with_transport(
                index as int,
                old(self)@.nodes[index as int].transport.disconnected(*pubkey),
            ),
            final(self).seams() == old(self).seams(),
    {
        let ghost before = *self;
        assert(self.nodes@[index as int].wf());
        let node = &mut self.nodes[index];
        node.transport.disconnect(pubkey);
        proof {
            self.lemma_one_node(before, index as int);
        }
    }
}

impl<C: HighSeamCore> HighSeamNet<C> {
    /// Picks up what node `index` has sent.
    fn collect(&mut self, index: usize)
        requires
            old(self).wf(),
            index < old(self)@.nodes.len(),
        ensures
            final(self).wf(),
            old(self).net().gathered(index as int, final(self).net()),
            final(self)@ == old(self)@.collected(index as int),
    {
        let ghost before = *self;
        assert(self.nodes@[index as int].wf());
        let node = &mut self.nodes[index];
        let ghost was = *node;
        let mut outbox: Vec<Outgoing> = Vec::new();
        std::mem::swap(&mut node.env.outbox, &mut outbox);
        let ghost outgoing = outbox@;
        let ghost emptied = node.env;
        assert(emptied == (HighSeamEnv { outbox: emptied.outbox, ..was.env }));
        for out in iter: outbox
            invariant
                iter.seq() == outgoing,
                *node == (HighSeamNode { env: emptied, in_flight: node.in_flight, ..was }),
                node.env.outbox@.len() == 0,
                addressed(node.in_flight@) == addressed(was.in_flight@) + without_socket(
                    outbox_view(outgoing),
                ).take(iter.index()),
        {
            let ghost had = node.in_flight@;
            node.in_flight.push((out.to, out.payload));
            proof {
                assert(addressed(node.in_flight@) =~= addressed(had).push((out.to, out.payload@)));
                assert(addressed(node.in_flight@) =~= addressed(was.in_flight@) + without_socket(
                    outbox_view(outgoing),
                ).take(iter.index() + 1));
            }
        }
        let ops = node.transport.take_stream_ops();
        let mut dials = node.transport.take_dial_requests();
        let mut deferred = node.transport.take_deferred_out();
        let ghost released = deferred@;
        let ghost had = node.in_flight@;
        node.in_flight.append(&mut deferred);
        proof {
            assert(without_socket(outbox_view(outgoing)).take(outgoing.len() as int)
                =~= without_socket(outbox_view(outgoing)));
            assert(addressed(node.in_flight@) =~= addressed(had) + addressed(released));
            assert(outbox_view(node.env.outbox@) =~= Seq::empty());
        }
        let ghost mid = *self;
        proof {
            mid.lemma_one_node(before, index as int);
        }
        for op in iter: ops
            invariant
                *self == (HighSeamNet { ops: self.ops, ..mid }),
                iter.seq() == ops@,
                op_views(self.ops@) == op_views(before.ops@) + ops_from(
                    index,
                    stream_ops(ops@),
                ).take(iter.index()),
        {
            let ghost had = self.ops@;
            let (to, op) = op;
            self.ops.push((index, to, op));
            proof {
                assert(op_views(self.ops@) =~= op_views(had).push((index, to, op@)));
                assert(op_views(self.ops@) =~= op_views(before.ops@) + ops_from(
                    index,
                    stream_ops(ops@),
                ).take(iter.index() + 1));
            }
        }
        for dial in iter: dials
            invariant
                *self == (HighSeamNet { ops: self.ops, dials: self.dials, ..mid }),
                iter.seq() == dials@,
                self.dials@ == before.dials@ + dials_from(index, dials@).take(iter.index()),
                op_views(self.ops@) == op_views(before.ops@) + ops_from(
                    index,
                    stream_ops(ops@),
                ),
        {
            self.dials.push((index, dial));
            assert(self.dials@ =~= before.dials@ + dials_from(index, dials@).take(
                iter.index() + 1,
            ));
        }
        proof {
            assert(self@ =~= before@.collected(index as int));
            assert(self.seams() == mid.seams());
            assert(before.seams()[index as int] == was.seam());
            assert(self.seams()[index as int] == mid.nodes@[index as int].seam());
            lemma_touched_collected(before@, index as int);
            lemma_touched_wf(before@, index as int, self@);
        }
    }

    /// What a call of a core comes to for the net.
    proof fn lemma_called(self, before: Self, index: int, call: SeamCall)
        requires
            before.wf(),
            0 <= index < before.nodes@.len(),
            self.nodes@ == before.nodes@.update(index, self.nodes@[index]),
            before.nodes@[index].called(before@.now(), call, self.nodes@[index]),
            self == (HighSeamNet { nodes: self.nodes, ..before }),
        ensures
            self.wf(),
            before.net().called(index, call, self.net()),
            before@.touched(index, self@),
    {
        self.lemma_one_node(before, index);
        assert(before.seams()[index] == before.nodes@[index].seam());
        assert(self.seams()[index] == self.nodes@[index].seam());
        lemma_touched_node(before@, index, self@.nodes[index]);
    }

    /// Answers repair requests from the store of node `index`.
    fn answer_all(&mut self, index: usize, lookups: &Vec<(OverlayStreamId, OverlayRepairReq)>)
        requires
            old(self).wf(),
            index < old(self)@.nodes.len(),
        ensures
            final(self).wf(),
            old(self)@.touched(index as int, final(self)@),
            old(self).net().all_answered(index as int, lookups@, final(self).net()),
    {
        let ghost start = self.net();
        let mut i: usize = 0;
        proof {
            lemma_touched_node(start.view, index as int, start.view.nodes[index as int]);
            assert(start.view.with_node(index as int, start.view.nodes[index as int])
                =~= start.view);
            assert(lookups@.take(0) =~= Seq::empty());
        }
        while i < lookups.len()
            invariant
                self.wf(),
                i <= lookups@.len(),
                index < start.view.nodes.len(),
                self@.nodes.len() == start.view.nodes.len(),
                start.view.touched(index as int, self@),
                start.all_answered(index as int, lookups@.take(i as int), self.net()),
            decreases lookups@.len() - i,
        {
            let ghost before = *self;
            assert(self.nodes@[index as int].wf());
            let now = self.now_nanos();
            let (stream, request) = lookups[i];
            let node = &mut self.nodes[index];
            let Ghost(shred) = node.answer(now, stream, request);
            proof {
                let next = lookups@.take(i + 1);
                assert(next.drop_last() =~= lookups@.take(i as int));
                assert(next.last() == lookups@[i as int]);
                self.lemma_called(before, index as int, SeamCall::Answer { stream, shred });
                assert(repair_answer(before@.nodes[index as int].store, request, shred));
                assert(before.net().answered(index as int, next.last(), self.net()));
                lemma_touched_twice(start.view, index as int, before@, self@);
            }
            i += 1;
        }
        assert(lookups@.take(i as int) =~= lookups@);
    }

    /// Picks up what node `index` has sent and takes in what its core has
    /// raised, answering repair requests from its store, until there is
    /// nothing more.
    fn drain_node(&mut self, index: usize)
        requires
            old(self).wf(),
            index < old(self)@.nodes.len(),
        ensures
            final(self).wf(),
            old(self)@.touched(index as int, final(self)@),
            final(self)@.nodes[index as int].is_drained(),
            old(self).net().settled(index as int, final(self).net()),
    {
        let ghost start = self.net();
        let mut rounds: u64 = 0;
        proof {
            lemma_touched_node(start.view, index as int, start.view.nodes[index as int]);
            assert(start.view.with_node(index as int, start.view.nodes[index as int])
                =~= start.view);
        }
        loop
            invariant
                self.wf(),
                start == old(self).net(),
                index < start.view.nodes.len(),
                start.view.touched(index as int, self@),
                start.rounds(index as int, rounds as nat, self.net()),
            decreases u64::MAX - rounds,
        {
            let ghost s0 = self.net();
            assert(s0.view.nodes.len() == start.view.nodes.len());
            self.collect(index);
            assert(self.nodes@.len() == self@.nodes.len());
            let ghost s1 = *self;
            let ticks: u64 = self.ticks;
            assert(self.nodes@[index as int].wf());
            let node = &mut self.nodes[index];
            let (lookups, Ghost(events)) = node.note_events(ticks);
            let ghost s2 = *self;
            proof {
                lemma_touched_collected(s0.view, index as int);
                lemma_touched_twice(start.view, index as int, s0.view, s1@);
                s2.lemma_one_node(s1, index as int);
                lemma_all_noted(s1@.nodes[index as int], events, ticks);
                lemma_touched_node(s1@, index as int, s2@.nodes[index as int]);
                lemma_touched_twice(start.view, index as int, s1@, s2@);
                assert(s1.seams()[index as int] == s1.nodes@[index as int].seam());
                assert(s2.seams()[index as int] == s2.nodes@[index as int].seam());
                assert(s1.net().noted(index as int, events, s2.net()));
            }
            if lookups.len() == 0 || rounds == u64::MAX {
                proof {
                    assert(start.settled_by(
                        index as int,
                        rounds as nat,
                        s0,
                        s1.net(),
                        events,
                        s2.net(),
                    ));
                }
                return;
            }
            self.answer_all(index, &lookups);
            proof {
                lemma_touched_twice(start.view, index as int, s2@, self@);
                assert(s0.round_by(index as int, s1.net(), events, s2.net(), self.net()));
                let next = (rounds + 1) as nat;
                assert(start.rounds(index as int, (next - 1) as nat, s0) && s0.round(
                    index as int,
                    self.net(),
                ));
                assert(start.rounds(index as int, next, self.net()));
            }
            rounds += 1;
        }
    }
}

impl<C: HighSeamCore> HighSeamNet<C> {
    /// Asks `peer` for a shred on behalf of node `index`. Gives the number of
    /// the stream that it goes over, if there is one.
    pub fn request_repair(&mut self, index: usize, peer: Pubkey, request: OverlayRepairReq) -> (r:
        Option<u64>)
        requires
            old(self).wf(),
            index < old(self)@.nodes.len(),
        ensures
            final(self).wf(),
            old(self).net().reacted(
                index as int,
                SeamCall::Request {
                    peer,
                    request,
                    stream: match r {
                        Some(stream) => Some(OverlayStreamId(stream)),
                        None => None,
                    },
                },
                final(self).net(),
            ),
    {
        let ghost before = *self;
        assert(self.nodes@[index as int].wf());
        let now = self.now_nanos();
        let node = &mut self.nodes[index];
        let stream = node.request(now, peer, request);
        let ghost mid = *self;
        proof {
            mid.lemma_called(before, index as int, SeamCall::Request { peer, request, stream });
        }
        self.drain_node(index);
        proof {
            lemma_touched_twice(before@, index as int, mid@, self@);
        }
        match stream {
            Some(stream) => Some(stream.0),
            None => None,
        }
    }

    /// Hands a node bytes as if they had come from `from` over a connection.
    pub fn inject_datagram(&mut self, index: usize, from: SocketAddr, bytes: &[u8])
        requires
            old(self).wf(),
            index < old(self)@.nodes.len(),
        ensures
            final(self).wf(),
            old(self).net().reacted(index as int, SeamCall::Datagram { from, bytes: bytes@ }, final(self).net()),
    {
        let ghost before = *self;
        assert(self.nodes@[index as int].wf());
        let now = self.now_nanos();
        let node = &mut self.nodes[index];
        node.datagram(now, from, bytes);
        let ghost mid = *self;
        proof {
            mid.lemma_called(before, index as int, SeamCall::Datagram { from, bytes: bytes@ });
        }
        self.drain_node(index);
        proof {
            lemma_touched_twice(before@, index as int, mid@, self@);
        }
    }

    /// Hands a node a shred from the cluster.
    pub fn inject_shred(&mut self, index: usize, payload: &[u8])
        requires
            old(self).wf(),
            index < old(self)@.nodes.len(),
            payload@.len() <= PACKET_DATA_SIZE,
        ensures
            final(self).wf(),
            old(self).net().reacted(index as int, SeamCall::SourcePacket { packet: payload@ }, final(self).net()),
    {
        let ghost before = *self;
        assert(self.nodes@[index as int].wf());
        let now = self.now_nanos();
        let node = &mut self.nodes[index];
        node.source_packet(now, payload);
        let ghost mid = *self;
        proof {
            mid.lemma_called(before, index as int, SeamCall::SourcePacket { packet: payload@ });
        }
        self.drain_node(index);
        proof {
            lemma_touched_twice(before@, index as int, mid@, self@);
        }
    }

    /// Fires the timer of a node.
    fn fire_timer(&mut self, index: usize)
        requires
            old(self).wf(),
            index < old(self)@.nodes.len(),
        ensures
            final(self).wf(),
            old(self).net().reacted(index as int, SeamCall::Timer, final(self).net()),
    {
        let ghost before = *self;
        assert(self.nodes@[index as int].wf());
        let now = self.now_nanos();
        let node = &mut self.nodes[index];
        node.timer(now);
        let ghost mid = *self;
        proof {
            mid.lemma_called(before, index as int, SeamCall::Timer);
        }
        self.drain_node(index);
        proof {
            lemma_touched_twice(before@, index as int, mid@, self@);
        }
    }

    /// A node sees to its transport.
    fn wake(&mut self, index: usize)
        requires
            old(self).wf(),
            index < old(self)@.nodes.len(),
        ensures
            final(self).wf(),
            old(self).net().reacted(index as int, SeamCall::Activity, final(self).net()),
    {
        let ghost before = *self;
        assert(self.nodes@[index as int].wf());
        let now = self.now_nanos();
        let node = &mut self.nodes[index];
        node.activity(now);
        let ghost mid = *self;
        proof {
            mid.lemma_called(before, index as int, SeamCall::Activity);
        }
        self.drain_node(index);
        proof {
            lemma_touched_twice(before@, index as int, mid@, self@);
        }
    }

    /// Hands the transport of a node a stream operation sent by `from`.
    fn deliver_op(&mut self, index: usize, from: Pubkey, op: MemStreamOp)
        requires
            old(self).wf(),
            index < old(self)@.nodes.len(),
        ensures
            final(self).wf(),
            final(self)@ == old(self)@.with_transport(
                index as int,
                old(self)@.nodes[index as int].transport.delivered(from, op@),
            ),
            final(self).seams() == old(self).seams(),
    {
        let ghost before = *self;
        assert(self.nodes@[index as int].wf());
        let node = &mut self.nodes[index];
        node.transport.deliver_stream_op(from, op);
        proof {
            self.lemma_one_node(before, index as int);
        }
    }

    /// Hands a node a stream operation as if `from` had sent it.
    pub fn inject_stream_op(&mut self, index: usize, from: Pubkey, op: MemStreamOp)
        requires
            old(self).wf(),
            index < old(self)@.nodes.len(),
        ensures
            final(self).wf(),
            old(self).net().with_view(
                old(self)@.with_transport(
                    index as int,
                    old(self)@.nodes[index as int].transport.delivered(from, op@),
                ),
            ).reacted(index as int, SeamCall::Activity, final(self).net()),
    {
        self.deliver_op(index, from, op);
        self.wake(index);
    }

    /// The node at `addr`, if it is up.
    fn find_up(&self, addr: SocketAddr) -> (r: Option<usize>)
        requires
            self.wf(),
        ensures
            r == self@.up_at(addr),
            r matches Some(index) ==> index < self@.nodes.len(),
    {
        match self.by_addr.get(&addr) {
            Some(index) => {
                assert(self@.by_addr.dom().contains(addr));
                if self.nodes[*index].up {
                    Some(*index)
                } else {
                    None
                }
            },
            None => None,
        }
    }

    /// Lets one datagram through, or loses it.
    fn pass_datagram(&mut self, from: SocketAddr, to: SocketAddr, bytes: &[u8])
        requires
            old(self).wf(),
        ensures
            final(self).wf(),
            old(self).net().datagram_passed(from, to, bytes@, final(self).net()),
            old(self)@.drop.numerator == old(self)@.drop.denominator ==> final(self)@.nodes
                == old(self)@.nodes,
            final(self)@.nodes.len() == old(self)@.nodes.len(),
            forall|i: int|
                0 <= i < old(self)@.nodes.len() ==> (#[trigger] final(self)@.nodes[i]).addr
                    == old(self)@.nodes[i].addr,
    {
        let mut dropped: bool = false;
        if self.drop_probability.numerator > 0 {
            assert(self@.drop.wf());
            dropped = random_ratio(
                &mut self.rng,
                self.drop_probability.numerator,
                self.drop_probability.denominator,
            );
        }
        let ghost drawn = self@;
        proof {
            assert(drawn.nodes =~= old(self)@.nodes);
            assert(drawn == old(self)@.drop_drawn().1);
            assert(old(self)@.wf());
            assert(drawn.wf());
            assert(self.wf());
            assert(self.seams() =~= old(self).seams());
        }
        if dropped {
            return;
        }
        if let Some(target) = self.find_up(to) {
            let source: Option<usize> = match self.by_addr.get(&from) {
                Some(source) => Some(*source),
                None => None,
            };
            if let Some(source) = source {
                assert(self@.by_addr.dom().contains(from));
                if self.nodes[target].transport.peer_identity(from).is_none() {
                    self.connect(source, target);
                }
            }
            assert(self@ == drawn.dialed_on_demand(from, target as int));
            self.inject_datagram(target, from, bytes);
        }
    }

    /// Fires the timers of the nodes that are up.
    fn fire_timers(&mut self)
        requires
            old(self).wf(),
        ensures
            final(self).wf(),
            final(self)@.nodes.len() == old(self)@.nodes.len(),
            forall|i: int|
                0 <= i < old(self)@.nodes.len() ==> (#[trigger] final(self)@.nodes[i]).addr
                    == old(self)@.nodes[i].addr,
            old(self).net().timers_fired(old(self)@.nodes.len() as int, final(self).net()),
    {
        let ghost start = self.net();
        let n: usize = self.nodes.len();
        let mut i: usize = 0;
        while i < n
            invariant
                self.wf(),
                n == start.view.nodes.len(),
                self@.nodes.len() == n,
                i <= n,
                forall|k: int|
                    0 <= k < n ==> (#[trigger] self@.nodes[k]).addr == start.view.nodes[k].addr,
                start.timers_fired(i as int, self.net()),
            decreases n - i,
        {
            let ghost mid = self.net();
            if self.nodes[i].up {
                self.fire_timer(i);
            }
            proof {
                let next = i + 1;
                assert(start.timers_fired(next - 1, mid) && mid.timer_fired(
                    next - 1,
                    self.net(),
                ));
                assert(start.timers_fired(next, self.net()));
                assert forall|k: int| 0 <= k < n implies (#[trigger] self@.nodes[k]).addr
                    == start.view.nodes[k].addr by {
                    assert(mid.view.nodes[k].addr == start.view.nodes[k].addr);
                }
            }
            i += 1;
        }
    }

    /// Those of the nodes that are marked see to their transports.
    fn wake_all(&mut self, marks: &Vec<bool>, Ghost(woken): Ghost<Set<int>>)
        requires
            old(self).wf(),
            marks@.len() == old(self)@.nodes.len(),
            forall|i: int| 0 <= i < marks@.len() ==> marks@[i] == woken.contains(i),
        ensures
            final(self).wf(),
            final(self)@.nodes.len() == old(self)@.nodes.len(),
            old(self).net().all_woke(woken, old(self)@.nodes.len() as int, final(self).net()),
    {
        let ghost start = self.net();
        let mut i: usize = 0;
        while i < marks.len()
            invariant
                self.wf(),
                marks@.len() == start.view.nodes.len(),
                self@.nodes.len() == start.view.nodes.len(),
                i <= marks@.len(),
                forall|k: int| 0 <= k < marks@.len() ==> marks@[k] == woken.contains(k),
                start.all_woke(woken, i as int, self.net()),
            decreases marks@.len() - i,
        {
            let ghost mid = self.net();
            if marks[i] {
                self.wake(i);
            }
            proof {
                let next = i + 1;
                assert(start.all_woke(woken, next - 1, mid) && mid.woke(
                    woken,
                    next - 1,
                    self.net(),
                ));
                assert(start.all_woke(woken, next, self.net()));
            }
            i += 1;
        }
    }
}

pub open spec fn queue_views(queues: Seq<Vec<(SocketAddr, Vec<u8>)>>) -> Seq<
    Seq<(SocketAddr, Seq<u8>)>,
> {
    Seq::new(queues.len(), |i: int| addressed(queues[i]@))
}

impl<C: HighSeamCore> HighSeamNet<C> {
    /// Starts a tick: takes off the way what is on it.
    fn clear_way(&mut self) -> (r: (
        Vec<Vec<(SocketAddr, Vec<u8>)>>,
        Vec<(usize, Pubkey, MemStreamOp)>,
        Vec<(usize, SocketAddr)>,
    ))
        requires
            old(self).wf(),
            old(self)@.ticks < u64::MAX,
        ensures
            final(self).wf(),
            final(self)@ == old(self)@.cleared(),
            final(self).seams() == old(self).seams(),
            queue_views(r.0@) == old(self)@.queues(),
            op_views(r.1@) == old(self)@.ops,
            r.2@ == old(self)@.dials,
    {
        let ghost before = *self;
        self.ticks = self.ticks + 1;
        let mut queues: Vec<Vec<(SocketAddr, Vec<u8>)>> = Vec::new();
        let mut i: usize = 0;
        let n: usize = self.nodes.len();
        while i < n
            invariant
                before.wf(),
                i <= n,
                n == before.nodes@.len(),
                self.nodes@.len() == n,
                *self == (HighSeamNet { ticks: self.ticks, nodes: self.nodes, ..before }),
                self.ticks == before.ticks + 1,
                queues@.len() == i,
                forall|k: int|
                    0 <= k < i ==> addressed((#[trigger] queues@[k])@)
                        == before@.nodes[k].in_flight,
                forall|k: int|
                    0 <= k < n ==> {
                        &&& (#[trigger] self.nodes@[k]).wf()
                        &&& self.nodes@[k].seam() == before.nodes@[k].seam()
                        &&& self.nodes@[k]@ == (if k < i {
                            NodeView { in_flight: Seq::empty(), ..before@.nodes[k] }
                        } else {
                            before@.nodes[k]
                        })
                    },
            decreases n - i,
        {
            let ghost was = *self;
            assert(self.nodes@[i as int].wf());
            let node = &mut self.nodes[i];
            let mut queue: Vec<(SocketAddr, Vec<u8>)> = Vec::new();
            std::mem::swap(&mut node.in_flight, &mut queue);
            proof {
                assert(addressed(self.nodes@[i as int].in_flight@) =~= Seq::empty());
                assert(addressed(queue@) == was.nodes@[i as int]@.in_flight);
                assert forall|k: int| 0 <= k < n implies {
                    &&& (#[trigger] self.nodes@[k]).wf()
                    &&& self.nodes@[k].seam() == before.nodes@[k].seam()
                    &&& self.nodes@[k]@ == (if k < i + 1 {
                        NodeView { in_flight: Seq::empty(), ..before@.nodes[k] }
                    } else {
                        before@.nodes[k]
                    })
                } by {
                    if k != i {
                        assert(self.nodes@[k] == was.nodes@[k]);
                    }
                }
            }
            queues.push(queue);
            i += 1;
        }
        let mut ops: Vec<(usize, Pubkey, MemStreamOp)> = Vec::new();
        std::mem::swap(&mut self.ops, &mut ops);
        let mut dials: Vec<(usize, SocketAddr)> = Vec::new();
        std::mem::swap(&mut self.dials, &mut dials);
        proof {
            assert(self@.nodes =~= before@.cleared().nodes);
            assert(self.seams() =~= before.seams());
            assert(self@.ops =~= Seq::empty());
            assert(self@.dials =~= Seq::empty());
            assert(self@ =~= before@.cleared());
            assert(queue_views(queues@) =~= before@.queues());
            assert(before@.wf());
            assert(self@.by_addr == before@.by_addr && self@.by_pubkey == before@.by_pubkey);
            assert(self@.wf());
        }
        (queues, ops, dials)
    }

    /// Lets the datagrams of one sender through.
    fn pass_queue(&mut self, from: SocketAddr, queue: &Vec<(SocketAddr, Vec<u8>)>)
        requires
            old(self).wf(),
        ensures
            final(self).wf(),
            old(self).net().queue_passed(from, addressed(queue@), final(self).net()),
            final(self)@.nodes.len() == old(self)@.nodes.len(),
            forall|i: int|
                0 <= i < old(self)@.nodes.len() ==> (#[trigger] final(self)@.nodes[i]).addr
                    == old(self)@.nodes[i].addr,
    {
        let ghost start = self.net();
        let ghost all = addressed(queue@);
        let mut i: usize = 0;
        proof {
            assert(all.take(0) =~= Seq::empty());
        }
        while i < queue.len()
            invariant
                self.wf(),
                all == addressed(queue@),
                i <= queue@.len(),
                self@.nodes.len() == start.view.nodes.len(),
                forall|k: int|
                    0 <= k < start.view.nodes.len() ==> (#[trigger] self@.nodes[k]).addr
                        == start.view.nodes[k].addr,
                start.queue_passed(from, all.take(i as int), self.net()),
            decreases queue@.len() - i,
        {
            let ghost mid = self.net();
            self.pass_datagram(from, queue[i].0, &queue[i].1);
            proof {
                let next = all.take(i + 1);
                assert(next.drop_last() =~= all.take(i as int));
                assert(next.last() == all[i as int]);
                assert(mid.datagram_passed(from, next.last().0, next.last().1, self.net()));
                assert(start.queue_passed(from, next, self.net()));
                assert forall|k: int| 0 <= k < start.view.nodes.len() implies (
                #[trigger] self@.nodes[k]).addr == start.view.nodes[k].addr by {
                    assert(mid.view.nodes[k].addr == start.view.nodes[k].addr);
                }
            }
            i += 1;
        }
        assert(all.take(i as int) =~= all);
    }

    /// Lets the datagrams of every sender through, in the order of the
    /// senders.
    fn pass_queues(&mut self, queues: &Vec<Vec<(SocketAddr, Vec<u8>)>>)
        requires
            old(self).wf(),
            queues@.len() == old(self)@.nodes.len(),
        ensures
            final(self).wf(),
            old(self).net().queues_passed(queue_views(queues@), final(self).net()),
            final(self)@.nodes.len() == old(self)@.nodes.len(),
    {
        let ghost start = self.net();
        let ghost all = queue_views(queues@);
        let mut i: usize = 0;
        proof {
            assert(all.take(0) =~= Seq::empty());
        }
        while i < queues.len()
            invariant
                self.wf(),
                all == queue_views(queues@),
                i <= queues@.len(),
                queues@.len() == start.view.nodes.len(),
                self@.nodes.len() == start.view.nodes.len(),
                forall|k: int|
                    0 <= k < start.view.nodes.len() ==> (#[trigger] self@.nodes[k]).addr
                        == start.view.nodes[k].addr,
                start.queues_passed(all.take(i as int), self.net()),
            decreases queues@.len() - i,
        {
            let ghost mid = self.net();
            let from = self.node_addr(i);
            self.pass_queue(from, &queues[i]);
            proof {
                let next = all.take(i + 1);
                assert(next.drop_last() =~= all.take(i as int));
                assert(next.last() == all[i as int]);
                assert(mid.queue_passed(
                    start.view.nodes[next.len() - 1].addr,
                    next.last(),
                    self.net(),
                ));
                assert(start.queues_passed(next, self.net()));
                assert forall|k: int| 0 <= k < start.view.nodes.len() implies (
                #[trigger] self@.nodes[k]).addr == start.view.nodes[k].addr by {
                    assert(mid.view.nodes[k].addr == start.view.nodes[k].addr);
                }
            }
            i += 1;
        }
        assert(all.take(i as int) =~= all);
    }

    /// A mark for every node, all unset.
    fn no_marks(&self) -> (marks: Vec<bool>)
        ensures
            marks@.len() == self@.nodes.len(),
            forall|i: int| 0 <= i < marks@.len() ==> !marks@[i],
    {
        let mut marks: Vec<bool> = Vec::new();
        while marks.len() < self.nodes.len()
            invariant
                marks@.len() <= self.nodes@.len(),
                forall|i: int| 0 <= i < marks@.len() ==> !marks@[i],
            decreases self.nodes@.len() - marks@.len(),
        {
            marks.push(false);
        }
        marks
    }

    /// Stream operations arrive, and their targets see to them.
    fn pass_ops(&mut self, ops: Vec<(usize, Pubkey, MemStreamOp)>)
        requires
            old(self).wf(),
            forall|i: int| 0 <= i < ops@.len() ==> (#[trigger] ops@[i]).0 < old(self)@.nodes.len(),
        ensures
            final(self).wf(),
            final(self)@.nodes.len() == old(self)@.nodes.len(),
            old(self).net().ops_passed(op_views(ops@), final(self).net()),
    {
        let ghost cores = self.seams();
        let ghost start = self@;
        let ghost all = op_views(ops@);
        let mut marks = self.no_marks();
        proof {
            assert(all.take(0) =~= Seq::empty());
        }
        for item in iter: ops
            invariant
                self.wf(),
                all == op_views(ops@),
                iter.seq() == ops@,
                marks@.len() == start.nodes.len(),
                self@.nodes.len() == start.nodes.len(),
                forall|i: int|
                    0 <= i < ops@.len() ==> (#[trigger] ops@[i]).0 < start.nodes.len(),
                self.seams() == cores,
                self@ == start.ops_arrived(all.take(iter.index())).0,
                forall|i: int|
                    0 <= i < marks@.len() ==> marks@[i] == start.ops_arrived(
                        all.take(iter.index()),
                    ).1.contains(i),
        {
            let ghost mid = self@;
            proof {
                let next = all.take(iter.index() + 1);
                assert(next.drop_last() =~= all.take(iter.index()));
                assert(next.last() == all[iter.index()]);
                assert(ops@[iter.index()].0 < start.nodes.len());
            }
            let (from, to, op) = item;
            let target: Option<usize> = match self.by_pubkey.get(&to) {
                Some(index) => {
                    assert(self@.by_pubkey.dom().contains(to));
                    if self.nodes[*index].up {
                        Some(*index)
                    } else {
                        None
                    }
                },
                None => None,
            };
            assert(target == mid.up_as(to));
            if let Some(target) = target {
                assert(mid.by_pubkey.dom().contains(to));
                let from_key = self.node_pubkey(from);
                self.deliver_op(target, from_key, op);
                marks[target] = true;
            }
        }
        proof {
            assert(all.take(all.len() as int) =~= all);
        }
        let ghost woken = start.ops_arrived(all).1;
        self.wake_all(&marks, Ghost(woken));
    }

    /// Dials arrive, and those whom they connected see to it.
    fn pass_dials(&mut self, dials: &Vec<(usize, SocketAddr)>)
        requires
            old(self).wf(),
            forall|i: int|
                0 <= i < dials@.len() ==> (#[trigger] dials@[i]).0 < old(self)@.nodes.len(),
        ensures
            final(self).wf(),
            final(self)@.nodes.len() == old(self)@.nodes.len(),
            old(self).net().dials_passed(dials@, final(self).net()),
    {
        let ghost cores = self.seams();
        let ghost start = self@;
        let mut marks = self.no_marks();
        let mut i: usize = 0;
        proof {
            assert(dials@.take(0) =~= Seq::empty());
        }
        while i < dials.len()
            invariant
                self.wf(),
                i <= dials@.len(),
                marks@.len() == start.nodes.len(),
                self@.nodes.len() == start.nodes.len(),
                forall|k: int|
                    0 <= k < dials@.len() ==> (#[trigger] dials@[k]).0 < start.nodes.len(),
                self.seams() == cores,
                self@ == start.dials_arrived(dials@.take(i as int)).0,
                forall|k: int|
                    0 <= k < marks@.len() ==> marks@[k] == start.dials_arrived(
                        dials@.take(i as int),
                    ).1.contains(k),
            decreases dials@.len() - i,
        {
            let ghost mid = self@;
            proof {
                let next = dials@.take(i + 1);
                assert(next.drop_last() =~= dials@.take(i as int));
                assert(next.last() == dials@[i as int]);
            }
            let (from, addr) = dials[i];
            if let Some(target) = self.find_up(addr) {
                if target != from && self.nodes[from].transport.peer_identity(addr).is_none() {
                    self.connect(from, target);
                    marks[from] = true;
                    marks[target] = true;
                }
            }
            i += 1;
        }
        proof {
            assert(dials@.take(i as int) =~= dials@);
        }
        let ghost woken = start.dials_arrived(dials@).1;
        self.wake_all(&marks, Ghost(woken));
    }

    /// One tick: every timer fires, and what was on the way arrives.
    pub fn tick(&mut self)
        requires
            old(self).wf(),
            old(self)@.ticks < u64::MAX,
        ensures
            final(self).wf(),
            old(self).net().ticked(final(self).net()),
    {
        let ghost start = self.net();
        let ghost n = start.view.nodes.len() as int;
        assert(start.view.wf());
        let (queues, ops, dials) = self.clear_way();
        assert(self@.nodes.len() == n);
        assert(queue_views(queues@).len() == queues@.len());
        self.fire_timers();
        let ghost fired = self.net();
        self.pass_queues(&queues);
        let ghost passed = self.net();
        proof {
            assert forall|i: int| 0 <= i < ops@.len() implies (#[trigger] ops@[i]).0
                < self@.nodes.len() by {
                assert(op_views(ops@)[i] == start.view.ops[i]);
            }
        }
        self.pass_ops(ops);
        let ghost streamed = self.net();
        self.pass_dials(&dials);
        assert(start.ticked_by(fired, passed, streamed, self.net()));
    }
}

impl NetView {
    /// `after` has the same nodes under the same names, and the same clock.
    pub open spec fn same_nodes(self, after: Self) -> bool {
        &&& after.seed == self.seed
        &&& after.ticks == self.ticks
        &&& after.by_addr == self.by_addr
        &&& after.by_pubkey == self.by_pubkey
        &&& after.drop == self.drop
        &&& after.nodes.len() == self.nodes.len()
        &&& forall|i: int|
            0 <= i < self.nodes.len() ==> {
                let node = #[trigger] after.nodes[i];
                &&& node.pubkey == self.nodes[i].pubkey
                &&& node.addr == self.nodes[i].addr
                &&& node.up == self.nodes[i].up
                &&& node.store == self.nodes[i].store
            }
    }
}

proof fn lemma_same_twice(a: NetView, b: NetView, c: NetView)
    requires
        a.same_nodes(b),
        b.same_nodes(c),
    ensures
        a.same_nodes(c),
{
    assert forall|i: int| 0 <= i < a.nodes.len() implies {
        let node = #[trigger] c.nodes[i];
        &&& node.pubkey == a.nodes[i].pubkey
        &&& node.addr == a.nodes[i].addr
        &&& node.up == a.nodes[i].up
        &&& node.store == a.nodes[i].store
    } by {
        assert(b.nodes[i].pubkey == a.nodes[i].pubkey);
    }
}

pub proof fn lemma_connected_same(s: NetView, a: int, b: int)
    requires
        0 <= a < s.nodes.len(),
        0 <= b < s.nodes.len(),
    ensures
        s.same_nodes(s.connected(a, b)),
{
}

pub proof fn lemma_timers_same<C: HighSeamCore>(s: Net<C>, n: int, after: Net<C>)
    requires
        n <= s.view.nodes.len(),
        s.timers_fired(n, after),
    ensures
        s.view.same_nodes(after.view),
    decreases n,
{
    if n > 0 {
        let mid = choose|mid: Net<C>|
            s.timers_fired(n - 1, mid) && #[trigger] mid.timer_fired(n - 1, after);
        lemma_timers_same(s, n - 1, mid);
        assert(mid.view.same_nodes(after.view));
        lemma_same_twice(s.view, mid.view, after.view);
    }
}

pub proof fn lemma_woke_same<C: HighSeamCore>(s: Net<C>, woken: Set<int>, n: int, after: Net<C>)
    requires
        n <= s.view.nodes.len(),
        s.all_woke(woken, n, after),
    ensures
        s.view.same_nodes(after.view),
    decreases n,
{
    if n > 0 {
        let mid = choose|mid: Net<C>|
            s.all_woke(woken, n - 1, mid) && #[trigger] mid.woke(woken, n - 1, after);
        lemma_woke_same(s, woken, n - 1, mid);
        assert(mid.view.same_nodes(after.view));
        lemma_same_twice(s.view, mid.view, after.view);
    }
}

pub proof fn lemma_queue_same<C: HighSeamCore>(
    s: Net<C>,
    from: SocketAddr,
    queue: Seq<(SocketAddr, Seq<u8>)>,
    after: Net<C>,
)
    requires
        s.view.names_wf(),
        s.queue_passed(from, queue, after),
    ensures
        s.view.same_nodes(after.view),
    decreases queue.len(),
{
    if queue.len() > 0 {
        let mid = choose|mid: Net<C>|
            s.queue_passed(from, queue.drop_last(), mid) && #[trigger] mid.datagram_passed(
                from,
                queue.last().0,
                queue.last().1,
                after,
            );
        lemma_queue_same(s, from, queue.drop_last(), mid);
        let to = queue.last().0;
        let (dropped, drawn) = mid.view.drop_drawn();
        assert(mid.view.same_nodes(drawn));
        match drawn.up_at(to) {
            Some(target) if !dropped => {
                assert(drawn.by_addr.dom().contains(to));
                let ready = drawn.dialed_on_demand(from, target as int);
                if drawn.by_addr.dom().contains(from) {
                    lemma_connected_same(drawn, drawn.by_addr[from] as int, target as int);
                }
                assert(drawn.same_nodes(ready));
                assert(ready.same_nodes(after.view));
                lemma_same_twice(drawn, ready, after.view);
            },
            _ => {},
        }
        lemma_same_twice(mid.view, drawn, after.view);
        lemma_same_twice(s.view, mid.view, after.view);
    }
}

pub proof fn lemma_queues_same<C: HighSeamCore>(
    s: Net<C>,
    queues: Seq<Seq<(SocketAddr, Seq<u8>)>>,
    after: Net<C>,
)
    requires
        s.view.names_wf(),
        s.queues_passed(queues, after),
    ensures
        s.view.same_nodes(after.view),
    decreases queues.len(),
{
    if queues.len() > 0 {
        let from = s.view.nodes[queues.len() - 1].addr;
        let mid = choose|mid: Net<C>|
            s.queues_passed(queues.drop_last(), mid) && #[trigger] mid.queue_passed(
                from,
                queues.last(),
                after,
            );
        lemma_queues_same(s, queues.drop_last(), mid);
        lemma_queue_same(mid, from, queues.last(), after);
        lemma_same_twice(s.view, mid.view, after.view);
    }
}

pub proof fn lemma_ops_same(s: NetView, ops: Seq<(usize, Pubkey, OpView)>)
    requires
        s.names_wf(),
    ensures
        s.same_nodes(s.ops_arrived(ops).0),
    decreases ops.len(),
{
    if ops.len() > 0 {
        let (net, woken) = s.ops_arrived(ops.drop_last());
        lemma_ops_same(s, ops.drop_last());
        let to = ops.last().1;
        if net.up_as(to) is Some {
            assert(net.by_pubkey.dom().contains(to));
        }
        assert(net.same_nodes(s.ops_arrived(ops).0));
        lemma_same_twice(s, net, s.ops_arrived(ops).0);
    }
}

pub proof fn lemma_dials_same(s: NetView, dials: Seq<(usize, SocketAddr)>)
    requires
        s.names_wf(),
        forall|i: int| 0 <= i < dials.len() ==> (#[trigger] dials[i]).0 < s.nodes.len(),
    ensures
        s.same_nodes(s.dials_arrived(dials).0),
    decreases dials.len(),
{
    if dials.len() > 0 {
        let (net, woken) = s.dials_arrived(dials.drop_last());
        lemma_dials_same(s, dials.drop_last());
        let (from, addr) = dials.last();
        assert(dials[dials.len() - 1].0 < s.nodes.len());
        if let Some(target) = net.dial_lands(from, addr) {
            assert(net.by_addr.dom().contains(addr));
            lemma_connected_same(net, from as int, target as int);
        }
        assert(net.same_nodes(s.dials_arrived(dials).0));
        lemma_same_twice(s, net, s.dials_arrived(dials).0);
    }
}

/// A tick moves the clock on by one. It neither adds nor renames nodes, and
/// takes none up or down.
pub proof fn law_tick_keeps_nodes<C: HighSeamCore>(s: Net<C>, after: Net<C>)
    requires
        s.view.wf(),
        s.ticked(after),
    ensures
        (NetView { ticks: (s.view.ticks + 1) as u64, ..s.view }).same_nodes(after.view),
{
    let n = s.view.nodes.len() as int;
    let (fired, passed, streamed) = choose|fired: Net<C>, passed: Net<C>, streamed: Net<C>|
        #[trigger]
        s.ticked_by(fired, passed, streamed, after);
    let base = NetView { ticks: (s.view.ticks + 1) as u64, ..s.view };
    let cleared = s.with_view(s.view.cleared());
    assert(base.same_nodes(cleared.view));
    lemma_timers_same(cleared, n, fired);
    lemma_same_twice(base, cleared.view, fired.view);
    lemma_queues_same(fired, s.view.queues(), passed);
    lemma_same_twice(base, fired.view, passed.view);
    let (arrived, woken) = passed.view.ops_arrived(s.view.ops);
    lemma_ops_same(passed.view, s.view.ops);
    lemma_woke_same(passed.with_view(arrived), woken, n, streamed);
    lemma_same_twice(base, passed.view, arrived);
    lemma_same_twice(base, arrived, streamed.view);
    let (landed, met) = streamed.view.dials_arrived(s.view.dials);
    lemma_dials_same(streamed.view, s.view.dials);
    lemma_woke_same(streamed.with_view(landed), met, n, after);
    lemma_same_twice(base, streamed.view, landed);
    lemma_same_twice(base, landed, after.view);
}

/// Stream operations to a node that is up all arrive, in the order in which
/// they were sent, whatever the drop probability.
pub proof fn law_streams_are_reliable(s: NetView, ops: Seq<(usize, Pubkey, OpView)>, target: int)
    requires
        s.names_wf(),
        0 <= target < s.nodes.len(),
        s.nodes[target].up,
        s.by_pubkey.dom().contains(s.nodes[target].pubkey),
        s.by_pubkey[s.nodes[target].pubkey] == target,
        forall|i: int|
            0 <= i < ops.len() ==> (#[trigger] ops[i]).0 < s.nodes.len() && ops[i].1
                == s.nodes[target].pubkey,
    ensures
        s.ops_arrived(ops).0 == s.with_transport(
            target,
            all_delivered(s.nodes[target].transport, s.nodes, ops),
        ),
        ops.len() > 0 ==> s.ops_arrived(ops).1 == Set::<int>::empty().insert(target),
    decreases ops.len(),
{
    if ops.len() > 0 {
        let rest = ops.drop_last();
        assert forall|i: int| 0 <= i < rest.len() implies (#[trigger] rest[i]).0 < s.nodes.len()
            && rest[i].1 == s.nodes[target].pubkey by {
            assert(rest[i] == ops[i]);
        }
        law_streams_are_reliable(s, rest, target);
        assert(ops[ops.len() - 1].1 == s.nodes[target].pubkey);
        let net = s.ops_arrived(rest).0;
        assert(net.up_as(s.nodes[target].pubkey) == Some(target as usize));
        assert(s.ops_arrived(ops).0 =~= s.with_transport(
            target,
            all_delivered(s.nodes[target].transport, s.nodes, ops),
        ));
        if rest.len() > 0 {
            assert(s.ops_arrived(ops).1 =~= Set::<int>::empty().insert(target));
        }
    } else {
        assert(s.with_transport(target, s.nodes[target].transport) =~= s);
    }
}

/// A transport once every operation of `ops` has arrived at it.
pub open spec fn all_delivered(
    transport: MemView,
    nodes: Seq<NodeView>,
    ops: Seq<(usize, Pubkey, OpView)>,
) -> MemView
    decreases ops.len(),
{
    if ops.len() == 0 {
        transport
    } else {
        all_delivered(transport, nodes, ops.drop_last()).delivered(
            nodes[ops.last().0 as int].pubkey,
            ops.last().2,
        )
    }
}

/// What goes into the digest of one node.
pub open spec fn node_record(
    pubkey: Pubkey,
    adverts: Seq<AdvertSummary>,
    peers: Seq<Pubkey>,
    dropped: u64,
    invalid: u64,
    delivered: u64,
) -> Seq<u8> {
    pubkey.bytes() + advert_bytes(adverts) + peer_bytes(peers) + le_bytes(dropped as nat, 8)
        + le_bytes(invalid as nat, 8) + le_bytes(delivered as nat, 8)
}

pub open spec fn advert_bytes(adverts: Seq<AdvertSummary>) -> Seq<u8>
    decreases adverts.len(),
{
    if adverts.len() == 0 {
        Seq::empty()
    } else {
        advert_bytes(adverts.drop_last()) + adverts.last().pubkey.bytes() + le_bytes(
            adverts.last().seq as nat,
            8,
        ) + seq![adverts.last().direct_addrs]
    }
}

pub open spec fn peer_bytes(peers: Seq<Pubkey>) -> Seq<u8>
    decreases peers.len(),
{
    if peers.len() == 0 {
        Seq::empty()
    } else {
        peer_bytes(peers.drop_last()) + peers.last().bytes()
    }
}

/// The digest chain over the records of the nodes, from 32 zeros on.
pub open spec fn chained(records: Seq<Seq<u8>>) -> Seq<u8>
    decreases records.len(),
{
    if records.len() == 0 {
        Seq::new(32, |i: int| 0u8)
    } else {
        sha256_of(chained(records.drop_last()) + records.last())
    }
}

/// [`node_record`].
pub fn record_node(
    pubkey: Pubkey,
    adverts: &Vec<AdvertSummary>,
    peers: &Vec<Pubkey>,
    dropped: u64,
    invalid: u64,
    delivered: u64,
) -> (record: Vec<u8>)
    ensures
        record@ == node_record(pubkey, adverts@, peers@, dropped, invalid, delivered),
{
    let mut buf: Vec<u8> = pubkey.to_bytes();
    let mut i: usize = 0;
    while i < adverts.len()
        invariant
            i <= adverts@.len(),
            buf@ == pubkey.bytes() + advert_bytes(adverts@.take(i as int)),
        decreases adverts@.len() - i,
    {
        let advert: AdvertSummary = adverts[i];
        let ghost had = buf@;
        put_bytes(&mut buf, &advert.pubkey.to_bytes());
        put_le(&mut buf, advert.seq as u128, 8);
        buf.push(advert.direct_addrs);
        proof {
            let next = adverts@.take(i + 1);
            assert(next.drop_last() =~= adverts@.take(i as int));
            assert(next.last() == advert);
            assert(buf@ =~= pubkey.bytes() + advert_bytes(next));
        }
        i += 1;
    }
    assert(adverts@.take(i as int) =~= adverts@);
    let ghost base = buf@;
    let mut j: usize = 0;
    while j < peers.len()
        invariant
            j <= peers@.len(),
            buf@ == base + peer_bytes(peers@.take(j as int)),
        decreases peers@.len() - j,
    {
        put_bytes(&mut buf, &peers[j].to_bytes());
        proof {
            let next = peers@.take(j + 1);
            assert(next.drop_last() =~= peers@.take(j as int));
            assert(next.last() == peers@[j as int]);
            assert(buf@ =~= base + peer_bytes(next));
        }
        j += 1;
    }
    assert(peers@.take(j as int) =~= peers@);
    put_le(&mut buf, dropped as u128, 8);
    put_le(&mut buf, invalid as u128, 8);
    put_le(&mut buf, delivered as u128, 8);
    assert(buf@ =~= node_record(pubkey, adverts@, peers@, dropped, invalid, delivered));
    buf
}

/// `digest` is that of a net.
pub open spec fn is_digest<C: HighSeamCore>(net: Net<C>, digest: Seq<char>) -> bool {
    exists|records: Seq<Seq<u8>>|
        records_of(net, records) && digest == hex_of(#[trigger] chained(records))
}

/// The keys of a map, in order.
pub open spec fn keys_in_order<V>(map: Map<Pubkey, V>, keys: Seq<Pubkey>) -> bool {
    &&& forall|i: int, j: int| 0 <= i < j < keys.len() ==> keys[i].rank() < keys[j].rank()
    &&& forall|p: Pubkey| #[trigger] keys.contains(p) <==> map.dom().contains(p)
}

/// `record` is that of node `index`: what its core shows, whom it is connected
/// to, and what it counts.
pub open spec fn record_by<C: HighSeamCore>(
    net: Net<C>,
    index: int,
    adverts: Seq<AdvertSummary>,
    peers: Seq<Pubkey>,
    dropped: u64,
    invalid: u64,
    record: Seq<u8>,
) -> bool {
    let node = net.view.nodes[index];
    let machine = net.seams[index].core;
    &&& machine.shows(net.view.now(), adverts)
    &&& keys_in_order(node.transport.established, peers)
    &&& machine.counts_dropped(dropped)
    &&& machine.counts_invalid(invalid)
    &&& record == node_record(
        node.pubkey,
        adverts,
        peers,
        dropped,
        invalid,
        node.delivered.len() as u64,
    )
}

pub open spec fn record_of<C: HighSeamCore>(net: Net<C>, index: int, record: Seq<u8>) -> bool {
    exists|adverts: Seq<AdvertSummary>, peers: Seq<Pubkey>, dropped: u64, invalid: u64| #[trigger]
        record_by(net, index, adverts, peers, dropped, invalid, record)
}

/// One record for each node.
pub open spec fn records_of<C: HighSeamCore>(net: Net<C>, records: Seq<Seq<u8>>) -> bool {
    &&& records.len() == net.view.nodes.len()
    &&& forall|i: int| 0 <= i < records.len() ==> record_of(net, i, #[trigger] records[i])
}

impl<C: HighSeamCore> HighSeamNet<C> {
    pub fn run_ticks(&mut self, count: u64)
        requires
            old(self).wf(),
            old(self)@.ticks + count <= u64::MAX,
        ensures
            final(self).wf(),
            old(self).net().ran_for(count as nat, final(self).net()),
    {
        let ghost start = self.net();
        let mut i: u64 = 0;
        while i < count
            invariant
                self.wf(),
                i <= count,
                start.view.ticks + count <= u64::MAX,
                self@.ticks == start.view.ticks + i,
                start.ran_for(i as nat, self.net()),
            decreases count - i,
        {
            let ghost mid = self.net();
            assert(mid.view.wf());
            self.tick();
            proof {
                law_tick_keeps_nodes(mid, self.net());
                let next = (i + 1) as nat;
                assert(start.ran_for((next - 1) as nat, mid) && mid.ticked(self.net()));
                assert(start.ran_for(next, self.net()));
            }
            i += 1;
        }
    }

    /// A digest of what can be seen of the net: each node's adverts, its
    /// connections and its counters. Equal digests mean equal outcomes.
    pub fn state_digest(&self) -> (digest: String)
        requires
            self.wf(),
        ensures
            is_digest(self.net(), digest@),
    {
        let now = self.now_nanos();
        let mut state: [u8; 32] = [0u8; 32];
        let ghost mut records: Seq<Seq<u8>> = Seq::empty();
        let mut i: usize = 0;
        assert(state@ =~= chained(records));
        while i < self.nodes.len()
            invariant
                i <= self.nodes@.len(),
                records.len() == i,
                now == self@.now(),
                forall|k: int| 0 <= k < i ==> record_of(self.net(), k, #[trigger] records[k]),
                state@ == chained(records),
            decreases self.nodes@.len() - i,
        {
            let node = &self.nodes[i];
            let adverts = node.core.gossip_snapshot(now);
            let peers = node.transport.connected_peers();
            let dropped = node.core.dropped_unreachable();
            let invalid = node.core.invalid_adverts();
            let record = record_node(
                node.pubkey,
                &adverts,
                &peers,
                dropped,
                invalid,
                node.delivered.len() as u64,
            );
            let mut buf: Vec<u8> = Vec::new();
            put_bytes(&mut buf, &state);
            put_bytes(&mut buf, &record);
            proof {
                assert(buf@ =~= state@ + record@);
                let next = records.push(record@);
                assert(next.drop_last() =~= records);
                assert(self.seams()[i as int] == node.seam());
                assert(record_by(
                    self.net(),
                    i as int,
                    adverts@,
                    peers@,
                    dropped,
                    invalid,
                    record@,
                ));
                assert forall|k: int| 0 <= k < i + 1 implies record_of(
                    self.net(),
                    k,
                    #[trigger] next[k],
                ) by {
                    if k < i {
                        assert(next[k] == records[k]);
                    }
                }
                records = next;
            }
            state = sha256(&buf);
            i += 1;
        }
        let digest = to_hex(&state);
        proof {
            assert(records_of(self.net(), records));
        }
        digest
    }
}

} // verus!
