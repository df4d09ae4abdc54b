//! An in-memory transport in place of QUIC: connections are pairs of a key
//! and an address that the harness sets up, datagrams pass through untouched,
//! and the peer's identity is simply asserted. It keeps QUIC's contract:
//! mutually authenticated peers, unreliable datagrams, and reliable, ordered
//! streams in both directions.

use vstd::prelude::*;
use crate::addr::SocketAddr;
use crate::codec::copy_range;
use crate::ordmap::{OrdMap, Rank};
use crate::overlay::env::{EnvView, OverlayEnv, SocketId};
use crate::overlay::transport::{
    addressed,
    transport_event,
    transport_events,
    OverlayTransport,
    QueueError,
    TransportEvent,
    TransportEventView,
};
use crate::pubkey::Pubkey;

verus! {

/// What names a stream on one side.
#[derive(Clone, Copy, Debug, PartialEq, Eq, Structural)]
pub struct OverlayStreamId(pub u64);

/// What happens on a stream.
#[derive(Debug)]
pub enum StreamEvent {
    Opened { stream: OverlayStreamId, peer: Pubkey },
    Data { stream: OverlayStreamId, bytes: Vec<u8> },
    Finished { stream: OverlayStreamId },
    Failed { stream: OverlayStreamId },
}

pub enum StreamEventView {
    Opened { stream: u64, peer: Pubkey },
    Data { stream: u64, bytes: Seq<u8> },
    Finished { stream: u64 },
    Failed { stream: u64 },
}

impl StreamEvent {
    pub open spec fn view(&self) -> StreamEventView {
        match self {
            StreamEvent::Opened { stream, peer } => StreamEventView::Opened {
                stream: stream.0,
                peer: *peer,
            },
            StreamEvent::Data { stream, bytes } => StreamEventView::Data {
                stream: stream.0,
                bytes: bytes@,
            },
            StreamEvent::Finished { stream } => StreamEventView::Finished { stream: stream.0 },
            StreamEvent::Failed { stream } => StreamEventView::Failed { stream: stream.0 },
        }
    }
}

/// An operation on a stream that the harness carries between transports.
/// Streams are reliable and ordered, so the fault model drops none. A stream
/// is named by who opened it and a number; `initiator_is_sender` tells which
/// side sent the operation.
#[derive(Debug)]
pub struct MemStreamOp {
    pub initiator_is_sender: bool,
    pub seq: u64,
    pub kind: MemStreamOpKind,
}

#[derive(Debug)]
pub enum MemStreamOpKind {
    Open,
    Data(Vec<u8>),
    Fin,
    Reset,
}

pub enum OpKindView {
    Open,
    Data(Seq<u8>),
    Fin,
    Reset,
}

pub struct OpView {
    pub initiator_is_sender: bool,
    pub seq: u64,
    pub kind: OpKindView,
}

impl MemStreamOp {
    pub open spec fn view(&self) -> OpView {
        OpView {
            initiator_is_sender: self.initiator_is_sender,
            seq: self.seq,
            kind: match self.kind {
                MemStreamOpKind::Open => OpKindView::Open,
                MemStreamOpKind::Data(bytes) => OpKindView::Data(bytes@),
                MemStreamOpKind::Fin => OpKindView::Fin,
                MemStreamOpKind::Reset => OpKindView::Reset,
            },
        }
    }
}

/// One side of a stream.
#[derive(Clone, Copy, Debug, PartialEq, Eq, Structural)]
pub struct MemStream {
    pub peer: Pubkey,
    pub seq: u64,
    /// The other side opened it.
    pub remote_initiated: bool,
    pub fin_sent: bool,
    pub fin_recvd: bool,
}

/// What a stream is known by to both sides.
#[derive(Clone, Copy, Debug, PartialEq, Eq, Structural)]
pub struct StreamKey {
    pub peer: Pubkey,
    pub seq: u64,
    pub remote_initiated: bool,
}

impl Rank for StreamKey {
    open spec fn rank(self) -> int {
        (self.peer.rank() * 0x1_0000_0000_0000_0000 + self.seq) * 2 + (if self.remote_initiated {
            1int
        } else {
            0int
        })
    }

    proof fn rank_injective(a: Self, b: Self) {
        Pubkey::rank_injective(a.peer, b.peer);
    }

    fn before(&self, other: &Self) -> (r: bool) {
        if self.peer.before(&other.peer) {
            true
        } else if other.peer.before(&self.peer) {
            false
        } else if self.seq != other.seq {
            self.seq < other.seq
        } else {
            !self.remote_initiated && other.remote_initiated
        }
    }
}

impl MemStream {
    pub open spec fn key(self) -> StreamKey {
        StreamKey { peer: self.peer, seq: self.seq, remote_initiated: self.remote_initiated }
    }

    /// An operation that this side sends.
    pub open spec fn op(self, kind: OpKindView) -> (Pubkey, OpView) {
        (self.peer, OpView { initiator_is_sender: !self.remote_initiated, seq: self.seq, kind })
    }
}

/// Payloads that wait for a connection to an address, each with the identity
/// that it is addressed to.
pub struct PendingExpect {
    pub payloads: Vec<(Pubkey, Vec<u8>)>,
}

/// What waits, the oldest first.
pub open spec fn addressees(v: Seq<(Pubkey, Vec<u8>)>) -> Seq<(Pubkey, Seq<u8>)> {
    Seq::new(v.len(), |i: int| (v[i].0, v[i].1@))
}

impl PendingExpect {
    pub open spec fn view(&self) -> Seq<(Pubkey, Seq<u8>)> {
        addressees(self.payloads@)
    }
}

/// Those of the payloads that wait for `addr` which are addressed to `pubkey`.
pub open spec fn released(
    addr: SocketAddr,
    pubkey: Pubkey,
    waiting: Seq<(Pubkey, Seq<u8>)>,
) -> Seq<(SocketAddr, Seq<u8>)>
    decreases waiting.len(),
{
    if waiting.len() == 0 {
        Seq::empty()
    } else {
        let rest = released(addr, pubkey, waiting.drop_last());
        if waiting.last().0 == pubkey {
            rest.push((addr, waiting.last().1))
        } else {
            rest
        }
    }
}

/// A transport as the contracts speak of it.
#[verifier::ext_equal]
pub struct MemView {
    pub established: Map<Pubkey, SocketAddr>,
    pub by_addr: Map<SocketAddr, Pubkey>,
    pub inbound: Seq<(SocketAddr, Seq<u8>)>,
    pub events: Seq<TransportEventView>,
    pub next_stream: u64,
    pub streams: Map<u64, MemStream>,
    pub index: Map<StreamKey, u64>,
    pub stream_events: Seq<StreamEventView>,
    pub ops: Seq<(Pubkey, OpView)>,
    pub dials: Seq<SocketAddr>,
    pub pending: Map<SocketAddr, Seq<(Pubkey, Seq<u8>)>>,
    pub deferred: Seq<(SocketAddr, Seq<u8>)>,
}

/// The handles below `n` of the streams with `peer`, ascending.
pub open spec fn streams_with(streams: Map<u64, MemStream>, peer: Pubkey, n: nat) -> Seq<u64>
    decreases n,
{
    if n == 0 {
        Seq::empty()
    } else {
        let rest = streams_with(streams, peer, (n - 1) as nat);
        let handle = (n - 1) as u64;
        if streams.dom().contains(handle) && streams[handle].peer == peer {
            rest.push(handle)
        } else {
            rest
        }
    }
}

pub open spec fn failures(handles: Seq<u64>) -> Seq<StreamEventView> {
    Seq::new(handles.len(), |i: int| StreamEventView::Failed { stream: handles[i] })
}

impl MemView {
    pub open spec fn empty() -> Self {
        MemView {
            established: Map::empty(),
            by_addr: Map::empty(),
            inbound: Seq::empty(),
            events: Seq::empty(),
            next_stream: 0,
            streams: Map::empty(),
            index: Map::empty(),
            stream_events: Seq::empty(),
            ops: Seq::empty(),
            dials: Seq::empty(),
            pending: Map::empty(),
            deferred: Seq::empty(),
        }
    }

    /// Handles are below the next one.
    pub open spec fn wf(self) -> bool {
        forall|h: u64| #[trigger] self.streams.dom().contains(h) ==> h < self.next_stream
    }

    /// What waits for a connection to `addr`.
    pub open spec fn waiting_at(self, addr: SocketAddr) -> Seq<(Pubkey, Seq<u8>)> {
        if self.pending.dom().contains(addr) {
            self.pending[addr]
        } else {
            Seq::empty()
        }
    }

    /// A connection to `pubkey` at `addr` is up. An address that has one keeps
    /// it. Those of the payloads that waited for the address go out which are
    /// addressed to the one who answered; the others are dropped.
    pub open spec fn with_connection(self, pubkey: Pubkey, addr: SocketAddr) -> Self {
        if self.by_addr.dom().contains(addr) {
            self
        } else {
            MemView {
                established: self.established.insert(pubkey, addr),
                by_addr: self.by_addr.insert(addr, pubkey),
                events: self.events.push(
                    TransportEventView::Connected { peer: addr, pubkey: Some(pubkey) },
                ),
                pending: self.pending.remove(addr),
                deferred: self.deferred + released(addr, pubkey, self.waiting_at(addr)),
                ..self
            }
        }
    }

    /// A stream is gone.
    pub open spec fn without_stream(self, handle: u64) -> Self {
        if self.streams.dom().contains(handle) {
            MemView {
                index: self.index.remove(self.streams[handle].key()),
                streams: self.streams.remove(handle),
                ..self
            }
        } else {
            self
        }
    }

    /// Some stream with `peer` goes by `key`.
    pub open spec fn leads_to(self, peer: Pubkey, key: StreamKey) -> bool {
        exists|h: u64| #[trigger]
            self.streams.dom().contains(h) && self.streams[h].peer == peer && self.streams[h].key()
                == key
    }

    /// The streams with a peer are gone, and have failed.
    pub open spec fn without_streams_of(self, peer: Pubkey) -> Self {
        MemView {
            streams: Map::new(
                |h: u64| self.streams.dom().contains(h) && self.streams[h].peer != peer,
                |h: u64| self.streams[h],
            ),
            index: Map::new(
                |k: StreamKey| self.index.dom().contains(k) && !self.leads_to(peer, k),
                |k: StreamKey| self.index[k],
            ),
            stream_events: self.stream_events + failures(
                streams_with(self.streams, peer, self.next_stream as nat),
            ),
            ..self
        }
    }

    /// The connection to `pubkey` is down, and its streams with it.
    pub open spec fn disconnected(self, pubkey: Pubkey) -> Self {
        if !self.established.dom().contains(pubkey) {
            self
        } else {
            let addr = self.established[pubkey];
            (MemView {
                established: self.established.remove(pubkey),
                by_addr: self.by_addr.remove(addr),
                events: self.events.push(
                    TransportEventView::Disconnected {
                        peer: addr,
                        reason: "harness disconnect"@,
                    },
                ),
                ..self
            }).without_streams_of(pubkey)
        }
    }

    /// The connection at `addr` is dropped from this side.
    pub open spec fn dropped(self, addr: SocketAddr) -> Self {
        if !self.by_addr.dom().contains(addr) {
            self
        } else {
            let pubkey = self.by_addr[addr];
            (MemView {
                established: self.established.remove(pubkey),
                by_addr: self.by_addr.remove(addr),
                ..self
            }).without_streams_of(pubkey)
        }
    }

    /// A stream is there, and goes by `key`.
    pub open spec fn with_stream(self, key: StreamKey, stream: MemStream) -> Self {
        let handle = self.next_stream;
        MemView {
            next_stream: (self.next_stream + 1) as u64,
            streams: self.streams.insert(handle, stream),
            index: self.index.insert(key, handle),
            ..self
        }
    }

    /// A stream that both sides have finished is gone.
    pub open spec fn reaped(self, handle: u64) -> Self {
        if self.streams.dom().contains(handle) && self.streams[handle].fin_sent
            && self.streams[handle].fin_recvd {
            self.without_stream(handle)
        } else {
            self
        }
    }

    pub open spec fn told(self, event: StreamEventView) -> Self {
        MemView { stream_events: self.stream_events.push(event), ..self }
    }

    /// The other side has finished a stream.
    pub open spec fn with_fin(self, handle: u64) -> Self {
        if self.streams.dom().contains(handle) {
            MemView {
                streams: self.streams.insert(
                    handle,
                    MemStream { fin_recvd: true, ..self.streams[handle] },
                ),
                ..self
            }
        } else {
            self
        }
    }

    /// An operation sent by `from` arrives. A stream is opened only by a peer
    /// that there is a connection to, only once under its name, and only while
    /// there are handles left.
    pub open spec fn delivered(self, from: Pubkey, op: OpView) -> Self {
        let key = StreamKey {
            peer: from,
            seq: op.seq,
            remote_initiated: op.initiator_is_sender,
        };
        let handle = self.index[key];
        let known = self.index.dom().contains(key);
        match op.kind {
            OpKindView::Open => if known || !self.established.dom().contains(from)
                || self.next_stream == u64::MAX {
                self
            } else {
                self.with_stream(
                    key,
                    MemStream {
                        peer: from,
                        seq: op.seq,
                        remote_initiated: true,
                        fin_sent: false,
                        fin_recvd: false,
                    },
                ).told(StreamEventView::Opened { stream: self.next_stream, peer: from })
            },
            OpKindView::Data(bytes) => if known {
                self.told(StreamEventView::Data { stream: handle, bytes })
            } else {
                self
            },
            OpKindView::Fin => if known {
                self.with_fin(handle).told(StreamEventView::Finished { stream: handle }).reaped(
                    handle,
                )
            } else {
                self
            },
            OpKindView::Reset => if known {
                self.without_stream(handle).told(StreamEventView::Failed { stream: handle })
            } else {
                self
            },
        }
    }

    /// This side opens a stream to `pubkey`, if there is a connection to it and
    /// a handle left.
    pub open spec fn opened(self, pubkey: Pubkey) -> (Option<u64>, Self) {
        if !self.established.dom().contains(pubkey) || self.next_stream == u64::MAX {
            (None, self)
        } else {
            let handle = self.next_stream;
            let stream = MemStream {
                peer: pubkey,
                seq: handle,
                remote_initiated: false,
                fin_sent: false,
                fin_recvd: false,
            };
            (
                Some(handle),
                MemView {
                    ops: self.ops.push(stream.op(OpKindView::Open)),
                    ..self.with_stream(stream.key(), stream)
                },
            )
        }
    }

    /// This side writes to a stream that it has not finished.
    pub open spec fn written(self, handle: u64, bytes: Seq<u8>) -> (bool, Self) {
        if self.streams.dom().contains(handle) && !self.streams[handle].fin_sent {
            (
                true,
                MemView {
                    ops: self.ops.push(self.streams[handle].op(OpKindView::Data(bytes))),
                    ..self
                },
            )
        } else {
            (false, self)
        }
    }

    /// This side finishes a stream.
    pub open spec fn finished(self, handle: u64) -> Self {
        if self.streams.dom().contains(handle) && !self.streams[handle].fin_sent {
            let stream = self.streams[handle];
            (MemView {
                streams: self.streams.insert(handle, MemStream { fin_sent: true, ..stream }),
                ops: self.ops.push(stream.op(OpKindView::Fin)),
                ..self
            }).reaped(handle)
        } else {
            self
        }
    }

    /// This side gives a stream up.
    pub open spec fn reset(self, handle: u64) -> Self {
        if self.streams.dom().contains(handle) {
            MemView {
                ops: self.ops.push(self.streams[handle].op(OpKindView::Reset)),
                ..self.without_stream(handle)
            }
        } else {
            self
        }
    }

    /// A payload for `expected` waits for a connection to `to`, which the
    /// harness is asked to dial.
    pub open spec fn waiting(self, to: SocketAddr, expected: Pubkey, payload: Seq<u8>) -> Self {
        MemView {
            pending: self.pending.insert(to, self.waiting_at(to).push((expected, payload))),
            dials: self.dials.push(to),
            ..self
        }
    }
}

/// No handles in between, no streams in between.
proof fn lemma_streams_gap(streams: Map<u64, MemStream>, peer: Pubkey, a: nat, b: nat)
    requires
        a <= b <= u64::MAX,
        forall|h: u64| a <= h < b ==> !#[trigger] streams.dom().contains(h),
    ensures
        streams_with(streams, peer, a) == streams_with(streams, peer, b),
    decreases b,
{
    if a < b {
        assert(!streams.dom().contains((b - 1) as u64));
        lemma_streams_gap(streams, peer, a, (b - 1) as nat);
    }
}

/// The streams with a peer are listed, and each once.
proof fn lemma_streams_with(streams: Map<u64, MemStream>, peer: Pubkey, n: nat)
    requires
        n <= u64::MAX,
    ensures
        forall|h: u64| #[trigger]
            streams_with(streams, peer, n).contains(h) <==> h < n && streams.dom().contains(h)
                && streams[h].peer == peer,
        streams_with(streams, peer, n).no_duplicates(),
    decreases n,
{
    if n > 0 {
        let rest = streams_with(streams, peer, (n - 1) as nat);
        let handle = (n - 1) as u64;
        lemma_streams_with(streams, peer, (n - 1) as nat);
        let all = streams_with(streams, peer, n);
        assert(!rest.contains(handle));
        assert(all == if streams.dom().contains(handle) && streams[handle].peer == peer {
            rest.push(handle)
        } else {
            rest
        });
        assert forall|h: u64| all.contains(h) implies h < n && streams.dom().contains(h)
            && streams[h].peer == peer by {
            let i = choose|i: int| 0 <= i < all.len() && all[i] == h;
            if i < rest.len() {
                assert(rest[i] == h);
                assert(rest.contains(h));
            } else {
                assert(h == handle);
            }
        }
        assert forall|h: u64|
            h < n && streams.dom().contains(h) && streams[h].peer == peer implies all.contains(
            h,
        ) by {
            if h == handle {
                assert(all[rest.len() as int] == h);
            } else {
                assert(rest.contains(h));
                let i = choose|i: int| 0 <= i < rest.len() && rest[i] == h;
                assert(all[i] == h);
            }
        }
        assert forall|i: int, j: int| 0 <= i < j < all.len() implies all[i] != all[j] by {
            if j == rest.len() {
                assert(rest.contains(rest[i]));
            }
        }
    }
}

/// What a transport holds.
pub struct MemState {
    established: OrdMap<Pubkey, SocketAddr>,
    by_addr: OrdMap<SocketAddr, Pubkey>,
    inbound: Vec<(SocketAddr, Vec<u8>)>,
    events: Vec<TransportEvent>,
    next_stream: u64,
    streams: OrdMap<u64, MemStream>,
    index: OrdMap<StreamKey, u64>,
    stream_events: Vec<StreamEvent>,
    ops: Vec<(Pubkey, MemStreamOp)>,
    dials: Vec<SocketAddr>,
    pending: OrdMap<SocketAddr, PendingExpect>,
    deferred: Vec<(SocketAddr, Vec<u8>)>,
}

pub open spec fn stream_events(events: Seq<StreamEvent>) -> Seq<StreamEventView> {
    Seq::new(events.len(), |i: int| events[i]@)
}

pub open spec fn stream_ops(ops: Seq<(Pubkey, MemStreamOp)>) -> Seq<(Pubkey, OpView)> {
    Seq::new(ops.len(), |i: int| (ops[i].0, ops[i].1@))
}

impl MemState {
    pub closed spec fn view(&self) -> MemView {
        MemView {
            established: self.established@,
            by_addr: self.by_addr@,
            inbound: addressed(self.inbound@),
            events: transport_events(self.events@),
            next_stream: self.next_stream,
            streams: self.streams@,
            index: self.index@,
            stream_events: stream_events(self.stream_events@),
            ops: stream_ops(self.ops@),
            dials: self.dials@,
            pending: self.pending@.map_values(|p: PendingExpect| p@),
            deferred: addressed(self.deferred@),
        }
    }

    pub closed spec fn wf(&self) -> bool {
        &&& self.established.wf()
        &&& self.by_addr.wf()
        &&& self.streams.wf()
        &&& self.index.wf()
        &&& self.pending.wf()
        &&& forall|h: u64| #[trigger] self.streams@.dom().contains(h) ==> h < self.next_stream
    }

    fn new() -> (s: Self)
        ensures
            s.wf(),
            s@ == MemView::empty(),
    {
        let s = MemState {
            established: OrdMap::new(),
            by_addr: OrdMap::new(),
            inbound: Vec::new(),
            events: Vec::new(),
            next_stream: 0,
            streams: OrdMap::new(),
            index: OrdMap::new(),
            stream_events: Vec::new(),
            ops: Vec::new(),
            dials: Vec::new(),
            pending: OrdMap::new(),
            deferred: Vec::new(),
        };
        assert(s@ =~= MemView::empty());
        s
    }

    fn push_stream_event(&mut self, event: StreamEvent)
        requires
            old(self).wf(),
        ensures
            final(self).wf(),
            final(self)@ == old(self)@.told(event@),
    {
        let ghost before = self.stream_events@;
        self.stream_events.push(event);
        assert(stream_events(self.stream_events@) =~= stream_events(before).push(event@));
    }

    fn push_op(&mut self, stream: MemStream, kind: MemStreamOpKind)
        requires
            old(self).wf(),
        ensures
            final(self).wf(),
            final(self)@ == (MemView {
                ops: old(self)@.ops.push(
                    (
                        stream.peer,
                        (MemStreamOp {
                            initiator_is_sender: !stream.remote_initiated,
                            seq: stream.seq,
                            kind,
                        })@,
                    ),
                ),
                ..old(self)@
            }),
    {
        let ghost before = self.ops@;
        let op = MemStreamOp {
            initiator_is_sender: !stream.remote_initiated,
            seq: stream.seq,
            kind,
        };
        self.ops.push((stream.peer, op));
        assert(stream_ops(self.ops@) =~= stream_ops(before).push((stream.peer, op@)));
    }

    fn drop_stream(&mut self, handle: u64)
        requires
            old(self).wf(),
        ensures
            final(self).wf(),
            final(self)@ == old(self)@.without_stream(handle),
    {
        let ghost before = self@;
        match self.streams.remove(&handle) {
            Some(stream) => {
                let _ = self.index.remove(
                    &StreamKey {
                        peer: stream.peer,
                        seq: stream.seq,
                        remote_initiated: stream.remote_initiated,
                    },
                );
                assert(self@ =~= before.without_stream(handle));
            },
            None => {
                assert(self.streams@ =~= before.streams);
                assert(self@ =~= before);
            },
        }
    }

    fn reap_stream(&mut self, handle: u64)
        requires
            old(self).wf(),
        ensures
            final(self).wf(),
            final(self)@ == old(self)@.reaped(handle),
    {
        let done: bool = match self.streams.get(&handle) {
            Some(stream) => stream.fin_sent && stream.fin_recvd,
            None => false,
        };
        if done {
            self.drop_stream(handle);
        }
    }

    fn drop_streams_of(&mut self, peer: Pubkey)
        requires
            old(self).wf(),
        ensures
            final(self).wf(),
            final(self)@ == old(self)@.without_streams_of(peer),
    {
        let ghost before = self@;
        let mut dead: Vec<u64> = Vec::new();
        let mut i: usize = 0;
        let n: usize = self.streams.len();
        let ghost mut bound: nat = 0;
        proof {
            assert(self.streams.entries().len() == n);
        }
        while i < n
            invariant
                self.wf(),
                self@ == before,
                n == self.streams.entries().len(),
                i <= n,
                bound == if i == 0 {
                    0int
                } else {
                    self.streams.entries()[i - 1].0 + 1
                },
                bound <= self.next_stream,
                dead@ == streams_with(before.streams, peer, bound),
            decreases n - i,
        {
            let (handle, stream) = self.streams.at(i);
            proof {
                assert forall|h: u64| bound <= h < *handle implies !#[trigger]
                before.streams.dom().contains(h) by {
                    if self.streams.has(h) {
                        let j = self.streams.index_of(h);
                        if j < i {
                            if j < i - 1 {
                                assert(self.streams.entries()[j].0.rank()
                                    < self.streams.entries()[i - 1].0.rank());
                            }
                        } else if j > i {
                            assert(self.streams.entries()[i as int].0.rank()
                                < self.streams.entries()[j].0.rank());
                        }
                    }
                }
                if i > 0 {
                    assert(self.streams.entries()[i - 1].0.rank()
                        < self.streams.entries()[i as int].0.rank());
                }
                lemma_streams_gap(before.streams, peer, bound, *handle as nat);
                bound = (*handle + 1) as nat;
            }
            if stream.peer == peer {
                dead.push(*handle);
            }
            i += 1;
        }
        proof {
            assert forall|h: u64| bound <= h < self.next_stream implies !#[trigger]
            before.streams.dom().contains(h) by {
                if self.streams.has(h) {
                    let j = self.streams.index_of(h);
                    if j < n - 1 {
                        assert(self.streams.entries()[j].0.rank() < self.streams.entries()[n
                            - 1].0.rank());
                    }
                }
            }
            lemma_streams_gap(before.streams, peer, bound, self.next_stream as nat);
            lemma_streams_with(before.streams, peer, self.next_stream as nat);
        }
        let mut j: usize = 0;
        while j < dead.len()
            invariant
                j <= dead@.len(),
                self.wf(),
                before.wf(),
                dead@ == streams_with(before.streams, peer, before.next_stream as nat),
                dead@.no_duplicates(),
                forall|h: u64|
                    dead@.contains(h) <==> before.streams.dom().contains(h)
                        && before.streams[h].peer == peer,
                self@ == (MemView {
                    streams: self@.streams,
                    index: self@.index,
                    stream_events: before.stream_events + failures(dead@.take(j as int)),
                    ..before
                }),
                forall|h: u64| #[trigger]
                    self@.streams.dom().contains(h) <==> before.streams.dom().contains(h)
                        && !dead@.take(j as int).contains(h),
                forall|h: u64| #[trigger]
                    self@.streams.dom().contains(h) ==> self@.streams[h] == before.streams[h],
                forall|k: StreamKey| #[trigger]
                    self@.index.dom().contains(k) <==> before.index.dom().contains(k) && !(
                    exists|x: int| 0 <= x < j && before.streams[#[trigger] dead@[x]].key() == k),
                forall|k: StreamKey| #[trigger]
                    self@.index.dom().contains(k) ==> self@.index[k] == before.index[k],
            decreases dead@.len() - j,
        {
            let handle: u64 = dead[j];
            let ghost mid = self@;
            proof {
                assert(dead@.contains(handle));
                assert(!dead@.take(j as int).contains(handle));
                assert(mid.streams.dom().contains(handle));
                let t = dead@.take(j as int);
                let u = dead@.take(j + 1);
                assert forall|h: u64| u.contains(h) <==> t.contains(h) || h == handle by {
                    if t.contains(h) {
                        assert(u[t.index_of(h)] == h);
                    }
                    if u.contains(h) {
                        let x = u.index_of(h);
                        if x < j {
                            assert(t[x] == h);
                        }
                    }
                    assert(u[j as int] == handle);
                }
                assert(failures(u) =~= failures(t).push(StreamEventView::Failed { stream: handle }));
            }
            self.drop_stream(handle);
            self.push_stream_event(StreamEvent::Failed { stream: OverlayStreamId(handle) });
            proof {
                assert(self@.stream_events =~= before.stream_events + failures(
                    dead@.take(j + 1),
                ));
                assert forall|k: StreamKey| #[trigger]
                    self@.index.dom().contains(k) <==> before.index.dom().contains(k) && !(
                    exists|x: int| 0 <= x < j + 1 && before.streams[#[trigger] dead@[x]].key()
                        == k) by {
                    assert(dead@[j as int] == handle);
                }
            }
            j += 1;
        }
        proof {
            let after = before.without_streams_of(peer);
            assert(dead@.take(j as int) =~= dead@);
            assert(self@.streams =~= after.streams);
            assert forall|k: StreamKey|
                self@.index.dom().contains(k) <==> after.index.dom().contains(k) by {
                if before.leads_to(peer, k) {
                    let h = choose|h: u64| #[trigger]
                        before.streams.dom().contains(h) && before.streams[h].peer == peer
                            && before.streams[h].key() == k;
                    assert(dead@.contains(h));
                    let x = dead@.index_of(h);
                    assert(before.streams[dead@[x]].key() == k);
                }
                if exists|x: int| 0 <= x < j && before.streams[#[trigger] dead@[x]].key() == k {
                    let x = choose|x: int|
                        0 <= x < j && before.streams[#[trigger] dead@[x]].key() == k;
                    assert(dead@.contains(dead@[x]));
                    assert(before.streams.dom().contains(dead@[x]));
                }
            }
            assert forall|k: StreamKey| self@.index.dom().contains(k) implies self@.index[k]
                == after.index[k] by {
                assert(after.index.dom().contains(k));
            }
            assert(self@.index =~= after.index);
            assert(self@ =~= after);
        }
    }

    fn establish(&mut self, pubkey: Pubkey, addr: SocketAddr)
        requires
            old(self).wf(),
        ensures
            final(self).wf(),
            final(self)@ == old(self)@.with_connection(pubkey, addr),
    {
        if self.by_addr.contains_key(&addr) {
            return;
        }
        let ghost before = *self;
        self.established.insert(pubkey, addr);
        self.by_addr.insert(addr, pubkey);
        let event = TransportEvent::Connected { peer: addr, pubkey: Some(pubkey) };
        self.events.push(event);
        let waiting = self.pending.remove(&addr);
        proof {
            assert(transport_events(self.events@) =~= transport_events(before.events@).push(
                transport_event(event),
            ));
            assert(self@.pending =~= before@.pending.remove(addr));
        }
        let ghost mid = *self;
        let ghost all = before@.waiting_at(addr);
        if let Some(waiting) = waiting {
            let mut payloads = waiting.payloads;
            let ghost listed = payloads@;
            let mut k: usize = 0;
            let n: usize = payloads.len();
            proof {
                assert(all =~= addressees(listed));
                assert(all.take(0) =~= Seq::empty());
                assert(addressed(self.deferred@) =~= addressed(mid.deferred@) + released(
                    addr,
                    pubkey,
                    all.take(0),
                ));
            }
            while k < n
                invariant
                    k <= n,
                    n == listed.len(),
                    all == addressees(listed),
                    payloads@ == listed.skip(k as int),
                    *self == (MemState { deferred: self.deferred, ..mid }),
                    addressed(self.deferred@) == addressed(mid.deferred@) + released(
                        addr,
                        pubkey,
                        all.take(k as int),
                    ),
                decreases n - k,
            {
                let ghost had = self.deferred@;
                let (expected, payload) = payloads.remove(0);
                if expected == pubkey {
                    self.deferred.push((addr, payload));
                }
                proof {
                    assert(payloads@ =~= listed.skip(k + 1));
                    let next = all.take(k + 1);
                    assert(next.drop_last() =~= all.take(k as int));
                    assert(next.last() == (expected, payload@));
                    if expected == pubkey {
                        assert(addressed(self.deferred@) =~= addressed(had).push((addr, payload@)));
                    }
                    assert(addressed(self.deferred@) =~= addressed(mid.deferred@) + released(
                        addr,
                        pubkey,
                        next,
                    ));
                }
                k += 1;
            }
            assert(all.take(k as int) =~= all);
        } else {
            assert(addressed(self.deferred@) =~= addressed(mid.deferred@) + released(
                addr,
                pubkey,
                all,
            ));
        }
        assert(self@ =~= before@.with_connection(pubkey, addr));
    }

    fn disconnect(&mut self, pubkey: Pubkey)
        requires
            old(self).wf(),
        ensures
            final(self).wf(),
            final(self)@ == old(self)@.disconnected(pubkey),
    {
        let ghost before = *self;
        match self.established.remove(&pubkey) {
            Some(addr) => {
                let _ = self.by_addr.remove(&addr);
                let reason = "harness disconnect".to_string();
                let event = TransportEvent::Disconnected { peer: addr, reason };
                self.events.push(event);
                proof {
                    assert(transport_events(self.events@) =~= transport_events(before.events@).push(
                        transport_event(event),
                    ));
                }
                self.drop_streams_of(pubkey);
            },
            None => {
                assert(self@ =~= before@);
            },
        }
    }

    fn drop_connection(&mut self, addr: SocketAddr)
        requires
            old(self).wf(),
        ensures
            final(self).wf(),
            final(self)@ == old(self)@.dropped(addr),
    {
        let ghost before = *self;
        match self.by_addr.remove(&addr) {
            Some(pubkey) => {
                let _ = self.established.remove(&pubkey);
                self.drop_streams_of(pubkey);
            },
            None => {
                assert(self@ =~= before@);
            },
        }
    }

    fn deliver_stream_op(&mut self, from: Pubkey, op: MemStreamOp)
        requires
            old(self).wf(),
        ensures
            final(self).wf(),
            final(self)@ == old(self)@.delivered(from, op@),
    {
        let key = StreamKey { peer: from, seq: op.seq, remote_initiated: op.initiator_is_sender };
        let known: Option<u64> = match self.index.get(&key) {
            Some(handle) => Some(*handle),
            None => None,
        };
        match op.kind {
            MemStreamOpKind::Open => {
                if known.is_some() || !self.established.contains_key(&from) || self.next_stream
                    == u64::MAX {
                    return;
                }
                let handle: u64 = self.next_stream;
                self.next_stream = handle + 1;
                self.index.insert(key, handle);
                self.streams.insert(
                    handle,
                    MemStream {
                        peer: from,
                        seq: op.seq,
                        remote_initiated: true,
                        fin_sent: false,
                        fin_recvd: false,
                    },
                );
                self.push_stream_event(
                    StreamEvent::Opened { stream: OverlayStreamId(handle), peer: from },
                );
            },
            MemStreamOpKind::Data(bytes) => {
                if let Some(handle) = known {
                    self.push_stream_event(
                        StreamEvent::Data { stream: OverlayStreamId(handle), bytes },
                    );
                }
            },
            MemStreamOpKind::Fin => {
                if let Some(handle) = known {
                    let ghost before = *self;
                    match self.streams.get_mut(&handle) {
                        Some(stream) => {
                            stream.fin_recvd = true;
                        },
                        None => {},
                    }
                    assert(self@ =~= before@.with_fin(handle));
                    self.push_stream_event(
                        StreamEvent::Finished { stream: OverlayStreamId(handle) },
                    );
                    self.reap_stream(handle);
                }
            },
            MemStreamOpKind::Reset => {
                if let Some(handle) = known {
                    self.drop_stream(handle);
                    self.push_stream_event(StreamEvent::Failed { stream: OverlayStreamId(handle) });
                }
            },
        }
    }

    fn open_stream(&mut self, pubkey: Pubkey) -> (r: Option<u64>)
        requires
            old(self).wf(),
        ensures
            final(self).wf(),
            (r, final(self)@) == old(self)@.opened(pubkey),
    {
        if !self.established.contains_key(&pubkey) || self.next_stream == u64::MAX {
            return None;
        }
        let ghost before = self@;
        let handle: u64 = self.next_stream;
        self.next_stream = handle + 1;
        let stream = MemStream {
            peer: pubkey,
            seq: handle,
            remote_initiated: false,
            fin_sent: false,
            fin_recvd: false,
        };
        self.index.insert(StreamKey { peer: pubkey, seq: handle, remote_initiated: false }, handle);
        self.push_op(stream, MemStreamOpKind::Open);
        self.streams.insert(handle, stream);
        assert(self@ =~= before.opened(pubkey).1);
        Some(handle)
    }

    fn write_stream(&mut self, handle: u64, bytes: &[u8]) -> (r: bool)
        requires
            old(self).wf(),
        ensures
            final(self).wf(),
            (r, final(self)@) == old(self)@.written(handle, bytes@),
    {
        let stream: MemStream = match self.streams.get(&handle) {
            Some(stream) => *stream,
            None => {
                return false;
            },
        };
        if stream.fin_sent {
            return false;
        }
        let data: Vec<u8> = copy_range(bytes, 0, bytes.len());
        assert(data@ =~= bytes@);
        self.push_op(stream, MemStreamOpKind::Data(data));
        true
    }

    fn finish_stream(&mut self, handle: u64)
        requires
            old(self).wf(),
        ensures
            final(self).wf(),
            final(self)@ == old(self)@.finished(handle),
    {
        let ghost before = *self;
        let mut stream: MemStream = match self.streams.get(&handle) {
            Some(stream) => *stream,
            None => {
                return ;
            },
        };
        if stream.fin_sent {
            return ;
        }
        stream.fin_sent = true;
        self.streams.insert(handle, stream);
        self.push_op(stream, MemStreamOpKind::Fin);
        self.reap_stream(handle);
    }

    fn reset_stream(&mut self, handle: u64)
        requires
            old(self).wf(),
        ensures
            final(self).wf(),
            final(self)@ == old(self)@.reset(handle),
    {
        let stream: MemStream = match self.streams.get(&handle) {
            Some(stream) => *stream,
            None => {
                return ;
            },
        };
        self.push_op(stream, MemStreamOpKind::Reset);
        self.drop_stream(handle);
    }

    fn wait_for(&mut self, to: SocketAddr, expected: Pubkey, payload: Vec<u8>)
        requires
            old(self).wf(),
        ensures
            final(self).wf(),
            final(self)@ == old(self)@.waiting(to, expected, payload@),
    {
        let ghost before = *self;
        let mut had: PendingExpect = match self.pending.remove(&to) {
            Some(had) => had,
            None => PendingExpect { payloads: Vec::new() },
        };
        let ghost listed = had@;
        assert(listed =~= before@.waiting_at(to));
        had.payloads.push((expected, payload));
        assert(had@ =~= listed.push((expected, payload@)));
        self.pending.insert(to, had);
        self.dials.push(to);
        assert(self@.pending =~= before@.waiting(to, expected, payload@).pending);
        assert(self@ =~= before@.waiting(to, expected, payload@));
    }
}

/// The in-memory transport.
pub struct MemTransport {
    state: MemState,
}

impl MemTransport {
    pub closed spec fn view(&self) -> MemView {
        self.state@
    }

    #[verifier::type_invariant]
    spec fn inv(self) -> bool {
        self.state.wf()
    }

    pub fn new() -> (t: Self)
        ensures
            t@ == MemView::empty(),
    {
        MemTransport { state: MemState::new() }
    }

    /// For the harness: takes the addresses to dial.
    pub fn take_dial_requests(&mut self) -> (r: Vec<SocketAddr>)
        ensures
            r@ == old(self)@.dials,
            final(self)@ == (MemView { dials: Seq::empty(), ..old(self)@ }),
    {
        proof {
            use_type_invariant(&*self);
        }
        let mut state = MemState::new();
        std::mem::swap(&mut self.state, &mut state);
        let mut dials: Vec<SocketAddr> = Vec::new();
        std::mem::swap(&mut state.dials, &mut dials);
        self.state = state;
        assert(self@ =~= (MemView { dials: Seq::empty(), ..old(self)@ }));
        dials
    }

    /// For the harness: takes the payloads that a connection has released.
    pub fn take_deferred_out(&mut self) -> (r: Vec<(SocketAddr, Vec<u8>)>)
        ensures
            addressed(r@) == old(self)@.deferred,
            final(self)@ == (MemView { deferred: Seq::empty(), ..old(self)@ }),
    {
        proof {
            use_type_invariant(&*self);
        }
        let mut state = MemState::new();
        std::mem::swap(&mut self.state, &mut state);
        let mut deferred: Vec<(SocketAddr, Vec<u8>)> = Vec::new();
        std::mem::swap(&mut state.deferred, &mut deferred);
        self.state = state;
        assert(self@ =~= (MemView { deferred: Seq::empty(), ..old(self)@ }));
        deferred
    }

    /// For the harness: takes the stream operations that were queued.
    pub fn take_stream_ops(&mut self) -> (r: Vec<(Pubkey, MemStreamOp)>)
        ensures
            stream_ops(r@) == old(self)@.ops,
            final(self)@ == (MemView { ops: Seq::empty(), ..old(self)@ }),
    {
        proof {
            use_type_invariant(&*self);
        }
        let mut state = MemState::new();
        std::mem::swap(&mut self.state, &mut state);
        let mut ops: Vec<(Pubkey, MemStreamOp)> = Vec::new();
        std::mem::swap(&mut state.ops, &mut ops);
        self.state = state;
        assert(self@ =~= (MemView { ops: Seq::empty(), ..old(self)@ }));
        ops
    }

    /// For the harness: a connection to `pubkey` at `addr` is up.
    pub fn establish(&mut self, pubkey: Pubkey, addr: SocketAddr)
        ensures
            final(self)@ == old(self)@.with_connection(pubkey, addr),
    {
        proof {
            use_type_invariant(&*self);
        }
        let mut state = MemState::new();
        std::mem::swap(&mut self.state, &mut state);
        state.establish(pubkey, addr);
        self.state = state;
    }

    /// For the harness: the connection with `pubkey` is down.
    pub fn disconnect(&mut self, pubkey: &Pubkey)
        ensures
            old(self)@.wf(),
            final(self)@.wf(),
            final(self)@ == old(self)@.disconnected(*pubkey),
    {
        proof {
            use_type_invariant(&*self);
        }
        let mut state = MemState::new();
        std::mem::swap(&mut self.state, &mut state);
        state.disconnect(*pubkey);
        self.state = state;
    }

    /// For the harness: an operation sent by `from` arrives.
    pub fn deliver_stream_op(&mut self, from: Pubkey, op: MemStreamOp)
        ensures
            final(self)@ == old(self)@.delivered(from, op@),
    {
        proof {
            use_type_invariant(&*self);
        }
        let mut state = MemState::new();
        std::mem::swap(&mut self.state, &mut state);
        state.deliver_stream_op(from, op);
        self.state = state;
    }

    pub fn is_connected_to(&self, pubkey: &Pubkey) -> (r: bool)
        ensures
            r == self@.established.dom().contains(*pubkey),
    {
        proof {
            use_type_invariant(&*self);
        }
        self.state.established.contains_key(pubkey)
    }

    pub fn connection_addr(&self, pubkey: &Pubkey) -> (r: Option<SocketAddr>)
        ensures
            r == (if self@.established.dom().contains(*pubkey) {
                Some(self@.established[*pubkey])
            } else {
                None
            }),
    {
        proof {
            use_type_invariant(&*self);
        }
        match self.state.established.get(pubkey) {
            Some(addr) => Some(*addr),
            None => None,
        }
    }

    /// The connections in the order of their keys.
    pub fn connections(&self) -> (r: Vec<(Pubkey, SocketAddr)>)
        ensures
            forall|i: int, j: int| 0 <= i < j < r@.len() ==> r@[i].0.rank() < r@[j].0.rank(),
            forall|p: Pubkey, addr: SocketAddr| #[trigger]
                r@.contains((p, addr)) <==> self@.established.dom().contains(p)
                    && self@.established[p] == addr,
    {
        proof {
            use_type_invariant(&*self);
        }
        let map = &self.state.established;
        let mut r: Vec<(Pubkey, SocketAddr)> = Vec::new();
        let n: usize = map.len();
        let mut i: usize = 0;
        while i < n
            invariant
                map.wf(),
                i <= n,
                n == map.entries().len(),
                r@ == map.entries().take(i as int),
            decreases n - i,
        {
            let (p, addr) = map.at(i);
            r.push((*p, *addr));
            assert(r@ =~= map.entries().take(i + 1));
            i += 1;
        }
        proof {
            assert(r@ =~= map.entries());
            assert forall|p: Pubkey, addr: SocketAddr| #[trigger]
                r@.contains((p, addr)) <==> map@.dom().contains(p) && map@[p] == addr by {
                if r@.contains((p, addr)) {
                    map.lemma_entry(r@.index_of((p, addr)));
                }
                if map@.dom().contains(p) && map@[p] == addr {
                    let k = map.index_of(p);
                    assert(r@[k] == (p, addr));
                }
            }
        }
        r
    }

    /// The peers that there is a connection to, in order.
    pub fn connected_peers(&self) -> (r: Vec<Pubkey>)
        ensures
            forall|i: int, j: int| 0 <= i < j < r@.len() ==> r@[i].rank() < r@[j].rank(),
            forall|p: Pubkey| #[trigger] r@.contains(p) <==> self@.established.dom().contains(p),
    {
        let all = self.connections();
        let mut r: Vec<Pubkey> = Vec::new();
        let mut i: usize = 0;
        while i < all.len()
            invariant
                i <= all@.len(),
                r@.len() == i,
                forall|k: int| 0 <= k < i ==> r@[k] == (#[trigger] all@[k]).0,
            decreases all@.len() - i,
        {
            r.push(all[i].0);
            i += 1;
        }
        proof {
            assert forall|i: int, j: int| 0 <= i < j < r@.len() implies r@[i].rank()
                < r@[j].rank() by {
                assert(all@[i].0.rank() < all@[j].0.rank());
            }
            assert forall|p: Pubkey| #[trigger]
                r@.contains(p) <==> self@.established.dom().contains(p) by {
                if r@.contains(p) {
                    let k = r@.index_of(p);
                    assert(all@[k].0 == p);
                    assert(all@.contains((p, all@[k].1)));
                }
                if self@.established.dom().contains(p) {
                    assert(all@.contains((p, self@.established[p])));
                    let k = all@.index_of((p, self@.established[p]));
                    assert(r@[k] == all@[k].0);
                }
            }
        }
        r
    }

    /// Opens a stream to a connected peer.
    pub fn open_stream(&mut self, pubkey: &Pubkey) -> (r: Option<OverlayStreamId>)
        ensures
            ({
                let (handle, after) = old(self)@.opened(*pubkey);
                &&& r == (match handle {
                    Some(handle) => Some(OverlayStreamId(handle)),
                    None => None,
                })
                &&& final(self)@ == after
            }),
    {
        proof {
            use_type_invariant(&*self);
        }
        let mut state = MemState::new();
        std::mem::swap(&mut self.state, &mut state);
        let handle = state.open_stream(*pubkey);
        self.state = state;
        match handle {
            Some(handle) => Some(OverlayStreamId(handle)),
            None => None,
        }
    }

    /// Writes to a stream, unless it is gone or this side has finished it.
    pub fn write_stream<E: OverlayEnv>(&mut self, _env: &mut E, stream: OverlayStreamId, bytes: &[u8]) -> (r: bool)
        ensures
            (r, final(self)@) == old(self)@.written(stream.0, bytes@),
            *final(_env) == *old(_env),
    {
        proof {
            use_type_invariant(&*self);
        }
        let mut state = MemState::new();
        std::mem::swap(&mut self.state, &mut state);
        let written = state.write_stream(stream.0, bytes);
        self.state = state;
        written
    }

    /// Finishes this side of a stream.
    pub fn finish_stream<E: OverlayEnv>(&mut self, _env: &mut E, stream: OverlayStreamId)
        ensures
            final(self)@ == old(self)@.finished(stream.0),
            *final(_env) == *old(_env),
    {
        proof {
            use_type_invariant(&*self);
        }
        let mut state = MemState::new();
        std::mem::swap(&mut self.state, &mut state);
        state.finish_stream(stream.0);
        self.state = state;
    }

    /// Gives a stream up.
    pub fn reset_stream<E: OverlayEnv>(&mut self, _env: &mut E, stream: OverlayStreamId)
        ensures
            final(self)@ == old(self)@.reset(stream.0),
            *final(_env) == *old(_env),
    {
        proof {
            use_type_invariant(&*self);
        }
        let mut state = MemState::new();
        std::mem::swap(&mut self.state, &mut state);
        state.reset_stream(stream.0);
        self.state = state;
    }

    /// Takes the oldest stream event.
    pub fn poll_stream_event(&mut self) -> (r: Option<StreamEvent>)
        ensures
            match r {
                Some(event) => old(self)@.stream_events.len() > 0 && event@
                    == old(self)@.stream_events[0] && final(self)@ == (MemView {
                    stream_events: old(self)@.stream_events.skip(1),
                    ..old(self)@
                }),
                None => old(self)@.stream_events.len() == 0 && final(self)@ == old(self)@,
            },
    {
        proof {
            use_type_invariant(&*self);
        }
        let mut state = MemState::new();
        std::mem::swap(&mut self.state, &mut state);
        let mut event: Option<StreamEvent> = None;
        if state.stream_events.len() > 0 {
            event = Some(state.stream_events.remove(0));
            assert(state@.stream_events =~= old(self)@.stream_events.skip(1));
        }
        self.state = state;
        event
    }

    /// Drops the connection at `addr` from this side.
    pub fn drop_connection<E: OverlayEnv>(&mut self, _env: &mut E, addr: SocketAddr)
        ensures
            final(self)@ == old(self)@.dropped(addr),
            *final(_env) == *old(_env),
    {
        proof {
            use_type_invariant(&*self);
        }
        let mut state = MemState::new();
        std::mem::swap(&mut self.state, &mut state);
        state.drop_connection(addr);
        self.state = state;
    }

    /// Sends to a peer that there is a connection to, and says whether there
    /// is one.
    pub fn queue_datagram_to_peer<E: OverlayEnv>(
        &mut self,
        env: &mut E,
        pubkey: &Pubkey,
        payload: Vec<u8>,
    ) -> (r: bool)
        ensures
            final(self)@ == old(self)@,
            r == old(self)@.established.dom().contains(*pubkey),
            r ==> final(env).seen() == (EnvView {
                sent: old(env).seen().sent.push(
                    (SocketId(0), old(self)@.established[*pubkey], payload@),
                ),
                ..old(env).seen()
            }),
            !r ==> *final(env) == *old(env),
    {
        match self.connection_addr(pubkey) {
            Some(addr) => {
                env.send(SocketId::primary(), addr, &payload);
                true
            },
            None => false,
        }
    }

    /// Sends to the one at `to` if that is `expected`. Where nobody is
    /// connected there, the payload waits for a dial; where another one is, it
    /// is dropped.
    pub fn queue_datagram_expecting<E: OverlayEnv>(
        &mut self,
        env: &mut E,
        to: SocketAddr,
        expected: Pubkey,
        payload: Vec<u8>,
    )
        ensures
            ({
                let connected = old(self)@.by_addr.dom().contains(to);
                let meant = connected && old(self)@.by_addr[to] == expected;
                &&& final(self)@ == (if connected {
                    old(self)@
                } else {
                    old(self)@.waiting(to, expected, payload@)
                })
                &&& meant ==> final(env).seen() == (EnvView {
                    sent: old(env).seen().sent.push((SocketId(0), to, payload@)),
                    ..old(env).seen()
                })
                &&& !meant ==> *final(env) == *old(env)
            }),
    {
        proof {
            use_type_invariant(&*self);
        }
        let at: Option<Pubkey> = match self.state.by_addr.get(&to) {
            Some(pubkey) => Some(*pubkey),
            None => None,
        };
        match at {
            Some(pubkey) => {
                if pubkey == expected {
                    env.send(SocketId::primary(), to, &payload);
                }
            },
            None => {
                let mut state = MemState::new();
                std::mem::swap(&mut self.state, &mut state);
                state.wait_for(to, expected, payload);
                self.state = state;
            },
        }
    }
}

impl OverlayTransport for MemTransport {
    open spec fn takes_outbound(
        &self,
        env: EnvView,
        to: SocketAddr,
        payload: Seq<u8>,
        r: Result<(), QueueError>,
        after: &Self,
        env_after: EnvView,
    ) -> bool {
        &&& r is Ok
        &&& after@ == self@
        &&& env_after == (EnvView { sent: env.sent.push((SocketId(0), to, payload)), ..env })
    }

    open spec fn takes_datagram(
        &self,
        env: EnvView,
        socket: SocketId,
        from: SocketAddr,
        datagram: Seq<u8>,
        after: &Self,
        env_after: EnvView,
    ) -> bool {
        &&& after@ == (MemView { inbound: self@.inbound.push((from, datagram)), ..self@ })
        &&& env_after == env
    }

    open spec fn takes_timer(&self, env: EnvView, after: &Self, env_after: EnvView) -> bool {
        after@ == self@ && env_after == env
    }

    open spec fn is_due(&self, deadline: Option<u64>, after: &Self) -> bool {
        deadline is None && after@ == self@
    }

    open spec fn hands_out(&self, inbound: Seq<(SocketAddr, Vec<u8>)>, after: &Self) -> bool {
        &&& addressed(inbound) == self@.inbound
        &&& after@ == (MemView { inbound: Seq::empty(), ..self@ })
    }

    open spec fn tells(&self, events: Seq<TransportEvent>, after: &Self) -> bool {
        &&& transport_events(events) == self@.events
        &&& after@ == (MemView { events: Seq::empty(), ..self@ })
    }

    /// The harness sets up the connection when it routes a datagram to an
    /// address that has none.
    fn queue_datagram<E: OverlayEnv>(
        &mut self,
        env: &mut E,
        to: SocketAddr,
        payload: Vec<u8>,
    ) -> (r: Result<(), QueueError>)
        ensures
            *final(self) == *old(self),
    {
        env.send(SocketId::primary(), to, &payload);
        Ok(())
    }

    fn on_datagram<E: OverlayEnv>(
        &mut self,
        env: &mut E,
        socket: SocketId,
        from: SocketAddr,
        datagram: &[u8],
    )
        ensures
            final(self)@ == (MemView {
                inbound: old(self)@.inbound.push((from, datagram@)),
                ..old(self)@
            }),
            *final(env) == *old(env),
    {
        proof {
            use_type_invariant(&*self);
        }
        let mut state = MemState::new();
        std::mem::swap(&mut self.state, &mut state);
        let ghost before = state.inbound@;
        let bytes: Vec<u8> = copy_range(datagram, 0, datagram.len());
        assert(bytes@ =~= datagram@);
        state.inbound.push((from, bytes));
        assert(addressed(state.inbound@) =~= addressed(before).push((from, datagram@)));
        self.state = state;
    }

    fn on_timer<E: OverlayEnv>(&mut self, env: &mut E)
        ensures
            *final(self) == *old(self),
            *final(env) == *old(env),
    {
    }

    fn poll_timeout(&mut self) -> (r: Option<u64>)
        ensures
            r is None,
            *final(self) == *old(self),
    {
        None
    }

    fn take_inbound(&mut self) -> (r: Vec<(SocketAddr, Vec<u8>)>)
        ensures
            addressed(r@) == old(self)@.inbound,
            final(self)@ == (MemView { inbound: Seq::empty(), ..old(self)@ }),
    {
        proof {
            use_type_invariant(&*self);
        }
        let mut state = MemState::new();
        std::mem::swap(&mut self.state, &mut state);
        let mut inbound: Vec<(SocketAddr, Vec<u8>)> = Vec::new();
        std::mem::swap(&mut state.inbound, &mut inbound);
        self.state = state;
        assert(self@ =~= (MemView { inbound: Seq::empty(), ..old(self)@ }));
        inbound
    }

    fn take_events(&mut self) -> (r: Vec<TransportEvent>)
        ensures
            transport_events(r@) == old(self)@.events,
            final(self)@ == (MemView { events: Seq::empty(), ..old(self)@ }),
    {
        proof {
            use_type_invariant(&*self);
        }
        let mut state = MemState::new();
        std::mem::swap(&mut self.state, &mut state);
        let mut events: Vec<TransportEvent> = Vec::new();
        std::mem::swap(&mut state.events, &mut events);
        self.state = state;
        assert(self@ =~= (MemView { events: Seq::empty(), ..old(self)@ }));
        events
    }

    fn peer_identity(&self, peer: SocketAddr) -> (r: Option<Pubkey>)
        ensures
            r == (if self@.by_addr.dom().contains(peer) {
                Some(self@.by_addr[peer])
            } else {
                None
            }),
    {
        proof {
            use_type_invariant(&*self);
        }
        match self.state.by_addr.get(&peer) {
            Some(pubkey) => Some(*pubkey),
            None => None,
        }
    }
}

/// A stream that one side opens, writes to and finishes shows on the other
/// side as opened, carrying the same bytes, and finished; it carries bytes
/// back the same way. Once both sides have finished, it is gone on both, and
/// nothing more can be written to it.
pub proof fn law_stream_mirror(
    a: MemView,
    b: MemView,
    key_a: Pubkey,
    key_b: Pubkey,
    there: Seq<u8>,
    back: Seq<u8>,
)
    requires
        a.established.dom().contains(key_b),
        b.established.dom().contains(key_a),
        a.next_stream < u64::MAX,
        b.next_stream < u64::MAX,
        !b.index.dom().contains(
            StreamKey { peer: key_a, seq: a.next_stream, remote_initiated: true },
        ),
    ensures
        ({
            let h = a.next_stream;
            let g = b.next_stream;
            let a1 = a.opened(key_b).1;
            let b1 = b.delivered(key_a, a1.ops.last().1);
            let a2 = a1.written(h, there).1;
            let b2 = b1.delivered(key_a, a2.ops.last().1);
            let a3 = a2.finished(h);
            let b3 = b2.delivered(key_a, a3.ops.last().1);
            let b4 = b3.written(g, back).1;
            let a4 = a3.delivered(key_b, b4.ops.last().1);
            let b5 = b4.finished(g);
            let a5 = a4.delivered(key_b, b5.ops.last().1);
            &&& a.opened(key_b).0 == Some(h)
            &&& a1.ops == a.ops.push(a1.ops.last()) && a1.ops.last().0 == key_b
            &&& b1.stream_events == b.stream_events.push(
                StreamEventView::Opened { stream: g, peer: key_a },
            )
            &&& a1.written(h, there).0
            &&& b2.stream_events == b1.stream_events.push(
                StreamEventView::Data { stream: g, bytes: there },
            )
            &&& b3.stream_events == b2.stream_events.push(StreamEventView::Finished { stream: g })
            &&& b3.written(g, back).0
            &&& b4.ops.last().0 == key_a
            &&& a4.stream_events == a3.stream_events.push(
                StreamEventView::Data { stream: h, bytes: back },
            )
            &&& a5.stream_events == a4.stream_events.push(StreamEventView::Finished { stream: h })
            &&& !a5.streams.dom().contains(h)
            &&& !b5.streams.dom().contains(g)
            &&& !a5.written(h, there).0
            &&& !b5.written(g, back).0
        }),
{
}

/// A stream that one side gives up is gone there, and has failed on the other
/// side.
pub proof fn law_reset_fails(a: MemView, b: MemView, key_a: Pubkey, h: u64, g: u64)
    requires
        a.streams.dom().contains(h),
        b.index.dom().contains(
            StreamKey {
                peer: key_a,
                seq: a.streams[h].seq,
                remote_initiated: !a.streams[h].remote_initiated,
            },
        ),
        b.index[StreamKey {
            peer: key_a,
            seq: a.streams[h].seq,
            remote_initiated: !a.streams[h].remote_initiated,
        }] == g,
    ensures
        ({
            let a1 = a.reset(h);
            let b1 = b.delivered(key_a, a1.ops.last().1);
            &&& !a1.streams.dom().contains(h)
            &&& !b1.streams.dom().contains(g)
            &&& b1.stream_events == b.stream_events.push(StreamEventView::Failed { stream: g })
        }),
{
}

/// A connection that goes down takes every stream over it along: each has
/// failed, and no other is touched.
pub proof fn law_disconnect_fails_streams(a: MemView, pubkey: Pubkey, h: u64)
    requires
        a.wf(),
        a.established.dom().contains(pubkey),
        a.streams.dom().contains(h),
    ensures
        ({
            let after = a.disconnected(pubkey);
            let failed = StreamEventView::Failed { stream: h };
            let told = after.stream_events.skip(a.stream_events.len() as int);
            &&& !after.established.dom().contains(pubkey)
            &&& after.streams.dom().contains(h) == (a.streams[h].peer != pubkey)
            &&& told.contains(failed) == (a.streams[h].peer == pubkey)
        }),
{
    let handles = streams_with(a.streams, pubkey, a.next_stream as nat);
    lemma_streams_with(a.streams, pubkey, a.next_stream as nat);
    let after = a.disconnected(pubkey);
    let told = after.stream_events.skip(a.stream_events.len() as int);
    assert(told =~= failures(handles));
    let failed = StreamEventView::Failed { stream: h };
    if a.streams[h].peer == pubkey {
        assert(handles.contains(h));
        assert(told[handles.index_of(h)] == failed);
    }
    if told.contains(failed) {
        let i = told.index_of(failed);
        assert(handles[i] == h);
        assert(handles.contains(h));
    }
}

/// A payload that waits for a dial reaches only the identity that it was meant
/// for: whoever else answers at the address, it is dropped, and what others
/// wait with there makes no difference to it.
pub proof fn law_expected_identity(
    a: MemView,
    to: SocketAddr,
    expected: Pubkey,
    payload: Seq<u8>,
    answers: Pubkey,
)
    requires
        !a.by_addr.dom().contains(to),
    ensures
        ({
            let before = a.with_connection(answers, to);
            let after = a.waiting(to, expected, payload).with_connection(answers, to);
            &&& after.deferred == (if answers == expected {
                before.deferred.push((to, payload))
            } else {
                before.deferred
            })
            &&& !after.pending.dom().contains(to)
        }),
{
    let before = a.with_connection(answers, to);
    let after = a.waiting(to, expected, payload).with_connection(answers, to);
    let listed = a.waiting_at(to).push((expected, payload));
    assert(listed.drop_last() =~= a.waiting_at(to));
    if answers == expected {
        assert(after.deferred =~= before.deferred.push((to, payload)));
    }
}

/// What is released to an identity is what was addressed to it, no more and no
/// less.
pub proof fn law_released_is_addressed(
    addr: SocketAddr,
    pubkey: Pubkey,
    waiting: Seq<(Pubkey, Seq<u8>)>,
    payload: Seq<u8>,
)
    ensures
        released(addr, pubkey, waiting).contains((addr, payload)) <==> waiting.contains(
            (pubkey, payload),
        ),
    decreases waiting.len(),
{
    if waiting.len() > 0 {
        let rest = waiting.drop_last();
        let before = released(addr, pubkey, rest);
        let all = released(addr, pubkey, waiting);
        law_released_is_addressed(addr, pubkey, rest, payload);
        if waiting.contains((pubkey, payload)) {
            let i = waiting.index_of((pubkey, payload));
            if i < rest.len() {
                assert(rest[i] == (pubkey, payload));
                assert(rest.contains((pubkey, payload)));
                let k = before.index_of((addr, payload));
                assert(all[k] == (addr, payload));
            } else {
                assert(all[before.len() as int] == (addr, payload));
            }
        }
        if all.contains((addr, payload)) {
            let k = all.index_of((addr, payload));
            if k < before.len() {
                assert(before[k] == (addr, payload));
                assert(before.contains((addr, payload)));
                let i = rest.index_of((pubkey, payload));
                assert(waiting[i] == (pubkey, payload));
            } else {
                assert(waiting[rest.len() as int] == (pubkey, payload));
            }
        }
    }
}

/// A connection leads to its peer by its key and by its address, and is told of
/// once; the others stay as they are.
pub proof fn law_connections_are_told_of(
    a: MemView,
    pubkey: Pubkey,
    addr: SocketAddr,
    other: Pubkey,
)
    requires
        !a.by_addr.dom().contains(addr),
        other != pubkey,
    ensures
        ({
            let after = a.with_connection(pubkey, addr);
            let again = after.with_connection(pubkey, addr);
            &&& after.established.dom().contains(pubkey)
            &&& after.established[pubkey] == addr
            &&& after.by_addr.dom().contains(addr)
            &&& after.by_addr[addr] == pubkey
            &&& after.events == a.events.push(
                TransportEventView::Connected { peer: addr, pubkey: Some(pubkey) },
            )
            &&& after.established.dom().contains(other) == a.established.dom().contains(other)
            &&& after.established[other] == a.established[other]
            &&& after.streams == a.streams
            &&& after.ops == a.ops
            &&& again == after
        }),
{
}

/// What waits for a peer is released in its order.
pub proof fn law_released_in_order(
    addr: SocketAddr,
    pubkey: Pubkey,
    waiting: Seq<(Pubkey, Seq<u8>)>,
    i: int,
)
    requires
        forall|k: int| 0 <= k < waiting.len() ==> (#[trigger] waiting[k]).0 == pubkey,
        0 <= i < waiting.len(),
    ensures
        released(addr, pubkey, waiting).len() == waiting.len(),
        released(addr, pubkey, waiting)[i] == (addr, waiting[i].1),
    decreases waiting.len(),
{
    let rest = waiting.drop_last();
    assert forall|k: int| 0 <= k < rest.len() implies (#[trigger] rest[k]).0 == pubkey by {
        assert(waiting[k].0 == pubkey);
    }
    assert(waiting[waiting.len() - 1].0 == pubkey);
    if i < rest.len() {
        law_released_in_order(addr, pubkey, rest, i);
    } else if rest.len() > 0 {
        law_released_in_order(addr, pubkey, rest, i - 1);
    } else {
        assert(released(addr, pubkey, rest).len() == 0);
    }
}

/// A disconnected peer is no longer led to, by its key or its address, and its end
/// is told of; a connection that is dropped at its address goes without a word.
pub proof fn law_disconnected_is_forgotten(a: MemView, pubkey: Pubkey, addr: SocketAddr)
    requires
        a.established.dom().contains(pubkey),
        a.established[pubkey] == addr,
        a.by_addr.dom().contains(addr),
        a.by_addr[addr] == pubkey,
    ensures
        ({
            let after = a.disconnected(pubkey);
            let quiet = a.dropped(addr);
            &&& !after.established.dom().contains(pubkey)
            &&& !after.by_addr.dom().contains(addr)
            &&& after.events.len() == a.events.len() + 1
            &&& after.events.last() is Disconnected
            &&& after.events.last()->Disconnected_peer == addr
            &&& after.opened(pubkey).0 is None
            &&& !quiet.established.dom().contains(pubkey)
            &&& !quiet.by_addr.dom().contains(addr)
            &&& quiet.events == a.events
            &&& quiet.streams == after.streams
            &&& quiet.stream_events == after.stream_events
        }),
{
}

/// A stream that is opened has a number of its own, and what is done on one leaves
/// the others as they are.
pub proof fn law_streams_are_apart(a: MemView, pubkey: Pubkey, bytes: Seq<u8>, h: u64, other: u64)
    requires
        a.wf(),
        a.established.dom().contains(pubkey),
        a.next_stream < u64::MAX,
        a.streams.dom().contains(h),
        a.streams.dom().contains(other),
        h != other,
    ensures
        ({
            let (opened, after) = a.opened(pubkey);
            &&& opened is Some
            &&& !a.streams.dom().contains(opened->0)
            &&& after.streams.dom().contains(opened->0)
            &&& after.streams[opened->0].peer == pubkey
            &&& after.streams.dom().contains(other)
            &&& after.streams[other] == a.streams[other]
            &&& after.opened(pubkey).0 != opened
            &&& a.written(h, bytes).1.streams == a.streams
            &&& a.finished(h).streams.dom().contains(other)
            &&& a.finished(h).streams[other] == a.streams[other]
            &&& a.reset(h).streams.dom().contains(other)
            &&& a.reset(h).streams[other] == a.streams[other]
        }),
{
}

/// A stream that has been finished takes no more, and what is written is sent to
/// its peer as it is.
pub proof fn law_finished_takes_no_more(a: MemView, h: u64, bytes: Seq<u8>)
    requires
        a.streams.dom().contains(h),
        !a.streams[h].fin_sent,
    ensures
        a.written(h, bytes).0,
        a.written(h, bytes).1.ops.len() == a.ops.len() + 1,
        a.written(h, bytes).1.ops.last().0 == a.streams[h].peer,
        a.written(h, bytes).1.ops.last().1.kind == OpKindView::Data(bytes),
        a.written(h, bytes).1.ops.last().1.seq == a.streams[h].seq,
        !a.finished(h).written(h, bytes).0,
        a.finished(h).finished(h) == a.finished(h),
        a.finished(h).ops.len() == a.ops.len() + 1,
        a.finished(h).streams.dom().contains(h) <==> !a.streams[h].fin_recvd,
{
}

/// Datagrams pass through untouched: one to send goes out to where it is for, and
/// one that came is handed out as from where it came, after those before it, once.
pub proof fn law_datagrams_pass_untouched(
    a: MemTransport,
    env: EnvView,
    to: SocketAddr,
    payload: Seq<u8>,
    r: Result<(), QueueError>,
    b: MemTransport,
    env_b: EnvView,
    socket: SocketId,
    from: SocketAddr,
    datagram: Seq<u8>,
    c: MemTransport,
    env_c: EnvView,
    inbound: Seq<(SocketAddr, Vec<u8>)>,
    d: MemTransport,
)
    requires
        a.takes_outbound(env, to, payload, r, &b, env_b),
        b.takes_datagram(env_b, socket, from, datagram, &c, env_c),
        c.hands_out(inbound, &d),
    ensures
        r is Ok,
        env_b.sent == env.sent.push((SocketId(0), to, payload)),
        env_c.sent == env_b.sent,
        inbound.len() == a@.inbound.len() + 1,
        inbound.last().0 == from,
        inbound.last().1@ == datagram,
        forall|i: int|
            0 <= i < a@.inbound.len() ==> (#[trigger] inbound[i]).0 == a@.inbound[i].0
                && inbound[i].1@ == a@.inbound[i].1,
        d@.inbound.len() == 0,
        d@.events == a@.events,
        d@.established == a@.established,
{
    let all = addressed(inbound);
    assert(all == a@.inbound.push((from, datagram)));
    assert(all.len() == inbound.len());
    assert(all.last() == (from, datagram));
    assert forall|i: int| 0 <= i < a@.inbound.len() implies (#[trigger] inbound[i]).0
        == a@.inbound[i].0 && inbound[i].1@ == a@.inbound[i].1 by {
        assert(all[i] == a@.inbound[i]);
    }
}

} // verus!
