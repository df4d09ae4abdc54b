//! What QUIC has to keep to for runs over it to be alike: its ciphertext may
//! differ, since handshakes draw keys by chance, but not its lengths, its times
//! and what it reports. Where the machines of QUIC do, so does the transport
//! that drives them.

use quinn_proto::{ClientConfig, Connection, ConnectionEvent, Endpoint, EndpointEvent, Incoming};
use std::time::Instant;
use vstd::prelude::*;
use crate::addr::SocketAddr;
use crate::ordmap::Rank;
use crate::overlay::env::{EnvView, SocketId};
use crate::overlay::quic::{
    accepts, all_sent, all_transmitted, datagrams_of, dials, due_of, emptied_by,
    endpoint_events_of, events_from, gave_events, gave_frames, gave_out, gave_reports, gives_event,
    gives_frame, gives_out, gives_report, handed_over, hears, identity_of, is_asked_out, is_flush,
    is_last, is_read, is_round, led_to, peers_in_order, received_of, refuses, reports_of, sent_all,
    takes_event, takes_payload, timed_out, transmits_in, transmits_of, transmits_of_all,
    transmitted, Batch, ConnView, OverlayQuicTransport, Polled, QuicArrival, QuicMachine, QuicView,
    ReportView, SendOutcome, TransmitView, MAX_CONNECTIONS,
};
use crate::overlay::service::OverlayCore;
use crate::overlay::sim::likeness::{
    bytes_alike, env_alike, lemma_events_alike, lemma_inbound_alike, sent_alike, Likeness,
};
use crate::overlay::sim::world::{inbound_notes, transport_notes};
use crate::overlay::transport::{OverlayTransport, QueueError, TransportEvent};

verus! {

/// What counts as the same in two runs of QUIC: of its machines, of what they
/// tell each other, and of the bytes that they send.
pub struct QuicLikeness {
    /// What times are counted from in the one run, and in the other.
    pub base: Instant,
    pub other: Instant,
    pub configs: spec_fn(ClientConfig, ClientConfig) -> bool,
    pub conns: spec_fn(Connection, Connection) -> bool,
    pub endpoints: spec_fn(Endpoint, Endpoint) -> bool,
    pub conn_events: spec_fn(ConnectionEvent, ConnectionEvent) -> bool,
    pub endpoint_events: spec_fn(EndpointEvent, EndpointEvent) -> bool,
    pub incomings: spec_fn(Incoming, Incoming) -> bool,
    pub bytes: spec_fn(Seq<u8>, Seq<u8>) -> bool,
}

/// Transmissions to one address, in datagrams that are alike.
pub open spec fn transmit_alike(
    bytes: spec_fn(Seq<u8>, Seq<u8>) -> bool,
    a: TransmitView,
    b: TransmitView,
) -> bool {
    let x = datagrams_of(a.bytes, a.segment_size);
    let y = datagrams_of(b.bytes, b.segment_size);
    &&& a.destination == b.destination
    &&& x.len() == y.len()
    &&& forall|i: int| 0 <= i < x.len() ==> bytes_alike(bytes, #[trigger] x[i], y[i])
}

pub open spec fn maybe_alike(
    bytes: spec_fn(Seq<u8>, Seq<u8>) -> bool,
    a: Option<TransmitView>,
    b: Option<TransmitView>,
) -> bool {
    match (a, b) {
        (Some(x), Some(y)) => transmit_alike(bytes, x, y),
        (None, None) => true,
        _ => false,
    }
}

pub open spec fn transmits_alike(
    bytes: spec_fn(Seq<u8>, Seq<u8>) -> bool,
    a: Seq<TransmitView>,
    b: Seq<TransmitView>,
) -> bool {
    &&& a.len() == b.len()
    &&& forall|i: int| 0 <= i < a.len() ==> transmit_alike(bytes, #[trigger] a[i], b[i])
}

impl QuicLikeness {
    pub open spec fn events(
        self,
        a: Seq<(usize, EndpointEvent)>,
        b: Seq<(usize, EndpointEvent)>,
    ) -> bool {
        &&& a.len() == b.len()
        &&& forall|i: int|
            0 <= i < a.len() ==> (#[trigger] a[i]).0 == b[i].0 && (self.endpoint_events)(
                a[i].1,
                b[i].1,
            )
    }

    pub open spec fn arrivals(self, a: Option<QuicArrival>, b: Option<QuicArrival>) -> bool {
        match (a, b) {
            (
                Some(QuicArrival::ToConnection(m, x)),
                Some(QuicArrival::ToConnection(n, y)),
            ) => m == n && (self.conn_events)(x, y),
            (Some(QuicArrival::NewConnection(x)), Some(QuicArrival::NewConnection(y))) => (
            self.incomings)(x, y),
            (Some(QuicArrival::Response(x)), Some(QuicArrival::Response(y))) => transmit_alike(
                self.bytes,
                x@,
                y@,
            ),
            (None, None) => true,
            _ => false,
        }
    }

    pub open spec fn answers(self, a: Option<ConnectionEvent>, b: Option<ConnectionEvent>) -> bool {
        match (a, b) {
            (Some(x), Some(y)) => (self.conn_events)(x, y),
            (None, None) => true,
            _ => false,
        }
    }

    pub open spec fn dialings(
        self,
        a: Option<(usize, Connection)>,
        b: Option<(usize, Connection)>,
    ) -> bool {
        match (a, b) {
            (Some((m, x)), Some((n, y))) => m == n && (self.conns)(x, y),
            (None, None) => true,
            _ => false,
        }
    }

    pub open spec fn acceptances(
        self,
        a: Result<(usize, Connection), Option<TransmitView>>,
        b: Result<(usize, Connection), Option<TransmitView>>,
    ) -> bool {
        match (a, b) {
            (Ok((m, x)), Ok((n, y))) => m == n && (self.conns)(x, y),
            (Err(x), Err(y)) => maybe_alike(self.bytes, x, y),
            _ => false,
        }
    }

    /// Connections that are alike report the same, have alike events for their
    /// endpoints, hold the same datagrams, and have the same timers and peers.
    #[verifier::opaque]
    pub open spec fn shows_alike(self) -> bool {
        forall|a: Connection, b: Connection|
            #![trigger (self.conns)(a, b)]
            (self.conns)(a, b) ==> {
                &&& reports_of(a) == reports_of(b)
                &&& received_of(a) == received_of(b)
                &&& identity_of(a) == identity_of(b)
                &&& endpoint_events_of(a).len() == endpoint_events_of(b).len()
                &&& forall|i: int|
                    0 <= i < endpoint_events_of(a).len() ==> (self.endpoint_events)(
                        #[trigger] endpoint_events_of(a)[i],
                        endpoint_events_of(b)[i],
                    )
                &&& due_of(a, self.base) == due_of(b, self.other)
                &&& forall|now: u64|
                    (self.conns)(
                        #[trigger] timed_out(a, self.base, now),
                        timed_out(b, self.other, now),
                    )
            }
    }

    /// Connections that are alike stay alike as they are read, asked and told.
    #[verifier::opaque]
    pub open spec fn conns_keep(self) -> bool {
        &&& forall|
            a: Connection,
            b: Connection,
            p: Seq<u8>,
            r1: SendOutcome,
            r2: SendOutcome,
            a1: Connection,
            b1: Connection,
        |
            #![trigger takes_payload(a, p, r1, a1), takes_payload(b, p, r2, b1)]
            (self.conns)(a, b) && takes_payload(a, p, r1, a1) && takes_payload(b, p, r2, b1)
                ==> (self.conns)(a1, b1)
        &&& forall|a: Connection, b: Connection, x: Option<ReportView>, a1: Connection, b1: Connection|
            #![trigger gives_report(a, x, a1), gives_report(b, x, b1)]
            (self.conns)(a, b) && gives_report(a, x, a1) && gives_report(b, x, b1) ==> (
            self.conns)(a1, b1)
        &&& forall|
            a: Connection,
            b: Connection,
            x: Option<EndpointEvent>,
            y: Option<EndpointEvent>,
            a1: Connection,
            b1: Connection,
        |
            #![trigger gives_event(a, x, a1), gives_event(b, y, b1)]
            (self.conns)(a, b) && x is Some == y is Some && gives_event(a, x, a1) && gives_event(
                b,
                y,
                b1,
            ) ==> (self.conns)(a1, b1)
        &&& forall|a: Connection, b: Connection, x: Option<Seq<u8>>, a1: Connection, b1: Connection|
            #![trigger gives_frame(a, x, a1), gives_frame(b, x, b1)]
            (self.conns)(a, b) && gives_frame(a, x, a1) && gives_frame(b, x, b1) ==> (self.conns)(
                a1,
                b1,
            )
        &&& forall|
            a: Connection,
            b: Connection,
            now: u64,
            x: Option<TransmitView>,
            y: Option<TransmitView>,
            a1: Connection,
            b1: Connection,
        |
            #![trigger gives_out(a, self.base, now, x, a1), gives_out(b, self.other, now, y, b1)]
            (self.conns)(a, b) && gives_out(a, self.base, now, x, a1) && gives_out(
                b,
                self.other,
                now,
                y,
                b1,
            ) ==> maybe_alike(self.bytes, x, y) && (self.conns)(a1, b1)
        &&& forall|
            a: Connection,
            b: Connection,
            x: ConnectionEvent,
            y: ConnectionEvent,
            a1: Connection,
            b1: Connection,
        |
            #![trigger takes_event(a, x, a1), takes_event(b, y, b1)]
            (self.conns)(a, b) && (self.conn_events)(x, y) && takes_event(a, x, a1) && takes_event(
                b,
                y,
                b1,
            ) ==> (self.conns)(a1, b1)
    }

    /// Endpoints that are alike stay alike, and give alike answers.
    #[verifier::opaque]
    pub open spec fn endpoints_keep(self) -> bool {
        &&& forall|x: EndpointEvent, y: EndpointEvent|
            #![trigger (self.endpoint_events)(x, y)]
            (self.endpoint_events)(x, y) ==> is_last(x) == is_last(y)
        &&& forall|
            a: Endpoint,
            b: Endpoint,
            n: usize,
            x: EndpointEvent,
            y: EndpointEvent,
            r1: Option<ConnectionEvent>,
            r2: Option<ConnectionEvent>,
            a1: Endpoint,
            b1: Endpoint,
        |
            #![trigger hears(a, n, x, r1, a1), hears(b, n, y, r2, b1)]
            (self.endpoints)(a, b) && (self.endpoint_events)(x, y) && hears(a, n, x, r1, a1)
                && hears(b, n, y, r2, b1) ==> self.answers(r1, r2) && (self.endpoints)(a1, b1)
        &&& forall|
            a: Endpoint,
            b: Endpoint,
            now: u64,
            c1: ClientConfig,
            c2: ClientConfig,
            peer: SocketAddr,
            name: Seq<char>,
            r1: Option<(usize, Connection)>,
            r2: Option<(usize, Connection)>,
            a1: Endpoint,
            b1: Endpoint,
        |
            #![trigger dials(a, self.base, now, c1, peer, name, r1, a1), dials(b, self.other, now, c2, peer, name, r2, b1)]
            (self.endpoints)(a, b) && (self.configs)(c1, c2) && dials(
                a,
                self.base,
                now,
                c1,
                peer,
                name,
                r1,
                a1,
            ) && dials(b, self.other, now, c2, peer, name, r2, b1) ==> self.dialings(r1, r2) && (self.endpoints)(a1, b1)
        &&& forall|
            a: Endpoint,
            b: Endpoint,
            now: u64,
            from: SocketAddr,
            d1: Seq<u8>,
            d2: Seq<u8>,
            r1: Option<QuicArrival>,
            r2: Option<QuicArrival>,
            a1: Endpoint,
            b1: Endpoint,
        |
            #![trigger led_to(a, self.base, now, from, d1, r1, a1), led_to(b, self.other, now, from, d2, r2, b1)]
            (self.endpoints)(a, b) && bytes_alike(self.bytes, d1, d2) && led_to(
                a,
                self.base,
                now,
                from,
                d1,
                r1,
                a1,
            ) && led_to(b, self.other, now, from, d2, r2, b1) ==> self.arrivals(r1, r2) && (
            self.endpoints)(a1, b1)
        &&& forall|
            a: Endpoint,
            b: Endpoint,
            x: Incoming,
            y: Incoming,
            r1: TransmitView,
            r2: TransmitView,
            a1: Endpoint,
            b1: Endpoint,
        |
            #![trigger refuses(a, x, r1, a1), refuses(b, y, r2, b1)]
            (self.endpoints)(a, b) && (self.incomings)(x, y) && refuses(a, x, r1, a1) && refuses(
                b,
                y,
                r2,
                b1,
            ) ==> transmit_alike(self.bytes, r1, r2) && (self.endpoints)(a1, b1)
        &&& forall|
            a: Endpoint,
            b: Endpoint,
            now: u64,
            x: Incoming,
            y: Incoming,
            r1: Result<(usize, Connection), Option<TransmitView>>,
            r2: Result<(usize, Connection), Option<TransmitView>>,
            a1: Endpoint,
            b1: Endpoint,
        |
            #![trigger accepts(a, self.base, now, x, r1, a1), accepts(b, self.other, now, y, r2, b1)]
            (self.endpoints)(a, b) && (self.incomings)(x, y) && accepts(
                a,
                self.base,
                now,
                x,
                r1,
                a1,
            ) && accepts(b, self.other, now, y, r2, b1) ==> self.acceptances(r1, r2) && (
            self.endpoints)(a1, b1)
    }

    /// The machines of QUIC keep to the likeness.
    pub open spec fn is_kept(self) -> bool {
        self.shows_alike() && self.conns_keep() && self.endpoints_keep()
    }

    pub open spec fn conn_views(self, a: ConnView, b: ConnView) -> bool {
        a == (ConnView { conn: a.conn, ..b }) && (self.conns)(a.conn, b.conn)
    }

    pub open spec fn views(self, a: QuicView, b: QuicView) -> bool {
        &&& a == (QuicView { connections: a.connections, ..b })
        &&& a.connections.dom() == b.connections.dom()
        &&& forall|peer: SocketAddr| #[trigger]
            a.connections.dom().contains(peer) ==> self.conn_views(
                a.connections[peer],
                b.connections[peer],
            )
    }

    pub open spec fn machines(self, a: QuicMachine, b: QuicMachine) -> bool {
        self.views(a.view, b.view) && (self.endpoints)(a.endpoint, b.endpoint)
    }

    /// Transports that are whole and on one socket, that count from the start of
    /// their run, with machines that are alike.
    pub open spec fn transports(self, a: OverlayQuicTransport, b: OverlayQuicTransport) -> bool {
        &&& a.is_whole()
        &&& b.is_whole()
        &&& a.on_socket() == b.on_socket()
        &&& a.base() == self.base
        &&& b.base() == self.other
        &&& (self.configs)(a.config(), b.config())
        &&& self.machines(a.machine(), b.machine())
    }
}

proof fn lemma_handed_over(
    l: QuicLikeness,
    a: Connection,
    b: Connection,
    payloads: Seq<Seq<u8>>,
    one: Connection,
    other: Connection,
)
    requires
        l.is_kept(),
        (l.conns)(a, b),
        handed_over(a, payloads, one),
        handed_over(b, payloads, other),
    ensures
        (l.conns)(one, other),
    decreases payloads.len(),
{
    if payloads.len() > 0 {
        let (m1, r1) = choose|mid: Connection, r: SendOutcome|
            handed_over(a, payloads.drop_last(), mid) && #[trigger] takes_payload(
                mid,
                payloads.last(),
                r,
                one,
            ) && r != SendOutcome::Blocked;
        let (m2, r2) = choose|mid: Connection, r: SendOutcome|
            handed_over(b, payloads.drop_last(), mid) && #[trigger] takes_payload(
                mid,
                payloads.last(),
                r,
                other,
            ) && r != SendOutcome::Blocked;
        lemma_handed_over(l, a, b, payloads.drop_last(), m1, m2);
        reveal(QuicLikeness::conns_keep);
    }
}

proof fn lemma_gave_reports(
    l: QuicLikeness,
    a: Connection,
    b: Connection,
    list: Seq<ReportView>,
    one: Connection,
    other: Connection,
)
    requires
        l.is_kept(),
        (l.conns)(a, b),
        gave_reports(a, list, one),
        gave_reports(b, list, other),
    ensures
        (l.conns)(one, other),
    decreases list.len(),
{
    if list.len() > 0 {
        let m1 = choose|mid: Connection|
            gave_reports(a, list.drop_last(), mid) && #[trigger] gives_report(
                mid,
                Some(list.last()),
                one,
            );
        let m2 = choose|mid: Connection|
            gave_reports(b, list.drop_last(), mid) && #[trigger] gives_report(
                mid,
                Some(list.last()),
                other,
            );
        lemma_gave_reports(l, a, b, list.drop_last(), m1, m2);
        reveal(QuicLikeness::conns_keep);
    }
}

proof fn lemma_gave_events(
    l: QuicLikeness,
    a: Connection,
    b: Connection,
    x: Seq<EndpointEvent>,
    y: Seq<EndpointEvent>,
    one: Connection,
    other: Connection,
)
    requires
        l.is_kept(),
        (l.conns)(a, b),
        x.len() == y.len(),
        gave_events(a, x, one),
        gave_events(b, y, other),
    ensures
        (l.conns)(one, other),
    decreases x.len(),
{
    if x.len() > 0 {
        let m1 = choose|mid: Connection|
            gave_events(a, x.drop_last(), mid) && #[trigger] gives_event(mid, Some(x.last()), one);
        let m2 = choose|mid: Connection|
            gave_events(b, y.drop_last(), mid) && #[trigger] gives_event(
                mid,
                Some(y.last()),
                other,
            );
        lemma_gave_events(l, a, b, x.drop_last(), y.drop_last(), m1, m2);
        reveal(QuicLikeness::conns_keep);
    }
}

proof fn lemma_gave_frames(
    l: QuicLikeness,
    a: Connection,
    b: Connection,
    list: Seq<Seq<u8>>,
    one: Connection,
    other: Connection,
)
    requires
        l.is_kept(),
        (l.conns)(a, b),
        gave_frames(a, list, one),
        gave_frames(b, list, other),
    ensures
        (l.conns)(one, other),
    decreases list.len(),
{
    if list.len() > 0 {
        let m1 = choose|mid: Connection|
            gave_frames(a, list.drop_last(), mid) && #[trigger] gives_frame(
                mid,
                Some(list.last()),
                one,
            );
        let m2 = choose|mid: Connection|
            gave_frames(b, list.drop_last(), mid) && #[trigger] gives_frame(
                mid,
                Some(list.last()),
                other,
            );
        lemma_gave_frames(l, a, b, list.drop_last(), m1, m2);
        reveal(QuicLikeness::conns_keep);
    }
}

/// One connection changes alike on both sides.
proof fn lemma_with_connection(
    l: QuicLikeness,
    a: QuicView,
    b: QuicView,
    peer: SocketAddr,
    x: ConnView,
    y: ConnView,
)
    requires
        l.views(a, b),
        l.conn_views(x, y),
    ensures
        l.views(a.with_connection(peer, x), b.with_connection(peer, y)),
{
    let one = a.with_connection(peer, x);
    let other = b.with_connection(peer, y);
    assert(one.connections.dom() =~= other.connections.dom());
}

proof fn lemma_flushes(
    l: QuicLikeness,
    a: QuicView,
    b: QuicView,
    peer: SocketAddr,
    one: QuicView,
    other: QuicView,
)
    requires
        l.is_kept(),
        l.views(a, b),
        a.connections.dom().contains(peer),
        a.flushes_to(peer, one),
        b.flushes_to(peer, other),
    ensures
        l.views(one, other),
        one.connections.dom() == a.connections.dom(),
{
    let x = a.connections[peer];
    let y = b.connections[peer];
    assert(l.conn_views(x, y));
    if x.established {
        lemma_handed_over(
            l,
            x.conn,
            y.conn,
            x.pending,
            one.connections[peer].conn,
            other.connections[peer].conn,
        );
    }
    lemma_with_connection(l, a, b, peer, one.connections[peer], other.connections[peer]);
    assert(one.connections.dom() =~= a.connections.dom());
}

proof fn lemma_polled(
    l: QuicLikeness,
    a: QuicView,
    b: QuicView,
    peer: SocketAddr,
    r1: Seq<ReportView>,
    e1: Seq<EndpointEvent>,
    one: QuicView,
    r2: Seq<ReportView>,
    e2: Seq<EndpointEvent>,
    other: QuicView,
)
    requires
        l.is_kept(),
        l.views(a, b),
        a.connections.dom().contains(peer),
        a.polled(peer, r1, e1, one),
        b.polled(peer, r2, e2, other),
    ensures
        l.views(one, other),
        one.connections.dom() == a.connections.dom(),
        r1 == r2,
        e1.len() == e2.len(),
        forall|i: int| 0 <= i < e1.len() ==> (l.endpoint_events)(#[trigger] e1[i], e2[i]),
{
    let f1 = choose|flushed: QuicView| #[trigger] a.polled_by(peer, flushed, r1, e1, one);
    let f2 = choose|flushed: QuicView| #[trigger] b.polled_by(peer, flushed, r2, e2, other);
    lemma_flushes(l, a, b, peer, f1, f2);
    let c1 = f1.connections[peer].conn;
    let c2 = f2.connections[peer].conn;
    assert(f1.connections.dom().contains(peer));
    assert(l.conn_views(f1.connections[peer], f2.connections[peer]));
    assert((l.conns)(c1, c2));
    assert(r1 == r2 && e1.len() == e2.len()) by {
        reveal(QuicLikeness::shows_alike);
    }
    assert forall|i: int| 0 <= i < e1.len() implies (l.endpoint_events)(
        #[trigger] e1[i],
        e2[i],
    ) by {
        reveal(QuicLikeness::shows_alike);
        assert(endpoint_events_of(c1)[i] == e1[i]);
    }
    let (t1, q1, s1) = choose|told: Connection, quiet: Connection, raised: Connection| #[trigger]
        emptied_by(c1, r1, told, quiet, e1, raised, one.connections[peer].conn);
    let (t2, q2, s2) = choose|told: Connection, quiet: Connection, raised: Connection| #[trigger]
        emptied_by(c2, r2, told, quiet, e2, raised, other.connections[peer].conn);
    lemma_gave_reports(l, c1, c2, r1, t1, t2);
    assert((l.conns)(q1, q2)) by {
        reveal(QuicLikeness::conns_keep);
    }
    lemma_gave_events(l, q1, q2, e1, e2, s1, s2);
    assert((l.conns)(one.connections[peer].conn, other.connections[peer].conn)) by {
        reveal(QuicLikeness::conns_keep);
    }
    lemma_with_connection(l, f1, f2, peer, one.connections[peer], other.connections[peer]);
    assert(one.connections.dom() =~= a.connections.dom());
}

proof fn lemma_all_polled(
    l: QuicLikeness,
    a: QuicView,
    b: QuicView,
    peers: Seq<SocketAddr>,
    p1: Polled,
    one: QuicView,
    p2: Polled,
    other: QuicView,
)
    requires
        l.is_kept(),
        l.views(a, b),
        forall|i: int| 0 <= i < peers.len() ==> a.connections.dom().contains(#[trigger] peers[i]),
        a.all_polled(peers, p1, one),
        b.all_polled(peers, p2, other),
    ensures
        l.views(one, other),
        one.connections.dom() == a.connections.dom(),
        p1.reports == p2.reports,
        l.events(p1.events, p2.events),
    decreases peers.len(),
{
    if peers.len() == 0 {
        assert(p1.reports =~= p2.reports);
    } else {
        let rest = peers.drop_last();
        let (m1, h1, more1) = choose|
            mid: QuicView,
            had: Polled,
            more: (Seq<ReportView>, Seq<EndpointEvent>),
        |
            a.all_polled(rest, had, mid) && #[trigger] mid.polled_next(
                peers.last(),
                had,
                more,
                p1,
                one,
            );
        let (m2, h2, more2) = choose|
            mid: QuicView,
            had: Polled,
            more: (Seq<ReportView>, Seq<EndpointEvent>),
        |
            b.all_polled(rest, had, mid) && #[trigger] mid.polled_next(
                peers.last(),
                had,
                more,
                p2,
                other,
            );
        assert forall|i: int| 0 <= i < rest.len() implies a.connections.dom().contains(
            #[trigger] rest[i],
        ) by {
            assert(rest[i] == peers[i]);
        }
        lemma_all_polled(l, a, b, rest, h1, m1, h2, m2);
        assert(a.connections.dom().contains(peers[peers.len() - 1]));
        lemma_polled(
            l,
            m1,
            m2,
            peers.last(),
            more1.0,
            more1.1,
            one,
            more2.0,
            more2.1,
            other,
        );
        assert(l.conn_views(m1.connections[peers.last()], m2.connections[peers.last()]));
        let handle = m1.connections[peers.last()].handle;
        assert forall|i: int| 0 <= i < p1.events.len() implies (#[trigger] p1.events[i]).0
            == p2.events[i].0 && (l.endpoint_events)(p1.events[i].1, p2.events[i].1) by {
            if i < h1.events.len() {
                assert(p1.events[i] == h1.events[i]);
                assert(p2.events[i] == h2.events[i]);
            } else {
                let k = i - h1.events.len();
                assert(p1.events[i] == events_from(handle, more1.1)[k]);
                assert(p2.events[i] == events_from(handle, more2.1)[k]);
                assert((l.endpoint_events)(more1.1[k], more2.1[k]));
            }
        }
    }
}

proof fn lemma_received(
    l: QuicLikeness,
    a: QuicView,
    b: QuicView,
    peer: SocketAddr,
    frames: Seq<Seq<u8>>,
)
    requires
        l.views(a, b),
    ensures
        l.views(a.received(peer, frames), b.received(peer, frames)),
        a.received(peer, frames).connections == a.connections,
        b.received(peer, frames).connections == b.connections,
    decreases frames.len(),
{
    if frames.len() > 0 {
        lemma_received(l, a, b, peer, frames.drop_last());
    }
}

proof fn lemma_event_seen(
    l: QuicLikeness,
    a: QuicView,
    b: QuicView,
    peer: SocketAddr,
    report: ReportView,
    one: QuicView,
    other: QuicView,
)
    requires
        l.is_kept(),
        l.views(a, b),
        a.event_seen(peer, report, one),
        b.event_seen(peer, report, other),
    ensures
        l.views(one, other),
{
    if a.connections.dom().contains(peer) {
        let x = a.connections[peer];
        let y = b.connections[peer];
        assert(l.conn_views(x, y));
        assert((l.conns)(x.conn, y.conn));
        assert(identity_of(x.conn) == identity_of(y.conn) && received_of(x.conn) == received_of(
            y.conn,
        )) by {
            reveal(QuicLikeness::shows_alike);
        }
        match report {
            ReportView::HandshakeDataReady => {
                lemma_with_connection(l, a, b, peer, one.connections[peer], other.connections[peer]);
            },
            ReportView::Connected => {
                let up1 = a.connected(peer);
                let up2 = b.connected(peer);
                lemma_with_connection(l, a, b, peer, up1.connections[peer], up2.connections[peer]);
                assert(up1.connections == a.with_connection(
                    peer,
                    up1.connections[peer],
                ).connections);
                assert(up2.connections == b.with_connection(
                    peer,
                    up2.connections[peer],
                ).connections);
                assert(l.views(up1, up2));
                lemma_flushes(l, up1, up2, peer, one, other);
            },
            ReportView::DatagramReceived => {
                let frames = received_of(x.conn);
                let c1 = choose|conn: Connection|
                    {
                        &&& (#[trigger] received_of(conn)).len() == 0
                        &&& is_read(x.conn, frames, conn)
                        &&& one == a.with_conn(peer, conn).received(peer, frames)
                    };
                let c2 = choose|conn: Connection|
                    {
                        &&& (#[trigger] received_of(conn)).len() == 0
                        &&& is_read(y.conn, frames, conn)
                        &&& other == b.with_conn(peer, conn).received(peer, frames)
                    };
                let r1 = choose|read: Connection| #[trigger]
                    gives_frame(read, None, c1) && gave_frames(x.conn, frames, read);
                let r2 = choose|read: Connection| #[trigger]
                    gives_frame(read, None, c2) && gave_frames(y.conn, frames, read);
                lemma_gave_frames(l, x.conn, y.conn, frames, r1, r2);
                assert((l.conns)(c1, c2)) by {
                    reveal(QuicLikeness::conns_keep);
                }
                lemma_with_connection(
                    l,
                    a,
                    b,
                    peer,
                    ConnView { conn: c1, ..x },
                    ConnView { conn: c2, ..y },
                );
                lemma_received(l, a.with_conn(peer, c1), b.with_conn(peer, c2), peer, frames);
            },
            ReportView::DatagramsUnblocked => {
                lemma_flushes(l, a, b, peer, one, other);
            },
            ReportView::ConnectionLost { reason } => {
                assert(one.connections.dom() =~= other.connections.dom());
                assert forall|p: SocketAddr| #[trigger]
                    one.connections.dom().contains(p) implies l.conn_views(
                    one.connections[p],
                    other.connections[p],
                ) by {
                    assert(a.connections.dom().contains(p));
                }
            },
            ReportView::Stream => {},
        }
    }
}

proof fn lemma_all_seen(
    l: QuicLikeness,
    a: QuicView,
    b: QuicView,
    reports: Seq<(SocketAddr, ReportView)>,
    one: QuicView,
    other: QuicView,
)
    requires
        l.is_kept(),
        l.views(a, b),
        a.all_seen(reports, one),
        b.all_seen(reports, other),
    ensures
        l.views(one, other),
    decreases reports.len(),
{
    if reports.len() > 0 {
        let m1 = choose|mid: QuicView|
            a.all_seen(reports.drop_last(), mid) && #[trigger] mid.event_seen(
                reports.last().0,
                reports.last().1,
                one,
            );
        let m2 = choose|mid: QuicView|
            b.all_seen(reports.drop_last(), mid) && #[trigger] mid.event_seen(
                reports.last().0,
                reports.last().1,
                other,
            );
        lemma_all_seen(l, a, b, reports.drop_last(), m1, m2);
        lemma_event_seen(l, m1, m2, reports.last().0, reports.last().1, one, other);
    }
}

proof fn lemma_told(
    l: QuicLikeness,
    a: QuicView,
    b: QuicView,
    handle: usize,
    x: ConnectionEvent,
    y: ConnectionEvent,
    one: QuicView,
    other: QuicView,
)
    requires
        l.is_kept(),
        l.views(a, b),
        (l.conn_events)(x, y),
        a.told(handle, x, one),
        b.told(handle, y, other),
    ensures
        l.views(one, other),
{
    let peer = a.handles[handle as u64];
    if a.handles.dom().contains(handle as u64) && a.connections.dom().contains(peer) {
        assert(l.conn_views(a.connections[peer], b.connections[peer]));
        let c1 = one.connections[peer].conn;
        let c2 = other.connections[peer].conn;
        assert((l.conns)(c1, c2)) by {
            reveal(QuicLikeness::conns_keep);
        }
        lemma_with_connection(
            l,
            a,
            b,
            peer,
            ConnView { conn: c1, ..a.connections[peer] },
            ConnView { conn: c2, ..b.connections[peer] },
        );
    }
}

proof fn lemma_all_heard(
    l: QuicLikeness,
    a: QuicMachine,
    b: QuicMachine,
    x: Seq<(usize, EndpointEvent)>,
    y: Seq<(usize, EndpointEvent)>,
    one: QuicMachine,
    other: QuicMachine,
)
    requires
        l.is_kept(),
        l.machines(a, b),
        l.events(x, y),
        a.all_heard(x, one),
        b.all_heard(y, other),
    ensures
        l.machines(one, other),
    decreases x.len(),
{
    if x.len() > 0 {
        let m1 = choose|mid: QuicMachine|
            a.all_heard(x.drop_last(), mid) && #[trigger] mid.heard(x.last(), one);
        let m2 = choose|mid: QuicMachine|
            b.all_heard(y.drop_last(), mid) && #[trigger] mid.heard(y.last(), other);
        assert forall|i: int| 0 <= i < x.len() - 1 implies (#[trigger] x.drop_last()[i]).0
            == y.drop_last()[i].0 && (l.endpoint_events)(
            x.drop_last()[i].1,
            y.drop_last()[i].1,
        ) by {
            assert(x[i].0 == y[i].0);
        }
        lemma_all_heard(l, a, b, x.drop_last(), y.drop_last(), m1, m2);
        let (handle, e1) = x[x.len() - 1];
        let (handle2, e2) = y[y.len() - 1];
        assert(x[x.len() - 1].0 == y[x.len() - 1].0);
        assert(handle == handle2 && (l.endpoint_events)(e1, e2));
        if m1.view.live.contains(handle as u64) {
            let r1 = choose|answer: Option<ConnectionEvent>| #[trigger]
                m1.heard_by(x.last().0, x.last().1, answer, one);
            let r2 = choose|answer: Option<ConnectionEvent>| #[trigger]
                m2.heard_by(y.last().0, y.last().1, answer, other);
            assert(l.answers(r1, r2) && (l.endpoints)(one.endpoint, other.endpoint) && is_last(e1)
                == is_last(e2)) by {
                reveal(QuicLikeness::endpoints_keep);
            }
            let f1 = m1.view.freed(handle, e1);
            let f2 = m2.view.freed(handle, e2);
            assert(l.views(f1, f2)) by {
                assert forall|p: SocketAddr| #[trigger]
                    f1.connections.dom().contains(p) implies l.conn_views(
                    f1.connections[p],
                    f2.connections[p],
                ) by {
                    assert(m1.view.connections.dom().contains(p));
                }
            }
            if let Some(event) = r1 {
                lemma_told(l, f1, f2, handle, event, r2->0, one.view, other.view);
            }
        }
    }
}

proof fn lemma_gave_out(
    l: QuicLikeness,
    a: Connection,
    b: Connection,
    now: u64,
    x: Seq<Option<TransmitView>>,
    y: Seq<Option<TransmitView>>,
    one: Connection,
    other: Connection,
)
    requires
        l.is_kept(),
        (l.conns)(a, b),
        x.len() == y.len(),
        gave_out(a, l.base, now, x, one),
        gave_out(b, l.other, now, y, other),
    ensures
        (l.conns)(one, other),
        forall|i: int| 0 <= i < x.len() ==> maybe_alike(l.bytes, #[trigger] x[i], y[i]),
        transmits_alike(l.bytes, transmits_in(x), transmits_in(y)),
    decreases x.len(),
{
    if x.len() > 0 {
        let m1 = choose|mid: Connection|
            gave_out(a, l.base, now, x.drop_last(), mid) && #[trigger] gives_out(
                mid,
                l.base,
                now,
                x.last(),
                one,
            );
        let m2 = choose|mid: Connection|
            gave_out(b, l.other, now, y.drop_last(), mid) && #[trigger] gives_out(
                mid,
                l.other,
                now,
                y.last(),
                other,
            );
        lemma_gave_out(l, a, b, now, x.drop_last(), y.drop_last(), m1, m2);
        assert((l.conns)(one, other) && maybe_alike(l.bytes, x.last(), y.last())) by {
            reveal(QuicLikeness::conns_keep);
        }
        assert forall|i: int| 0 <= i < x.len() implies maybe_alike(
            l.bytes,
            #[trigger] x[i],
            y[i],
        ) by {
            if i < x.len() - 1 {
                assert(maybe_alike(l.bytes, x.drop_last()[i], y.drop_last()[i]));
            }
        }
    }
}

/// What a connection gave first.
proof fn lemma_gave_first(
    a: Connection,
    base: Instant,
    now: u64,
    x: Seq<Option<TransmitView>>,
    one: Connection,
    n: int,
)
    requires
        0 <= n <= x.len(),
        gave_out(a, base, now, x, one),
    ensures
        exists|mid: Connection| #[trigger] gave_out(a, base, now, x.take(n), mid),
    decreases x.len(),
{
    if n == x.len() {
        assert(x.take(n) =~= x);
        assert(gave_out(a, base, now, x.take(n), one));
    } else {
        let m = choose|mid: Connection|
            gave_out(a, base, now, x.drop_last(), mid) && #[trigger] gives_out(
                mid,
                base,
                now,
                x.last(),
                one,
            );
        lemma_gave_first(a, base, now, x.drop_last(), m, n);
        assert(x.drop_last().take(n) =~= x.take(n));
    }
}

/// Connections that are alike are asked equally often.
proof fn lemma_asked_out(
    l: QuicLikeness,
    a: Connection,
    b: Connection,
    now: u64,
    x: Seq<Option<TransmitView>>,
    y: Seq<Option<TransmitView>>,
    one: Connection,
    other: Connection,
)
    requires
        l.is_kept(),
        (l.conns)(a, b),
        is_asked_out(x),
        is_asked_out(y),
        gave_out(a, l.base, now, x, one),
        gave_out(b, l.other, now, y, other),
    ensures
        x.len() == y.len(),
{
    if x.len() < y.len() {
        let n = x.len() as int;
        lemma_gave_first(b, l.other, now, y, other, n);
        let mid = choose|mid: Connection| #[trigger] gave_out(b, l.other, now, y.take(n), mid);
        lemma_gave_out(l, a, b, now, x, y.take(n), one, mid);
        assert(maybe_alike(l.bytes, x[n - 1], y.take(n)[n - 1]));
        assert(y[n - 1] is Some);
    } else if y.len() < x.len() {
        let n = y.len() as int;
        lemma_gave_first(a, l.base, now, x, one, n);
        let mid = choose|mid: Connection| #[trigger] gave_out(a, l.base, now, x.take(n), mid);
        lemma_gave_out(l, a, b, now, x.take(n), y, mid, other);
        assert(maybe_alike(l.bytes, x.take(n)[n - 1], y[n - 1]));
        assert(x[n - 1] is Some);
    }
}

proof fn lemma_poured_one(
    l: QuicLikeness,
    a: QuicView,
    b: QuicView,
    x: Batch,
    y: Batch,
    one: QuicView,
    other: QuicView,
)
    requires
        l.is_kept(),
        l.views(a, b),
        x.peer == y.peer,
        x.now == y.now,
        is_asked_out(x.results),
        is_asked_out(y.results),
        a.poured_one(l.base, x, one),
        b.poured_one(l.other, y, other),
    ensures
        l.views(one, other),
        transmits_alike(l.bytes, transmits_in(x.results), transmits_in(y.results)),
{
    let peer = x.peer;
    let c1 = a.connections[peer];
    let c2 = b.connections[peer];
    assert(l.conn_views(c1, c2));
    let d1 = one.connections[peer].conn;
    let d2 = other.connections[peer].conn;
    lemma_asked_out(l, c1.conn, c2.conn, x.now, x.results, y.results, d1, d2);
    lemma_gave_out(l, c1.conn, c2.conn, x.now, x.results, y.results, d1, d2);
    lemma_with_connection(
        l,
        a,
        b,
        peer,
        ConnView { conn: d1, ..c1 },
        ConnView { conn: d2, ..c2 },
    );
}

proof fn lemma_transmits_joined(
    bytes: spec_fn(Seq<u8>, Seq<u8>) -> bool,
    a: Seq<TransmitView>,
    b: Seq<TransmitView>,
    x: Seq<TransmitView>,
    y: Seq<TransmitView>,
)
    requires
        transmits_alike(bytes, a, b),
        transmits_alike(bytes, x, y),
    ensures
        transmits_alike(bytes, a + x, b + y),
{
    assert forall|i: int| 0 <= i < (a + x).len() implies transmit_alike(
        bytes,
        #[trigger] (a + x)[i],
        (b + y)[i],
    ) by {
        if i < a.len() {
            assert(transmit_alike(bytes, a[i], b[i]));
        } else {
            assert(transmit_alike(bytes, x[i - a.len()], y[i - a.len()]));
        }
    }
}

proof fn lemma_poured(
    l: QuicLikeness,
    a: QuicView,
    b: QuicView,
    peers: Seq<SocketAddr>,
    now: u64,
    x: Seq<Batch>,
    y: Seq<Batch>,
    one: QuicView,
    other: QuicView,
)
    requires
        l.is_kept(),
        l.views(a, b),
        is_round(peers, now, x),
        is_round(peers, now, y),
        a.poured(l.base, x, one),
        b.poured(l.other, y, other),
    ensures
        l.views(one, other),
        transmits_alike(l.bytes, transmits_of(x), transmits_of(y)),
    decreases peers.len(),
{
    if peers.len() > 0 {
        let n = peers.len() - 1;
        let x0 = x.drop_last();
        let y0 = y.drop_last();
        let m1 = choose|mid: QuicView|
            a.poured(l.base, x0, mid) && #[trigger] mid.poured_one(l.base, x.last(), one);
        let m2 = choose|mid: QuicView|
            b.poured(l.other, y0, mid) && #[trigger] mid.poured_one(l.other, y.last(), other);
        assert(is_round(peers.drop_last(), now, x0)) by {
            assert forall|i: int| 0 <= i < x0.len() implies {
                &&& (#[trigger] x0[i]).peer == peers.drop_last()[i]
                &&& x0[i].now == now
                &&& is_asked_out(x0[i].results)
            } by {
                assert(x[i].peer == peers[i]);
            }
        }
        assert(is_round(peers.drop_last(), now, y0)) by {
            assert forall|i: int| 0 <= i < y0.len() implies {
                &&& (#[trigger] y0[i]).peer == peers.drop_last()[i]
                &&& y0[i].now == now
                &&& is_asked_out(y0[i].results)
            } by {
                assert(y[i].peer == peers[i]);
            }
        }
        lemma_poured(l, a, b, peers.drop_last(), now, x0, y0, m1, m2);
        assert(x[n].peer == peers[n] && y[n].peer == peers[n]);
        lemma_poured_one(l, m1, m2, x.last(), y.last(), one, other);
        lemma_transmits_joined(
            l.bytes,
            transmits_of(x0),
            transmits_of(y0),
            transmits_in(x.last().results),
            transmits_in(y.last().results),
        );
    }
}

proof fn lemma_rounds_poured(
    l: QuicLikeness,
    a: QuicView,
    b: QuicView,
    e1: EnvView,
    e2: EnvView,
    peers: Seq<SocketAddr>,
    x: Seq<Seq<Batch>>,
    y: Seq<Seq<Batch>>,
    one: QuicView,
    other: QuicView,
)
    requires
        l.is_kept(),
        l.views(a, b),
        e1.clock is Some,
        e1.clock == e2.clock,
        x.len() == y.len(),
        a.rounds_poured(l.base, e1, peers, x, one),
        b.rounds_poured(l.other, e2, peers, y, other),
    ensures
        l.views(one, other),
        forall|i: int|
            0 <= i < x.len() ==> transmits_alike(
                l.bytes,
                transmits_of(#[trigger] x[i]),
                transmits_of(y[i]),
            ),
        transmits_alike(l.bytes, transmits_of_all(x), transmits_of_all(y)),
    decreases x.len(),
{
    if x.len() > 0 {
        let m1 = choose|mid: QuicView|
            a.rounds_poured(l.base, e1, peers, x.drop_last(), mid) && #[trigger] mid.round_poured(
                l.base,
                e1,
                peers,
                x.last(),
                one,
            );
        let m2 = choose|mid: QuicView|
            b.rounds_poured(l.other, e2, peers, y.drop_last(), mid) && #[trigger] mid.round_poured(
                l.other,
                e2,
                peers,
                y.last(),
                other,
            );
        lemma_rounds_poured(l, a, b, e1, e2, peers, x.drop_last(), y.drop_last(), m1, m2);
        let n1 = choose|now: u64| #[trigger]
            is_round(peers, now, x.last()) && e1.reads(now) && m1.poured(l.base, x.last(), one);
        let n2 = choose|now: u64| #[trigger]
            is_round(peers, now, y.last()) && e2.reads(now) && m2.poured(l.other, y.last(), other);
        assert(n1 == n2);
        lemma_poured(l, m1, m2, peers, n1, x.last(), y.last(), one, other);
        lemma_transmits_joined(
            l.bytes,
            transmits_of_all(x.drop_last()),
            transmits_of_all(y.drop_last()),
            transmits_of(x.last()),
            transmits_of(y.last()),
        );
        assert forall|i: int| 0 <= i < x.len() implies transmits_alike(
            l.bytes,
            transmits_of(#[trigger] x[i]),
            transmits_of(y[i]),
        ) by {
            if i < x.len() - 1 {
                assert(x.drop_last()[i] == x[i] && y.drop_last()[i] == y[i]);
            }
        }
    }
}

/// The first rounds.
proof fn lemma_rounds_first(
    a: QuicView,
    base: Instant,
    env: EnvView,
    peers: Seq<SocketAddr>,
    x: Seq<Seq<Batch>>,
    one: QuicView,
    n: int,
)
    requires
        0 <= n <= x.len(),
        a.rounds_poured(base, env, peers, x, one),
    ensures
        exists|mid: QuicView| #[trigger] a.rounds_poured(base, env, peers, x.take(n), mid),
    decreases x.len(),
{
    if n == x.len() {
        assert(x.take(n) =~= x);
        assert(a.rounds_poured(base, env, peers, x.take(n), one));
    } else {
        let m = choose|mid: QuicView|
            a.rounds_poured(base, env, peers, x.drop_last(), mid) && #[trigger] mid.round_poured(
                base,
                env,
                peers,
                x.last(),
                one,
            );
        lemma_rounds_first(a, base, env, peers, x.drop_last(), m, n);
        assert(x.drop_last().take(n) =~= x.take(n));
    }
}

/// There are equally many rounds on both sides.
proof fn lemma_flushed(
    l: QuicLikeness,
    a: QuicView,
    b: QuicView,
    e1: EnvView,
    e2: EnvView,
    peers: Seq<SocketAddr>,
    x: Seq<Seq<Batch>>,
    y: Seq<Seq<Batch>>,
    one: QuicView,
    other: QuicView,
)
    requires
        l.is_kept(),
        l.views(a, b),
        e1.clock is Some,
        e1.clock == e2.clock,
        is_flush(x),
        is_flush(y),
        a.rounds_poured(l.base, e1, peers, x, one),
        b.rounds_poured(l.other, e2, peers, y, other),
    ensures
        x.len() == y.len(),
{
    if x.len() < y.len() {
        let n = x.len() as int;
        lemma_rounds_first(b, l.other, e2, peers, y, other, n);
        let mid = choose|mid: QuicView| #[trigger]
            b.rounds_poured(l.other, e2, peers, y.take(n), mid);
        lemma_rounds_poured(l, a, b, e1, e2, peers, x, y.take(n), one, mid);
        assert(transmits_alike(l.bytes, transmits_of(x[n - 1]), transmits_of(y.take(n)[n - 1])));
        assert(transmits_of(y[n - 1]).len() > 0);
    } else if y.len() < x.len() {
        let n = y.len() as int;
        lemma_rounds_first(a, l.base, e1, peers, x, one, n);
        let mid = choose|mid: QuicView| #[trigger]
            a.rounds_poured(l.base, e1, peers, x.take(n), mid);
        lemma_rounds_poured(l, a, b, e1, e2, peers, x.take(n), y, mid, other);
        assert(x.take(n)[n - 1] == x[n - 1]);
        assert(transmits_alike(l.bytes, transmits_of(x.take(n)[n - 1]), transmits_of(y[n - 1])));
        assert(transmits_of(x[n - 1]).len() > 0);
    }
}

/// The peers of a table are in one order, as far as both lists go.
proof fn lemma_same_first(
    a: Map<SocketAddr, ConnView>,
    x: Seq<SocketAddr>,
    y: Seq<SocketAddr>,
    n: int,
)
    requires
        peers_in_order(a, x),
        peers_in_order(a, y),
        0 <= n <= x.len(),
        n <= y.len(),
    ensures
        forall|i: int| 0 <= i < n ==> x[i] == y[i],
    decreases n,
{
    if n > 0 {
        let i = n - 1;
        lemma_same_first(a, x, y, i);
        assert(x.contains(x[i]) && y.contains(y[i]));
        assert(y.contains(x[i]) && x.contains(y[i]));
        let j = choose|j: int| 0 <= j < y.len() && y[j] == x[i];
        let k = choose|k: int| 0 <= k < x.len() && x[k] == y[i];
        if j < i {
            assert(x[j] == y[j]);
            assert(x[j].rank() < x[i].rank());
        }
        if k < i {
            assert(y[k] == x[k]);
            assert(y[k].rank() < y[i].rank());
        }
        if j > i && k > i {
            assert(y[i].rank() < y[j].rank());
            assert(x[i].rank() < x[k].rank());
        }
    }
}

proof fn lemma_one_order(a: Map<SocketAddr, ConnView>, x: Seq<SocketAddr>, y: Seq<SocketAddr>)
    requires
        peers_in_order(a, x),
        peers_in_order(a, y),
    ensures
        x == y,
{
    if x.len() < y.len() {
        let n = x.len() as int;
        lemma_same_first(a, x, y, n);
        assert(y.contains(y[n]));
        assert(x.contains(y[n]));
        let k = choose|k: int| 0 <= k < x.len() && x[k] == y[n];
        assert(y[k].rank() < y[n].rank());
    } else if y.len() < x.len() {
        let n = y.len() as int;
        lemma_same_first(a, x, y, n);
        assert(x.contains(x[n]));
        assert(y.contains(x[n]));
        let k = choose|k: int| 0 <= k < y.len() && y[k] == x[n];
        assert(x[k].rank() < x[n].rank());
    }
    lemma_same_first(a, x, y, x.len() as int);
    assert(x =~= y);
}

proof fn lemma_transmitted(
    bytes: spec_fn(Seq<u8>, Seq<u8>) -> bool,
    socket: SocketId,
    a: Seq<(SocketId, SocketAddr, Seq<u8>)>,
    b: Seq<(SocketId, SocketAddr, Seq<u8>)>,
    x: TransmitView,
    y: TransmitView,
)
    requires
        sent_alike(bytes, a, b),
        transmit_alike(bytes, x, y),
    ensures
        sent_alike(bytes, a + transmitted(socket, x), b + transmitted(socket, y)),
{
    let one = a + transmitted(socket, x);
    let other = b + transmitted(socket, y);
    let d1 = datagrams_of(x.bytes, x.segment_size);
    let d2 = datagrams_of(y.bytes, y.segment_size);
    assert forall|i: int| 0 <= i < one.len() implies {
        &&& (#[trigger] one[i]).0 == other[i].0
        &&& one[i].1 == other[i].1
        &&& bytes_alike(bytes, one[i].2, other[i].2)
    } by {
        if i < a.len() {
            assert(a[i].0 == b[i].0);
        } else {
            let k = i - a.len();
            assert(bytes_alike(bytes, d1[k], d2[k]));
        }
    }
}

proof fn lemma_all_transmitted(
    bytes: spec_fn(Seq<u8>, Seq<u8>) -> bool,
    socket: SocketId,
    a: Seq<(SocketId, SocketAddr, Seq<u8>)>,
    b: Seq<(SocketId, SocketAddr, Seq<u8>)>,
    x: Seq<TransmitView>,
    y: Seq<TransmitView>,
)
    requires
        sent_alike(bytes, a, b),
        transmits_alike(bytes, x, y),
    ensures
        sent_alike(bytes, a + all_transmitted(socket, x), b + all_transmitted(socket, y)),
    decreases x.len(),
{
    if x.len() == 0 {
        assert(a + all_transmitted(socket, x) =~= a);
        assert(b + all_transmitted(socket, y) =~= b);
    } else {
        let x0 = x.drop_last();
        let y0 = y.drop_last();
        assert forall|i: int| 0 <= i < x0.len() implies transmit_alike(
            bytes,
            #[trigger] x0[i],
            y0[i],
        ) by {
            assert(transmit_alike(bytes, x[i], y[i]));
        }
        lemma_all_transmitted(bytes, socket, a, b, x0, y0);
        assert(transmit_alike(bytes, x[x.len() - 1], y[x.len() - 1]));
        let m1 = a + all_transmitted(socket, x0);
        let m2 = b + all_transmitted(socket, y0);
        lemma_transmitted(bytes, socket, m1, m2, x.last(), y.last());
        assert(a + all_transmitted(socket, x) =~= m1 + transmitted(socket, x.last()));
        assert(b + all_transmitted(socket, y) =~= m2 + transmitted(socket, y.last()));
    }
}

proof fn lemma_all_sent(
    l: QuicLikeness,
    socket: SocketId,
    e1: EnvView,
    e2: EnvView,
    a: QuicView,
    b: QuicView,
    s1: Seq<(SocketId, SocketAddr, Seq<u8>)>,
    s2: Seq<(SocketId, SocketAddr, Seq<u8>)>,
    one: QuicView,
    other: QuicView,
    t1: Seq<(SocketId, SocketAddr, Seq<u8>)>,
    t2: Seq<(SocketId, SocketAddr, Seq<u8>)>,
)
    requires
        l.is_kept(),
        l.views(a, b),
        e1.clock is Some,
        e1.clock == e2.clock,
        sent_alike(l.bytes, s1, s2),
        all_sent(l.base, socket, e1, a, s1, one, t1),
        all_sent(l.other, socket, e2, b, s2, other, t2),
    ensures
        l.views(one, other),
        sent_alike(l.bytes, t1, t2),
{
    let (p1, x) = choose|peers: Seq<SocketAddr>, rounds: Seq<Seq<Batch>>| #[trigger]
        sent_all(l.base, socket, e1, a, s1, peers, rounds, one, t1);
    let (p2, y) = choose|peers: Seq<SocketAddr>, rounds: Seq<Seq<Batch>>| #[trigger]
        sent_all(l.other, socket, e2, b, s2, peers, rounds, other, t2);
    assert(peers_in_order(a.connections, p2));
    lemma_one_order(a.connections, p1, p2);
    lemma_flushed(l, a, b, e1, e2, p1, x, y, one, other);
    lemma_rounds_poured(l, a, b, e1, e2, p1, x, y, one, other);
    lemma_all_transmitted(l.bytes, socket, s1, s2, transmits_of_all(x), transmits_of_all(y));
}

proof fn lemma_driven(
    l: QuicLikeness,
    socket: SocketId,
    e1: EnvView,
    e2: EnvView,
    a: QuicMachine,
    b: QuicMachine,
    s1: Seq<(SocketId, SocketAddr, Seq<u8>)>,
    s2: Seq<(SocketId, SocketAddr, Seq<u8>)>,
    one: QuicMachine,
    other: QuicMachine,
    t1: Seq<(SocketId, SocketAddr, Seq<u8>)>,
    t2: Seq<(SocketId, SocketAddr, Seq<u8>)>,
)
    requires
        l.is_kept(),
        l.machines(a, b),
        e1.clock is Some,
        e1.clock == e2.clock,
        sent_alike(l.bytes, s1, s2),
        a.driven(l.base, socket, e1, s1, one, t1),
        b.driven(l.other, socket, e2, s2, other, t2),
    ensures
        l.machines(one, other),
        sent_alike(l.bytes, t1, t2),
{
    let (p1, all1, polled1, seen1, told1) = choose|
        peers: Seq<SocketAddr>,
        all: Polled,
        polled: QuicView,
        seen: QuicView,
        told: QuicMachine,
    | #[trigger]
        a.driven_by(l.base, socket, e1, s1, peers, all, polled, seen, told, one, t1);
    let (p2, all2, polled2, seen2, told2) = choose|
        peers: Seq<SocketAddr>,
        all: Polled,
        polled: QuicView,
        seen: QuicView,
        told: QuicMachine,
    | #[trigger]
        b.driven_by(l.other, socket, e2, s2, peers, all, polled, seen, told, other, t2);
    assert(peers_in_order(a.view.connections, p2));
    lemma_one_order(a.view.connections, p1, p2);
    assert forall|i: int| 0 <= i < p1.len() implies a.view.connections.dom().contains(
        #[trigger] p1[i],
    ) by {
        assert(p1.contains(p1[i]));
    }
    lemma_all_polled(l, a.view, b.view, p1, all1, polled1, all2, polled2);
    lemma_all_seen(l, polled1, polled2, all1.reports, seen1, seen2);
    let m1 = QuicMachine { view: seen1, ..a };
    let m2 = QuicMachine { view: seen2, ..b };
    lemma_all_heard(l, m1, m2, all1.events, all2.events, told1, told2);
    lemma_all_sent(
        l,
        socket,
        e1,
        e2,
        told1.view,
        told2.view,
        s1,
        s2,
        one.view,
        other.view,
        t1,
        t2,
    );
}

proof fn lemma_timers_fired(l: QuicLikeness, a: QuicView, b: QuicView, now: u64)
    requires
        l.is_kept(),
        l.views(a, b),
    ensures
        l.views(a.timers_fired(l.base, now), b.timers_fired(l.other, now)),
{
    let one = a.timers_fired(l.base, now);
    let other = b.timers_fired(l.other, now);
    assert(one.connections.dom() =~= other.connections.dom());
    assert forall|peer: SocketAddr| #[trigger]
        one.connections.dom().contains(peer) implies l.conn_views(
        one.connections[peer],
        other.connections[peer],
    ) by {
        assert(a.connections.dom().contains(peer));
        assert(l.conn_views(a.connections[peer], b.connections[peer]));
        reveal(QuicLikeness::shows_alike);
        assert((l.conns)(a.connections[peer].conn, b.connections[peer].conn));
        let fired = timed_out(a.connections[peer].conn, l.base, now);
        assert((l.conns)(fired, timed_out(b.connections[peer].conn, l.other, now)));
    }
}

proof fn lemma_started(
    l: QuicLikeness,
    a: QuicView,
    b: QuicView,
    peer: SocketAddr,
    handle: usize,
    x: Connection,
    y: Connection,
)
    requires
        l.views(a, b),
        (l.conns)(x, y),
    ensures
        l.views(a.started(peer, handle, x), b.started(peer, handle, y)),
{
    let one = a.started(peer, handle, x);
    let other = b.started(peer, handle, y);
    assert(one.connections.dom() =~= other.connections.dom());
    assert forall|p: SocketAddr| #[trigger] one.connections.dom().contains(p) implies l.conn_views(
        one.connections[p],
        other.connections[p],
    ) by {
        if p != peer {
            assert(a.connections.dom().contains(p));
        }
    }
}

proof fn lemma_ensured(
    l: QuicLikeness,
    now: u64,
    c1: ClientConfig,
    c2: ClientConfig,
    peer: SocketAddr,
    a: QuicMachine,
    b: QuicMachine,
    r1: Result<(), QueueError>,
    r2: Result<(), QueueError>,
    one: QuicMachine,
    other: QuicMachine,
)
    requires
        l.is_kept(),
        l.machines(a, b),
        (l.configs)(c1, c2),
        a.connection_ensured(l.base, now, c1, peer, r1, one),
        b.connection_ensured(l.other, now, c2, peer, r2, other),
    ensures
        l.machines(one, other),
        r1 is Ok == r2 is Ok,
        r1 is Ok ==> one.view.connections.dom().contains(peer),
{
    if !a.view.connections.dom().contains(peer) && a.view.connections.dom().len()
        < MAX_CONNECTIONS {
        let d1 = choose|dialed: Option<(usize, Connection)>| #[trigger]
            a.dialed_by(l.base, now, c1, peer, dialed, r1, one);
        let d2 = choose|dialed: Option<(usize, Connection)>| #[trigger]
            b.dialed_by(l.other, now, c2, peer, dialed, r2, other);
        assert(l.dialings(d1, d2) && (l.endpoints)(one.endpoint, other.endpoint)) by {
            reveal(QuicLikeness::endpoints_keep);
        }
        if let Some((handle, conn)) = d1 {
            lemma_started(l, a.view, b.view, peer, handle, conn, (d2->0).1);
        }
    }
}

proof fn lemma_queued(
    l: QuicLikeness,
    socket: SocketId,
    c1: ClientConfig,
    c2: ClientConfig,
    e1: EnvView,
    e2: EnvView,
    to: SocketAddr,
    payload: Seq<u8>,
    a: QuicMachine,
    b: QuicMachine,
    r1: Result<(), QueueError>,
    r2: Result<(), QueueError>,
    one: QuicMachine,
    other: QuicMachine,
    t1: Seq<(SocketId, SocketAddr, Seq<u8>)>,
    t2: Seq<(SocketId, SocketAddr, Seq<u8>)>,
)
    requires
        l.is_kept(),
        l.machines(a, b),
        (l.configs)(c1, c2),
        env_alike(l.bytes, e1, e2),
        a.datagram_queued(l.base, socket, c1, e1, to, payload, r1, one, t1),
        b.datagram_queued(l.other, socket, c2, e2, to, payload, r2, other, t2),
    ensures
        l.machines(one, other),
        sent_alike(l.bytes, t1, t2),
{
    let (n1, m1) = choose|now: u64, ready: QuicMachine| #[trigger]
        a.connection_ensured(l.base, now, c1, to, r1, ready) && e1.reads(now) && match r1 {
            Ok(_) => (QuicMachine { view: ready.view.queued(to, payload), ..ready }).driven(
                l.base,
                socket,
                e1,
                e1.sent,
                one,
                t1,
            ),
            Err(_) => one == ready && t1 == e1.sent,
        };
    let (n2, m2) = choose|now: u64, ready: QuicMachine| #[trigger]
        b.connection_ensured(l.other, now, c2, to, r2, ready) && e2.reads(now) && match r2 {
            Ok(_) => (QuicMachine { view: ready.view.queued(to, payload), ..ready }).driven(
                l.other,
                socket,
                e2,
                e2.sent,
                other,
                t2,
            ),
            Err(_) => other == ready && t2 == e2.sent,
        };
    assert(n1 == n2);
    lemma_ensured(l, n1, c1, c2, to, a, b, r1, r2, m1, m2);
    if r1 is Ok {
        let q1 = QuicMachine { view: m1.view.queued(to, payload), ..m1 };
        let q2 = QuicMachine { view: m2.view.queued(to, payload), ..m2 };
        assert(l.conn_views(m1.view.connections[to], m2.view.connections[to]));
        lemma_with_connection(
            l,
            m1.view,
            m2.view,
            to,
            q1.view.connections[to],
            q2.view.connections[to],
        );
        lemma_driven(l, socket, e1, e2, q1, q2, e1.sent, e2.sent, one, other, t1, t2);
    }
}

proof fn lemma_arrived(
    l: QuicLikeness,
    now: u64,
    from: SocketAddr,
    a: QuicMachine,
    b: QuicMachine,
    x: Option<QuicArrival>,
    y: Option<QuicArrival>,
    s1: Seq<TransmitView>,
    s2: Seq<TransmitView>,
    one: QuicMachine,
    other: QuicMachine,
)
    requires
        l.is_kept(),
        l.machines(a, b),
        l.arrivals(x, y),
        a.arrived(l.base, now, from, x, s1, one),
        b.arrived(l.other, now, from, y, s2, other),
    ensures
        l.machines(one, other),
        transmits_alike(l.bytes, s1, s2),
{
    match (x, y) {
        (
            Some(QuicArrival::ToConnection(handle, e1)),
            Some(QuicArrival::ToConnection(_, e2)),
        ) => {
            lemma_told(l, a.view, b.view, handle, e1, e2, one.view, other.view);
        },
        (Some(QuicArrival::NewConnection(i1)), Some(QuicArrival::NewConnection(i2))) => {
            if a.view.connections.dom().len() >= MAX_CONNECTIONS {
                assert(transmit_alike(l.bytes, s1[0], s2[0]) && (l.endpoints)(
                    one.endpoint,
                    other.endpoint,
                )) by {
                    reveal(QuicLikeness::endpoints_keep);
                }
            } else {
                let r1 = choose|r: Result<(usize, Connection), Option<TransmitView>>| #[trigger]
                    a.accepted_by(l.base, now, from, i1, r, s1, one);
                let r2 = choose|r: Result<(usize, Connection), Option<TransmitView>>| #[trigger]
                    b.accepted_by(l.other, now, from, i2, r, s2, other);
                assert(l.acceptances(r1, r2) && (l.endpoints)(one.endpoint, other.endpoint)) by {
                    reveal(QuicLikeness::endpoints_keep);
                }
                match (r1, r2) {
                    (Ok((handle, conn)), Ok((_, mate))) => {
                        lemma_started(l, a.view, b.view, from, handle, conn, mate);
                    },
                    _ => {},
                }
            }
        },
        _ => {},
    }
}

proof fn lemma_taken(
    l: QuicLikeness,
    socket: SocketId,
    e1: EnvView,
    e2: EnvView,
    from: SocketAddr,
    d1: Seq<u8>,
    d2: Seq<u8>,
    a: QuicMachine,
    b: QuicMachine,
    one: QuicMachine,
    other: QuicMachine,
    t1: Seq<(SocketId, SocketAddr, Seq<u8>)>,
    t2: Seq<(SocketId, SocketAddr, Seq<u8>)>,
)
    requires
        l.is_kept(),
        l.machines(a, b),
        env_alike(l.bytes, e1, e2),
        bytes_alike(l.bytes, d1, d2),
        a.datagram_taken(l.base, socket, e1, from, d1, one, t1),
        b.datagram_taken(l.other, socket, e2, from, d2, other, t2),
    ensures
        l.machines(one, other),
        sent_alike(l.bytes, t1, t2),
{
    let (n1, m1, x1, reached1, s1, arrived1) = choose|
        now: u64,
        later: u64,
        arrival: Option<QuicArrival>,
        reached: QuicMachine,
        answers: Seq<TransmitView>,
        arrived: QuicMachine,
    | #[trigger]
        a.taken_by(
            l.base,
            socket,
            e1,
            from,
            d1,
            now,
            later,
            arrival,
            reached,
            answers,
            arrived,
            one,
            t1,
        );
    let (n2, m2, x2, reached2, s2, arrived2) = choose|
        now: u64,
        later: u64,
        arrival: Option<QuicArrival>,
        reached: QuicMachine,
        answers: Seq<TransmitView>,
        arrived: QuicMachine,
    | #[trigger]
        b.taken_by(
            l.other,
            socket,
            e2,
            from,
            d2,
            now,
            later,
            arrival,
            reached,
            answers,
            arrived,
            other,
            t2,
        );
    assert(n1 == n2 && m1 == m2);
    assert(l.arrivals(x1, x2) && (l.endpoints)(reached1.endpoint, reached2.endpoint)) by {
        reveal(QuicLikeness::endpoints_keep);
    }
    lemma_arrived(l, m1, from, reached1, reached2, x1, x2, s1, s2, arrived1, arrived2);
    lemma_all_transmitted(l.bytes, socket, e1.sent, e2.sent, s1, s2);
    lemma_driven(
        l,
        socket,
        e1,
        e2,
        arrived1,
        arrived2,
        e1.sent + all_transmitted(socket, s1),
        e2.sent + all_transmitted(socket, s2),
        one,
        other,
        t1,
        t2,
    );
}

proof fn lemma_timed(
    l: QuicLikeness,
    socket: SocketId,
    e1: EnvView,
    e2: EnvView,
    a: QuicMachine,
    b: QuicMachine,
    one: QuicMachine,
    other: QuicMachine,
    t1: Seq<(SocketId, SocketAddr, Seq<u8>)>,
    t2: Seq<(SocketId, SocketAddr, Seq<u8>)>,
)
    requires
        l.is_kept(),
        l.machines(a, b),
        env_alike(l.bytes, e1, e2),
        a.timer_taken(l.base, socket, e1, one, t1),
        b.timer_taken(l.other, socket, e2, other, t2),
    ensures
        l.machines(one, other),
        sent_alike(l.bytes, t1, t2),
{
    let n1 = choose|now: u64| #[trigger]
        e1.reads(now) && (QuicMachine { view: a.view.timers_fired(l.base, now), ..a }).driven(
            l.base,
            socket,
            e1,
            e1.sent,
            one,
            t1,
        );
    let n2 = choose|now: u64| #[trigger]
        e2.reads(now) && (QuicMachine { view: b.view.timers_fired(l.other, now), ..b }).driven(
            l.other,
            socket,
            e2,
            e2.sent,
            other,
            t2,
        );
    assert(n1 == n2);
    lemma_timers_fired(l, a.view, b.view, n1);
    let m1 = QuicMachine { view: a.view.timers_fired(l.base, n1), ..a };
    let m2 = QuicMachine { view: b.view.timers_fired(l.other, n1), ..b };
    lemma_driven(l, socket, e1, e2, m1, m2, e1.sent, e2.sent, one, other, t1, t2);
}

proof fn lemma_first_due(
    l: QuicLikeness,
    a: QuicView,
    b: QuicView,
    r1: Option<u64>,
    r2: Option<u64>,
)
    requires
        l.is_kept(),
        l.views(a, b),
        a.first_due(l.base, r1),
        b.first_due(l.other, r2),
    ensures
        r1 == r2,
{
    assert forall|peer: SocketAddr| #[trigger] a.connections.dom().contains(peer) implies due_of(
        a.connections[peer].conn,
        l.base,
    ) == due_of(b.connections[peer].conn, l.other) by {
        assert(l.conn_views(a.connections[peer], b.connections[peer]));
        reveal(QuicLikeness::shows_alike);
        assert((l.conns)(a.connections[peer].conn, b.connections[peer].conn));
    }
    if let Some(at) = r1 {
        let peer = choose|peer: SocketAddr| #[trigger]
            a.connections.dom().contains(peer) && due_of(a.connections[peer].conn, l.base) == Some(
                at,
            );
        assert(b.connections.dom().contains(peer));
    }
    if let Some(at) = r2 {
        let peer = choose|peer: SocketAddr| #[trigger]
            b.connections.dom().contains(peer) && due_of(b.connections[peer].conn, l.other)
                == Some(at);
        assert(a.connections.dom().contains(peer));
    }
}

/// QUIC transports are alike where their machines are.
pub open spec fn quic_likeness<C>(
    cores: spec_fn(C, C) -> bool,
    l: QuicLikeness,
) -> Likeness<C, OverlayQuicTransport> {
    Likeness {
        cores,
        transports: |a: OverlayQuicTransport, b: OverlayQuicTransport| l.transports(a, b),
        bytes: l.bytes,
    }
}

/// QUIC transports keep to a likeness where the machines of QUIC do. The
/// transport adds no chance of its own, and what it sends and when it is due
/// follows from its machines.
pub proof fn law_quic_transport_deterministic<C: OverlayCore>(
    cores: spec_fn(C, C) -> bool,
    l: QuicLikeness,
)
    requires
        l.is_kept(),
    ensures
        quic_likeness::<C>(cores, l).kept_by_transports(),
{
    reveal(Likeness::kept_by_transports);
    let q = quic_likeness::<C>(cores, l);
    assert forall|
        a: OverlayQuicTransport,
        b: OverlayQuicTransport,
        e1: EnvView,
        e2: EnvView,
        socket: SocketId,
        from: SocketAddr,
        d1: Seq<u8>,
        d2: Seq<u8>,
        a1: OverlayQuicTransport,
        b1: OverlayQuicTransport,
        x1: EnvView,
        x2: EnvView,
    |
        #![trigger a.takes_datagram(e1, socket, from, d1, &a1, x1), b.takes_datagram(e2, socket, from, d2, &b1, x2)]
        (q.transports)(a, b) && env_alike(q.bytes, e1, e2) && bytes_alike(q.bytes, d1, d2)
            && a.takes_datagram(e1, socket, from, d1, &a1, x1) && b.takes_datagram(
            e2,
            socket,
            from,
            d2,
            &b1,
            x2,
        ) implies (q.transports)(a1, b1) && env_alike(q.bytes, x1, x2) by {
        if socket == a.on_socket() {
            lemma_taken(
                l,
                socket,
                e1,
                e2,
                from,
                d1,
                d2,
                a.machine(),
                b.machine(),
                a1.machine(),
                b1.machine(),
                x1.sent,
                x2.sent,
            );
        }
    }
    assert forall|
        a: OverlayQuicTransport,
        b: OverlayQuicTransport,
        e1: EnvView,
        e2: EnvView,
        a1: OverlayQuicTransport,
        b1: OverlayQuicTransport,
        x1: EnvView,
        x2: EnvView,
    |
        #![trigger a.takes_timer(e1, &a1, x1), b.takes_timer(e2, &b1, x2)]
        (q.transports)(a, b) && env_alike(q.bytes, e1, e2) && a.takes_timer(e1, &a1, x1)
            && b.takes_timer(e2, &b1, x2) implies (q.transports)(a1, b1) && env_alike(
        q.bytes,
        x1,
        x2,
    ) by {
        lemma_timed(
            l,
            a.on_socket(),
            e1,
            e2,
            a.machine(),
            b.machine(),
            a1.machine(),
            b1.machine(),
            x1.sent,
            x2.sent,
        );
    }
    assert forall|
        a: OverlayQuicTransport,
        b: OverlayQuicTransport,
        e1: EnvView,
        e2: EnvView,
        to: SocketAddr,
        payload: Seq<u8>,
        r1: Result<(), QueueError>,
        r2: Result<(), QueueError>,
        a1: OverlayQuicTransport,
        b1: OverlayQuicTransport,
        x1: EnvView,
        x2: EnvView,
    |
        #![trigger a.takes_outbound(e1, to, payload, r1, &a1, x1), b.takes_outbound(e2, to, payload, r2, &b1, x2)]
        (q.transports)(a, b) && env_alike(q.bytes, e1, e2) && a.takes_outbound(
            e1,
            to,
            payload,
            r1,
            &a1,
            x1,
        ) && b.takes_outbound(e2, to, payload, r2, &b1, x2) implies (q.transports)(a1, b1)
        && env_alike(q.bytes, x1, x2) by {
        lemma_queued(
            l,
            a.on_socket(),
            a.config(),
            b.config(),
            e1,
            e2,
            to,
            payload,
            a.machine(),
            b.machine(),
            r1,
            r2,
            a1.machine(),
            b1.machine(),
            x1.sent,
            x2.sent,
        );
    }
    assert forall|
        a: OverlayQuicTransport,
        b: OverlayQuicTransport,
        d1: Option<u64>,
        d2: Option<u64>,
        a1: OverlayQuicTransport,
        b1: OverlayQuicTransport,
    |
        #![trigger a.is_due(d1, &a1), b.is_due(d2, &b1)]
        (q.transports)(a, b) && a.is_due(d1, &a1) && b.is_due(d2, &b1) implies d1 == d2
        && (q.transports)(a1, b1) by {
        lemma_first_due(l, a@, b@, d1, d2);
    }
    assert forall|
        a: OverlayQuicTransport,
        b: OverlayQuicTransport,
        v1: Seq<TransportEvent>,
        v2: Seq<TransportEvent>,
        a1: OverlayQuicTransport,
        b1: OverlayQuicTransport,
    |
        #![trigger a.tells(v1, &a1), b.tells(v2, &b1)]
        (q.transports)(a, b) && a.tells(v1, &a1) && b.tells(v2, &b1) implies transport_notes(v1)
        == transport_notes(v2) && (q.transports)(a1, b1) by {
        lemma_events_alike(v1, v2);
    }
    assert forall|
        a: OverlayQuicTransport,
        b: OverlayQuicTransport,
        v1: Seq<(SocketAddr, Vec<u8>)>,
        v2: Seq<(SocketAddr, Vec<u8>)>,
        a1: OverlayQuicTransport,
        b1: OverlayQuicTransport,
    |
        #![trigger a.hands_out(v1, &a1), b.hands_out(v2, &b1)]
        (q.transports)(a, b) && a.hands_out(v1, &a1) && b.hands_out(v2, &b1) implies inbound_notes(
        v1,
    ) == inbound_notes(v2) && (q.transports)(a1, b1) by {
        lemma_inbound_alike(v1, v2);
    }
}

} // verus!
