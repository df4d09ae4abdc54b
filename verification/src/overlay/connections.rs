//! What becomes of the connections of the QUIC transport, and of what is sent and
//! received over them.

use quinn_proto::{ClientConfig, Connection, ConnectionEvent, EndpointEvent, Incoming};
use std::time::Instant;
use vstd::prelude::*;
use crate::addr::SocketAddr;
use crate::overlay::env::{EnvView, SocketId};
use crate::overlay::quic::{
    all_transmitted, certificate_key, datagrams_of, due_of, endpoint_events_of, handed_over, hears,
    identity_of, is_last, pieces, refuses, reports_of, sent_all, takes_event, takes_payload, timed_out,
    transmits_of, transmits_of_all, transmitted, waiting_in, Batch, ConnView, OverlayQuicTransport, Polled, QuicArrival,
    QuicMachine, QuicView, ReportView, SendOutcome, TransmitView,
};
use crate::overlay::transport::{
    addressed, transport_events, OverlayTransport, QueueError, TransportEvent, TransportEventView,
};
use crate::pubkey::{law_key_of_its_bytes, Pubkey};
use crate::text::{find_from, law_find_is_the_first, stands_at};

verus! {

/// The bytes before an Ed25519 key in a certificate.
pub open spec fn before_key() -> Seq<u8> {
    seq![0x30u8, 0x2a, 0x30, 0x05, 0x06, 0x03, 0x2b, 0x65, 0x70, 0x03, 0x21, 0x00]
}

/// The identity in a certificate is the key that follows where an Ed25519 key is
/// first announced.
pub proof fn law_certificate_tells_the_key(start: Seq<u8>, key: Pubkey, end: Seq<u8>)
    requires
        forall|i: int|
            0 <= i < start.len() ==> !#[trigger] stands_at(
                start + before_key() + key.bytes() + end,
                before_key(),
                i,
            ),
    ensures
        certificate_key(start + before_key() + key.bytes() + end) == Some(key),
{
    let cert = start + before_key() + key.bytes() + end;
    let n = start.len() as int;
    key.lemma_len();
    assert(cert.subrange(n, n + 12) =~= before_key());
    assert(stands_at(cert, before_key(), n));
    law_find_is_the_first(cert, before_key(), 0);
    let at = find_from(cert, before_key(), 0)->0;
    if at < n {
        assert(!stands_at(cert, before_key(), at));
    }
    assert(at == n);
    assert(cert.subrange(n + 12, n + 44) =~= key.bytes());
    law_key_of_its_bytes(key);
}

/// A certificate in which no Ed25519 key is announced tells none.
pub proof fn law_no_key_no_identity(cert: Seq<u8>)
    requires
        forall|i: int|
            0 <= i < cert.len() ==> !#[trigger] stands_at(cert, before_key(), i),
    ensures
        certificate_key(cert) is None,
{
    law_find_is_the_first(cert, before_key(), 0);
}

/// A connection that comes up is told of, with the identity of its peer, and all
/// that waited for it is handed over, in its order.
pub proof fn law_up_sends_what_waited(a: QuicView, peer: SocketAddr, after: QuicView)
    requires
        a.connections.dom().contains(peer),
        a.event_seen(peer, ReportView::Connected, after),
        a.events.len() < 1024,
    ensures
        ({
            let was = a.connections[peer];
            let is = after.connections[peer];
            &&& is.established
            &&& is.pending.len() == 0
            &&& handed_over(was.conn, was.pending, is.conn)
            &&& is.pubkey == (if was.pubkey is Some {
                was.pubkey
            } else {
                identity_of(was.conn)
            })
            &&& after.events == a.events.push(
                TransportEventView::Connected { peer, pubkey: is.pubkey },
            )
            &&& after.inbound == a.inbound
            &&& after.handles == a.handles
        }),
{
}

/// Datagrams are handed over one after the other, and none is held up.
pub proof fn law_handed_over_in_order(
    conn: Connection,
    first: Seq<Seq<u8>>,
    next: Seq<u8>,
    after: Connection,
)
    requires
        handed_over(conn, first.push(next), after),
    ensures
        exists|mid: Connection, r: SendOutcome|
            handed_over(conn, first, mid) && #[trigger] takes_payload(mid, next, r, after) && !(
            r is Blocked),
{
    assert(first.push(next).drop_last() =~= first);
}

/// Datagrams that came over a connection are kept in their order, as from its
/// peer; of more than 8192 the oldest make room.
pub proof fn law_received_in_order(a: QuicView, peer: SocketAddr, frames: Seq<Seq<u8>>)
    requires
        a.inbound.len() <= 8192,
    ensures
        ({
            let after = a.received(peer, frames);
            let all = a.inbound + Seq::new(frames.len(), |i: int| (peer, frames[i]));
            &&& after == (QuicView { inbound: after.inbound, ..a })
            &&& all.len() <= 8192 ==> after.inbound == all
            &&& all.len() > 8192 ==> after.inbound == all.skip(all.len() - 8192)
        }),
    decreases frames.len(),
{
    let all = a.inbound + Seq::new(frames.len(), |i: int| (peer, frames[i]));
    if frames.len() == 0 {
        assert(all =~= a.inbound);
    } else {
        let rest = frames.drop_last();
        law_received_in_order(a, peer, rest);
        let had = a.inbound + Seq::new(rest.len(), |i: int| (peer, rest[i]));
        assert(all =~= had.push((peer, frames.last())));
        let mid = a.received(peer, rest).inbound;
        let after = a.received(peer, frames).inbound;
        if all.len() <= 8192 {
            assert(after =~= all);
        } else if had.len() <= 8192 {
            assert(after =~= all.skip(all.len() - 8192));
        } else {
            assert(mid.len() == 8192);
            assert(after =~= all.skip(all.len() - 8192));
        }
    }
}

/// A connection that is lost is forgotten, with its number, and told of with the
/// reason; the others stay.
pub proof fn law_lost_is_forgotten(
    a: QuicView,
    peer: SocketAddr,
    reason: Seq<char>,
    after: QuicView,
    other: SocketAddr,
)
    requires
        a.connections.dom().contains(peer),
        a.event_seen(peer, ReportView::ConnectionLost { reason }, after),
        a.events.len() < 1024,
        other != peer,
    ensures
        !after.connections.dom().contains(peer),
        !after.handles.dom().contains(a.connections[peer].handle as u64),
        after.events == a.events.push(TransportEventView::Disconnected { peer, reason }),
        after.connections.dom().contains(other) == a.connections.dom().contains(other),
        after.connections.dom().contains(other) ==> after.connections[other]
            == a.connections[other],
        after.inbound == a.inbound,
{
}

/// A datagram to send waits behind those that do, on the connection to its peer
/// alone; of more than 1024 the oldest makes room.
pub proof fn law_sends_wait_in_order(
    a: QuicView,
    peer: SocketAddr,
    payload: Seq<u8>,
    other: SocketAddr,
)
    requires
        a.connections.dom().contains(peer),
        a.connections[peer].pending.len() <= 1024,
        other != peer,
        a.connections.dom().contains(other),
    ensures
        ({
            let was = a.connections[peer].pending;
            let after = a.queued(peer, payload);
            let is = after.connections[peer].pending;
            &&& was.len() < 1024 ==> is == was.push(payload)
            &&& was.len() == 1024 ==> is == was.skip(1).push(payload)
            &&& after.connections[other] == a.connections[other]
            &&& after.connections[peer].conn == a.connections[peer].conn
            &&& after.connections[peer].established == a.connections[peer].established
        }),
{
}

/// A peer that there is a connection to is not dialed again; with 1024
/// connections no other is dialed; and one that cannot be dialed is an error.
pub proof fn law_dials_once(
    a: QuicMachine,
    base: Instant,
    now: u64,
    config: ClientConfig,
    peer: SocketAddr,
    r: Result<(), QueueError>,
    after: QuicMachine,
)
    requires
        a.connection_ensured(base, now, config, peer, r, after),
    ensures
        a.view.connections.dom().contains(peer) ==> r is Ok && after == a,
        !a.view.connections.dom().contains(peer) && a.view.connections.dom().len() >= 1024
            ==> r == Err::<(), QueueError>(QueueError::ConnectionLimit) && after == a,
        r is Ok ==> after.view.connections.dom().contains(peer),
        r is Ok && !a.view.connections.dom().contains(peer) ==> {
            let conn = after.view.connections[peer];
            &&& !conn.established
            &&& conn.pubkey is None
            &&& conn.pending.len() == 0
            &&& after.view.handles.dom().contains(conn.handle as u64)
            &&& after.view.handles[conn.handle as u64] == peer
            &&& after.view.live.contains(conn.handle as u64)
        },
        r is Err ==> after.view == a.view,
        forall|other: SocketAddr|
            other != peer && #[trigger] a.view.connections.dom().contains(other)
                ==> after.view.connections.dom().contains(other) && after.view.connections[other]
                == a.view.connections[other],
{
}

/// A peer that asks for a connection when there are 1024 is turned down, with one
/// answer to where it is.
pub proof fn law_no_more_than_1024(
    a: QuicMachine,
    base: Instant,
    now: u64,
    from: SocketAddr,
    incoming: Incoming,
    sent: Seq<TransmitView>,
    after: QuicMachine,
)
    requires
        a.arrived(base, now, from, Some(QuicArrival::NewConnection(incoming)), sent, after),
    ensures
        a.view.connections.dom().len() >= 1024 ==> {
            &&& after.view == a.view
            &&& sent.len() == 1
            &&& sent[0].destination == from
            &&& refuses(a.endpoint, incoming, sent[0], after.endpoint)
        },
        forall|i: int| 0 <= i < sent.len() ==> (#[trigger] sent[i]).destination == from,
        forall|other: SocketAddr|
            other != from && #[trigger] after.view.connections.dom().contains(other)
                ==> a.view.connections.dom().contains(other),
{
}

/// What comes for a connection goes to the one that has its number, and to no
/// other.
pub proof fn law_events_go_by_number(
    a: QuicView,
    handle: usize,
    event: ConnectionEvent,
    after: QuicView,
    other: SocketAddr,
)
    requires
        a.told(handle, event, after),
    ensures
        ({
            let peer = a.handles[handle as u64];
            &&& a.handles.dom().contains(handle as u64) && a.connections.dom().contains(peer)
                ==> takes_event(a.connections[peer].conn, event, after.connections[peer].conn)
            &&& !a.handles.dom().contains(handle as u64) ==> after == a
            &&& (a.handles.dom().contains(handle as u64) ==> other != peer) ==> (
            after.connections.dom().contains(other) == a.connections.dom().contains(other)
                && after.connections[other] == a.connections[other])
            &&& after.inbound == a.inbound
            &&& after.events == a.events
        }),
{
}

/// The timers that are due fire, and no others.
pub proof fn law_due_timers_fire(a: QuicView, base: Instant, now: u64, peer: SocketAddr)
    requires
        a.connections.dom().contains(peer),
    ensures
        ({
            let after = a.timers_fired(base, now);
            let was = a.connections[peer].conn;
            &&& after.connections.dom().contains(peer)
            &&& (due_of(was, base) matches Some(at) && at <= now) ==> after.connections[peer].conn
                == timed_out(was, base, now)
            &&& (due_of(was, base) matches Some(at) ==> at > now) ==> after.connections[peer]
                == a.connections[peer]
            &&& after.connections[peer].pending == a.connections[peer].pending
            &&& after.events == a.events
        }),
{
}

/// One after the other, the pieces are the whole.
pub open spec fn joined(parts: Seq<Seq<u8>>) -> Seq<u8>
    decreases parts.len(),
{
    if parts.len() == 0 {
        Seq::empty()
    } else {
        parts[0] + joined(parts.skip(1))
    }
}

/// What is cut for segments is the whole again when it is put together, and every
/// piece is a full segment but the last, which is what is left.
pub proof fn law_segments_make_the_whole(bytes: Seq<u8>, n: nat)
    requires
        n > 0,
    ensures
        joined(pieces(bytes, n)) == bytes,
        forall|i: int| 0 <= i < pieces(bytes, n).len() - 1 ==> (#[trigger] pieces(bytes, n)[i]).len()
            == n,
        pieces(bytes, n).len() > 0 ==> 0 < pieces(bytes, n).last().len() <= n,
    decreases bytes.len(),
{
    let parts = pieces(bytes, n);
    if bytes.len() == 0 {
        assert(joined(parts) =~= bytes);
    } else if bytes.len() <= n {
        assert(parts.skip(1) =~= Seq::empty());
        assert(joined(parts.skip(1)) =~= Seq::empty());
        assert(joined(parts) =~= bytes);
    } else {
        let tail = pieces(bytes.skip(n as int), n);
        law_segments_make_the_whole(bytes.skip(n as int), n);
        assert(parts.skip(1) =~= tail);
        assert(joined(parts) =~= bytes);
        assert forall|i: int| 0 <= i < parts.len() - 1 implies (#[trigger] parts[i]).len()
            == n by {
            if i > 0 {
                assert(parts[i] == tail[i - 1]);
            }
        }
        if tail.len() == 0 {
            assert(joined(tail) =~= Seq::empty());
            assert(bytes.skip(n as int).len() > 0);
        } else {
            assert(parts.last() == tail.last());
        }
    }
}

/// Every datagram of what is to be sent goes from the socket to where it is for,
/// the bytes as they are: in one, or cut into segments.
pub proof fn law_transmits_go_out(
    socket: SocketId,
    first: Seq<TransmitView>,
    next: TransmitView,
    i: int,
)
    ensures
        all_transmitted(socket, first.push(next)) == all_transmitted(socket, first) + transmitted(
            socket,
            next,
        ),
        0 <= i < transmitted(socket, next).len() ==> {
            &&& transmitted(socket, next)[i].0 == socket
            &&& transmitted(socket, next)[i].1 == next.destination
            &&& transmitted(socket, next)[i].2 == datagrams_of(next.bytes, next.segment_size)[i]
        },
        transmitted(socket, next).len() == datagrams_of(next.bytes, next.segment_size).len(),
        next.segment_size is None ==> datagrams_of(next.bytes, next.segment_size) == seq![
            next.bytes,
        ],
        (next.segment_size matches Some(n) && n > 0) ==> joined(
            datagrams_of(next.bytes, next.segment_size),
        ) == next.bytes,
{
    assert(first.push(next).drop_last() =~= first);
    if next.segment_size is Some && next.segment_size->0 > 0 {
        law_segments_make_the_whole(next.bytes, next.segment_size->0 as nat);
    }
}

/// When the transport is driven, every connection that it has is asked, in order;
/// what they report is seen to, and all that they want sent goes out from the
/// socket, behind what was sent before, until none has anything left.
pub proof fn law_driving_sends_all(
    a: QuicMachine,
    base: Instant,
    socket: SocketId,
    env: EnvView,
    sent: Seq<(SocketId, SocketAddr, Seq<u8>)>,
    after: QuicMachine,
    sent_after: Seq<(SocketId, SocketAddr, Seq<u8>)>,
)
    requires
        a.driven(base, socket, env, sent, after, sent_after),
    ensures
        exists|peers: Seq<SocketAddr>, all: Polled, polled: QuicView, seen: QuicView|
            {
                &&& #[trigger] a.view.all_polled(peers, all, polled)
                &&& #[trigger] polled.all_seen(all.reports, seen)
                &&& forall|peer: SocketAddr| #[trigger]
                    a.view.connections.dom().contains(peer) <==> peers.contains(peer)
            },
        exists|rounds: Seq<Seq<Batch>>|
            {
                &&& sent_after == sent + all_transmitted(socket, #[trigger] transmits_of_all(rounds))
                &&& rounds.len() > 0
                &&& rounds.len() < u64::MAX ==> transmits_of(rounds.last()).len() == 0
            },
{
    let (peers, all, polled, seen, told) = choose|
        peers: Seq<SocketAddr>,
        all: Polled,
        polled: QuicView,
        seen: QuicView,
        told: QuicMachine,
    | #[trigger]
        a.driven_by(
            base,
            socket,
            env,
            sent,
            peers,
            all,
            polled,
            seen,
            told,
            after,
            sent_after,
        );
    assert(a.driven_by(
        base,
        socket,
        env,
        sent,
        peers,
        all,
        polled,
        seen,
        told,
        after,
        sent_after,
    ));
    assert(a.view.all_polled(peers, all, polled));
    assert(polled.all_seen(all.reports, seen));
    assert forall|peer: SocketAddr| #[trigger]
        a.view.connections.dom().contains(peer) <==> peers.contains(peer) by {
        assert(peers.contains(peer) <==> a.view.connections.dom().contains(peer));
    }
    let (order, rounds) = choose|order: Seq<SocketAddr>, rounds: Seq<Seq<Batch>>| #[trigger]
        sent_all(base, socket, env, told.view, sent, order, rounds, after.view, sent_after);
    assert(sent_all(base, socket, env, told.view, sent, order, rounds, after.view, sent_after));
    assert(sent_after == sent + all_transmitted(socket, transmits_of_all(rounds)));
}

/// A connection that is asked first sends what waits, if it is up, and then gives
/// all that it has to report, as from its peer, and all that it has for its
/// endpoint, under its number.
pub proof fn law_polled_for_everything(
    a: QuicView,
    peer: SocketAddr,
    had: Polled,
    more: (Seq<ReportView>, Seq<EndpointEvent>),
    all: Polled,
    after: QuicView,
    i: int,
)
    requires
        a.connections.dom().contains(peer),
        a.polled_next(peer, had, more, all, after),
    ensures
        a.connections[peer].established ==> after.connections[peer].pending.len() == 0,
        all.reports.len() == had.reports.len() + more.0.len(),
        0 <= i < had.reports.len() ==> all.reports[i] == had.reports[i],
        0 <= i < more.0.len() ==> all.reports[had.reports.len() + i] == (peer, more.0[i]),
        all.events.len() == had.events.len() + more.1.len(),
        0 <= i < more.1.len() ==> all.events[had.events.len() + i] == (
            a.connections[peer].handle,
            more.1[i],
        ),
        exists|conn: Connection|
            #![trigger reports_of(conn)]
            more.0 == reports_of(conn) && more.1 == endpoint_events_of(conn) && (
            a.connections[peer].established ==> handed_over(
                a.connections[peer].conn,
                a.connections[peer].pending,
                conn,
            )) && (!a.connections[peer].established ==> conn == a.connections[peer].conn),
{
    let flushed = choose|flushed: QuicView| #[trigger]
        a.polled_by(peer, flushed, more.0, more.1, after);
    assert(a.polled_by(peer, flushed, more.0, more.1, after));
    let conn = flushed.connections[peer].conn;
    assert(more.0 == reports_of(conn));
}

/// What is to be sent to a peer waits at the end, and then the transport is
/// driven; or the peer cannot be reached, and nothing is sent.
pub proof fn law_queued_is_driven(
    a: QuicMachine,
    base: Instant,
    socket: SocketId,
    config: ClientConfig,
    env: EnvView,
    to: SocketAddr,
    payload: Seq<u8>,
    r: Result<(), QueueError>,
    after: QuicMachine,
    sent_after: Seq<(SocketId, SocketAddr, Seq<u8>)>,
)
    requires
        a.datagram_queued(base, socket, config, env, to, payload, r, after, sent_after),
    ensures
        r is Err ==> after.view == a.view && sent_after == env.sent,
        r is Ok ==> exists|ready: QuicMachine|
            {
                &&& #[trigger] ready.driven(base, socket, env, env.sent, after, sent_after)
                &&& ready.view.connections.dom().contains(to)
                &&& ready.view.connections[to].pending.len() > 0
                &&& ready.view.connections[to].pending.last() == payload
                &&& a.view.connections.dom().contains(to)
                    && a.view.connections[to].pending.len() < 1024
                    ==> ready.view.connections[to].pending == a.view.connections[to].pending.push(
                    payload,
                )
            },
{
    let (now, ready) = choose|now: u64, ready: QuicMachine| #[trigger]
        a.connection_ensured(base, now, config, to, r, ready) && env.reads(now) && match r {
            Ok(_) => (QuicMachine { view: ready.view.queued(to, payload), ..ready }).driven(
                base,
                socket,
                env,
                env.sent,
                after,
                sent_after,
            ),
            Err(_) => after == ready && sent_after == env.sent,
        };
    if r is Ok {
        let queued = QuicMachine { view: ready.view.queued(to, payload), ..ready };
        assert(queued.driven(base, socket, env, env.sent, after, sent_after));
    }
}

/// What came over the connections, and what happened to them, is handed out once,
/// the oldest first; a datagram on another socket is not the transport's; and the
/// deadline is that of the connection that is due first.
pub proof fn law_handed_out_once(
    a: OverlayQuicTransport,
    inbound: Seq<(SocketAddr, Vec<u8>)>,
    b: OverlayQuicTransport,
    events: Seq<TransportEvent>,
    c: OverlayQuicTransport,
    deadline: Option<u64>,
    d: OverlayQuicTransport,
    i: int,
    peer: SocketAddr,
)
    requires
        a.is_whole(),
        a.hands_out(inbound, &b),
        b.tells(events, &c),
        c.is_due(deadline, &d),
    ensures
        inbound.len() == a@.inbound.len(),
        0 <= i < inbound.len() ==> inbound[i].0 == a@.inbound[i].0 && inbound[i].1@
            == a@.inbound[i].1,
        events.len() == a@.events.len(),
        b@.inbound.len() == 0,
        c@.events.len() == 0,
        d@.connections == a@.connections,
        a@.connections.dom().contains(peer) ==> (due_of(
            a@.connections[peer].conn,
            a.base(),
        ) matches Some(at) ==> deadline is Some && deadline->0 <= at),
        deadline matches Some(at) ==> exists|first: SocketAddr| #[trigger]
            a@.connections.dom().contains(first) && due_of(
                a@.connections[first].conn,
                a.base(),
            ) == Some(at),
{
    let all = addressed(inbound);
    assert(all.len() == inbound.len());
    if 0 <= i < inbound.len() {
        assert(all[i] == a@.inbound[i]);
    }
    assert(transport_events(events).len() == events.len());
}

/// A datagram on another socket leaves the transport as it is.
pub proof fn law_other_sockets_are_left_alone(
    a: OverlayQuicTransport,
    env: EnvView,
    socket: SocketId,
    from: SocketAddr,
    datagram: Seq<u8>,
    b: OverlayQuicTransport,
    env_after: EnvView,
)
    requires
        a.is_whole(),
        socket != a.on_socket(),
        a.takes_datagram(env, socket, from, datagram, &b, env_after),
    ensures
        b.machine() == a.machine(),
        env_after == env,
{
}

/// What waits is counted over all the peers.
pub proof fn law_waiting_is_counted(
    connections: Map<SocketAddr, ConnView>,
    peers: Seq<SocketAddr>,
    peer: SocketAddr,
)
    ensures
        waiting_in(connections, Seq::empty()) == 0,
        waiting_in(connections, peers.push(peer)) == waiting_in(connections, peers)
            + connections[peer].pending.len(),
{
    assert(peers.push(peer).drop_last() =~= peers);
}

/// What a connection has for its endpoint is heard as long as the endpoint knows
/// the number; the last of it ends that, and an answer goes back to the connection.
pub proof fn law_endpoint_hears_of_connections(
    a: QuicMachine,
    handle: usize,
    event: EndpointEvent,
    after: QuicMachine,
)
    requires
        a.heard((handle, event), after),
    ensures
        !a.view.live.contains(handle as u64) ==> after == a,
        a.view.live.contains(handle as u64) ==> {
            &&& after.view.live == (if is_last(event) {
                a.view.live.remove(handle as u64)
            } else {
                a.view.live
            })
            &&& after.view.inbound == a.view.inbound
            &&& after.view.events == a.view.events
            &&& after.view.handles == a.view.handles
            &&& exists|answer: Option<ConnectionEvent>|
                {
                    &&& #[trigger] hears(a.endpoint, handle, event, answer, after.endpoint)
                    &&& answer is None ==> after.view.connections == a.view.connections
                    &&& answer is Some && a.view.handles.dom().contains(handle as u64)
                        && a.view.connections.dom().contains(a.view.handles[handle as u64])
                        ==> takes_event(
                        a.view.connections[a.view.handles[handle as u64]].conn,
                        answer->0,
                        after.view.connections[a.view.handles[handle as u64]].conn,
                    )
                }
        },
{
    if a.view.live.contains(handle as u64) {
        let answer = choose|answer: Option<ConnectionEvent>| #[trigger]
            a.heard_by(handle, event, answer, after);
        assert(a.heard_by(handle, event, answer, after));
        assert(hears(a.endpoint, handle, event, answer, after.endpoint));
    }
}

} // verus!
