//! The real transport: one QUIC connection to each peer, mutually
//! authenticated by certificates that carry Ed25519 keys, with unreliable
//! datagrams on top. It does no I/O: what it has to send goes out through the
//! environment.

use bytes::{Bytes, BytesMut};
use quinn_proto::{
    ClientConfig, ConnectError, Connection, ConnectionEvent, ConnectionHandle, DatagramEvent,
    Endpoint, EndpointEvent, Event, Incoming, SendDatagramError, Transmit,
};
use rustls::pki_types::CertificateDer;
use std::collections::{HashMap, HashSet, VecDeque};
use std::time::Instant;
use vstd::prelude::*;
use crate::addr::{IpAddr, SocketAddr};
use crate::codec::{bytes_views, copy_range};
use crate::ordmap::{OrdMap, Rank};
use crate::overlay::env::{EnvView, OverlayEnv, SocketId};
use crate::overlay::transport::{
    addressed,
    push_bounded,
    pushed_bounded,
    transport_event,
    transport_events,
    OverlayTransport,
    QueueError,
    TransportEvent,
    TransportEventView,
};
use crate::pubkey::Pubkey;
use crate::text::{find, find_from};

verus! {

/// How many datagrams one transmission may hold.
const MAX_DATAGRAMS_PER_TRANSMIT: usize = 1;

/// The name that servers are asked for; nobody checks it.
pub const OVERLAY_SERVER_NAME: &'static str = "localhost";

pub const MAX_CONNECTIONS: usize = 1024;

pub const MAX_PENDING_DATAGRAMS: usize = 1024;

pub const MAX_INBOUND_FRAMES: usize = 8192;

pub const MAX_TRANSPORT_EVENTS: usize = 1024;

/// How the key of an Ed25519 certificate is announced: its 32 bytes follow.
pub open spec fn key_header() -> Seq<u8> {
    seq![0x30u8, 0x2a, 0x30, 0x05, 0x06, 0x03, 0x2b, 0x65, 0x70, 0x03, 0x21, 0x00]
}

/// The Ed25519 key that a certificate is for, if it is for one.
pub open spec fn certificate_key(cert: Seq<u8>) -> Option<Pubkey> {
    match find_from(cert, key_header(), 0) {
        Some(at) if at + 44 <= cert.len() => Some(
            Pubkey::of_bytes(cert.subrange(at + 12, at + 44)),
        ),
        _ => None,
    }
}

/// The Ed25519 key that a certificate is for, if it is for one.
pub fn pubkey_from_certificate(cert: &[u8]) -> (r: Option<Pubkey>)
    ensures
        r == certificate_key(cert@),
{
    let header: [u8; 12] = [
        0x30,
        0x2a,
        0x30,
        0x05,
        0x06,
        0x03,
        0x2b,
        0x65,
        0x70,
        0x03,
        0x21,
        0x00,
    ];
    assert(header@ =~= key_header());
    let len: usize = cert.len();
    match find(cert, &header, 0) {
        Some(at) => {
            if len - at < 44 {
                return None;
            }
            let key = copy_range(cert, at + 12, at + 44);
            Some(Pubkey::from_bytes(&key))
        },
        None => None,
    }
}

/// A QUIC endpoint: it starts connections and tells datagrams apart.
#[verifier::external_type_specification]
#[verifier::external_body]
pub struct ExEndpoint(Endpoint);

/// One QUIC connection.
#[verifier::external_type_specification]
#[verifier::external_body]
pub struct ExConnection(Connection);

/// How connections are started.
#[verifier::external_type_specification]
#[verifier::external_body]
pub struct ExClientConfig(ClientConfig);

/// Why a connection could not be started.
#[verifier::external_type_specification]
#[verifier::external_body]
pub struct ExConnectError(ConnectError);

/// What an endpoint hands to a connection.
#[verifier::external_type_specification]
#[verifier::external_body]
pub struct ExConnectionEvent(ConnectionEvent);

/// What a connection hands to its endpoint.
#[verifier::external_type_specification]
#[verifier::external_body]
pub struct ExEndpointEvent(EndpointEvent);

/// A connection that a peer asks for.
#[verifier::external_type_specification]
#[verifier::external_body]
pub struct ExIncoming(Incoming);

/// A point in time.
#[verifier::external_type_specification]
#[verifier::external_body]
pub struct ExInstant(Instant);

/// An endpoint in std's form.
#[verifier::external_type_specification]
#[verifier::external_body]
pub struct ExStdSocketAddr(core::net::SocketAddr);

/// The address and port of a std endpoint.
pub uninterp spec fn std_addr_view(addr: core::net::SocketAddr) -> SocketAddr;

/// What a connection has counted on its path.
pub uninterp spec fn counts_of(conn: Connection) -> PathCounts;

/// Whether an endpoint has a connection of this number.
pub uninterp spec fn knows(endpoint: Endpoint, number: u64) -> bool;

/// Whether an endpoint that is asked to connect to `peer` can give `dialed` and
/// be `after` then.
pub uninterp spec fn dials(
    endpoint: Endpoint,
    base: Instant,
    now: u64,
    config: ClientConfig,
    peer: SocketAddr,
    server_name: Seq<char>,
    dialed: Option<(usize, Connection)>,
    after: Endpoint,
) -> bool;

/// Whether a datagram from `from` can lead an endpoint to `arrival`, and to
/// `after`.
pub uninterp spec fn led_to(
    endpoint: Endpoint,
    base: Instant,
    now: u64,
    from: SocketAddr,
    datagram: Seq<u8>,
    arrival: Option<QuicArrival>,
    after: Endpoint,
) -> bool;

/// Whether an endpoint that turns a peer down can answer with `answer` and be
/// `after` then.
pub uninterp spec fn refuses(
    endpoint: Endpoint,
    incoming: Incoming,
    answer: TransmitView,
    after: Endpoint,
) -> bool;

/// Whether an endpoint that takes a peer up can come to `r` and be `after`
/// then.
pub uninterp spec fn accepts(
    endpoint: Endpoint,
    base: Instant,
    now: u64,
    incoming: Incoming,
    r: Result<(usize, Connection), Option<TransmitView>>,
    after: Endpoint,
) -> bool;

/// Whether an endpoint that hears of an event of a connection can have `answer`
/// for it and be `after` then.
pub uninterp spec fn hears(
    endpoint: Endpoint,
    number: usize,
    event: EndpointEvent,
    answer: Option<ConnectionEvent>,
    after: Endpoint,
) -> bool;

/// Whether an event is the last of its connection.
pub uninterp spec fn is_last(event: EndpointEvent) -> bool;

/// Whether a connection that is handed a datagram can come to `r` and be
/// `after` then.
pub uninterp spec fn takes_payload(
    conn: Connection,
    payload: Seq<u8>,
    r: SendOutcome,
    after: Connection,
) -> bool;

/// Whether a connection that is asked what it has to report can give `report`
/// and be `after` then.
pub uninterp spec fn gives_report(
    conn: Connection,
    report: Option<ReportView>,
    after: Connection,
) -> bool;

/// Whether a connection that is asked what it has for its endpoint can give
/// `event` and be `after` then.
pub uninterp spec fn gives_event(
    conn: Connection,
    event: Option<EndpointEvent>,
    after: Connection,
) -> bool;

/// Whether a connection that is asked for a datagram can give `frame` and be
/// `after` then.
pub uninterp spec fn gives_frame(
    conn: Connection,
    frame: Option<Seq<u8>>,
    after: Connection,
) -> bool;

/// Whether a connection that is asked at `now` for one datagram can want
/// `transmit` sent and be `after` then.
pub uninterp spec fn gives_out(
    conn: Connection,
    base: Instant,
    now: u64,
    transmit: Option<TransmitView>,
    after: Connection,
) -> bool;

/// The first certificate of a connection's peer, once the handshake has brought
/// it.
pub uninterp spec fn certificate_of(conn: Connection) -> Option<Seq<u8>>;

/// What a connection has to report, the oldest first.
pub uninterp spec fn reports_of(conn: Connection) -> Seq<ReportView>;

/// The datagrams that came over a connection and were not taken yet, the
/// oldest first.
pub uninterp spec fn received_of(conn: Connection) -> Seq<Seq<u8>>;

/// What a connection has for its endpoint, the oldest first.
pub uninterp spec fn endpoint_events_of(conn: Connection) -> Seq<EndpointEvent>;

/// When the next timer of a connection is due, in nanoseconds after `base`.
pub uninterp spec fn due_of(conn: Connection, base: Instant) -> Option<u64>;

/// A connection once its timers have fired that are due at `now`.
pub uninterp spec fn timed_out(conn: Connection, base: Instant, now: u64) -> Connection;

/// Whether `after` is what a connection can come to when it takes an event of
/// its endpoint in.
pub uninterp spec fn takes_event(
    conn: Connection,
    event: ConnectionEvent,
    after: Connection,
) -> bool;

/// Whether an endpoint waits to be told what becomes of a peer that asks for a
/// connection.
pub uninterp spec fn waits_on(endpoint: Endpoint, incoming: Incoming) -> bool;

/// Where a peer that asks for a connection is.
pub uninterp spec fn incoming_from(incoming: Incoming) -> SocketAddr;

/// `core::net::SocketAddr::new`, with the address built from the number that
/// its octets spell: a std endpoint with this address and port.
#[verifier::external_body]
fn to_std(addr: SocketAddr) -> (r: core::net::SocketAddr)
    ensures
        std_addr_view(r) == addr,
{
    let ip: core::net::IpAddr = match addr.ip {
        IpAddr::V4(n) => core::net::Ipv4Addr::from(n).into(),
        IpAddr::V6(n) => core::net::Ipv6Addr::from(n).into(),
    };
    core::net::SocketAddr::new(ip, addr.port)
}

/// `core::net::SocketAddr`'s `ip` and `port`: the address and port of a std
/// endpoint.
#[verifier::external_body]
fn from_std(addr: core::net::SocketAddr) -> (r: SocketAddr)
    ensures
        r == std_addr_view(addr),
{
    let ip = match addr.ip() {
        core::net::IpAddr::V4(ip) => IpAddr::V4(ip.into()),
        core::net::IpAddr::V6(ip) => IpAddr::V6(ip.into()),
    };
    SocketAddr { ip, port: addr.port() }
}

/// Bytes that QUIC wants sent: the first `size` of a buffer, in segments if
/// there is a segment size.
pub struct QuicTransmit {
    pub destination: core::net::SocketAddr,
    pub size: usize,
    pub segment_size: Option<usize>,
    pub buffer: Vec<u8>,
}

/// Bytes to send as the contracts speak of them.
pub struct TransmitView {
    pub destination: SocketAddr,
    pub bytes: Seq<u8>,
    pub segment_size: Option<usize>,
}

/// How many of the first `size` bytes of a buffer there are.
pub open spec fn within(size: usize, buffer: Seq<u8>) -> int {
    if size <= buffer.len() {
        size as int
    } else {
        buffer.len() as int
    }
}

impl QuicTransmit {
    pub open spec fn view(&self) -> TransmitView {
        TransmitView {
            destination: std_addr_view(self.destination),
            bytes: self.buffer@.take(within(self.size, self.buffer@)),
            segment_size: self.segment_size,
        }
    }
}

pub open spec fn maybe_transmit(transmit: Option<QuicTransmit>) -> Option<TransmitView> {
    match transmit {
        Some(transmit) => Some(transmit@),
        None => None,
    }
}

/// What became of a datagram that reached the endpoint.
pub enum QuicArrival {
    ToConnection(usize, ConnectionEvent),
    NewConnection(Incoming),
    Response(QuicTransmit),
}

/// What a connection reports.
#[derive(Debug)]
pub enum QuicEvent {
    HandshakeDataReady,
    Connected,
    DatagramReceived,
    DatagramsUnblocked,
    ConnectionLost { reason: String },
    Stream,
}

/// A report as the contracts speak of it.
pub enum ReportView {
    HandshakeDataReady,
    Connected,
    DatagramReceived,
    DatagramsUnblocked,
    ConnectionLost { reason: Seq<char> },
    Stream,
}

impl QuicEvent {
    pub open spec fn view(&self) -> ReportView {
        match self {
            QuicEvent::HandshakeDataReady => ReportView::HandshakeDataReady,
            QuicEvent::Connected => ReportView::Connected,
            QuicEvent::DatagramReceived => ReportView::DatagramReceived,
            QuicEvent::DatagramsUnblocked => ReportView::DatagramsUnblocked,
            QuicEvent::ConnectionLost { reason } => ReportView::ConnectionLost { reason: reason@ },
            QuicEvent::Stream => ReportView::Stream,
        }
    }
}

pub open spec fn report_view(event: Option<QuicEvent>) -> Option<ReportView> {
    match event {
        Some(event) => Some(event@),
        None => None,
    }
}

pub open spec fn frame_view(frame: Option<Vec<u8>>) -> Option<Seq<u8>> {
    match frame {
        Some(frame) => Some(frame@),
        None => None,
    }
}

/// What became of a datagram that was handed to a connection.
#[derive(Clone, Copy, Debug, PartialEq, Eq, Structural)]
pub enum SendOutcome {
    Sent,
    Blocked,
    Refused,
}

/// An address that can be dialed: it has a port and is not unspecified.
pub open spec fn dialable(addr: SocketAddr) -> bool {
    addr.port != 0 && addr.ip != IpAddr::V4(0) && addr.ip != IpAddr::V6(0)
}

/// The connection that was started, if one was.
pub open spec fn dialed_with(r: Result<(usize, Connection), ConnectError>) -> Option<
    (usize, Connection),
> {
    match r {
        Ok(started) => Some(started),
        Err(_) => None,
    }
}

/// `Endpoint::connect`: starts a connection, or says why it cannot. It cannot to
/// port zero or to an unspecified address. That it can to any other is not
/// claimed: it rests on the endpoint's connection ids and on the configuration,
/// and the handshake draws keys by chance. The endpoint knows the connection by
/// its number then, and those that it knew.
#[verifier::external_body]
fn start_connection(
    endpoint: &mut Endpoint,
    base: Instant,
    now: u64,
    config: &ClientConfig,
    peer: core::net::SocketAddr,
    server_name: &str,
) -> (r: Result<(usize, Connection), ConnectError>)
    ensures
        dials(
            *old(endpoint),
            base,
            now,
            *config,
            std_addr_view(peer),
            server_name@,
            dialed_with(r),
            *final(endpoint),
        ),
        r matches Ok(started) ==> knows(*final(endpoint), started.0 as u64),
        forall|n: u64| knows(*old(endpoint), n) ==> #[trigger] knows(*final(endpoint), n),
        !dialable(std_addr_view(peer)) ==> r is Err,
{
    let now = base + std::time::Duration::from_nanos(now);
    let (handle, conn) = endpoint.connect(now, config.clone(), peer, server_name)?;
    Ok((handle.0, conn))
}

/// `Endpoint::handle`: takes in a datagram, and says where it leads. A peer that
/// asks for a connection is where the datagram came from, and the endpoint waits
/// to be told about it; an answer goes there. Which of these it is, is not
/// claimed: it rests on the connections that the endpoint knows, on their keys,
/// and on the time for a token. It forgets no connection.
#[verifier::external_body]
fn take_in(
    endpoint: &mut Endpoint,
    base: Instant,
    now: u64,
    from: core::net::SocketAddr,
    datagram: &[u8],
) -> (r: Option<QuicArrival>)
    ensures
        led_to(
            *old(endpoint),
            base,
            now,
            std_addr_view(from),
            datagram@,
            r,
            *final(endpoint),
        ),
        forall|n: u64| knows(*old(endpoint), n) ==> #[trigger] knows(*final(endpoint), n),
        r matches Some(QuicArrival::NewConnection(incoming)) ==> incoming_from(incoming)
            == std_addr_view(from) && waits_on(*final(endpoint), incoming),
        r matches Some(QuicArrival::Response(answer)) ==> std_addr_view(answer.destination)
            == std_addr_view(from),
{
    let now = base + std::time::Duration::from_nanos(now);
    let mut buffer = Vec::new();
    match endpoint.handle(now, from, None, None, BytesMut::from(datagram), &mut buffer)? {
        DatagramEvent::ConnectionEvent(handle, event) => {
            Some(QuicArrival::ToConnection(handle.0, event))
        },
        DatagramEvent::NewConnection(incoming) => Some(QuicArrival::NewConnection(incoming)),
        DatagramEvent::Response(Transmit { destination, size, segment_size, .. }) => Some(
            QuicArrival::Response(QuicTransmit { destination, size, segment_size, buffer }),
        ),
    }
}

/// `Incoming::remote_address`: where the peer is.
#[verifier::external_body]
fn incoming_address(incoming: &Incoming) -> (r: core::net::SocketAddr)
    ensures
        std_addr_view(r) == incoming_from(*incoming),
{
    incoming.remote_address()
}

/// `Endpoint::refuse`: turns a connection down, and gives the answer to send to
/// the peer. It forgets no connection.
#[verifier::external_body]
fn refuse_incoming(endpoint: &mut Endpoint, incoming: Incoming) -> (r: QuicTransmit)
    requires
        waits_on(*old(endpoint), incoming),
    ensures
        refuses(*old(endpoint), incoming, r@, *final(endpoint)),
        forall|n: u64| knows(*old(endpoint), n) ==> #[trigger] knows(*final(endpoint), n),
        std_addr_view(r.destination) == incoming_from(incoming),
{
    let mut buffer = Vec::new();
    let Transmit { destination, size, segment_size, .. } = endpoint.refuse(incoming, &mut buffer);
    QuicTransmit { destination, size, segment_size, buffer }
}

/// What taking a peer up came to.
pub open spec fn acceptance(r: Result<(usize, Connection), Option<QuicTransmit>>) -> Result<
    (usize, Connection),
    Option<TransmitView>,
> {
    match r {
        Ok(started) => Ok(started),
        Err(answer) => Err(maybe_transmit(answer)),
    }
}

/// `Endpoint::accept`: takes a connection up, or fails and gives the answer to
/// send to the peer, if there is one. Which it is, is not claimed: it rests on
/// the peer's first packet and on the handshake that it starts. The endpoint
/// knows the connection by its number then, and those that it knew.
#[verifier::external_body]
fn accept_incoming(endpoint: &mut Endpoint, incoming: Incoming, base: Instant, now: u64) -> (r:
    Result<(usize, Connection), Option<QuicTransmit>>)
    requires
        waits_on(*old(endpoint), incoming),
    ensures
        accepts(*old(endpoint), base, now, incoming, acceptance(r), *final(endpoint)),
        r matches Ok(started) ==> knows(*final(endpoint), started.0 as u64),
        forall|n: u64| knows(*old(endpoint), n) ==> #[trigger] knows(*final(endpoint), n),
        r matches Err(Some(answer)) ==> std_addr_view(answer.destination) == incoming_from(
            incoming,
        ),
{
    let now = base + std::time::Duration::from_nanos(now);
    let mut buffer = Vec::new();
    match endpoint.accept(incoming, now, &mut buffer, None) {
        Ok((handle, conn)) => Ok((handle.0, conn)),
        Err(error) => Err(error.response.map(|Transmit { destination, size, segment_size, .. }| {
            QuicTransmit { destination, size, segment_size, buffer }
        })),
    }
}

/// `Endpoint::handle_event`: tells the endpoint what a connection raised, and
/// gives what the connection has to know in turn. The endpoint looks the
/// number up, so it has to know it. It forgets the number after the last event
/// of a connection, and no other.
#[verifier::external_body]
fn tell_endpoint(endpoint: &mut Endpoint, handle: usize, event: EndpointEvent) -> (r: Option<
    ConnectionEvent,
>)
    requires
        knows(*old(endpoint), handle as u64),
    ensures
        hears(*old(endpoint), handle, event, r, *final(endpoint)),
        forall|n: u64|
            knows(*old(endpoint), n) && (n != handle || !is_last(event)) ==> #[trigger] knows(
                *final(endpoint),
                n,
            ),
{
    endpoint.handle_event(ConnectionHandle(handle), event)
}

/// `EndpointEvent::is_drained`: whether the event is the last of its connection.
#[verifier::external_body]
fn ends_connection(event: &EndpointEvent) -> (r: bool)
    ensures
        r == is_last(*event),
{
    event.is_drained()
}

/// `Connection::handle_event`: tells a connection what its endpoint has for
/// it. The connection has then taken that event in. What it comes to is not
/// claimed to be a function of the two: the handshake draws keys by chance.
#[verifier::external_body]
fn tell_connection(conn: &mut Connection, event: ConnectionEvent)
    ensures
        takes_event(*old(conn), event, *final(conn)),
{
    conn.handle_event(event)
}

/// `Connection::poll`: hands out the oldest of what a connection has to report.
/// What it has for its endpoint stays.
#[verifier::external_body]
fn poll_connection(conn: &mut Connection) -> (r: Option<QuicEvent>)
    ensures
        gives_report(*old(conn), report_view(r), *final(conn)),
        endpoint_events_of(*final(conn)) == endpoint_events_of(*old(conn)),
        match r {
            Some(event) => {
                &&& reports_of(*old(conn)).len() > 0
                &&& event@ == reports_of(*old(conn))[0]
                &&& reports_of(*final(conn)) == reports_of(*old(conn)).skip(1)
            },
            None => reports_of(*old(conn)).len() == 0,
        },
{
    Some(match conn.poll()? {
        Event::HandshakeDataReady => QuicEvent::HandshakeDataReady,
        Event::Connected => QuicEvent::Connected,
        Event::DatagramReceived => QuicEvent::DatagramReceived,
        Event::DatagramsUnblocked => QuicEvent::DatagramsUnblocked,
        Event::ConnectionLost { reason } => QuicEvent::ConnectionLost { reason: reason.to_string() },
        Event::Stream(_) => QuicEvent::Stream,
    })
}

/// `Connection::poll_endpoint_events`: hands out the oldest of what a connection
/// has for its endpoint.
#[verifier::external_body]
fn poll_for_endpoint(conn: &mut Connection) -> (r: Option<EndpointEvent>)
    ensures
        gives_event(*old(conn), r, *final(conn)),
        match r {
            Some(event) => {
                &&& endpoint_events_of(*old(conn)).len() > 0
                &&& event == endpoint_events_of(*old(conn))[0]
                &&& endpoint_events_of(*final(conn)) == endpoint_events_of(*old(conn)).skip(1)
            },
            None => endpoint_events_of(*old(conn)).len() == 0 && endpoint_events_of(
                *final(conn),
            ).len() == 0,
        },
{
    conn.poll_endpoint_events()
}

/// `Connection::poll_transmit`: the next bytes to send, of at most
/// `max_datagrams` datagrams, here one. They are not claimed to be a function of
/// the connection and the time: the tokens that a server hands out in them hold
/// the time of its wall clock.
#[verifier::external_body]
fn poll_transmit(conn: &mut Connection, base: Instant, now: u64, max_datagrams: usize) -> (r:
    Option<QuicTransmit>)
    requires
        max_datagrams == 1,
    ensures
        gives_out(*old(conn), base, now, maybe_transmit(r), *final(conn)),
{
    let now = base + std::time::Duration::from_nanos(now);
    let mut buffer = Vec::new();
    let Transmit { destination, size, segment_size, .. } = conn.poll_transmit(
        now,
        max_datagrams,
        &mut buffer,
    )?;
    Some(QuicTransmit { destination, size, segment_size, buffer })
}

/// `Connection::poll_timeout`: when the connection's next timer is due, in
/// nanoseconds after `base`. It only looks.
#[verifier::external_body]
fn connection_due(conn: &mut Connection, base: Instant) -> (r: Option<u64>)
    ensures
        *final(conn) == *old(conn),
        r == due_of(*old(conn), base),
{
    Some(conn.poll_timeout()?.saturating_duration_since(base).as_nanos() as u64)
}

/// `Connection::handle_timeout`: fires the timers of a connection that are
/// due at `now`. What that makes of it is a function of its state and the time.
#[verifier::external_body]
fn fire_connection(conn: &mut Connection, base: Instant, now: u64)
    ensures
        *final(conn) == timed_out(*old(conn), base, now),
{
    conn.handle_timeout(base + std::time::Duration::from_nanos(now))
}

/// `Datagrams::recv`: hands out the oldest datagram that came over a connection.
#[verifier::external_body]
fn receive_datagram(conn: &mut Connection) -> (r: Option<Vec<u8>>)
    ensures
        gives_frame(*old(conn), frame_view(r), *final(conn)),
        match r {
            Some(frame) => {
                &&& received_of(*old(conn)).len() > 0
                &&& frame@ == received_of(*old(conn))[0]
                &&& received_of(*final(conn)) == received_of(*old(conn)).skip(1)
            },
            None => received_of(*old(conn)).len() == 0 && received_of(*final(conn)).len() == 0,
        },
{
    Some(conn.datagrams().recv()?.to_vec())
}

/// `Datagrams::send`, dropping older unsent datagrams where there is no room:
/// the datagram is taken, or it cannot be sent over this connection. It is never
/// held up for want of room. Whether it can be sent is not claimed: it rests on
/// what the peer takes and on the path.
#[verifier::external_body]
fn send_datagram(conn: &mut Connection, payload: &Vec<u8>) -> (r: SendOutcome)
    ensures
        takes_payload(*old(conn), payload@, r, *final(conn)),
        r != SendOutcome::Blocked,
{
    match conn.datagrams().send(Bytes::copy_from_slice(payload), true) {
        Ok(()) => SendOutcome::Sent,
        Err(SendDatagramError::Blocked(_)) => SendOutcome::Blocked,
        Err(_) => SendOutcome::Refused,
    }
}

/// `Session::peer_identity`, which for rustls is the certificate chain of the
/// peer: its first certificate, once there is one.
#[verifier::external_body]
fn peer_certificate(conn: &Connection) -> (r: Option<Vec<u8>>)
    ensures
        r is Some <==> certificate_of(*conn) is Some,
        r matches Some(cert) ==> certificate_of(*conn) == Some(cert@),
{
    let identity = conn.crypto_session().peer_identity()?;
    let certs = identity.downcast::<Vec<CertificateDer<'static>>>().ok()?;
    Some(certs.first()?.as_ref().to_vec())
}

/// What a connection has counted on the path that it takes.
#[derive(Clone, Copy, Debug, PartialEq, Eq, Structural)]
pub struct PathCounts {
    pub congestion_events: u64,
    pub lost_packets: u64,
    pub lost_bytes: u64,
    pub sent_packets: u64,
}

/// `Connection::stats`, of which its counts of the path: they are part of the
/// connection's state.
#[verifier::external_body]
fn path_counts(conn: &Connection) -> (r: PathCounts)
    ensures
        r == counts_of(*conn),
{
    let path = conn.stats().path;
    PathCounts {
        congestion_events: path.congestion_events,
        lost_packets: path.lost_packets,
        lost_bytes: path.lost_bytes,
        sent_packets: path.sent_packets,
    }
}

/// Who a connection's peer is, as far as its certificate tells.
pub open spec fn identity_of(conn: Connection) -> Option<Pubkey> {
    match certificate_of(conn) {
        Some(cert) => certificate_key(cert),
        None => None,
    }
}

/// A connection as the contracts speak of it.
#[verifier::ext_equal]
pub struct ConnView {
    pub handle: usize,
    pub conn: Connection,
    pub established: bool,
    pub pubkey: Option<Pubkey>,
    /// What waits to be sent.
    pub pending: Seq<Seq<u8>>,
}

/// A transport as the contracts speak of it.
#[verifier::ext_equal]
pub struct QuicView {
    pub connections: Map<SocketAddr, ConnView>,
    pub handles: Map<u64, SocketAddr>,
    /// The numbers of the connections that the endpoint is told of.
    pub live: Set<u64>,
    pub inbound: Seq<(SocketAddr, Seq<u8>)>,
    pub events: Seq<TransportEventView>,
}

/// A connection goes from `conn` to `after` as it is handed `payloads`, one
/// after the other. Each is taken, or cannot be sent over it.
pub open spec fn handed_over(conn: Connection, payloads: Seq<Seq<u8>>, after: Connection) -> bool
    decreases payloads.len(),
{
    if payloads.len() == 0 {
        after == conn
    } else {
        exists|mid: Connection, r: SendOutcome|
            handed_over(conn, payloads.drop_last(), mid) && #[trigger] takes_payload(
                mid,
                payloads.last(),
                r,
                after,
            ) && r != SendOutcome::Blocked
    }
}

/// A connection goes from `conn` to `after` as it gives the reports of `list`, one after the
/// other.
pub open spec fn gave_reports(conn: Connection, list: Seq<ReportView>, after: Connection) -> bool
    decreases list.len(),
{
    if list.len() == 0 {
        after == conn
    } else {
        exists|mid: Connection|
            gave_reports(conn, list.drop_last(), mid) && #[trigger] gives_report(
                mid,
                Some(list.last()),
                after,
            )
    }
}

/// A connection goes from `conn` to `after` as it gives the events of `list`, one after the
/// other.
pub open spec fn gave_events(conn: Connection, list: Seq<EndpointEvent>, after: Connection) -> bool
    decreases list.len(),
{
    if list.len() == 0 {
        after == conn
    } else {
        exists|mid: Connection|
            gave_events(conn, list.drop_last(), mid) && #[trigger] gives_event(
                mid,
                Some(list.last()),
                after,
            )
    }
}

/// A connection goes from `conn` to `after` as it gives the datagrams of `list`, one after the
/// other.
pub open spec fn gave_frames(conn: Connection, list: Seq<Seq<u8>>, after: Connection) -> bool
    decreases list.len(),
{
    if list.len() == 0 {
        after == conn
    } else {
        exists|mid: Connection|
            gave_frames(conn, list.drop_last(), mid) && #[trigger] gives_frame(
                mid,
                Some(list.last()),
                after,
            )
    }
}

/// A connection goes from `conn` to `after` as it gives all of its reports and
/// then all that it has for its endpoint, until there is no more.
pub open spec fn emptied_by(
    conn: Connection,
    reports: Seq<ReportView>,
    told: Connection,
    quiet: Connection,
    events: Seq<EndpointEvent>,
    raised: Connection,
    after: Connection,
) -> bool {
    &&& gave_reports(conn, reports, told)
    &&& gives_report(told, None, quiet)
    &&& gave_events(quiet, events, raised)
    &&& gives_event(raised, None, after)
}

pub open spec fn is_emptied(
    conn: Connection,
    reports: Seq<ReportView>,
    events: Seq<EndpointEvent>,
    after: Connection,
) -> bool {
    exists|told: Connection, quiet: Connection, raised: Connection| #[trigger]
        emptied_by(conn, reports, told, quiet, events, raised, after)
}

/// A connection goes from `conn` to `after` as it gives all datagrams that came
/// over it, until there is no more.
pub open spec fn is_read(conn: Connection, frames: Seq<Seq<u8>>, after: Connection) -> bool {
    exists|read: Connection| #[trigger]
        gives_frame(read, None, after) && gave_frames(conn, frames, read)
}

/// A connection goes from `conn` to `after` as it is asked at `now` for what it
/// wants sent, over and over, and gives `results`.
pub open spec fn gave_out(
    conn: Connection,
    base: Instant,
    now: u64,
    results: Seq<Option<TransmitView>>,
    after: Connection,
) -> bool
    decreases results.len(),
{
    if results.len() == 0 {
        after == conn
    } else {
        exists|mid: Connection|
            gave_out(conn, base, now, results.drop_last(), mid) && #[trigger] gives_out(
                mid,
                base,
                now,
                results.last(),
                after,
            )
    }
}

/// The transmissions among what a connection gave.
pub open spec fn transmits_in(results: Seq<Option<TransmitView>>) -> Seq<TransmitView>
    decreases results.len(),
{
    if results.len() == 0 {
        Seq::empty()
    } else {
        let rest = transmits_in(results.drop_last());
        match results.last() {
            Some(transmit) => rest.push(transmit),
            None => rest,
        }
    }
}

/// What the connection to one peer gave when it was asked at one time.
pub struct Batch {
    pub peer: SocketAddr,
    pub now: u64,
    pub results: Seq<Option<TransmitView>>,
}

/// The transmissions of batches, in order.
pub open spec fn transmits_of(batches: Seq<Batch>) -> Seq<TransmitView>
    decreases batches.len(),
{
    if batches.len() == 0 {
        Seq::empty()
    } else {
        transmits_of(batches.drop_last()) + transmits_in(batches.last().results)
    }
}

/// A connection was asked for what it wants sent until it had no more, or as
/// often as can be counted.
pub open spec fn is_asked_out(results: Seq<Option<TransmitView>>) -> bool {
    &&& 0 < results.len() <= u64::MAX
    &&& forall|i: int| 0 <= i < results.len() - 1 ==> (#[trigger] results[i]) is Some
    &&& results.last() is None || results.len() == u64::MAX
}

/// The connections to `peers` were asked out at `now`, one after the other.
pub open spec fn is_round(peers: Seq<SocketAddr>, now: u64, batches: Seq<Batch>) -> bool {
    &&& batches.len() == peers.len()
    &&& forall|i: int|
        0 <= i < batches.len() ==> {
            &&& (#[trigger] batches[i]).peer == peers[i]
            &&& batches[i].now == now
            &&& is_asked_out(batches[i].results)
        }
}

/// The transmissions of rounds, in order.
pub open spec fn transmits_of_all(rounds: Seq<Seq<Batch>>) -> Seq<TransmitView>
    decreases rounds.len(),
{
    if rounds.len() == 0 {
        Seq::empty()
    } else {
        transmits_of_all(rounds.drop_last()) + transmits_of(rounds.last())
    }
}

/// There is one round after another until one in which there is nothing to
/// send, or as many as can be counted.
pub open spec fn is_flush(rounds: Seq<Seq<Batch>>) -> bool {
    &&& 0 < rounds.len() <= u64::MAX
    &&& forall|i: int|
        0 <= i < rounds.len() - 1 ==> transmits_of(#[trigger] rounds[i]).len() > 0
    &&& transmits_of(rounds.last()).len() == 0 || rounds.len() == u64::MAX
}

impl ConnView {
    pub open spec fn fresh(handle: usize, conn: Connection) -> Self {
        ConnView { handle, conn, established: false, pubkey: None, pending: Seq::empty() }
    }

    /// `after` is this connection once what waits has been handed over, in
    /// order. Nothing is before the connection is up.
    pub open spec fn flushes(self, after: Self) -> bool {
        if self.established {
            handed_over(self.conn, self.pending, after.conn) && after == (ConnView {
                conn: after.conn,
                pending: Seq::empty(),
                ..self
            })
        } else {
            after == self
        }
    }
}

/// Reports of one connection.
pub open spec fn reports_from(peer: SocketAddr, reports: Seq<ReportView>) -> Seq<
    (SocketAddr, ReportView),
> {
    Seq::new(reports.len(), |i: int| (peer, reports[i]))
}

/// The peers of a table, in order.
pub open spec fn peers_in_order(
    connections: Map<SocketAddr, ConnView>,
    peers: Seq<SocketAddr>,
) -> bool {
    &&& forall|i: int, j: int| 0 <= i < j < peers.len() ==> peers[i].rank() < peers[j].rank()
    &&& forall|peer: SocketAddr| #[trigger]
        peers.contains(peer) <==> connections.dom().contains(peer)
}

impl QuicView {
    pub open spec fn empty() -> Self {
        QuicView {
            connections: Map::empty(),
            handles: Map::empty(),
            live: Set::empty(),
            inbound: Seq::empty(),
            events: Seq::empty(),
        }
    }

    /// The endpoint knows the connections that it is told of.
    pub open spec fn known_by(self, endpoint: Endpoint) -> bool {
        forall|n: u64| #[trigger] self.live.contains(n) ==> knows(endpoint, n)
    }

    /// No more connections, events and datagrams than there may be.
    pub open spec fn bounded(self) -> bool {
        &&& self.connections.dom().finite()
        &&& self.connections.dom().len() <= MAX_CONNECTIONS
        &&& self.inbound.len() <= MAX_INBOUND_FRAMES
        &&& self.events.len() <= MAX_TRANSPORT_EVENTS
        &&& forall|peer: SocketAddr| #[trigger]
            self.connections.dom().contains(peer) ==> self.connections[peer].pending.len()
                <= MAX_PENDING_DATAGRAMS
    }

    pub open spec fn with_connection(self, peer: SocketAddr, conn: ConnView) -> Self {
        QuicView { connections: self.connections.insert(peer, conn), ..self }
    }

    pub open spec fn with_conn(self, peer: SocketAddr, conn: Connection) -> Self {
        self.with_connection(peer, ConnView { conn, ..self.connections[peer] })
    }

    /// `after` is this transport but for the inner state of its connections.
    pub open spec fn rewired(self, after: Self) -> bool {
        &&& after == (QuicView { connections: after.connections, ..self })
        &&& after.connections.dom() == self.connections.dom()
        &&& forall|peer: SocketAddr| #[trigger]
            after.connections.dom().contains(peer) ==> after.connections[peer] == (ConnView {
                conn: after.connections[peer].conn,
                ..self.connections[peer]
            })
    }

    /// A connection to `peer` has been started.
    pub open spec fn started(self, peer: SocketAddr, handle: usize, conn: Connection) -> Self {
        QuicView {
            connections: self.connections.insert(peer, ConnView::fresh(handle, conn)),
            handles: self.handles.insert(handle as u64, peer),
            live: self.live.insert(handle as u64),
            ..self
        }
    }

    /// The handshake has told who `peer` is, or that nothing is known of it.
    pub open spec fn identified(self, peer: SocketAddr) -> Self {
        let conn = self.connections[peer];
        self.with_connection(peer, ConnView { pubkey: identity_of(conn.conn), ..conn })
    }

    /// The connection to `peer` is up. Who it is stays what the handshake told,
    /// if it told anything.
    pub open spec fn connected(self, peer: SocketAddr) -> Self {
        let conn = self.connections[peer];
        let pubkey = if conn.pubkey is None {
            identity_of(conn.conn)
        } else {
            conn.pubkey
        };
        QuicView {
            events: pushed_bounded(
                self.events,
                TransportEventView::Connected { peer, pubkey },
                MAX_TRANSPORT_EVENTS as int,
            ),
            ..self.with_connection(peer, ConnView { established: true, pubkey, ..conn })
        }
    }

    /// `after` is this transport once what waits for `peer` has been handed
    /// over. Nothing is handed over before the connection is up.
    pub open spec fn flushes_to(self, peer: SocketAddr, after: Self) -> bool {
        &&& self.connections[peer].flushes(after.connections[peer])
        &&& after == self.with_connection(peer, after.connections[peer])
    }

    /// Datagrams from `peer` have come in.
    pub open spec fn received(self, peer: SocketAddr, frames: Seq<Seq<u8>>) -> Self
        decreases frames.len(),
    {
        if frames.len() == 0 {
            self
        } else {
            let rest = self.received(peer, frames.drop_last());
            QuicView {
                inbound: pushed_bounded(
                    rest.inbound,
                    (peer, frames.last()),
                    MAX_INBOUND_FRAMES as int,
                ),
                ..rest
            }
        }
    }

    /// `after` is this transport once all that came over the connection to
    /// `peer` has been taken.
    pub open spec fn receives_to(self, peer: SocketAddr, after: Self) -> bool {
        exists|conn: Connection|
            {
                &&& (#[trigger] received_of(conn)).len() == 0
                &&& is_read(
                    self.connections[peer].conn,
                    received_of(self.connections[peer].conn),
                    conn,
                )
                &&& after == self.with_conn(peer, conn).received(
                    peer,
                    received_of(self.connections[peer].conn),
                )
            }
    }

    /// The connection to `peer` is lost.
    pub open spec fn lost(self, peer: SocketAddr, reason: Seq<char>) -> Self {
        QuicView {
            connections: self.connections.remove(peer),
            handles: self.handles.remove(self.connections[peer].handle as u64),
            events: pushed_bounded(
                self.events,
                TransportEventView::Disconnected { peer, reason },
                MAX_TRANSPORT_EVENTS as int,
            ),
            ..self
        }
    }

    /// A datagram for `peer` waits to be sent; the oldest makes room.
    pub open spec fn queued(self, peer: SocketAddr, payload: Seq<u8>) -> Self {
        let conn = self.connections[peer];
        self.with_connection(
            peer,
            ConnView {
                pending: pushed_bounded(conn.pending, payload, MAX_PENDING_DATAGRAMS as int),
                ..conn
            },
        )
    }

    /// `after` is this transport once the connection to `peer` has reported
    /// `report`.
    pub open spec fn event_seen(self, peer: SocketAddr, report: ReportView, after: Self) -> bool {
        if !self.connections.dom().contains(peer) {
            after == self
        } else {
            match report {
                ReportView::HandshakeDataReady => after == self.identified(peer),
                ReportView::Connected => self.connected(peer).flushes_to(peer, after),
                ReportView::DatagramReceived => self.receives_to(peer, after),
                ReportView::DatagramsUnblocked => self.flushes_to(peer, after),
                ReportView::ConnectionLost { reason } => after == self.lost(peer, reason),
                ReportView::Stream => after == self,
            }
        }
    }

    /// `after` is this transport once `reports` have been seen to, one after
    /// the other.
    pub open spec fn all_seen(self, reports: Seq<(SocketAddr, ReportView)>, after: Self) -> bool
        decreases reports.len(),
    {
        if reports.len() == 0 {
            after == self
        } else {
            exists|mid: Self|
                self.all_seen(reports.drop_last(), mid) && #[trigger] mid.event_seen(
                    reports.last().0,
                    reports.last().1,
                    after,
                )
        }
    }

    /// What waits for `peer` is handed over, which leads to `flushed`; then the
    /// connection gives `reports`, and `events` for its endpoint.
    pub open spec fn polled_by(
        self,
        peer: SocketAddr,
        flushed: Self,
        reports: Seq<ReportView>,
        events: Seq<EndpointEvent>,
        after: Self,
    ) -> bool {
        &&& self.flushes_to(peer, flushed)
        &&& reports == reports_of(flushed.connections[peer].conn)
        &&& events == endpoint_events_of(flushed.connections[peer].conn)
        &&& is_emptied(
            flushed.connections[peer].conn,
            reports,
            events,
            after.connections[peer].conn,
        )
        &&& after == flushed.with_conn(peer, after.connections[peer].conn)
    }

    pub open spec fn polled(
        self,
        peer: SocketAddr,
        reports: Seq<ReportView>,
        events: Seq<EndpointEvent>,
        after: Self,
    ) -> bool {
        exists|flushed: Self| #[trigger] self.polled_by(peer, flushed, reports, events, after)
    }

    /// The connection to `peer` is polled, and what it gives, which is `more`,
    /// follows what there was.
    pub open spec fn polled_next(
        self,
        peer: SocketAddr,
        had: Polled,
        more: (Seq<ReportView>, Seq<EndpointEvent>),
        all: Polled,
        after: Self,
    ) -> bool {
        &&& self.polled(peer, more.0, more.1, after)
        &&& all.reports == had.reports + reports_from(peer, more.0)
        &&& all.events == had.events + events_from(self.connections[peer].handle, more.1)
    }

    /// The connections to `peers` are polled one after the other, and give
    /// `all`.
    pub open spec fn all_polled(self, peers: Seq<SocketAddr>, all: Polled, after: Self) -> bool
        decreases peers.len(),
    {
        if peers.len() == 0 {
            all.reports.len() == 0 && all.events.len() == 0 && after == self
        } else {
            exists|mid: Self, had: Polled, more: (Seq<ReportView>, Seq<EndpointEvent>)|
                self.all_polled(peers.drop_last(), had, mid) && #[trigger] mid.polled_next(
                    peers.last(),
                    had,
                    more,
                    all,
                    after,
                )
        }
    }

    /// The connection of a batch has given it, which leads to `after`.
    pub open spec fn poured_one(self, base: Instant, batch: Batch, after: Self) -> bool {
        let conn = after.connections[batch.peer].conn;
        &&& self.connections.dom().contains(batch.peer)
        &&& gave_out(
            self.connections[batch.peer].conn,
            base,
            batch.now,
            batch.results,
            conn,
        )
        &&& after == self.with_conn(batch.peer, conn)
    }

    /// The connections have given `batches`, one after the other, which leads to
    /// `after`.
    pub open spec fn poured(self, base: Instant, batches: Seq<Batch>, after: Self) -> bool
        decreases batches.len(),
    {
        if batches.len() == 0 {
            after == self
        } else {
            exists|mid: Self|
                self.poured(base, batches.drop_last(), mid) && #[trigger] mid.poured_one(
                    base,
                    batches.last(),
                    after,
                )
        }
    }

    /// One round, at a time that `env` reads, leads to `after`.
    pub open spec fn round_poured(
        self,
        base: Instant,
        env: EnvView,
        peers: Seq<SocketAddr>,
        batches: Seq<Batch>,
        after: Self,
    ) -> bool {
        exists|now: u64| #[trigger]
            is_round(peers, now, batches) && env.reads(now) && self.poured(base, batches, after)
    }

    /// Rounds, each at a time that `env` reads, lead to `after`.
    pub open spec fn rounds_poured(
        self,
        base: Instant,
        env: EnvView,
        peers: Seq<SocketAddr>,
        rounds: Seq<Seq<Batch>>,
        after: Self,
    ) -> bool
        decreases rounds.len(),
    {
        if rounds.len() == 0 {
            after == self
        } else {
            exists|mid: Self|
                self.rounds_poured(base, env, peers, rounds.drop_last(), mid)
                    && #[trigger] mid.round_poured(base, env, peers, rounds.last(), after)
        }
    }

    /// The timers that are due at `now` have fired.
    pub open spec fn timers_fired(self, base: Instant, now: u64) -> Self {
        QuicView {
            connections: self.connections.map_values(
                |conn: ConnView|
                    if due_of(conn.conn, base) matches Some(at) && at <= now {
                        ConnView { conn: timed_out(conn.conn, base, now), ..conn }
                    } else {
                        conn
                    },
            ),
            ..self
        }
    }

    /// `r` is when the first timer is due.
    pub open spec fn first_due(self, base: Instant, r: Option<u64>) -> bool {
        &&& r matches Some(at) ==> exists|peer: SocketAddr| #[trigger]
            self.connections.dom().contains(peer) && due_of(self.connections[peer].conn, base)
                == Some(at)
        &&& forall|peer: SocketAddr| #[trigger]
            self.connections.dom().contains(peer) ==> (due_of(
                self.connections[peer].conn,
                base,
            ) matches Some(at) ==> r is Some && r->0 <= at)
    }

    /// `after` is this transport once the connection of a handle has taken an
    /// event of the endpoint in. Where the handle belongs to none, it is as it
    /// was.
    pub open spec fn told(self, handle: usize, event: ConnectionEvent, after: Self) -> bool {
        let peer = self.handles[handle as u64];
        if self.handles.dom().contains(handle as u64) && self.connections.dom().contains(peer) {
            let conn = after.connections[peer].conn;
            takes_event(self.connections[peer].conn, event, conn) && after == self.with_conn(
                peer,
                conn,
            )
        } else {
            after == self
        }
    }

    /// The endpoint has forgotten a connection whose last event it heard of.
    pub open spec fn freed(self, handle: usize, event: EndpointEvent) -> Self {
        if is_last(event) {
            QuicView { live: self.live.remove(handle as u64), ..self }
        } else {
            self
        }
    }

    /// `after` is this transport once the connection of a handle has been told
    /// what the endpoint answered, if it did.
    pub open spec fn answered(
        self,
        handle: usize,
        answer: Option<ConnectionEvent>,
        after: Self,
    ) -> bool {
        match answer {
            Some(event) => self.told(handle, event, after),
            None => after == self,
        }
    }

    /// `after` has no connections that this transport does not have, but for
    /// one to `peer`.
    pub open spec fn adds_but(self, peer: SocketAddr, after: Self) -> bool {
        forall|other: SocketAddr| #[trigger]
            after.connections.dom().contains(other) && other != peer
                ==> self.connections.dom().contains(other)
    }

    /// `after` has no connections that this transport does not have.
    pub open spec fn adds_none(self, after: Self) -> bool {
        forall|peer: SocketAddr| #[trigger]
            after.connections.dom().contains(peer) ==> self.connections.dom().contains(peer)
                && after.connections[peer].handle == self.connections[peer].handle && (
            self.connections[peer].established ==> after.connections[peer].established)
    }
}

/// What connections gave when they were polled.
pub struct Polled {
    pub reports: Seq<(SocketAddr, ReportView)>,
    /// What is for the endpoint, under the number of the connection.
    pub events: Seq<(usize, EndpointEvent)>,
}

/// Events of one connection.
pub open spec fn events_from(handle: usize, events: Seq<EndpointEvent>) -> Seq<
    (usize, EndpointEvent),
> {
    Seq::new(events.len(), |i: int| (handle, events[i]))
}

/// A transport and its endpoint.
#[verifier::ext_equal]
pub struct QuicMachine {
    pub view: QuicView,
    pub endpoint: Endpoint,
}

impl QuicMachine {
    /// `after` is this machine once the endpoint has heard of an event of a
    /// connection, and the connection of what the endpoint answered. Of a
    /// connection that it has forgotten, the endpoint hears nothing.
    pub open spec fn heard(self, item: (usize, EndpointEvent), after: Self) -> bool {
        if self.view.live.contains(item.0 as u64) {
            exists|answer: Option<ConnectionEvent>| #[trigger]
                self.heard_by(item.0, item.1, answer, after)
        } else {
            after == self
        }
    }

    pub open spec fn heard_by(
        self,
        handle: usize,
        event: EndpointEvent,
        answer: Option<ConnectionEvent>,
        after: Self,
    ) -> bool {
        &&& hears(self.endpoint, handle, event, answer, after.endpoint)
        &&& self.view.freed(handle, event).answered(handle, answer, after.view)
    }

    /// `after` is this machine once the endpoint has heard of all `events`.
    pub open spec fn all_heard(self, events: Seq<(usize, EndpointEvent)>, after: Self) -> bool
        decreases events.len(),
    {
        if events.len() == 0 {
            after == self
        } else {
            exists|mid: Self|
                self.all_heard(events.drop_last(), mid) && #[trigger] mid.heard(
                    events.last(),
                    after,
                )
        }
    }

    /// The machines have run: the connections to `peers` were polled, which
    /// gave `all` and leads to `polled`; what they reported was seen to, which
    /// leads to `seen`; the endpoint heard of what they had for it, which leads
    /// to `told`; and what they want sent has been sent.
    pub open spec fn driven_by(
        self,
        base: Instant,
        socket: SocketId,
        env: EnvView,
        sent: Seq<(SocketId, SocketAddr, Seq<u8>)>,
        peers: Seq<SocketAddr>,
        all: Polled,
        polled: QuicView,
        seen: QuicView,
        told: Self,
        after: Self,
        sent_after: Seq<(SocketId, SocketAddr, Seq<u8>)>,
    ) -> bool {
        &&& peers_in_order(self.view.connections, peers)
        &&& self.view.all_polled(peers, all, polled)
        &&& polled.all_seen(all.reports, seen)
        &&& (QuicMachine { view: seen, ..self }).all_heard(all.events, told)
        &&& all_sent(base, socket, env, told.view, sent, after.view, sent_after)
        &&& after.endpoint == told.endpoint
    }

    /// `after` is this machine once the machines have run. `sent` is what was on
    /// its way out before, and `sent_after` what is then.
    pub open spec fn driven(
        self,
        base: Instant,
        socket: SocketId,
        env: EnvView,
        sent: Seq<(SocketId, SocketAddr, Seq<u8>)>,
        after: Self,
        sent_after: Seq<(SocketId, SocketAddr, Seq<u8>)>,
    ) -> bool {
        exists|
            peers: Seq<SocketAddr>,
            all: Polled,
            polled: QuicView,
            seen: QuicView,
            told: Self,
        | #[trigger]
            self.driven_by(
                base,
                socket,
                env,
                sent,
                peers,
                all,
                polled,
                seen,
                told,
                after,
                sent_after,
            )
    }

    /// `after` is this machine once the timers have fired that are due at what
    /// `env` reads, and the machines have run.
    pub open spec fn timer_taken(
        self,
        base: Instant,
        socket: SocketId,
        env: EnvView,
        after: Self,
        sent_after: Seq<(SocketId, SocketAddr, Seq<u8>)>,
    ) -> bool {
        exists|now: u64| #[trigger]
            env.reads(now) && (QuicMachine {
                view: self.view.timers_fired(base, now),
                ..self
            }).driven(base, socket, env, env.sent, after, sent_after)
    }

    /// `after` is this machine once a connection to `peer` is there, or could
    /// not be started: there may be too many, or the endpoint may refuse to
    /// dial.
    pub open spec fn connection_ensured(
        self,
        base: Instant,
        now: u64,
        config: ClientConfig,
        peer: SocketAddr,
        r: Result<(), QueueError>,
        after: Self,
    ) -> bool {
        if self.view.connections.dom().contains(peer) {
            r is Ok && after == self
        } else if self.view.connections.dom().len() >= MAX_CONNECTIONS {
            r == Err::<(), QueueError>(QueueError::ConnectionLimit) && after == self
        } else {
            exists|dialed: Option<(usize, Connection)>| #[trigger]
                self.dialed_by(base, now, config, peer, dialed, r, after)
        }
    }

    /// The endpoint was asked to dial `peer`, and gave `dialed`.
    pub open spec fn dialed_by(
        self,
        base: Instant,
        now: u64,
        config: ClientConfig,
        peer: SocketAddr,
        dialed: Option<(usize, Connection)>,
        r: Result<(), QueueError>,
        after: Self,
    ) -> bool {
        &&& dials(
            self.endpoint,
            base,
            now,
            config,
            peer,
            OVERLAY_SERVER_NAME@,
            dialed,
            after.endpoint,
        )
        &&& match dialed {
            Some((handle, conn)) => {
                &&& r is Ok
                &&& dialable(peer)
                &&& after.view == self.view.started(peer, handle, conn)
            },
            None => {
                &&& r == Err::<(), QueueError>(QueueError::ConnectFailed)
                &&& after.view == self.view
            },
        }
    }

    /// `after` is this machine once a datagram for `to` waits for its
    /// connection and the machines have run, or the connection could not be
    /// started.
    pub open spec fn datagram_queued(
        self,
        base: Instant,
        socket: SocketId,
        config: ClientConfig,
        env: EnvView,
        to: SocketAddr,
        payload: Seq<u8>,
        r: Result<(), QueueError>,
        after: Self,
        sent_after: Seq<(SocketId, SocketAddr, Seq<u8>)>,
    ) -> bool {
        exists|now: u64, ready: Self| #[trigger]
            self.connection_ensured(base, now, config, to, r, ready) && env.reads(now) && match r {
                Ok(_) => (QuicMachine { view: ready.view.queued(to, payload), ..ready }).driven(
                    base,
                    socket,
                    env,
                    env.sent,
                    after,
                    sent_after,
                ),
                Err(_) => after == ready && sent_after == env.sent,
            }
    }

    /// `after` is this machine once a datagram from `from` that reached the
    /// endpoint has been followed up, and `sent` what was sent then. A peer that
    /// asks for a connection gets one, unless there are too many or the
    /// endpoint does not take it up.
    pub open spec fn arrived(
        self,
        base: Instant,
        now: u64,
        from: SocketAddr,
        arrival: Option<QuicArrival>,
        sent: Seq<TransmitView>,
        after: Self,
    ) -> bool {
        match arrival {
            Some(QuicArrival::ToConnection(handle, event)) => {
                &&& sent.len() == 0
                &&& self.view.told(handle, event, after.view)
                &&& after.endpoint == self.endpoint
            },
            Some(QuicArrival::NewConnection(incoming)) => {
                if self.view.connections.dom().len() >= MAX_CONNECTIONS {
                    &&& sent.len() == 1
                    &&& refuses(self.endpoint, incoming, sent[0], after.endpoint)
                    &&& sent[0].destination == from
                    &&& after.view == self.view
                } else {
                    exists|r: Result<(usize, Connection), Option<TransmitView>>| #[trigger]
                        self.accepted_by(base, now, from, incoming, r, sent, after)
                }
            },
            Some(QuicArrival::Response(answer)) => after == self && sent == seq![answer@],
            None => after == self && sent.len() == 0,
        }
    }

    /// The endpoint was asked to take a peer up, and came to `r`.
    pub open spec fn accepted_by(
        self,
        base: Instant,
        now: u64,
        from: SocketAddr,
        incoming: Incoming,
        r: Result<(usize, Connection), Option<TransmitView>>,
        sent: Seq<TransmitView>,
        after: Self,
    ) -> bool {
        &&& accepts(self.endpoint, base, now, incoming, r, after.endpoint)
        &&& match r {
            Ok((handle, conn)) => {
                &&& sent.len() == 0
                &&& after.view == self.view.started(from, handle, conn)
            },
            Err(Some(answer)) => {
                &&& sent == seq![answer]
                &&& answer.destination == from
                &&& after.view == self.view
            },
            Err(None) => sent.len() == 0 && after.view == self.view,
        }
    }

    /// `after` is this machine once a datagram from `from` has been taken in:
    /// it leads the endpoint to `arrival` and to `reached`, which is followed up
    /// with `answers`; and then the machines run.
    pub open spec fn taken_by(
        self,
        base: Instant,
        socket: SocketId,
        env: EnvView,
        from: SocketAddr,
        datagram: Seq<u8>,
        now: u64,
        later: u64,
        arrival: Option<QuicArrival>,
        reached: Self,
        answers: Seq<TransmitView>,
        arrived: Self,
        after: Self,
        sent_after: Seq<(SocketId, SocketAddr, Seq<u8>)>,
    ) -> bool {
        &&& env.reads(now)
        &&& env.reads(later)
        &&& reached.view == self.view
        &&& led_to(self.endpoint, base, now, from, datagram, arrival, reached.endpoint)
        &&& reached.arrived(base, later, from, arrival, answers, arrived)
        &&& arrived.driven(
            base,
            socket,
            env,
            env.sent + all_transmitted(socket, answers),
            after,
            sent_after,
        )
    }

    /// `after` is this machine once a datagram from `from` has been taken in and
    /// the machines have run.
    pub open spec fn datagram_taken(
        self,
        base: Instant,
        socket: SocketId,
        env: EnvView,
        from: SocketAddr,
        datagram: Seq<u8>,
        after: Self,
        sent_after: Seq<(SocketId, SocketAddr, Seq<u8>)>,
    ) -> bool {
        exists|
            now: u64,
            later: u64,
            arrival: Option<QuicArrival>,
            reached: Self,
            answers: Seq<TransmitView>,
            arrived: Self,
        | #[trigger]
            self.taken_by(
                base,
                socket,
                env,
                from,
                datagram,
                now,
                later,
                arrival,
                reached,
                answers,
                arrived,
                after,
                sent_after,
            )
    }
}

/// One connection of the transport.
pub struct QuicConnection {
    handle: usize,
    conn: Connection,
    established: bool,
    peer_pubkey: Option<Pubkey>,
    pending: VecDeque<Vec<u8>>,
}

impl QuicConnection {
    pub closed spec fn view(&self) -> ConnView {
        ConnView {
            handle: self.handle,
            conn: self.conn,
            established: self.established,
            pubkey: self.peer_pubkey,
            pending: bytes_views(self.pending@),
        }
    }

    pub closed spec fn wf(&self) -> bool {
        self.pending@.len() <= MAX_PENDING_DATAGRAMS
    }

    fn fresh(handle: usize, conn: Connection) -> (r: Self)
        ensures
            r.wf(),
            r@ == ConnView::fresh(handle, conn),
    {
        let r = QuicConnection {
            handle,
            conn,
            established: false,
            peer_pubkey: None,
            pending: VecDeque::new(),
        };
        assert(r@.pending =~= Seq::empty());
        r
    }

    /// Who the peer is, as far as its certificate tells.
    fn identity(&self) -> (r: Option<Pubkey>)
        ensures
            r == identity_of(self@.conn),
    {
        match peer_certificate(&self.conn) {
            Some(cert) => pubkey_from_certificate(&cert),
            None => None,
        }
    }

    /// Hands over what waits, if the connection is up. What cannot be sent over
    /// it is dropped.
    fn flush_pending(&mut self)
        requires
            old(self).wf(),
        ensures
            final(self).wf(),
            old(self)@.flushes(final(self)@),
    {
        let ghost before = *self;
        let ghost all = bytes_views(self.pending@);
        if !self.established {
            return;
        }
        let ghost mut n: nat = 0;
        assert(self.pending@ =~= before.pending@.skip(0));
        assert(self.pending@.len() == 0 ==> all.take(0) =~= all);
        assert(all.take(0) =~= Seq::empty());
        while self.pending.len() > 0
            invariant
                before.established,
                self.wf(),
                all == bytes_views(before.pending@),
                n <= before.pending@.len(),
                self.pending@ == before.pending@.skip(n as int),
                handed_over(before.conn, all.take(n as int), self.conn),
                self.pending@.len() == 0 ==> all.take(n as int) == all,
                *self == (QuicConnection { conn: self.conn, pending: self.pending, ..before }),
            ensures
                self.wf(),
                handed_over(before.conn, all, self.conn),
                *self == (QuicConnection { conn: self.conn, pending: self.pending, ..before }),
                self.pending@.len() == 0,
            decreases self.pending@.len(),
        {
            let ghost mid = self.conn;
            if let Some(payload) = self.pending.pop_front() {
                let r = send_datagram(&mut self.conn, &payload);
                if r == SendOutcome::Blocked {
                    self.pending.push_front(payload);
                    break;
                }
                proof {
                    let next = all.take(n as int + 1);
                    assert(next.drop_last() =~= all.take(n as int));
                    assert(next.last() == payload@);
                    assert(takes_payload(mid, next.last(), r, self.conn));
                    n = n + 1;
                    assert(self.pending@ =~= before.pending@.skip(n as int));
                }
            }
            assert(self.pending@.len() == 0 ==> all.take(n as int) =~= all);
        }
        assert(self@.pending =~= Seq::empty());
    }
}

/// `bytes` in pieces of `n`, the last one with what is left.
pub open spec fn pieces(bytes: Seq<u8>, n: nat) -> Seq<Seq<u8>>
    decreases bytes.len(),
{
    if bytes.len() == 0 || n == 0 {
        Seq::empty()
    } else if bytes.len() <= n {
        seq![bytes]
    } else {
        seq![bytes.take(n as int)] + pieces(bytes.skip(n as int), n)
    }
}

/// The datagrams that a transmission stands for: its pieces where it has a
/// segment size, and the whole of it where it has none.
pub open spec fn datagrams_of(bytes: Seq<u8>, segment_size: Option<usize>) -> Seq<Seq<u8>> {
    match segment_size {
        Some(n) if n > 0 => pieces(bytes, n as nat),
        _ => seq![bytes],
    }
}

/// Datagrams from one socket to one address.
pub open spec fn all_to(socket: SocketId, to: SocketAddr, datagrams: Seq<Seq<u8>>) -> Seq<
    (SocketId, SocketAddr, Seq<u8>),
> {
    Seq::new(datagrams.len(), |i: int| (socket, to, datagrams[i]))
}

/// What sending a transmission comes to.
pub open spec fn transmitted(socket: SocketId, transmit: TransmitView) -> Seq<
    (SocketId, SocketAddr, Seq<u8>),
> {
    all_to(
        socket,
        transmit.destination,
        datagrams_of(transmit.bytes, transmit.segment_size),
    )
}

/// What sending transmissions comes to, one after the other.
pub open spec fn all_transmitted(socket: SocketId, transmits: Seq<TransmitView>) -> Seq<
    (SocketId, SocketAddr, Seq<u8>),
>
    decreases transmits.len(),
{
    if transmits.len() == 0 {
        Seq::empty()
    } else {
        all_transmitted(socket, transmits.drop_last()) + transmitted(socket, transmits.last())
    }
}

/// The connections of a transport, which goes from `view` to `view_after`, were
/// asked in `rounds` for what they want sent, until there was no more, and all
/// of it was sent.
pub open spec fn sent_all(
    base: Instant,
    socket: SocketId,
    env: EnvView,
    view: QuicView,
    before: Seq<(SocketId, SocketAddr, Seq<u8>)>,
    peers: Seq<SocketAddr>,
    rounds: Seq<Seq<Batch>>,
    view_after: QuicView,
    after: Seq<(SocketId, SocketAddr, Seq<u8>)>,
) -> bool {
    &&& peers_in_order(view.connections, peers)
    &&& view.rounds_poured(base, env, peers, rounds, view_after)
    &&& is_flush(rounds)
    &&& after == before + all_transmitted(socket, transmits_of_all(rounds))
}

/// What the connections of a transport want sent has been sent, which leads from
/// `view` to `view_after`.
pub open spec fn all_sent(
    base: Instant,
    socket: SocketId,
    env: EnvView,
    view: QuicView,
    before: Seq<(SocketId, SocketAddr, Seq<u8>)>,
    view_after: QuicView,
    after: Seq<(SocketId, SocketAddr, Seq<u8>)>,
) -> bool {
    exists|peers: Seq<SocketAddr>, rounds: Seq<Seq<Batch>>| #[trigger]
        sent_all(base, socket, env, view, before, peers, rounds, view_after, after)
}

/// `after` continues `before` with datagrams of one socket.
pub open spec fn sends_from(
    socket: SocketId,
    before: Seq<(SocketId, SocketAddr, Seq<u8>)>,
    after: Seq<(SocketId, SocketAddr, Seq<u8>)>,
) -> bool {
    &&& before.is_prefix_of(after)
    &&& forall|i: int| before.len() <= i < after.len() ==> (#[trigger] after[i]).0 == socket
}

/// Sends what QUIC wants sent.
fn send_transmit<E: OverlayEnv>(env: &mut E, socket: SocketId, transmit: &QuicTransmit)
    ensures
        final(env).seen().sent == old(env).seen().sent + transmitted(socket, transmit@),
        old(env).seen().sends_to(final(env).seen()),
        sends_from(socket, old(env).seen().sent, final(env).seen().sent),
{
    let to = from_std(transmit.destination);
    let len: usize = if transmit.size <= transmit.buffer.len() {
        transmit.size
    } else {
        transmit.buffer.len()
    };
    let ghost all = transmit.buffer@.take(len as int);
    let ghost start = env.seen().sent;
    let segment: usize = match transmit.segment_size {
        Some(n) => n,
        None => 0,
    };
    if segment == 0 {
        let bytes = copy_range(&transmit.buffer, 0, len);
        env.send(socket, to, &bytes);
        proof {
            assert(bytes@ =~= all);
            assert(env.seen().sent =~= start + all_to(socket, to, seq![all]));
        }
        return;
    }
    let mut at: usize = 0;
    let ghost mut done: Seq<Seq<u8>> = Seq::empty();
    proof {
        assert(all.skip(0) =~= all);
        assert(done + pieces(all, segment as nat) =~= pieces(all, segment as nat));
        assert(env.seen().sent =~= start + all_to(socket, to, done));
    }
    while at < len
        invariant
            at <= len <= transmit.buffer@.len(),
            transmit.buffer@.len() <= usize::MAX,
            segment > 0,
            all == transmit.buffer@.take(len as int),
            old(env).seen().sends_to(env.seen()),
            env.seen().sent == start + all_to(socket, to, done),
            pieces(all, segment as nat) == done + pieces(all.skip(at as int), segment as nat),
        decreases len - at,
    {
        let end: usize = if len - at <= segment {
            len
        } else {
            at + segment
        };
        let bytes = copy_range(&transmit.buffer, at, end);
        env.send(socket, to, &bytes);
        proof {
            let left = all.skip(at as int);
            let next = done.push(bytes@);
            if left.len() <= segment {
                assert(bytes@ =~= left);
                assert(all.skip(end as int).len() == 0);
                assert(pieces(all, segment as nat) =~= next + pieces(
                    all.skip(end as int),
                    segment as nat,
                ));
            } else {
                assert(bytes@ =~= left.take(segment as int));
                assert(left.skip(segment as int) =~= all.skip(end as int));
                assert(pieces(all, segment as nat) =~= next + pieces(
                    all.skip(end as int),
                    segment as nat,
                ));
            }
            assert(env.seen().sent =~= start + all_to(socket, to, next));
            done = next;
        }
        at = end;
    }
    proof {
        assert(pieces(all, segment as nat) =~= done);
    }
}

/// The connections of a transport, and what came over them.
pub struct QuicState {
    connections: OrdMap<SocketAddr, QuicConnection>,
    handles: HashMap<u64, SocketAddr>,
    /// The numbers of the connections that the endpoint is told of.
    live: HashSet<u64>,
    inbound_frames: VecDeque<(SocketAddr, Vec<u8>)>,
    events: VecDeque<TransportEvent>,
}

impl QuicState {
    pub closed spec fn view(&self) -> QuicView {
        QuicView {
            connections: self.connections@.map_values(|c: QuicConnection| c@),
            handles: self.handles@,
            live: self.live@,
            inbound: addressed(self.inbound_frames@),
            events: transport_events(self.events@),
        }
    }

    pub closed spec fn wf(&self) -> bool {
        &&& self.connections.wf()
        &&& forall|peer: SocketAddr| #[trigger]
            self.connections@.dom().contains(peer) ==> self.connections@[peer].wf()
        &&& self@.connections.dom().len() <= MAX_CONNECTIONS
        &&& self.inbound_frames@.len() <= MAX_INBOUND_FRAMES
        &&& self.events@.len() <= MAX_TRANSPORT_EVENTS
    }

    fn new() -> (s: Self)
        ensures
            s.wf(),
            s@ == QuicView::empty(),
    {
        let s = QuicState {
            connections: OrdMap::new(),
            handles: HashMap::new(),
            live: HashSet::new(),
            inbound_frames: VecDeque::new(),
            events: VecDeque::new(),
        };
        assert(s@.connections =~= Map::empty());
        assert(s@.live =~= Set::empty());
        assert(s@.inbound =~= Seq::empty());
        assert(s@.events =~= Seq::empty());
        s
    }

    fn push_event(&mut self, event: TransportEvent)
        requires
            old(self).wf(),
        ensures
            final(self).wf(),
            final(self)@ == (QuicView {
                events: pushed_bounded(
                    old(self)@.events,
                    transport_event(event),
                    MAX_TRANSPORT_EVENTS as int,
                ),
                ..old(self)@
            }),
    {
        let ghost before = self.events@;
        push_bounded(&mut self.events, event, MAX_TRANSPORT_EVENTS);
        assert(transport_events(self.events@) =~= pushed_bounded(
            transport_events(before),
            transport_event(event),
            MAX_TRANSPORT_EVENTS as int,
        ));
    }

    /// Puts a connection in; there has to be room for it.
    fn insert(&mut self, peer: SocketAddr, handle: usize, conn: Connection)
        requires
            old(self).wf(),
            old(self)@.connections.dom().len() < MAX_CONNECTIONS,
        ensures
            final(self).wf(),
            final(self)@ == old(self)@.started(peer, handle, conn),
    {
        let ghost before = *self;
        self.handles.insert(handle as u64, peer);
        self.live.insert(handle as u64);
        let entry = QuicConnection::fresh(handle, conn);
        self.connections.insert(peer, entry);
        proof {
            assert(self@.connections =~= before@.started(peer, handle, conn).connections);
            assert(self@.live =~= before@.live.insert(handle as u64));
            assert(self@ =~= before@.started(peer, handle, conn));
            before.lemma_count();
        }
    }

    /// How many datagrams wait for their connections.
    fn pending_datagrams(&self) -> (n: usize)
        requires
            self.wf(),
        ensures
            exists|peers: Seq<SocketAddr>| #[trigger]
                peers_in_order(self@.connections, peers) && n == waiting_in(
                    self@.connections,
                    peers,
                ),
    {
        let peers = self.peers();
        let mut n: usize = 0;
        let mut i: usize = 0;
        proof {
            self.lemma_bounded();
            lemma_peers_counted(self@.connections, peers@);
            assert(peers@.take(0) =~= Seq::empty());
        }
        while i < peers.len()
            invariant
                self.wf(),
                self@.bounded(),
                peers_in_order(self@.connections, peers@),
                peers@.len() <= MAX_CONNECTIONS,
                i <= peers@.len(),
                n == waiting_in(self@.connections, peers@.take(i as int)),
                n <= i * MAX_PENDING_DATAGRAMS,
            decreases peers@.len() - i,
        {
            assert(peers@.contains(peers@[i as int]));
            assert(self@.connections.dom().contains(peers@[i as int]));
            if let Some(connection) = self.connections.get(&peers[i]) {
                assert(self@.connections[peers@[i as int]] == connection@);
                assert(connection@.pending.len() == connection.pending@.len());
                n += connection.pending.len();
            }
            i += 1;
            assert(peers@.take(i as int).drop_last() =~= peers@.take(i - 1));
        }
        assert(peers@.take(i as int) =~= peers@);
        n
    }

    /// What each connection has counted, in the order of the peers.
    fn connection_stats(&self) -> (r: Vec<(SocketAddr, PathCounts)>)
        requires
            self.wf(),
        ensures
            counts_listed(self@.connections, r@),
    {
        let peers = self.peers();
        let mut r: Vec<(SocketAddr, PathCounts)> = Vec::new();
        let mut i: usize = 0;
        while i < peers.len()
            invariant
                self.wf(),
                peers_in_order(self@.connections, peers@),
                i <= peers@.len(),
                r@.len() == i,
                forall|k: int|
                    0 <= k < i ==> (#[trigger] r@[k]) == (
                        peers@[k],
                        counts_of(self@.connections[peers@[k]].conn),
                    ),
            decreases peers@.len() - i,
        {
            assert(peers@.contains(peers@[i as int]));
            assert(self@.connections.dom().contains(peers@[i as int]));
            if let Some(connection) = self.connections.get(&peers[i]) {
                assert(self@.connections[peers@[i as int]] == connection@);
                r.push((peers[i], path_counts(&connection.conn)));
            }
            i += 1;
        }
        assert(Seq::new(r@.len(), |k: int| r@[k].0) =~= peers@);
        r
    }

    /// The connections are counted by the entries of their map.
    proof fn lemma_count(self)
        requires
            self.connections.wf(),
        ensures
            self@.connections.dom().finite(),
            self@.connections.dom().len() == self.connections.entries().len(),
    {
        self.connections.lemma_len();
        assert(self@.connections.dom() =~= self.connections@.dom());
    }
}

impl QuicState {
    /// A step that changed the connection to `peer` only.
    proof fn lemma_changed(self, before: Self, peer: SocketAddr)
        requires
            before.wf(),
            before.connections@.dom().contains(peer),
            self.connections.wf(),
            self.connections@ == before.connections@.insert(peer, self.connections@[peer]),
            self.connections@[peer].wf(),
            self == (QuicState { connections: self.connections, ..before }),
        ensures
            self.wf(),
            self@ == before@.with_connection(peer, self.connections@[peer]@),
    {
        let conn = self.connections@[peer]@;
        assert(self@.connections =~= before@.connections.insert(peer, conn));
        assert(self@ =~= before@.with_connection(peer, conn));
        assert(self@.connections.dom() =~= before@.connections.dom());
    }

    /// What is well-formed is within bounds.
    proof fn lemma_bounded(self)
        requires
            self.wf(),
        ensures
            self@.bounded(),
    {
        self.lemma_count();
        assert forall|peer: SocketAddr| #[trigger]
            self@.connections.dom().contains(peer) implies self@.connections[peer].pending.len()
            <= MAX_PENDING_DATAGRAMS by {
            assert(self.connections@.dom().contains(peer));
        }
    }

    /// Starts a connection to `peer` unless there is one.
    fn ensure_connection(
        &mut self,
        endpoint: &mut Endpoint,
        config: &ClientConfig,
        base: Instant,
        now: u64,
        peer: SocketAddr,
    ) -> (r: Result<(), QueueError>)
        requires
            old(self).wf(),
            old(self)@.known_by(*old(endpoint)),
        ensures
            final(self).wf(),
            final(self)@.known_by(*final(endpoint)),
            (QuicMachine { view: old(self)@, endpoint: *old(endpoint) }).connection_ensured(
                base,
                now,
                *config,
                peer,
                r,
                QuicMachine { view: final(self)@, endpoint: *final(endpoint) },
            ),
    {
        if self.connections.contains_key(&peer) {
            assert(self@.connections.dom().contains(peer));
            return Ok(());
        }
        proof {
            self.lemma_count();
        }
        if self.connections.len() >= MAX_CONNECTIONS {
            return Err(QueueError::ConnectionLimit);
        }
        let at = to_std(peer);
        let ghost asked = QuicMachine { view: self@, endpoint: *endpoint };
        let started = start_connection(endpoint, base, now, config, at, OVERLAY_SERVER_NAME);
        let ghost dialed = dialed_with(started);
        let r = match started {
            Ok((handle, conn)) => {
                self.insert(peer, handle, conn);
                Ok(())
            },
            Err(_) => Err(QueueError::ConnectFailed),
        };
        proof {
            let now_is = QuicMachine { view: self@, endpoint: *endpoint };
            assert(asked.dialed_by(base, now, *config, peer, dialed, r, now_is));
        }
        r
    }

    /// Takes all that came over a connection.
    fn receive(&mut self, peer: SocketAddr)
        requires
            old(self).wf(),
            old(self)@.connections.dom().contains(peer),
        ensures
            final(self).wf(),
            old(self)@.receives_to(peer, final(self)@),
    {
        let ghost start = *self;
        let ghost all = received_of(start@.connections[peer].conn);
        let mut frames: Vec<Vec<u8>> = Vec::new();
        if let Some(connection) = self.connections.get_mut(&peer) {
            let ghost was = *connection;
            let mut more = true;
            assert(bytes_views(frames@) + received_of(was.conn) =~= all);
            assert(gave_frames(was.conn, bytes_views(frames@), was.conn));
            while more
                invariant
                    *connection == (QuicConnection { conn: connection.conn, ..was }),
                    bytes_views(frames@) + received_of(connection.conn) == all,
                    !more ==> received_of(connection.conn).len() == 0,
                    more ==> gave_frames(was.conn, bytes_views(frames@), connection.conn),
                    !more ==> is_read(was.conn, bytes_views(frames@), connection.conn),
                decreases
                        (if more {
                            received_of(connection.conn).len() + 1
                        } else {
                            0
                        }),
            {
                let ghost left = received_of(connection.conn);
                let ghost had = frames@;
                let ghost conn = connection.conn;
                match receive_datagram(&mut connection.conn) {
                    Some(frame) => {
                        frames.push(frame);
                        proof {
                            assert(bytes_views(frames@) =~= bytes_views(had).push(left[0]));
                            assert(bytes_views(frames@).drop_last() =~= bytes_views(had));
                            assert(gives_frame(
                                conn,
                                Some(bytes_views(frames@).last()),
                                connection.conn,
                            ));
                            assert(bytes_views(frames@) + left.skip(1) =~= bytes_views(had) + left);
                        }
                    },
                    None => {
                        more = false;
                        assert(left =~= received_of(connection.conn));
                        assert(gives_frame(conn, None, connection.conn));
                    },
                }
            }
        }
        let ghost mid = *self;
        let ghost conn = mid.connections@[peer].conn;
        proof {
            mid.lemma_changed(start, peer);
            assert(mid@ =~= start@.with_conn(peer, conn));
            assert(bytes_views(frames@) =~= all);
            assert(all.take(0) =~= Seq::empty());
        }
        for frame in iter: frames
            invariant
                self.wf(),
                iter.seq() == frames@,
                all == bytes_views(frames@),
                self@ == mid@.received(peer, all.take(iter.index())),
        {
            let ghost was = *self;
            push_bounded(&mut self.inbound_frames, (peer, frame), MAX_INBOUND_FRAMES);
            proof {
                let next = all.take(iter.index() + 1);
                assert(next.drop_last() =~= all.take(iter.index()));
                assert(next.last() == frame@);
                assert(addressed(self.inbound_frames@) =~= pushed_bounded(
                    addressed(was.inbound_frames@),
                    (peer, frame@),
                    MAX_INBOUND_FRAMES as int,
                ));
                assert(self@ =~= mid@.received(peer, next));
            }
        }
        proof {
            assert(all.take(all.len() as int) =~= all);
            assert(received_of(conn).len() == 0);
        }
    }

    /// Hands over what waits for `peer`.
    fn flush(&mut self, peer: SocketAddr)
        requires
            old(self).wf(),
            old(self)@.connections.dom().contains(peer),
        ensures
            final(self).wf(),
            old(self)@.flushes_to(peer, final(self)@),
            final(self)@.connections.dom().contains(peer),
    {
        let ghost start = *self;
        if let Some(connection) = self.connections.get_mut(&peer) {
            assert(connection.wf());
            connection.flush_pending();
        }
        proof {
            self.lemma_changed(start, peer);
            assert(start.connections@[peer]@ == start@.connections[peer]);
            assert(self.connections@[peer]@ == self@.connections[peer]);
        }
    }

    /// Takes in what the connection to `peer` reports.
    fn handle_connection_event(&mut self, peer: SocketAddr, event: QuicEvent)
        requires
            old(self).wf(),
        ensures
            final(self).wf(),
            old(self)@.event_seen(peer, event@, final(self)@),
    {
        let ghost start = *self;
        if !self.connections.contains_key(&peer) {
            assert(!self@.connections.dom().contains(peer));
            return;
        }
        assert(start@.connections.dom().contains(peer));
        assert(start.connections@[peer].wf());
        match event {
            QuicEvent::HandshakeDataReady => {
                if let Some(connection) = self.connections.get_mut(&peer) {
                    let known = connection.identity();
                    connection.peer_pubkey = known;
                }
                proof {
                    self.lemma_changed(start, peer);
                    assert(self@ =~= start@.identified(peer));
                }
            },
            QuicEvent::Connected => {
                let mut known: Option<Pubkey> = None;
                if let Some(connection) = self.connections.get_mut(&peer) {
                    connection.established = true;
                    if connection.peer_pubkey.is_none() {
                        let told = connection.identity();
                        connection.peer_pubkey = told;
                    }
                    known = connection.peer_pubkey;
                }
                proof {
                    self.lemma_changed(start, peer);
                }
                self.push_event(TransportEvent::Connected { peer, pubkey: known });
                let ghost up = *self;
                proof {
                    assert(up@ =~= start@.connected(peer));
                    assert(up@.connections.dom().contains(peer));
                }
                self.flush(peer);
            },
            QuicEvent::DatagramReceived => {
                self.receive(peer);
            },
            QuicEvent::DatagramsUnblocked => {
                self.flush(peer);
            },
            QuicEvent::ConnectionLost { reason } => {
                self.push_event(TransportEvent::Disconnected { peer, reason });
                let ghost told = *self;
                if let Some(connection) = self.connections.remove(&peer) {
                    let _ = self.handles.remove(&(connection.handle as u64));
                }
                proof {
                    assert(self@.connections =~= start@.connections.remove(peer));
                    assert(self@ =~= start@.lost(peer, reason@));
                    told.lemma_count();
                    self.lemma_count();
                    assert(self@.connections.dom() =~= told@.connections.dom().remove(peer));
                }
            },
            QuicEvent::Stream => {},
        }
    }

    /// Tells the connection of a handle what the endpoint has for it. Where the
    /// handle belongs to none, nothing changes.
    fn tell(&mut self, handle: usize, event: ConnectionEvent)
        requires
            old(self).wf(),
        ensures
            final(self).wf(),
            old(self)@.rewired(final(self)@),
            old(self)@.told(handle, event, final(self)@),
    {
        let ghost start = *self;
        let peer: SocketAddr = match self.handles.get(&(handle as u64)) {
            Some(peer) => *peer,
            None => {
                return ;
            },
        };
        if let Some(connection) = self.connections.get_mut(&peer) {
            let ghost was = *connection;
            assert(was.wf());
            tell_connection(&mut connection.conn, event);
        }
        proof {
            if start.connections@.dom().contains(peer) {
                self.lemma_changed(start, peer);
                assert(self@ =~= start@.with_conn(peer, self@.connections[peer].conn));
                lemma_with_conn(start@, peer, self@.connections[peer].conn);
            }
        }
    }
}

/// How many datagrams wait for the connections to `peers`.
pub open spec fn waiting_in(connections: Map<SocketAddr, ConnView>, peers: Seq<SocketAddr>) -> nat
    decreases peers.len(),
{
    if peers.len() == 0 {
        0
    } else {
        waiting_in(connections, peers.drop_last()) + connections[peers.last()].pending.len()
    }
}

/// `list` is what each connection has counted, in the order of the peers.
pub open spec fn counts_listed(
    connections: Map<SocketAddr, ConnView>,
    list: Seq<(SocketAddr, PathCounts)>,
) -> bool {
    &&& peers_in_order(connections, Seq::new(list.len(), |i: int| list[i].0))
    &&& forall|i: int|
        0 <= i < list.len() ==> (#[trigger] list[i]).1 == counts_of(connections[list[i].0].conn)
}

/// There are as many peers in order as there are connections.
proof fn lemma_peers_counted(connections: Map<SocketAddr, ConnView>, peers: Seq<SocketAddr>)
    requires
        peers_in_order(connections, peers),
    ensures
        connections.dom().len() == peers.len(),
{
    assert forall|i: int, j: int| 0 <= i < peers.len() && 0 <= j < peers.len() && i != j implies peers[i]
        != peers[j] by {
        if i < j {
            assert(peers[i].rank() < peers[j].rank());
        } else {
            assert(peers[j].rank() < peers[i].rank());
        }
    }
    peers.unique_seq_to_set();
    assert(peers.to_set() =~= connections.dom());
}

proof fn lemma_adds_none_twice(a: QuicView, b: QuicView, c: QuicView)
    requires
        a.adds_none(b),
        b.adds_none(c),
    ensures
        a.adds_none(c),
{
    assert forall|peer: SocketAddr| #[trigger]
        c.connections.dom().contains(peer) implies a.connections.dom().contains(peer)
        && c.connections[peer].handle == a.connections[peer].handle && (
    a.connections[peer].established ==> c.connections[peer].established) by {
        assert(b.connections.dom().contains(peer));
    }
}

proof fn lemma_received_connections(a: QuicView, peer: SocketAddr, frames: Seq<Seq<u8>>)
    ensures
        a.received(peer, frames).connections == a.connections,
        a.received(peer, frames).handles == a.handles,
        a.received(peer, frames).live == a.live,
        a.received(peer, frames).events == a.events,
    decreases frames.len(),
{
    if frames.len() > 0 {
        lemma_received_connections(a, peer, frames.drop_last());
    }
}

/// What a connection reports starts no connection, and takes none down but its
/// own.
pub proof fn law_event_adds_none(a: QuicView, peer: SocketAddr, report: ReportView, after: QuicView)
    requires
        a.event_seen(peer, report, after),
    ensures
        a.adds_none(after),
        after.live == a.live,
        forall|other: SocketAddr|
            other != peer && #[trigger] a.connections.dom().contains(other)
                ==> after.connections.dom().contains(other) && after.connections[other]
                == a.connections[other],
{
    if a.connections.dom().contains(peer) && report is DatagramReceived {
        let frames = received_of(a.connections[peer].conn);
        let conn = choose|conn: Connection|
            {
                &&& (#[trigger] received_of(conn)).len() == 0
                &&& is_read(a.connections[peer].conn, frames, conn)
                &&& after == a.with_conn(peer, conn).received(peer, frames)
            };
        lemma_received_connections(a.with_conn(peer, conn), peer, frames);
    }
}

/// A peer's identity, once its handshake has told it, does not change when the
/// connection comes up.
pub proof fn law_identity_is_kept(a: QuicView, peer: SocketAddr, after: QuicView)
    requires
        a.connections.dom().contains(peer),
        a.connections[peer].pubkey is Some,
        a.event_seen(peer, ReportView::Connected, after),
    ensures
        after.connections.dom().contains(peer),
        after.connections[peer].established,
        after.connections[peer].pubkey == a.connections[peer].pubkey,
{
}

/// Datagrams to a peer wait until the connection is up, and none waits longer.
pub proof fn law_pending_until_up(a: QuicView, peer: SocketAddr, after: QuicView)
    requires
        a.connections.dom().contains(peer),
        a.flushes_to(peer, after),
    ensures
        !a.connections[peer].established ==> after == a,
        a.connections[peer].established ==> after.connections[peer].pending.len() == 0,
{
    if !a.connections[peer].established {
        assert(after.connections =~= a.connections);
        assert(after =~= a);
    }
}

proof fn lemma_sends_twice(
    socket: SocketId,
    a: Seq<(SocketId, SocketAddr, Seq<u8>)>,
    b: Seq<(SocketId, SocketAddr, Seq<u8>)>,
    c: Seq<(SocketId, SocketAddr, Seq<u8>)>,
)
    requires
        sends_from(socket, a, b),
        sends_from(socket, b, c),
    ensures
        sends_from(socket, a, c),
{
    assert(a.is_prefix_of(c));
    assert forall|i: int| a.len() <= i < c.len() implies (#[trigger] c[i]).0 == socket by {
        if i < b.len() {
            assert(b[i] == c[i]);
        }
    }
}

impl QuicState {
    /// The peers that there are connections to.
    fn peers(&self) -> (r: Vec<SocketAddr>)
        requires
            self.wf(),
        ensures
            peers_in_order(self@.connections, r@),
    {
        let mut r: Vec<SocketAddr> = Vec::new();
        let n: usize = self.connections.len();
        let mut i: usize = 0;
        while i < n
            invariant
                self.wf(),
                i <= n,
                n == self.connections.entries().len(),
                r@.len() == i,
                forall|k: int| 0 <= k < i ==> r@[k] == (#[trigger] self.connections.entries()[k]).0,
            decreases n - i,
        {
            let (peer, _) = self.connections.at(i);
            r.push(*peer);
            i += 1;
        }
        proof {
            assert forall|i: int, j: int| 0 <= i < j < r@.len() implies r@[i].rank()
                < r@[j].rank() by {
                assert(r@[i] == self.connections.entries()[i].0);
                assert(r@[j] == self.connections.entries()[j].0);
            }
            assert forall|peer: SocketAddr| #[trigger]
                r@.contains(peer) <==> self@.connections.dom().contains(peer) by {
                if r@.contains(peer) {
                    let k = r@.index_of(peer);
                    self.connections.lemma_entry(k);
                }
                if self@.connections.dom().contains(peer) {
                    assert(self.connections.has(peer));
                    let k = self.connections.index_of(peer);
                    assert(r@[k] == self.connections.entries()[k].0);
                }
            }
        }
        r
    }

    /// Takes what a connection reports and what it has for its endpoint.
    fn poll_peer(
        &mut self,
        peer: SocketAddr,
        reports: &mut Vec<(SocketAddr, QuicEvent)>,
        for_endpoint: &mut Vec<(usize, EndpointEvent)>,
    ) -> (more: Ghost<(Seq<ReportView>, Seq<EndpointEvent>)>)
        requires
            old(self).wf(),
            old(self)@.connections.dom().contains(peer),
        ensures
            final(self).wf(),
            final(self)@.live == old(self)@.live,
            old(self)@.adds_none(final(self)@),
            final(self)@.connections.dom() == old(self)@.connections.dom(),
            old(self)@.polled_next(
                peer,
                Polled { reports: report_views(old(reports)@), events: old(for_endpoint)@ },
                more@,
                Polled { reports: report_views(final(reports)@), events: final(for_endpoint)@ },
                final(self)@,
            ),
    {
        let ghost start = *self;
        let ghost had = report_views(reports@);
        let ghost had_events = for_endpoint@;
        self.flush(peer);
        let ghost flushed = *self;
        let ghost all = reports_of(flushed@.connections[peer].conn);
        let ghost events = endpoint_events_of(flushed@.connections[peer].conn);
        let ghost handle = start@.connections[peer].handle;
        if let Some(connection) = self.connections.get_mut(&peer) {
            let ghost was = *connection;
            assert(was.wf());
            assert(was.handle == handle);
            let mut more = true;
            let ghost mut taken: Seq<ReportView> = Seq::empty();
            assert(taken + reports_of(was.conn) =~= all);
            assert(had + reports_from(peer, taken) =~= had);
            let ghost mut reported: Connection = was.conn;
            while more
                invariant
                    *connection == (QuicConnection { conn: connection.conn, ..was }),
                    endpoint_events_of(connection.conn) == events,
                    more ==> connection.conn == reported,
                    gave_reports(was.conn, taken, reported),
                    !more ==> gives_report(reported, None, connection.conn),
                    !more ==> taken == all,
                    more ==> taken + reports_of(connection.conn) == all,
                    report_views(reports@) == had + reports_from(peer, taken),
                decreases
                        (if more {
                            reports_of(connection.conn).len() + 1
                        } else {
                            0
                        }),
            {
                let ghost left = reports_of(connection.conn);
                let ghost before = reports@;
                match poll_connection(&mut connection.conn) {
                    Some(event) => {
                        reports.push((peer, event));
                        proof {
                            let next = taken.push(left[0]);
                            assert(next + left.skip(1) =~= taken + left);
                            assert(report_views(reports@) =~= report_views(before).push(
                                (peer, left[0]),
                            ));
                            assert(reports_from(peer, next) =~= reports_from(peer, taken).push(
                                (peer, left[0]),
                            ));
                            assert(report_views(reports@) =~= had + reports_from(peer, next));
                            assert(next.drop_last() =~= taken);
                            assert(gives_report(reported, Some(next.last()), connection.conn));
                            reported = connection.conn;
                            taken = next;
                        }
                    },
                    None => {
                        more = false;
                        assert(taken =~= taken + left);
                    },
                }
            }
            let mut more = true;
            let ghost quiet = connection.conn;
            let ghost mut raised: Connection = connection.conn;
            let ghost mut told: Seq<EndpointEvent> = Seq::empty();
            assert(told + events =~= events);
            assert(had_events + events_from(handle, told) =~= had_events);
            while more
                invariant
                    was.wf(),
                    was.handle == handle,
                    *connection == (QuicConnection { conn: connection.conn, ..was }),
                    !more ==> endpoint_events_of(connection.conn).len() == 0,
                    told + endpoint_events_of(connection.conn) == events,
                    more ==> connection.conn == raised,
                    gave_events(quiet, told, raised),
                    !more ==> gives_event(raised, None, connection.conn),
                    for_endpoint@ == had_events + events_from(handle, told),
                decreases
                        (if more {
                            endpoint_events_of(connection.conn).len() + 1
                        } else {
                            0
                        }),
            {
                let ghost left = endpoint_events_of(connection.conn);
                match poll_for_endpoint(&mut connection.conn) {
                    Some(event) => {
                        for_endpoint.push((connection.handle, event));
                        proof {
                            let next = told.push(left[0]);
                            assert(next + left.skip(1) =~= told + left);
                            assert(events_from(handle, next) =~= events_from(handle, told).push(
                                (handle, left[0]),
                            ));
                            assert(for_endpoint@ =~= had_events + events_from(handle, next));
                            assert(next.drop_last() =~= told);
                            assert(gives_event(raised, Some(next.last()), connection.conn));
                            raised = connection.conn;
                            told = next;
                        }
                    },
                    None => {
                        more = false;
                        assert(left =~= endpoint_events_of(connection.conn));
                    },
                }
            }
            assert(told =~= events);
            assert(emptied_by(was.conn, all, reported, quiet, events, raised, connection.conn));
        }
        proof {
            self.lemma_changed(flushed, peer);
            assert(self@ =~= flushed@.with_conn(peer, self@.connections[peer].conn));
            assert(start@.polled_by(peer, flushed@, all, events, self@));
            assert(self@.connections.dom() =~= start@.connections.dom());
        }
        Ghost((all, events))
    }

    /// Tells the endpoint what a connection has for it, and the connection what
    /// the endpoint answers. Of a connection that it has forgotten, the
    /// endpoint hears nothing.
    fn relay(&mut self, endpoint: &mut Endpoint, handle: usize, event: EndpointEvent)
        requires
            old(self).wf(),
            old(self)@.known_by(*old(endpoint)),
        ensures
            final(self).wf(),
            final(self)@.known_by(*final(endpoint)),
            (QuicMachine { view: old(self)@, endpoint: *old(endpoint) }).heard(
                (handle, event),
                QuicMachine { view: final(self)@, endpoint: *final(endpoint) },
            ),
            old(self)@.adds_none(final(self)@),
    {
        let ghost start = *self;
        if !self.live.contains(&(handle as u64)) {
            return;
        }
        if ends_connection(&event) {
            let _ = self.live.remove(&(handle as u64));
        }
        proof {
            assert(self@.live =~= start@.freed(handle, event).live);
            assert(self@ =~= start@.freed(handle, event));
            assert(start@.live.contains(handle as u64));
        }
        let ghost freed = self@;
        let ghost knew = *endpoint;
        let answer = tell_endpoint(endpoint, handle, event);
        let ghost said = answer;
        proof {
            assert forall|n: u64| #[trigger] freed.live.contains(n) implies knows(
                *endpoint,
                n,
            ) by {
                assert(start@.live.contains(n));
                assert(knows(knew, n));
            }
        }
        if let Some(answer) = answer {
            self.tell(handle, answer);
        }
        proof {
            let was = QuicMachine { view: start@, endpoint: knew };
            let is = QuicMachine { view: self@, endpoint: *endpoint };
            let item = (handle, event);
            assert(was.heard_by(item.0, item.1, said, is));
            assert(was.heard(item, is));
        }
    }

    /// Runs the state machines of the connections and of the endpoint, and
    /// sends what they want sent. It never blocks.
    fn drive<E: OverlayEnv>(
        &mut self,
        endpoint: &mut Endpoint,
        base: Instant,
        socket: SocketId,
        env: &mut E,
    )
        requires
            old(self).wf(),
            old(self)@.known_by(*old(endpoint)),
        ensures
            final(self).wf(),
            final(self)@.known_by(*final(endpoint)),
            old(self)@.adds_none(final(self)@),
            (QuicMachine { view: old(self)@, endpoint: *old(endpoint) }).driven(
                base,
                socket,
                old(env).seen(),
                old(env).seen().sent,
                QuicMachine { view: final(self)@, endpoint: *final(endpoint) },
                final(env).seen().sent,
            ),
            sends_from(socket, old(env).seen().sent, final(env).seen().sent),
            old(env).seen().sends_to(final(env).seen()),
    {
        let ghost start = self@;
        let ghost machine = QuicMachine { view: self@, endpoint: *endpoint };
        let mut reports: Vec<(SocketAddr, QuicEvent)> = Vec::new();
        let mut for_endpoint: Vec<(usize, EndpointEvent)> = Vec::new();
        let peers = self.peers();
        let mut i: usize = 0;
        proof {
            assert(peers@.take(0) =~= Seq::empty());
            assert(report_views(reports@) =~= Seq::empty());
        }
        while i < peers.len()
            invariant
                self.wf(),
                self@.live == start.live,
                i <= peers@.len(),
                peers_in_order(start.connections, peers@),
                self@.connections.dom() == start.connections.dom(),
                start.adds_none(self@),
                start.all_polled(
                    peers@.take(i as int),
                    Polled { reports: report_views(reports@), events: for_endpoint@ },
                    self@,
                ),
            decreases peers@.len() - i,
        {
            let ghost mid = self@;
            let ghost had = Polled { reports: report_views(reports@), events: for_endpoint@ };
            assert(peers@.contains(peers@[i as int]));
            let Ghost(more) = self.poll_peer(peers[i], &mut reports, &mut for_endpoint);
            proof {
                lemma_adds_none_twice(start, mid, self@);
                let next = peers@.take(i + 1);
                let all = Polled { reports: report_views(reports@), events: for_endpoint@ };
                assert(next.drop_last() =~= peers@.take(i as int));
                assert(next.last() == peers@[i as int]);
                assert(mid.polled_next(next.last(), had, more, all, self@));
                assert(start.all_polled(next, all, self@));
            }
            i += 1;
        }
        let ghost polled = self@;
        let ghost all = report_views(reports@);
        let ghost events = for_endpoint@;
        proof {
            assert(peers@.take(i as int) =~= peers@);
            assert(all.take(0) =~= Seq::empty());
        }
        for report in iter: reports
            invariant
                self.wf(),
                self@.live == start.live,
                iter.seq() == reports@,
                all == report_views(reports@),
                start.adds_none(self@),
                polled.all_seen(all.take(iter.index()), self@),
        {
            let ghost mid = self@;
            let (peer, event) = report;
            let ghost view = event@;
            self.handle_connection_event(peer, event);
            proof {
                let next = all.take(iter.index() + 1);
                assert(next.drop_last() =~= all.take(iter.index()));
                assert(next.last() == (peer, view));
                assert(mid.event_seen(next.last().0, next.last().1, self@));
                assert(polled.all_seen(next, self@));
                law_event_adds_none(mid, peer, view, self@);
                lemma_adds_none_twice(start, mid, self@);
            }
        }
        let ghost seen = self@;
        let ghost ready = QuicMachine { view: seen, endpoint: *endpoint };
        proof {
            assert(all.take(all.len() as int) =~= all);
            assert(events.take(0) =~= Seq::empty());
        }
        for item in iter: for_endpoint
            invariant
                self.wf(),
                self@.known_by(*endpoint),
                start.adds_none(self@),
                iter.seq() == for_endpoint@,
                events == for_endpoint@,
                ready.all_heard(
                    events.take(iter.index()),
                    QuicMachine { view: self@, endpoint: *endpoint },
                ),
        {
            let ghost mid = QuicMachine { view: self@, endpoint: *endpoint };
            let (handle, event) = item;
            self.relay(endpoint, handle, event);
            proof {
                let next = events.take(iter.index() + 1);
                let now = QuicMachine { view: self@, endpoint: *endpoint };
                assert(next.drop_last() =~= events.take(iter.index()));
                assert(next.last() == item);
                assert(mid.heard(next.last(), now));
                assert(ready.all_heard(next, now));
                lemma_adds_none_twice(start, mid.view, self@);
            }
        }
        let ghost told = QuicMachine { view: self@, endpoint: *endpoint };
        assert(events.take(events.len() as int) =~= events);
        self.flush_transmits(base, socket, env);
        proof {
            lemma_rewired_adds_none(told.view, self@);
            lemma_adds_none_twice(start, told.view, self@);
            assert(machine.driven_by(
                base,
                socket,
                old(env).seen(),
                old(env).seen().sent,
                peers@,
                Polled { reports: all, events },
                polled,
                seen,
                told,
                QuicMachine { view: self@, endpoint: *endpoint },
                env.seen().sent,
            ));
        }
    }

    /// Sends what the connections want sent, until there is nothing more.
    fn flush_transmits<E: OverlayEnv>(&mut self, base: Instant, socket: SocketId, env: &mut E)
        requires
            old(self).wf(),
        ensures
            final(self).wf(),
            old(self)@.rewired(final(self)@),
            all_sent(
                base,
                socket,
                old(env).seen(),
                old(self)@,
                old(env).seen().sent,
                final(self)@,
                final(env).seen().sent,
            ),
            sends_from(socket, old(env).seen().sent, final(env).seen().sent),
            old(env).seen().sends_to(final(env).seen()),
    {
        let ghost start = self@;
        let ghost sent = env.seen().sent;
        let ghost mut rounds: Seq<Seq<Batch>> = Seq::empty();
        let peers = self.peers();
        let mut left: u64 = u64::MAX;
        let mut done = false;
        proof {
            lemma_rewired_self(start);
            assert(all_transmitted(socket, transmits_of_all(rounds)) =~= Seq::empty());
        }
        while left > 0 && !done
            invariant
                self.wf(),
                peers_in_order(start.connections, peers@),
                start.rewired(self@),
                sends_from(socket, sent, env.seen().sent),
                old(env).seen().sends_to(env.seen()),
                env.seen().sent == sent + all_transmitted(socket, transmits_of_all(rounds)),
                start.rounds_poured(base, old(env).seen(), peers@, rounds, self@),
                rounds.len() == u64::MAX - left + (if done {
                    1int
                } else {
                    0
                }),
                done ==> rounds.len() > 0 && transmits_of(rounds.last()).len() == 0 && left > 0,
                forall|k: int|
                    0 <= k < rounds.len() - (if done {
                        1int
                    } else {
                        0
                    }) ==> transmits_of(#[trigger] rounds[k]).len() > 0,
            decreases
                    left + (if done {
                        0int
                    } else {
                        1
                    }),
        {
            let now: u64 = env.now();
            assert(old(env).seen().reads(now));
            let mut transmits: Vec<QuicTransmit> = Vec::new();
            let ghost round = self@;
            let ghost mut batches: Seq<Batch> = Seq::empty();
            let mut i: usize = 0;
            proof {
                lemma_rewired_self(round);
                assert(transmits_of(batches) =~= transmit_views(transmits@));
            }
            while i < peers.len()
                invariant
                    self.wf(),
                    i <= peers@.len(),
                    peers_in_order(start.connections, peers@),
                    start.rewired(round),
                    round.rewired(self@),
                    round.poured(base, batches, self@),
                    batches.len() == i,
                    forall|k: int|
                        0 <= k < batches.len() ==> {
                            &&& (#[trigger] batches[k]).peer == peers@[k]
                            &&& batches[k].now == now
                            &&& is_asked_out(batches[k].results)
                        },
                    transmits_of(batches) == transmit_views(transmits@),
                decreases peers@.len() - i,
            {
                let ghost mid = self@;
                assert(peers@.contains(peers@[i as int]));
                let Ghost(results) = self.poll_transmits(peers[i], base, now, &mut transmits);
                proof {
                    lemma_rewired_twice(round, mid, self@);
                    let batch = Batch { peer: peers@[i as int], now, results };
                    let next = batches.push(batch);
                    assert(next.drop_last() =~= batches);
                    assert(mid.poured_one(base, next.last(), self@));
                    assert(round.poured(base, next, self@));
                    assert(transmits_of(next) =~= transmit_views(transmits@));
                    assert forall|k: int| 0 <= k < next.len() implies {
                        &&& (#[trigger] next[k]).peer == peers@[k]
                        &&& next[k].now == now
                        &&& is_asked_out(next[k].results)
                    } by {
                        if k < batches.len() {
                            assert(next[k] == batches[k]);
                        }
                    }
                    batches = next;
                }
                i += 1;
            }
            let ghost before = rounds;
            proof {
                lemma_rewired_twice(start, round, self@);
                let next = rounds.push(batches);
                assert(next.drop_last() =~= rounds);
                assert(is_round(peers@, now, batches));
                assert(round.round_poured(base, old(env).seen(), peers@, next.last(), self@));
                assert(start.rounds_poured(base, old(env).seen(), peers@, next, self@));
                rounds = next;
            }
            let ghost told = transmits_of_all(before);
            if transmits.len() == 0 {
                done = true;
                assert(transmits_of_all(rounds) =~= told);
            } else {
                let ghost views = transmit_views(transmits@);
                let ghost mut all = told;
                assert(told + views.take(0) =~= told);
                for transmit in iter: transmits
                    invariant
                        iter.seq() == transmits@,
                        views == transmit_views(transmits@),
                        sends_from(socket, sent, env.seen().sent),
                        old(env).seen().sends_to(env.seen()),
                        all == told + views.take(iter.index()),
                        env.seen().sent == sent + all_transmitted(socket, all),
                {
                    let ghost mid = env.seen().sent;
                    send_transmit(env, socket, &transmit);
                    proof {
                        lemma_sends_twice(socket, sent, mid, env.seen().sent);
                        let next = all.push(transmit@);
                        assert(next.drop_last() =~= all);
                        assert(views.take(iter.index() + 1) =~= views.take(iter.index()).push(
                            transmit@,
                        ));
                        assert(next =~= told + views.take(iter.index() + 1));
                        assert(env.seen().sent =~= sent + all_transmitted(socket, next));
                        all = next;
                    }
                }
                assert(views.take(views.len() as int) =~= views);
                assert(transmits_of_all(rounds) == told + views);
                left -= 1;
            }
        }
        assert(sent_all(
            base,
            socket,
            old(env).seen(),
            start,
            sent,
            peers@,
            rounds,
            self@,
            env.seen().sent,
        ));
    }

    /// Takes what the connection to `peer` wants sent.
    fn poll_transmits(
        &mut self,
        peer: SocketAddr,
        base: Instant,
        now: u64,
        transmits: &mut Vec<QuicTransmit>,
    ) -> (results: Ghost<Seq<Option<TransmitView>>>)
        requires
            old(self).wf(),
            old(self)@.connections.dom().contains(peer),
        ensures
            final(self).wf(),
            old(self)@.rewired(final(self)@),
            old(self)@.poured_one(base, Batch { peer, now, results: results@ }, final(self)@),
            transmit_views(final(transmits)@) == transmit_views(old(transmits)@) + transmits_in(
                results@,
            ),
            is_asked_out(results@),
    {
        let ghost start = *self;
        let ghost had = transmit_views(transmits@);
        let ghost mut results: Seq<Option<TransmitView>> = Seq::empty();
        assert(had + transmits_in(results) =~= had);
        if let Some(connection) = self.connections.get_mut(&peer) {
            let ghost was = *connection;
            assert(was.wf());
            let mut left: u64 = u64::MAX;
            let mut more = true;
            while left > 0 && more
                invariant
                    *connection == (QuicConnection { conn: connection.conn, ..was }),
                    gave_out(was.conn, base, now, results, connection.conn),
                    transmit_views(transmits@) == had + transmits_in(results),
                    results.len() == u64::MAX - left,
                    !more ==> results.len() > 0 && results.last() is None,
                    forall|k: int|
                        0 <= k < results.len() - (if more {
                            0int
                        } else {
                            1
                        }) ==> (#[trigger] results[k]) is Some,
                decreases left,
            {
                let ghost conn = connection.conn;
                let ghost before = transmit_views(transmits@);
                match poll_transmit(&mut connection.conn, base, now, MAX_DATAGRAMS_PER_TRANSMIT) {
                    Some(transmit) => {
                        let ghost view = transmit@;
                        transmits.push(transmit);
                        proof {
                            let next = results.push(Some(view));
                            assert(next.drop_last() =~= results);
                            assert(gives_out(conn, base, now, next.last(), connection.conn));
                            assert(transmit_views(transmits@) =~= before.push(view));
                            assert(transmit_views(transmits@) =~= had + transmits_in(next));
                            results = next;
                        }
                    },
                    None => {
                        more = false;
                        proof {
                            let next = results.push(None);
                            assert(next.drop_last() =~= results);
                            assert(gives_out(conn, base, now, next.last(), connection.conn));
                            results = next;
                        }
                    },
                }
                left -= 1;
            }
        }
        proof {
            self.lemma_changed(start, peer);
            assert(self@ =~= start@.with_conn(peer, self@.connections[peer].conn));
            lemma_with_conn(start@, peer, self@.connections[peer].conn);
        }
        Ghost(results)
    }

    /// When the timer of the connection to `peer` is due.
    fn due(&mut self, peer: SocketAddr, base: Instant) -> (r: Option<u64>)
        requires
            old(self).wf(),
            old(self)@.connections.dom().contains(peer),
        ensures
            final(self).wf(),
            final(self)@ == old(self)@,
            r == due_of(old(self)@.connections[peer].conn, base),
    {
        let ghost start = *self;
        let mut r: Option<u64> = None;
        if let Some(connection) = self.connections.get_mut(&peer) {
            assert(connection.wf());
            r = connection_due(&mut connection.conn, base);
        }
        proof {
            self.lemma_changed(start, peer);
            assert(self@.connections =~= start@.connections);
            assert(self@ =~= start@);
        }
        r
    }

    /// Fires the timers of the connection to `peer`.
    fn fire(&mut self, peer: SocketAddr, base: Instant, now: u64)
        requires
            old(self).wf(),
            old(self)@.connections.dom().contains(peer),
        ensures
            final(self).wf(),
            final(self)@ == old(self)@.with_conn(
                peer,
                timed_out(old(self)@.connections[peer].conn, base, now),
            ),
    {
        let ghost start = *self;
        if let Some(connection) = self.connections.get_mut(&peer) {
            let ghost was = *connection;
            assert(was.wf());
            fire_connection(&mut connection.conn, base, now);
        }
        proof {
            self.lemma_changed(start, peer);
            assert(self@ =~= start@.with_conn(
                peer,
                timed_out(start@.connections[peer].conn, base, now),
            ));
        }
    }

    /// Fires the timers that are due.
    fn handle_timeouts(&mut self, base: Instant, now: u64)
        requires
            old(self).wf(),
        ensures
            final(self).wf(),
            final(self)@ == old(self)@.timers_fired(base, now),
    {
        let ghost start = self@;
        let ghost fired = start.timers_fired(base, now);
        let peers = self.peers();
        let mut i: usize = 0;
        while i < peers.len()
            invariant
                self.wf(),
                i <= peers@.len(),
                fired == start.timers_fired(base, now),
                peers_in_order(start.connections, peers@),
                self@ == (QuicView { connections: self@.connections, ..start }),
                self@.connections.dom() == start.connections.dom(),
                forall|k: int|
                    0 <= k < peers@.len() ==> self@.connections[#[trigger] peers@[k]] == (if k
                        < i {
                        fired.connections[peers@[k]]
                    } else {
                        start.connections[peers@[k]]
                    }),
            decreases peers@.len() - i,
        {
            let ghost mid = self@;
            assert(peers@.contains(peers@[i as int]));
            if is_due(self.due(peers[i], base), now) {
                self.fire(peers[i], base, now);
            }
            proof {
                assert(self@.connections.dom() =~= start.connections.dom());
                assert forall|k: int| 0 <= k < peers@.len() implies self@.connections[
                    #[trigger] peers@[k]
                ] == (if k < i + 1 {
                    fired.connections[peers@[k]]
                } else {
                    start.connections[peers@[k]]
                }) by {
                    assert(peers@.contains(peers@[k]));
                    if k < i {
                        assert(peers@[k].rank() < peers@[i as int].rank());
                    } else if i < k {
                        assert(peers@[i as int].rank() < peers@[k].rank());
                    }
                }
            }
            i += 1;
        }
        proof {
            assert forall|peer: SocketAddr| #[trigger]
                start.connections.dom().contains(peer) implies self@.connections[peer]
                == fired.connections[peer] by {
                assert(peers@.contains(peer));
                let k = peers@.index_of(peer);
                assert(peers@[k] == peer);
            }
            assert(self@.connections =~= fired.connections);
        }
    }

    /// The earliest of the connections' timers.
    fn next_due(&mut self, base: Instant) -> (r: Option<u64>)
        requires
            old(self).wf(),
        ensures
            final(self).wf(),
            final(self)@ == old(self)@,
            old(self)@.first_due(base, r),
    {
        let ghost start = self@;
        let peers = self.peers();
        let mut r: Option<u64> = None;
        let mut i: usize = 0;
        while i < peers.len()
            invariant
                self.wf(),
                i <= peers@.len(),
                self@ == start,
                peers_in_order(start.connections, peers@),
                r matches Some(at) ==> exists|peer: SocketAddr| #[trigger]
                    start.connections.dom().contains(peer) && due_of(
                        start.connections[peer].conn,
                        base,
                    ) == Some(at),
                forall|k: int|
                    0 <= k < i ==> (due_of(
                        start.connections[#[trigger] peers@[k]].conn,
                        base,
                    ) matches Some(at) ==> r is Some && r->0 <= at),
            decreases peers@.len() - i,
        {
            assert(peers@.contains(peers@[i as int]));
            r = earliest(r, self.due(peers[i], base));
            i += 1;
        }
        proof {
            assert forall|peer: SocketAddr| #[trigger]
                start.connections.dom().contains(peer) implies (due_of(
                start.connections[peer].conn,
                base,
            ) matches Some(at) ==> r is Some && r->0 <= at) by {
                assert(peers@.contains(peer));
                let k = peers@.index_of(peer);
                assert(peers@[k] == peer);
            }
        }
        r
    }

    /// Follows up on a datagram from `from` that reached the endpoint. A peer
    /// that asks for a connection gets one, unless there are too many.
    fn handle_datagram_event<E: OverlayEnv>(
        &mut self,
        endpoint: &mut Endpoint,
        base: Instant,
        socket: SocketId,
        env: &mut E,
        Ghost(from): Ghost<SocketAddr>,
        arrival: Option<QuicArrival>,
    ) -> (r: Ghost<(u64, Seq<TransmitView>)>)
        requires
            old(self).wf(),
            old(self)@.known_by(*old(endpoint)),
            arrival matches Some(QuicArrival::NewConnection(incoming)) ==> incoming_from(incoming)
                == from && waits_on(*old(endpoint), incoming),
            arrival matches Some(QuicArrival::Response(answer)) ==> std_addr_view(
                answer.destination,
            ) == from,
        ensures
            final(self).wf(),
            final(self)@.known_by(*final(endpoint)),
            old(env).seen().reads(r@.0),
            (QuicMachine { view: old(self)@, endpoint: *old(endpoint) }).arrived(
                base,
                r@.0,
                from,
                arrival,
                r@.1,
                QuicMachine { view: final(self)@, endpoint: *final(endpoint) },
            ),
            old(self)@.adds_but(from, final(self)@),
            final(env).seen().sent == old(env).seen().sent + all_transmitted(socket, r@.1),
            old(env).seen().sends_to(final(env).seen()),
            sends_from(socket, old(env).seen().sent, final(env).seen().sent),
    {
        let ghost start = self@;
        let ghost asked = *endpoint;
        let ghost mut sent: Seq<TransmitView> = Seq::empty();
        proof {
            assert(env.seen().sent =~= env.seen().sent + all_transmitted(socket, sent));
        }
        let now = env.now();
        match arrival {
            Some(QuicArrival::ToConnection(handle, event)) => {
                self.tell(handle, event);
            },
            Some(QuicArrival::NewConnection(incoming)) => {
                let peer = from_std(incoming_address(&incoming));
                proof {
                    self.lemma_count();
                }
                if self.connections.len() >= MAX_CONNECTIONS {
                    let answer = refuse_incoming(endpoint, incoming);
                    send_transmit(env, socket, &answer);
                    proof {
                        sent = seq![answer@];
                        lemma_one_transmitted(socket, answer@);
                    }
                    return Ghost((now, sent));
                }
                let taken = accept_incoming(endpoint, incoming, base, now);
                let ghost came_to = acceptance(taken);
                match taken {
                    Ok((handle, conn)) => {
                        self.insert(peer, handle, conn);
                    },
                    Err(Some(answer)) => {
                        send_transmit(env, socket, &answer);
                        proof {
                            sent = seq![answer@];
                            lemma_one_transmitted(socket, answer@);
                        }
                    },
                    Err(None) => {},
                }
                proof {
                    let was = QuicMachine { view: start, endpoint: asked };
                    let is = QuicMachine { view: self@, endpoint: *endpoint };
                    assert(was.accepted_by(base, now, from, incoming, came_to, sent, is));
                }
            },
            Some(QuicArrival::Response(answer)) => {
                send_transmit(env, socket, &answer);
                proof {
                    sent = seq![answer@];
                    lemma_one_transmitted(socket, answer@);
                }
            },
            None => {},
        }
        Ghost((now, sent))
    }
}

spec fn report_views(reports: Seq<(SocketAddr, QuicEvent)>) -> Seq<(SocketAddr, ReportView)> {
    Seq::new(reports.len(), |i: int| (reports[i].0, reports[i].1@))
}

spec fn transmit_views(transmits: Seq<QuicTransmit>) -> Seq<TransmitView> {
    Seq::new(transmits.len(), |i: int| transmits[i]@)
}

proof fn lemma_one_transmitted(socket: SocketId, transmit: TransmitView)
    ensures
        all_transmitted(socket, seq![transmit]) == transmitted(socket, transmit),
{
    let one = seq![transmit];
    assert(one.drop_last() =~= Seq::empty());
    assert(all_transmitted(socket, one.drop_last()) =~= Seq::empty());
    assert(all_transmitted(socket, one) =~= transmitted(socket, transmit));
}

proof fn lemma_with_conn(a: QuicView, peer: SocketAddr, conn: Connection)
    requires
        a.connections.dom().contains(peer),
    ensures
        a.rewired(a.with_conn(peer, conn)),
{
    assert(a.with_conn(peer, conn).connections.dom() =~= a.connections.dom());
}

proof fn lemma_rewired_self(a: QuicView)
    ensures
        a.rewired(a),
{
}

proof fn lemma_rewired_twice(a: QuicView, b: QuicView, c: QuicView)
    requires
        a.rewired(b),
        b.rewired(c),
    ensures
        a.rewired(c),
{
    assert forall|peer: SocketAddr| #[trigger]
        c.connections.dom().contains(peer) implies c.connections[peer] == (ConnView {
        conn: c.connections[peer].conn,
        ..a.connections[peer]
    }) by {
        assert(b.connections.dom().contains(peer));
    }
}

proof fn lemma_rewired_adds_none(a: QuicView, b: QuicView)
    requires
        a.rewired(b),
    ensures
        a.adds_none(b),
{
}

/// Whether a timer is due.
pub fn is_due(due: Option<u64>, now: u64) -> (r: bool)
    ensures
        r == (due matches Some(at) && at <= now),
{
    match due {
        Some(at) => at <= now,
        None => false,
    }
}

/// The earlier of two times, where there are two.
pub fn earliest(a: Option<u64>, b: Option<u64>) -> (r: Option<u64>)
    ensures
        r == (match (a, b) {
            (Some(a), Some(b)) => Some(if a <= b {
                a
            } else {
                b
            }),
            (Some(a), None) => Some(a),
            (None, b) => b,
        }),
{
    match (a, b) {
        (Some(a), Some(b)) => if a <= b {
            Some(a)
        } else {
            Some(b)
        },
        (Some(a), None) => Some(a),
        (None, b) => b,
    }
}

/// The connections of a transport and its endpoint, which knows them. Both are
/// taken out while the machines run.
pub struct QuicTable {
    inner: Option<(QuicState, Endpoint)>,
}

impl QuicTable {
    /// Both are in place.
    pub closed spec fn is_whole(&self) -> bool {
        self.inner is Some
    }

    pub closed spec fn machine(&self) -> QuicMachine {
        QuicMachine { view: (self.inner->0).0@, endpoint: (self.inner->0).1 }
    }

    #[verifier::type_invariant]
    spec fn inv(self) -> bool {
        self.inner matches Some(inner) ==> inner.0.wf() && inner.0@.known_by(inner.1)
    }

    fn new(endpoint: Endpoint) -> (t: Self)
        ensures
            t.is_whole(),
            t.machine() == (QuicMachine { view: QuicView::empty(), endpoint }),
    {
        QuicTable { inner: Some((QuicState::new(), endpoint)) }
    }

    /// Takes both out, to be put back.
    fn take(&mut self) -> (r: Option<(QuicState, Endpoint)>)
        ensures
            old(self).is_whole() == r is Some,
            r matches Some(inner) ==> inner.0.wf() && inner.0@.known_by(inner.1)
                && old(self).machine() == (QuicMachine { view: inner.0@, endpoint: inner.1 }),
    {
        proof {
            use_type_invariant(&*self);
        }
        let mut inner: Option<(QuicState, Endpoint)> = None;
        std::mem::swap(&mut self.inner, &mut inner);
        inner
    }

    fn put(&mut self, state: QuicState, endpoint: Endpoint)
        requires
            state.wf(),
            state@.known_by(endpoint),
        ensures
            final(self).is_whole(),
            final(self).machine() == (QuicMachine { view: state@, endpoint }),
    {
        self.inner = Some((state, endpoint));
    }
}

/// The QUIC transport of one socket.
pub struct OverlayQuicTransport {
    socket: SocketId,
    base: Instant,
    client_config: ClientConfig,
    table: QuicTable,
}

impl OverlayQuicTransport {
    pub open spec fn view(&self) -> QuicView {
        self.machine().view
    }

    /// The transport together with its endpoint.
    pub closed spec fn machine(&self) -> QuicMachine {
        self.table.machine()
    }

    /// The connections and the endpoint are in place, as they are from the
    /// start and after every call.
    pub closed spec fn is_whole(&self) -> bool {
        self.table.is_whole()
    }

    /// What times are counted from.
    pub closed spec fn base(&self) -> Instant {
        self.base
    }

    /// The socket that the transport sends from and listens to.
    pub closed spec fn on_socket(&self) -> SocketId {
        self.socket
    }

    /// What peers are dialed with.
    pub closed spec fn config(&self) -> ClientConfig {
        self.client_config
    }

    /// `after` is this transport later on: it stays on its socket, and counts
    /// and dials as before.
    pub open spec fn stays(&self, after: &Self) -> bool {
        &&& after.is_whole()
        &&& after.on_socket() == self.on_socket()
        &&& after.base() == self.base()
        &&& after.config() == self.config()
    }

    /// A transport on `socket`, with an endpoint that answers peers and a
    /// configuration to dial them with. Times are counted from `base`.
    pub fn new(
        socket: SocketId,
        endpoint: Endpoint,
        client_config: ClientConfig,
        base: Instant,
    ) -> (t: Self)
        ensures
            t.on_socket() == socket,
            t.base() == base,
            t.config() == client_config,
            t.is_whole(),
            t.machine() == (QuicMachine { view: QuicView::empty(), endpoint }),
    {
        OverlayQuicTransport { socket, base, client_config, table: QuicTable::new(endpoint) }
    }
}

impl OverlayQuicTransport {
    /// `n` is how many datagrams wait for their connections.
    pub open spec fn holds_back(&self, n: nat) -> bool {
        exists|peers: Seq<SocketAddr>| #[trigger]
            peers_in_order(self@.connections, peers) && n == waiting_in(self@.connections, peers)
    }

    /// How many datagrams wait for their connections.
    pub fn pending_datagrams(&self) -> (n: usize)
        ensures
            self.is_whole() ==> self.holds_back(n as nat),
    {
        proof {
            use_type_invariant(&self.table);
        }
        match &self.table.inner {
            Some(inner) => {
                let n = inner.0.pending_datagrams();
                proof {
                    let peers = choose|peers: Seq<SocketAddr>| #[trigger]
                        peers_in_order(inner.0@.connections, peers) && n == waiting_in(
                            inner.0@.connections,
                            peers,
                        );
                    assert(self@.connections == inner.0@.connections);
                    assert(peers_in_order(self@.connections, peers));
                }
                n
            },
            None => 0,
        }
    }

    /// What each connection has counted, in the order of the peers.
    pub fn connection_stats(&self) -> (r: Vec<(SocketAddr, PathCounts)>)
        ensures
            self.is_whole() ==> counts_listed(self@.connections, r@),
    {
        proof {
            use_type_invariant(&self.table);
        }
        match &self.table.inner {
            Some(inner) => inner.0.connection_stats(),
            None => Vec::new(),
        }
    }
}

impl OverlayTransport for OverlayQuicTransport {
    open spec fn takes_outbound(
        &self,
        env: EnvView,
        to: SocketAddr,
        payload: Seq<u8>,
        r: Result<(), QueueError>,
        after: &Self,
        env_after: EnvView,
    ) -> bool {
        self.is_whole() ==> {
            &&& self.stays(after)
            &&& env.sends_to(env_after)
            &&& self.machine().datagram_queued(
                self.base(),
                self.on_socket(),
                self.config(),
                env,
                to,
                payload,
                r,
                after.machine(),
                env_after.sent,
            )
        }
    }

    open spec fn takes_datagram(
        &self,
        env: EnvView,
        socket: SocketId,
        from: SocketAddr,
        datagram: Seq<u8>,
        after: &Self,
        env_after: EnvView,
    ) -> bool {
        self.is_whole() ==> {
            &&& self.stays(after)
            &&& env.sends_to(env_after)
            &&& if socket == self.on_socket() {
                self.machine().datagram_taken(
                    self.base(),
                    socket,
                    env,
                    from,
                    datagram,
                    after.machine(),
                    env_after.sent,
                )
            } else {
                after.machine() == self.machine() && env_after == env
            }
        }
    }

    open spec fn takes_timer(&self, env: EnvView, after: &Self, env_after: EnvView) -> bool {
        self.is_whole() ==> {
            &&& self.stays(after)
            &&& env.sends_to(env_after)
            &&& self.machine().timer_taken(
                self.base(),
                self.on_socket(),
                env,
                after.machine(),
                env_after.sent,
            )
        }
    }

    open spec fn is_due(&self, deadline: Option<u64>, after: &Self) -> bool {
        self.is_whole() ==> {
            &&& self.stays(after)
            &&& after.machine() == self.machine()
            &&& self@.first_due(self.base(), deadline)
        }
    }

    open spec fn hands_out(&self, inbound: Seq<(SocketAddr, Vec<u8>)>, after: &Self) -> bool {
        self.is_whole() ==> {
            &&& self.stays(after)
            &&& addressed(inbound) == self@.inbound
            &&& after.machine() == (QuicMachine {
                view: QuicView { inbound: Seq::empty(), ..self@ },
                ..self.machine()
            })
        }
    }

    open spec fn tells(&self, events: Seq<TransportEvent>, after: &Self) -> bool {
        self.is_whole() ==> {
            &&& self.stays(after)
            &&& transport_events(events) == self@.events
            &&& after.machine() == (QuicMachine {
                view: QuicView { events: Seq::empty(), ..self@ },
                ..self.machine()
            })
        }
    }

    fn queue_datagram<E: OverlayEnv>(
        &mut self,
        env: &mut E,
        to: SocketAddr,
        payload: Vec<u8>,
    ) -> (r: Result<(), QueueError>)
        ensures
            old(self).is_whole() ==> final(self)@.bounded(),
    {
        let now = env.now();
        let ghost start = self.machine();
        let (mut state, mut endpoint) = match self.table.take() {
            Some(inner) => inner,
            None => {
                return Err(QueueError::ConnectFailed);
            },
        };
        let r = state.ensure_connection(
            &mut endpoint,
            &self.client_config,
            self.base,
            now,
            to,
        );
        let ghost ready = state;
        let ghost ensured = QuicMachine { view: state@, endpoint };
        assert(start.connection_ensured(self.base, now, self.client_config, to, r, ensured));
        if r.is_err() {
            proof {
                state.lemma_bounded();
            }
            self.table.put(state, endpoint);
            return r;
        }
        assert(ready@.connections.dom().contains(to));
        if let Some(connection) = state.connections.get_mut(&to) {
            let ghost was = *connection;
            assert(was.wf());
            push_bounded(&mut connection.pending, payload, MAX_PENDING_DATAGRAMS);
            assert(bytes_views(connection.pending@) =~= pushed_bounded(
                bytes_views(was.pending@),
                payload@,
                MAX_PENDING_DATAGRAMS as int,
            ));
        }
        proof {
            state.lemma_changed(ready, to);
            assert(state@ == ready@.queued(to, payload@));
        }
        state.drive(&mut endpoint, self.base, self.socket, env);
        proof {
            state.lemma_bounded();
        }
        self.table.put(state, endpoint);
        r
    }

    fn on_datagram<E: OverlayEnv>(
        &mut self,
        env: &mut E,
        socket: SocketId,
        from: SocketAddr,
        datagram: &[u8],
    )
        ensures
            old(self).is_whole() ==> old(self)@.adds_but(from, final(self)@),
            old(self).is_whole() ==> final(self)@.bounded(),
    {
        if socket != self.socket {
            proof {
                use_type_invariant(&self.table);
                if self.is_whole() {
                    (self.table.inner->0).0.lemma_bounded();
                }
            }
            return;
        }
        let now = env.now();
        let ghost start = self.machine();
        let (mut state, mut endpoint) = match self.table.take() {
            Some(inner) => inner,
            None => {
                return ;
            },
        };
        let arrival = take_in(&mut endpoint, self.base, now, to_std(from), datagram);
        let ghost seen = arrival;
        let ghost reached = QuicMachine { view: state@, endpoint };
        let Ghost(followed) = state.handle_datagram_event(
            &mut endpoint,
            self.base,
            self.socket,
            env,
            Ghost(from),
            arrival,
        );
        let ghost (later, answers) = followed;
        let ghost arrived = QuicMachine { view: state@, endpoint };
        let ghost mid = env.seen();
        state.drive(&mut endpoint, self.base, self.socket, env);
        proof {
            let end = QuicMachine { view: state@, endpoint };
            lemma_driven_clock(
                arrived,
                self.base,
                self.socket,
                mid,
                old(env).seen(),
                mid.sent,
                end,
                env.seen().sent,
            );
            assert(start.taken_by(
                self.base,
                socket,
                old(env).seen(),
                from,
                datagram@,
                now,
                later,
                seen,
                reached,
                answers,
                arrived,
                end,
                env.seen().sent,
            ));
            assert forall|other: SocketAddr| #[trigger]
                state@.connections.dom().contains(other) && other != from implies old(
                self,
            )@.connections.dom().contains(other) by {
                assert(arrived.view.connections.dom().contains(other));
            }
            state.lemma_bounded();
        }
        self.table.put(state, endpoint);
    }

    fn on_timer<E: OverlayEnv>(&mut self, env: &mut E)
        ensures
            old(self).is_whole() ==> old(self)@.adds_none(final(self)@),
            old(self).is_whole() ==> final(self)@.bounded(),
    {
        let now = env.now();
        let ghost start = self.machine();
        let (mut state, mut endpoint) = match self.table.take() {
            Some(inner) => inner,
            None => {
                return ;
            },
        };
        state.handle_timeouts(self.base, now);
        let ghost fired = state@;
        state.drive(&mut endpoint, self.base, self.socket, env);
        proof {
            assert(old(env).seen().reads(now));
            assert(start.view.adds_none(fired));
            lemma_adds_none_twice(start.view, fired, state@);
            state.lemma_bounded();
        }
        self.table.put(state, endpoint);
    }

    fn poll_timeout(&mut self) -> (r: Option<u64>) {
        let (mut state, mut endpoint) = match self.table.take() {
            Some(inner) => inner,
            None => {
                return None;
            },
        };
        let r = state.next_due(self.base);
        self.table.put(state, endpoint);
        r
    }

    fn take_inbound(&mut self) -> (r: Vec<(SocketAddr, Vec<u8>)>) {
        let (mut state, mut endpoint) = match self.table.take() {
            Some(inner) => inner,
            None => {
                return Vec::new();
            },
        };
        let ghost start = state;
        let mut r: Vec<(SocketAddr, Vec<u8>)> = Vec::new();
        while state.inbound_frames.len() > 0
            invariant
                state == (QuicState { inbound_frames: state.inbound_frames, ..start }),
                r@ + state.inbound_frames@ == start.inbound_frames@,
            decreases state.inbound_frames@.len(),
        {
            if let Some(frame) = state.inbound_frames.pop_front() {
                r.push(frame);
            }
            assert(r@ + state.inbound_frames@ =~= start.inbound_frames@);
        }
        proof {
            assert(r@ =~= start.inbound_frames@);
            assert(state@.inbound =~= Seq::empty());
            assert(state@ =~= QuicView { inbound: Seq::empty(), ..start@ });
        }
        self.table.put(state, endpoint);
        r
    }

    fn take_events(&mut self) -> (r: Vec<TransportEvent>) {
        let (mut state, mut endpoint) = match self.table.take() {
            Some(inner) => inner,
            None => {
                return Vec::new();
            },
        };
        let ghost start = state;
        let mut r: Vec<TransportEvent> = Vec::new();
        while state.events.len() > 0
            invariant
                state == (QuicState { events: state.events, ..start }),
                r@ + state.events@ == start.events@,
            decreases state.events@.len(),
        {
            if let Some(event) = state.events.pop_front() {
                r.push(event);
            }
            assert(r@ + state.events@ =~= start.events@);
        }
        proof {
            assert(r@ =~= start.events@);
            assert(state@.events =~= Seq::empty());
            assert(state@ =~= QuicView { events: Seq::empty(), ..start@ });
        }
        self.table.put(state, endpoint);
        r
    }

    fn peer_identity(&self, peer: SocketAddr) -> (r: Option<Pubkey>)
        ensures
            self.is_whole() ==> r == (if self@.connections.dom().contains(peer) {
                self@.connections[peer].pubkey
            } else {
                None
            }),
    {
        proof {
            use_type_invariant(&self.table);
        }
        match &self.table.inner {
            Some(inner) => match inner.0.connections.get(&peer) {
                Some(connection) => connection.peer_pubkey,
                None => None,
            },
            None => None,
        }
    }
}

proof fn lemma_rounds_clock(
    view: QuicView,
    base: Instant,
    env: EnvView,
    other: EnvView,
    peers: Seq<SocketAddr>,
    rounds: Seq<Seq<Batch>>,
    after: QuicView,
)
    requires
        env.clock == other.clock,
        view.rounds_poured(base, env, peers, rounds, after),
    ensures
        view.rounds_poured(base, other, peers, rounds, after),
    decreases rounds.len(),
{
    if rounds.len() > 0 {
        let mid = choose|mid: QuicView|
            view.rounds_poured(base, env, peers, rounds.drop_last(), mid)
                && #[trigger] mid.round_poured(base, env, peers, rounds.last(), after);
        lemma_rounds_clock(view, base, env, other, peers, rounds.drop_last(), mid);
        let now = choose|now: u64| #[trigger]
            is_round(peers, now, rounds.last()) && env.reads(now) && mid.poured(
                base,
                rounds.last(),
                after,
            );
        assert(is_round(peers, now, rounds.last()) && other.reads(now));
        assert(mid.round_poured(base, other, peers, rounds.last(), after));
    }
}

/// What the machines did at the times of one clock, they did at those of one
/// that reads the same.
proof fn lemma_driven_clock(
    machine: QuicMachine,
    base: Instant,
    socket: SocketId,
    env: EnvView,
    other: EnvView,
    sent: Seq<(SocketId, SocketAddr, Seq<u8>)>,
    after: QuicMachine,
    sent_after: Seq<(SocketId, SocketAddr, Seq<u8>)>,
)
    requires
        machine.driven(base, socket, env, sent, after, sent_after),
        env.clock == other.clock,
    ensures
        machine.driven(base, socket, other, sent, after, sent_after),
{
    let (peers, all, polled, seen, told) = choose|
        peers: Seq<SocketAddr>,
        all: Polled,
        polled: QuicView,
        seen: QuicView,
        told: QuicMachine,
    | #[trigger]
        machine.driven_by(
            base,
            socket,
            env,
            sent,
            peers,
            all,
            polled,
            seen,
            told,
            after,
            sent_after,
        );
    let (order, rounds) = choose|order: Seq<SocketAddr>, rounds: Seq<Seq<Batch>>| #[trigger]
        sent_all(base, socket, env, told.view, sent, order, rounds, after.view, sent_after);
    lemma_rounds_clock(told.view, base, env, other, order, rounds, after.view);
    assert(sent_all(
        base,
        socket,
        other,
        told.view,
        sent,
        order,
        rounds,
        after.view,
        sent_after,
    ));
    assert(machine.driven_by(
        base,
        socket,
        other,
        sent,
        peers,
        all,
        polled,
        seen,
        told,
        after,
        sent_after,
    ));
}

} // verus!
