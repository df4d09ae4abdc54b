//! The in-memory transport.

use lightbringer::addr::{IpAddr, SocketAddr};
use lightbringer::overlay::env::{BindError, OverlayEnv, SocketId};
use lightbringer::overlay::sim::mem_transport::{
    MemStreamOp, MemStreamOpKind, MemTransport, StreamEvent,
};
use lightbringer::overlay::transport::{OverlayTransport, TransportEvent};
use lightbringer::pubkey::Pubkey;

struct NullEnv {
    sent: Vec<(SocketAddr, Vec<u8>)>,
}

impl OverlayEnv for NullEnv {
    fn now(&self) -> u64 {
        0
    }
    fn next_u64(&mut self) -> u64 {
        0
    }
    fn send(&mut self, _from: SocketId, to: SocketAddr, datagram: &[u8]) {
        self.sent.push((to, datagram.to_vec()));
    }
    fn bind(&mut self, _port: Option<u16>) -> Result<SocketId, BindError> {
        unreachable!()
    }
}

fn key(n: u8) -> Pubkey {
    Pubkey::from_bytes(&[n; 32])
}

fn at(last: u8) -> SocketAddr {
    SocketAddr::new(IpAddr::v4(10, 0, 0, last), 1)
}

/// MemTransport mirrors the stream contract exactly: open/data/fin both
/// directions, reset surfaces as `Failed`, disconnect kills streams.
#[test]
fn mem_transport_stream_mirror() {
    let mut env = NullEnv { sent: Vec::new() };
    let (a_pk, b_pk) = (key(1), key(2));
    let (a_addr, b_addr) = (at(1), at(2));
    let mut a = MemTransport::new();
    let mut b = MemTransport::new();
    a.establish(b_pk, b_addr);
    b.establish(a_pk, a_addr);

    // No stream toward an unconnected peer.
    assert!(a.open_stream(&key(3)).is_none());

    let stream = a.open_stream(&b_pk).expect("connected peer");
    assert!(a.write_stream(&mut env, stream, b"req"));
    a.finish_stream(&mut env, stream);
    for (to, op) in a.take_stream_ops() {
        assert_eq!(to, b_pk);
        b.deliver_stream_op(a_pk, op);
    }

    let b_stream = match b.poll_stream_event() {
        Some(StreamEvent::Opened { stream, peer }) => {
            assert_eq!(peer, a_pk);
            stream
        }
        other => panic!("expected Opened, got {other:?}"),
    };
    match b.poll_stream_event() {
        Some(StreamEvent::Data { stream, bytes }) => {
            assert_eq!(stream, b_stream);
            assert_eq!(bytes, b"req");
        }
        other => panic!("expected Data, got {other:?}"),
    }
    assert!(matches!(
        b.poll_stream_event(),
        Some(StreamEvent::Finished { stream }) if stream == b_stream
    ));

    // Response direction over the same stream.
    assert!(b.write_stream(&mut env, b_stream, b"resp"));
    b.finish_stream(&mut env, b_stream);
    for (to, op) in b.take_stream_ops() {
        assert_eq!(to, a_pk);
        a.deliver_stream_op(b_pk, op);
    }
    match a.poll_stream_event() {
        Some(StreamEvent::Data { stream: s, bytes }) => {
            assert_eq!(s, stream);
            assert_eq!(bytes, b"resp");
        }
        other => panic!("expected Data, got {other:?}"),
    }
    assert!(matches!(
        a.poll_stream_event(),
        Some(StreamEvent::Finished { stream: s }) if s == stream
    ));
    // Both sides FIN'd: state is reaped, further writes fail.
    assert!(!a.write_stream(&mut env, stream, b"late"));
    assert!(!b.write_stream(&mut env, b_stream, b"late"));

    // Reset surfaces as Failed on the other side.
    let stream = a.open_stream(&b_pk).unwrap();
    for (_, op) in a.take_stream_ops() {
        b.deliver_stream_op(a_pk, op);
    }
    let b_stream = match b.poll_stream_event() {
        Some(StreamEvent::Opened { stream, .. }) => stream,
        other => panic!("expected Opened, got {other:?}"),
    };
    a.reset_stream(&mut env, stream);
    for (_, op) in a.take_stream_ops() {
        b.deliver_stream_op(a_pk, op);
    }
    assert!(matches!(
        b.poll_stream_event(),
        Some(StreamEvent::Failed { stream }) if stream == b_stream
    ));

    // Disconnect fails every live stream with that peer.
    let stream = a.open_stream(&b_pk).unwrap();
    a.disconnect(&b_pk);
    assert!(matches!(
        a.poll_stream_event(),
        Some(StreamEvent::Failed { stream: s }) if s == stream
    ));
    assert!(!a.write_stream(&mut env, stream, b"dead"));
}

/// A payload waits for its connection, and reaches only whom it is meant for.
#[test]
fn payloads_wait_for_the_right_identity() {
    let mut env = NullEnv { sent: Vec::new() };
    let mut a = MemTransport::new();
    a.queue_datagram_expecting(&mut env, at(2), key(2), b"for two".to_vec());
    assert_eq!(a.take_dial_requests(), vec![at(2)]);
    a.establish(key(2), at(2));
    assert_eq!(a.take_deferred_out(), vec![(at(2), b"for two".to_vec())]);

    a.queue_datagram_expecting(&mut env, at(3), key(3), b"for three".to_vec());
    a.establish(key(4), at(3));
    assert!(a.take_deferred_out().is_empty());

    // Connected: sent at once to the right one, and not at all to another.
    a.queue_datagram_expecting(&mut env, at(2), key(2), b"again".to_vec());
    a.queue_datagram_expecting(&mut env, at(3), key(3), b"lost".to_vec());
    assert_eq!(env.sent, vec![(at(2), b"again".to_vec())]);
}

#[test]
fn payloads_for_two_identities_wait_side_by_side() {
    let mut env = NullEnv { sent: Vec::new() };
    let mut a = MemTransport::new();
    a.queue_datagram_expecting(&mut env, at(2), key(2), b"one".to_vec());
    a.queue_datagram_expecting(&mut env, at(2), key(3), b"two".to_vec());
    a.queue_datagram_expecting(&mut env, at(2), key(2), b"three".to_vec());
    a.establish(key(2), at(2));
    assert_eq!(
        a.take_deferred_out(),
        vec![(at(2), b"one".to_vec()), (at(2), b"three".to_vec())]
    );
    assert!(env.sent.is_empty());
}

#[test]
fn connections_are_listed_by_key() {
    let mut env = NullEnv { sent: Vec::new() };
    let mut a = MemTransport::new();
    a.establish(key(9), at(9));
    a.establish(key(2), at(2));
    // An address keeps the connection that it has.
    a.establish(key(5), at(2));
    assert_eq!(a.connected_peers(), vec![key(2), key(9)]);
    assert_eq!(a.connections(), vec![(key(2), at(2)), (key(9), at(9))]);
    assert_eq!(a.peer_identity(at(9)), Some(key(9)));
    assert_eq!(a.connection_addr(&key(5)), None);
    assert!(a.queue_datagram_to_peer(&mut env, &key(9), b"hi".to_vec()));
    assert!(!a.queue_datagram_to_peer(&mut env, &key(5), b"hi".to_vec()));
    assert_eq!(env.sent, vec![(at(9), b"hi".to_vec())]);
    let events = a.take_events();
    assert_eq!(events.len(), 2);
    assert!(matches!(
        events[0],
        TransportEvent::Connected { peer, pubkey: Some(k) } if peer == at(9) && k == key(9)
    ));
    a.drop_connection(&mut env, at(9));
    assert!(!a.is_connected_to(&key(9)));
    assert!(a.take_events().is_empty());
}

#[test]
fn datagrams_pass_through() {
    let mut env = NullEnv { sent: Vec::new() };
    let mut a = MemTransport::new();
    a.on_datagram(&mut env, SocketId(0), at(7), b"in");
    assert_eq!(a.take_inbound(), vec![(at(7), b"in".to_vec())]);
    assert!(a.take_inbound().is_empty());
    assert!(a.queue_datagram(&mut env, at(8), b"out".to_vec()).is_ok());
    assert_eq!(env.sent, vec![(at(8), b"out".to_vec())]);
    assert_eq!(a.poll_timeout(), None);
}

/// Operations for streams that nobody opened change nothing.
#[test]
fn stray_stream_operations_are_inert() {
    let mut a = MemTransport::new();
    let op = |kind| MemStreamOp { initiator_is_sender: true, seq: 4, kind };
    // Nobody is connected, so nothing opens.
    a.deliver_stream_op(key(1), op(MemStreamOpKind::Open));
    a.deliver_stream_op(key(1), op(MemStreamOpKind::Data(vec![1])));
    a.deliver_stream_op(key(1), op(MemStreamOpKind::Fin));
    a.deliver_stream_op(key(1), op(MemStreamOpKind::Reset));
    assert!(a.poll_stream_event().is_none());
    a.establish(key(1), at(1));
    a.deliver_stream_op(key(1), op(MemStreamOpKind::Open));
    // A second opening under the same name is ignored.
    a.deliver_stream_op(key(1), op(MemStreamOpKind::Open));
    assert!(matches!(a.poll_stream_event(), Some(StreamEvent::Opened { .. })));
    assert!(a.poll_stream_event().is_none());
}
