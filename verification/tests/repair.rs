//! Asking peers for missing shreds, and what comes back.

use lightbringer::addr::{IpAddr, SocketAddr};
use lightbringer::pubkey::Pubkey;
use lightbringer::repair::outstanding_timers::{
    repair_key, OutstandingRequest, OutstandingTimerStore, TimeoutAction,
};
use lightbringer::repair::peer_cache::{admission, Admission, PeerLoad, MAX_PEERS};
use lightbringer::repair::peer_manager::{
    map_request, RepairPeerSource, RepairRequestMapper, RepairRoute, RepairTarget,
    SolanaRepairPeers, WireRequest,
};
use lightbringer::repair::request::{
    handle_unbounded_packet_response, on_packet, on_request, on_response, process_missing_shreds, RepairReq,
    RequestAction, ResponseAction, ResponseShred,
};
use lightbringer::repair::{repair_nonce, OutstandingRequestKind};

fn key(n: u8) -> Pubkey {
    Pubkey::from_bytes(&[n; 32])
}

fn addr(port: u16) -> SocketAddr {
    SocketAddr::new(IpAddr::v4(192, 0, 2, 1), port)
}

/// Gives the same peer each time, or none.
struct OnePeer(Option<RepairTarget>);

impl RepairPeerSource for OnePeer {
    fn sample_peer(&mut self, _slot: u64) -> Option<RepairTarget> {
        self.0
    }
}

fn udp() -> RepairTarget {
    RepairTarget::Udp(addr(8000), key(9))
}

fn mapper(target: Option<RepairTarget>) -> RepairRequestMapper<OnePeer> {
    RepairRequestMapper::new(OnePeer(target), key(1))
}

fn outstanding(slot: u64, nonce: u32, target: RepairTarget) -> OutstandingRequest {
    OutstandingRequest {
        kind: OutstandingRequestKind::WindowIndex,
        nonce,
        slot,
        shred: 3,
        target,
        sent_at: 50,
    }
}

#[test]
fn the_nonce_is_the_tail_of_a_packet() {
    assert_eq!(repair_nonce(&[9, 9, 1, 2, 3, 4]), Some(0x0403_0201));
    assert_eq!(repair_nonce(&[1, 2, 3]), None);
}

#[test]
fn targets_tell_their_route_and_key() {
    assert_eq!(udp().route(), RepairRoute::Addr(addr(8000)));
    assert_eq!(udp().pubkey(), key(9));
    let peer = RepairTarget::Overlay(key(4));
    assert_eq!(peer.route(), RepairRoute::Peer(key(4)));
    assert_eq!(peer.pubkey(), key(4));
}

#[test]
fn requests_fit_their_target() {
    let request = map_request(key(1), udp(), 77, 123, 5, 6, false);
    assert_eq!(request.target, udp());
    assert_eq!(request.nonce, 77);
    let WireRequest::Cluster { header, slot: 5, shred_index: 6, highest: false } = request.wire
    else {
        panic!("{request:?}")
    };
    assert_eq!(header.sender, key(1));
    assert_eq!(header.recipient, key(9));
    assert_eq!(header.timestamp, 123);
    assert_eq!(header.nonce, 77);
    let request = map_request(key(1), RepairTarget::Overlay(key(4)), 77, 123, 5, 6, true);
    assert_eq!(request.wire, WireRequest::Overlay { slot: 5, shred_index: 6, highest: true });
}

#[test]
fn mapping_needs_a_peer() {
    assert!(mapper(None).map_bounded_shred(0, 1, 2).is_none());
    let request = mapper(Some(udp())).map_unbounded_shred(10, 1, 2).unwrap();
    assert_eq!(request.target, udp());
    assert!(matches!(
        request.wire,
        WireRequest::Cluster { slot: 1, shred_index: 2, highest: true, .. }
    ));
}

/// Nonces are drawn anew for each request.
#[test]
fn nonces_differ() {
    let mut mapper = mapper(Some(udp()));
    let nonces: Vec<u32> =
        (0..8).map(|i| mapper.map_bounded_shred(0, 1, i).unwrap().nonce).collect();
    assert!(nonces.iter().any(|n| *n != nonces[0]), "{nonces:?}");
}

#[test]
fn keys_tell_requests_apart() {
    let base = repair_key(5, 6, RepairRoute::Addr(addr(1))).to_raw();
    assert_eq!(base.len(), 45);
    for other in [
        repair_key(4, 6, RepairRoute::Addr(addr(1))),
        repair_key(5, 7, RepairRoute::Addr(addr(1))),
        repair_key(5, 6, RepairRoute::Addr(addr(2))),
        repair_key(5, 6, RepairRoute::Peer(key(1))),
    ] {
        assert_ne!(other.to_raw(), base);
    }
    // Keys sort by slot first.
    assert!(repair_key(256, 0, RepairRoute::Peer(key(0))).to_raw() > base);
}

#[test]
fn what_is_outstanding_is_found_once() {
    let mut store = OutstandingTimerStore::new();
    store.insert(&outstanding(5, 6, udp()));
    store.insert(&outstanding(5, 7, RepairTarget::Overlay(key(4))));
    store.insert(&outstanding(6, 8, udp()));
    assert!(store.contains(5) && store.contains(6) && !store.contains(7));
    assert!(store.remove(5, 6, RepairRoute::Peer(key(9))).is_none());
    let found = store.remove(5, 6, udp().route()).unwrap();
    assert_eq!(found.shred_index, 3);
    assert_eq!(found.sent_at, 50);
    assert!(store.remove(5, 6, udp().route()).is_none());
    let removed = store.remove_slot(5);
    assert_eq!(removed, vec![repair_key(5, 7, RepairRoute::Peer(key(4)))]);
    assert!(!store.contains(5) && store.contains(6));
}

#[test]
fn timeouts_retry_with_another_request() {
    let mut store = OutstandingTimerStore::new();
    let request = outstanding(5, 6, udp());
    let mut found = mapper(Some(udp()));
    // Answered in the meantime.
    assert!(matches!(store.on_timeout(&mut found, &request, 300), TimeoutAction::Answered));
    store.insert(&request);
    let TimeoutAction::Retry { request: again, wire } = store.on_timeout(&mut found, &request, 300)
    else {
        panic!("no retry")
    };
    assert_eq!(again.slot, 5);
    assert_eq!(again.shred, 3);
    assert_eq!(again.sent_at, 300);
    assert_eq!(again.nonce, wire.nonce);
    assert!(!store.contains(5));
    // Nobody to ask.
    store.insert(&request);
    assert!(matches!(
        store.on_timeout(&mut mapper(None), &request, 300),
        TimeoutAction::GiveUp
    ));
}

#[test]
fn missing_shreds_become_requests() {
    let mut mapper = mapper(Some(udp()));
    let asked = process_missing_shreds(&mut mapper, 40, 5, &vec![1, 4]);
    assert_eq!(asked.requests.len(), 2);
    assert_eq!(asked.outstanding.len(), 2);
    assert_eq!(asked.outstanding[1].shred, 4);
    assert_eq!(asked.outstanding[1].nonce, asked.requests[1].nonce);
    assert_eq!(asked.outstanding[1].sent_at, 40);
}

#[test]
fn a_slot_under_repair_is_not_asked_for_again() {
    let mut store = OutstandingTimerStore::new();
    let mut m = mapper(Some(udp()));
    let bounded = || RepairReq::MissingBoundedShreds { slot: 5, shreds: vec![1, 2] };
    let RequestAction::Send { slot: 5, asked } = on_request(&mut store, &mut m, 9, bounded())
    else {
        panic!("not sent")
    };
    assert_eq!(asked.requests.len(), 2);
    for request in &asked.outstanding {
        store.insert(request);
    }
    assert!(matches!(on_request(&mut store, &mut m, 9, bounded()), RequestAction::Ignore));
    let nothing = RepairReq::MissingBoundedShreds { slot: 6, shreds: vec![] };
    assert!(matches!(on_request(&mut store, &mut m, 9, nothing), RequestAction::Ignore));
    let RequestAction::Cancelled(keys) =
        on_request(&mut store, &mut m, 9, RepairReq::CancelRepair { slot: 5 })
    else {
        panic!("not cancelled")
    };
    assert_eq!(keys.len(), asked.outstanding.len());
    assert!(!store.contains(5));
}

#[test]
fn an_open_slot_is_asked_for_its_end_too() {
    let mut store = OutstandingTimerStore::new();
    let open = || RepairReq::MissingUnboundedShreds {
        slot: 5,
        shreds: vec![2],
        max_inclusive_shred: 9,
    };
    let RequestAction::Send { asked, .. } =
        on_request(&mut store, &mut mapper(Some(udp())), 9, open())
    else {
        panic!("not sent")
    };
    assert_eq!(asked.requests.len(), 2);
    let last = &asked.outstanding[1];
    assert_eq!(last.kind, OutstandingRequestKind::HighestWindowIndex);
    assert_eq!(last.shred, 9);
    assert!(matches!(
        on_request(&mut store, &mut mapper(None), 9, open()),
        RequestAction::Ignore
    ));
}

fn response(nonce: u32) -> Vec<u8> {
    let mut packet = vec![1, 2, 3];
    packet.extend_from_slice(&nonce.to_le_bytes());
    packet
}

#[test]
fn answers_are_matched_by_slot_nonce_and_route() {
    let mut store = OutstandingTimerStore::new();
    let mut m = mapper(Some(udp()));
    store.insert(&outstanding(5, 6, udp()));
    let shred = ResponseShred { slot: Some(5), index: Some(3), last_in_slot: Some(false) };
    let route = udp().route();
    let unknown = ResponseShred { slot: None, ..shred };
    assert!(matches!(
        on_response(&mut store, &mut m, 9, &response(6), unknown, route),
        ResponseAction::Drop
    ));
    assert!(matches!(
        on_response(&mut store, &mut m, 9, &response(7), shred, route),
        ResponseAction::Drop
    ));
    assert!(matches!(
        on_response(&mut store, &mut m, 9, &[1], shred, route),
        ResponseAction::Drop
    ));
    let ResponseAction::Forward { answered, asked: None } =
        on_response(&mut store, &mut m, 9, &response(6), shred, route)
    else {
        panic!("not forwarded")
    };
    assert_eq!(answered.shred_index, 3);
    assert!(!store.contains(5));
    // The same answer again answers nothing.
    assert!(matches!(
        on_response(&mut store, &mut m, 10, &response(6), shred, route),
        ResponseAction::Drop
    ));
}

#[test]
fn the_answer_to_an_open_request_goes_on() {
    let mut store = OutstandingTimerStore::new();
    let mut m = mapper(Some(udp()));
    let open = OutstandingRequest {
        kind: OutstandingRequestKind::HighestWindowIndex,
        ..outstanding(5, 6, udp())
    };
    store.insert(&open);
    let shred = ResponseShred { slot: Some(5), index: Some(6), last_in_slot: Some(false) };
    let ResponseAction::Forward { asked: Some(asked), .. } =
        on_response(&mut store, &mut m, 9, &response(6), shred, udp().route())
    else {
        panic!("not forwarded")
    };
    // 3, 4 and 5 lie between, and 7 comes after.
    let shreds: Vec<u32> = asked.outstanding.iter().map(|o| o.shred).collect();
    assert_eq!(shreds, vec![3, 4, 5, 6]);
    assert!(matches!(
        asked.requests[3].wire,
        WireRequest::Cluster { shred_index: 7, highest: true, .. }
    ));

    // The slot's last shred: nothing comes after.
    let last = ResponseShred { last_in_slot: Some(true), ..shred };
    let asked = handle_unbounded_packet_response(&mut m, 9, last, 3).unwrap();
    assert_eq!(asked.requests.len(), 3);
    // A shred that cannot be read.
    store.insert(&open);
    let unread = ResponseShred { index: None, ..shred };
    assert!(matches!(
        on_response(&mut store, &mut m, 9, &response(6), unread, udp().route()),
        ResponseAction::Discard { .. }
    ));
    assert!(!store.contains(5));
}

#[test]
fn loads_are_counted_in_windows() {
    let mut load = PeerLoad::new();
    for _ in 0..10 {
        load.record_request();
    }
    assert!(!load.is_hard_filtered());
    for _ in 0..5 {
        load.record_timeout();
    }
    assert!(!load.is_hard_filtered());
    load.record_timeout();
    assert!(load.is_hard_filtered());
    for _ in 0..90 {
        load.record_request();
    }
    assert_eq!(load, PeerLoad::new());
}

#[test]
fn newcomers_are_taken_in_while_there_is_room() {
    assert_eq!(admission(MAX_PEERS - 1, false), Admission::Insert);
    assert_eq!(admission(MAX_PEERS, true), Admission::ReplaceWorst);
    assert_eq!(admission(MAX_PEERS, false), Admission::Refuse);
}

#[test]
fn peer_lists_are_remembered_by_slot() {
    let mut peers = SolanaRepairPeers::new();
    assert!(peers.remembered(5).is_none());
    let contacts = vec![(Some(addr(1)), key(1)), (None, key(2)), (Some(addr(3)), key(3))];
    let want = vec![
        RepairTarget::Udp(addr(1), key(1)),
        RepairTarget::Udp(addr(3), key(3)),
    ];
    assert_eq!(peers.remember(5, &contacts), want);
    assert_eq!(peers.remembered(5), Some(want.clone()));
    // The least recently used of 200 lists makes room.
    for slot in 100..299u64 {
        assert!(peers.remember(slot, &vec![]).is_empty());
    }
    assert_eq!(peers.remembered(5), Some(want));
    peers.remember(999, &vec![]);
    assert!(peers.remembered(5).is_some());
    assert!(peers.remembered(100).is_none());
    assert_eq!(peers.remembered(101), Some(vec![]));
}

#[test]
fn packets_are_read_before_they_are_matched() {
    let mut store = OutstandingTimerStore::new();
    let mut m = mapper(Some(udp()));
    store.insert(&outstanding(5, 6, udp()));
    let mut packet = vec![0u8; 64];
    packet.push(0x86);
    packet.extend_from_slice(&5u64.to_le_bytes());
    packet.extend_from_slice(&3u32.to_le_bytes());
    packet.extend_from_slice(&[0; 9]);
    packet.extend_from_slice(&6u32.to_le_bytes());
    let read = ResponseShred::read(&packet);
    assert_eq!(read, ResponseShred { slot: Some(5), index: Some(3), last_in_slot: Some(false) });
    assert!(matches!(
        on_packet(&mut store, &mut m, 9, &packet[..80], udp().route()),
        ResponseAction::Drop
    ));
    assert!(matches!(
        on_packet(&mut store, &mut m, 9, &packet, udp().route()),
        ResponseAction::Forward { asked: None, .. }
    ));
    assert!(!store.contains(5));
}
