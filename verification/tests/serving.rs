//! Serving repair to peers.

use lightbringer::addr::{IpAddr, SocketAddr};
use lightbringer::pubkey::Pubkey;
use lightbringer::repair::peer_manager::RepairRequestHeader;
use lightbringer::repair::repair_nonce;
use lightbringer::repair_delivery::{
    build_shred_response, deserialize_request, validate_header, PeerRateLimit, RepairProtocol, ServeAction, ServeRepair,
    StoredShred, MAX_CLOCK_SKEW_MS, MAX_REQUESTS_PER_SECOND,
};
use lightbringer::types::PACKET_DATA_SIZE;

const SEC: u64 = 1_000_000_000;

fn key(n: u8) -> Pubkey {
    Pubkey::from_bytes(&[n; 32])
}

fn peer(port: u16) -> SocketAddr {
    SocketAddr::new(IpAddr::v4(192, 0, 2, 1), port)
}

fn header() -> RepairRequestHeader {
    RepairRequestHeader { sender: key(2), recipient: key(1), timestamp: 1_000_000, nonce: 77 }
}

#[test]
fn headers_are_checked() {
    let me = key(1);
    assert!(validate_header(&header(), &me, 1_000_000));
    assert!(!validate_header(&header(), &key(3), 1_000_000));
    let own = RepairRequestHeader { sender: me, ..header() };
    assert!(!validate_header(&own, &me, 1_000_000));
    assert!(validate_header(&header(), &me, 1_000_000 + MAX_CLOCK_SKEW_MS));
    assert!(!validate_header(&header(), &me, 1_000_001 + MAX_CLOCK_SKEW_MS));
    assert!(!validate_header(&header(), &me, 999_999 - MAX_CLOCK_SKEW_MS));
}

#[test]
fn responses_end_with_the_nonce() {
    let response = build_shred_response(&[5; 100], 0x0102_0304).unwrap();
    assert_eq!(response.len(), 104);
    assert_eq!(&response[..100], &[5; 100]);
    assert_eq!(repair_nonce(&response), Some(0x0102_0304));
    assert!(build_shred_response(&[5; PACKET_DATA_SIZE - 4], 1).is_some());
    assert!(build_shred_response(&[5; PACKET_DATA_SIZE - 3], 1).is_none());
}

#[test]
fn a_peer_gets_so_many_requests_a_second() {
    let mut limit = PeerRateLimit::new(0);
    for _ in 0..MAX_REQUESTS_PER_SECOND {
        assert!(limit.check_and_increment(SEC / 2));
    }
    assert!(!limit.check_and_increment(SEC - 1));
    assert!(limit.check_and_increment(SEC));

    let mut server = ServeRepair::new(key(1), 0);
    for _ in 0..MAX_REQUESTS_PER_SECOND {
        assert!(server.rate_limit(peer(1), 0));
    }
    assert!(!server.rate_limit(peer(1), 0));
    // The limit is each peer's own.
    assert!(server.rate_limit(peer(2), 0));
}

#[test]
fn requests_are_looked_up_or_dropped() {
    let mut server = ServeRepair::new(key(1), 0);
    let now = 1_000_000;
    let window = RepairProtocol::WindowIndex { header: header(), slot: 5, shred_index: 6 };
    let ServeAction::LookUpShred { slot: 5, shred_index: 6, nonce: 77 } =
        server.on_request(now, Some(window))
    else {
        panic!("not looked up")
    };
    let highest = RepairProtocol::HighestWindowIndex { header: header(), slot: 5, shred_index: 6 };
    assert!(matches!(
        server.on_request(now, Some(highest)),
        ServeAction::LookUpSlot { slot: 5, shred_index: 6, nonce: 77 }
    ));
    let own = RepairRequestHeader { sender: key(1), ..header() };
    for request in [
        Some(RepairProtocol::Legacy),
        Some(RepairProtocol::Pong),
        Some(RepairProtocol::Orphan { header: header(), slot: 5 }),
        Some(RepairProtocol::AncestorHashes { header: header(), slot: 5 }),
    ] {
        assert_eq!(server.on_request(now, request), ServeAction::Nothing);
    }
    for request in [
        None,
        Some(RepairProtocol::WindowIndex { header: own, slot: 5, shred_index: 6 }),
    ] {
        assert_eq!(server.on_request(now, request), ServeAction::Dropped);
    }
    let report = server.report_stats_if_needed(10 * SEC).unwrap();
    assert_eq!(report.stats.window_index, 2);
    assert_eq!(report.stats.highest_window_index, 1);
    assert_eq!(report.stats.legacy, 1);
    assert_eq!(report.stats.pong, 1);
    assert_eq!(report.stats.orphan, 1);
    assert_eq!(report.stats.ancestor_hashes, 1);
    assert_eq!(report.stats.drop_deserialize, 1);
    assert_eq!(report.stats.drop_header_invalid, 1);
    assert_eq!(report.stats.drop_unsupported, 3);
    assert_eq!(report.dropped, 5);
}

#[test]
fn answers_are_served_and_counted() {
    let mut server = ServeRepair::new(key(1), 0);
    let response = server.on_shred(Ok(Some(vec![4; 50])), 9).unwrap();
    assert_eq!(repair_nonce(&response), Some(9));
    assert!(server.on_shred(Ok(None), 9).is_none());
    assert!(server.on_shred(Err(()), 9).is_none());
    assert!(server.on_shred(Ok(Some(vec![4; PACKET_DATA_SIZE])), 9).is_none());

    let shred = |index: Option<u32>, tag: u8| StoredShred { index, data: vec![tag; 20] };
    let found = Ok(vec![shred(Some(1), 1), shred(None, 2), shred(Some(7), 3), shred(Some(9), 4)]);
    // The first that is high enough answers.
    let response = server.on_slot_shreds(found, 5, 9).unwrap();
    assert_eq!(response[0], 3);
    assert!(server.on_slot_shreds(Ok(vec![shred(Some(1), 1)]), 5, 9).is_none());
    assert!(server.on_slot_shreds(Err(()), 5, 9).is_none());

    assert!(server.report_stats_if_needed(9 * SEC).is_none());
    let report = server.report_stats_if_needed(10 * SEC).unwrap();
    assert_eq!(report.stats.served, 2);
    assert_eq!(report.stats.drop_not_found, 2);
    assert_eq!(report.stats.drop_oversized, 1);
    assert_eq!(report.stats.drop_store_error, 2);
    // The counts start over.
    let report = server.report_stats_if_needed(20 * SEC).unwrap();
    assert_eq!(report.stats.served, 0);
}

#[test]
fn idle_peers_are_forgotten() {
    let mut server = ServeRepair::new(key(1), 0);
    for _ in 0..MAX_REQUESTS_PER_SECOND {
        assert!(server.rate_limit(peer(1), 60 * SEC));
    }
    // Not idle for long enough.
    server.cleanup_if_needed(60 * SEC);
    assert!(!server.rate_limit(peer(1), 60 * SEC));
    server.cleanup_if_needed(121 * SEC);
    assert!(server.rate_limit(peer(1), 121 * SEC));
}

#[test]
fn stored_shreds_are_read_for_their_index() {
    let mut data = vec![0u8; 73];
    data.extend_from_slice(&9u32.to_le_bytes());
    assert_eq!(StoredShred::read(data.clone()).index, Some(9));
    assert_eq!(StoredShred::read(data[..76].to_vec()).index, None);
}

fn packet(kind: u32, slot: u64, shred_index: Option<u64>) -> Vec<u8> {
    let from = solana_sdk::pubkey::Pubkey::from([2; 32]);
    let to = solana_sdk::pubkey::Pubkey::from([1; 32]);
    let signature = solana_sdk::signature::Signature::from([9; 64]);
    let head = (kind, signature, from, to, 1_000_000u64, 77u32);
    match shred_index {
        Some(index) => bincode::serialize(&(head, slot, index)).unwrap(),
        None => bincode::serialize(&(head, slot)).unwrap(),
    }
}

#[test]
fn requests_are_read_off_packets() {
    let head = RepairRequestHeader {
        sender: Pubkey::from_bytes(&[2; 32]),
        recipient: Pubkey::from_bytes(&[1; 32]),
        timestamp: 1_000_000,
        nonce: 77,
    };
    assert_eq!(
        deserialize_request(&packet(8, 5, Some(6))),
        Some(RepairProtocol::WindowIndex { header: head, slot: 5, shred_index: 6 })
    );
    assert_eq!(
        deserialize_request(&packet(9, 5, Some(6))),
        Some(RepairProtocol::HighestWindowIndex { header: head, slot: 5, shred_index: 6 })
    );
    assert_eq!(
        deserialize_request(&packet(10, 5, None)),
        Some(RepairProtocol::Orphan { header: head, slot: 5 })
    );
    assert_eq!(
        deserialize_request(&packet(11, 5, None)),
        Some(RepairProtocol::AncestorHashes { header: head, slot: 5 })
    );
    assert_eq!(deserialize_request(&6u32.to_le_bytes()), Some(RepairProtocol::Legacy));
    let mut pong = 7u32.to_le_bytes().to_vec();
    pong.resize(132, 3);
    assert_eq!(deserialize_request(&pong), Some(RepairProtocol::Pong));

    // Nothing may be missing, and nothing may follow.
    let mut long = packet(8, 5, Some(6));
    assert_eq!(deserialize_request(&long[..159]), None);
    long.push(0);
    assert_eq!(deserialize_request(&long), None);
    assert_eq!(deserialize_request(&packet(8, 5, None)), None);
    assert_eq!(deserialize_request(&packet(12, 5, Some(6))), None);
    assert_eq!(deserialize_request(&[0, 0, 0]), None);
}

#[test]
fn packets_are_counted_before_they_are_read() {
    let mut server = ServeRepair::new(Pubkey::from_bytes(&[1; 32]), 0);
    let request = packet(8, 5, Some(6));
    for _ in 0..MAX_REQUESTS_PER_SECOND {
        assert_eq!(
            server.on_packet(0, 1_000_000, peer(1), &request),
            ServeAction::LookUpShred { slot: 5, shred_index: 6, nonce: 77 }
        );
    }
    assert_eq!(server.on_packet(0, 1_000_000, peer(1), &request), ServeAction::Dropped);
    assert_eq!(server.on_packet(0, 1_000_000, peer(2), &[1]), ServeAction::Dropped);
    let report = server.report_stats_if_needed(10 * SEC).unwrap();
    assert_eq!(report.stats.window_index, MAX_REQUESTS_PER_SECOND as u64);
    assert_eq!(report.stats.rate_limited, 1);
    assert_eq!(report.stats.drop_deserialize, 1);
}
