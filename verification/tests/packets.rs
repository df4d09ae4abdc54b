//! Filtering packets, putting shreds in order, and the texts of the RPCs.

use lightbringer::addr::{IpAddr, SocketAddr};
use lightbringer::digest::hash_bytes;
use lightbringer::overlay::sim::crypto::{
    derive_bytes, derive_keypair, derive_pubkey, derive_u64, SeededResetKey,
};
use lightbringer::overlay::sim::net::{LinkParams, Probability};
use lightbringer::overlay::sim::trace::{Trace, TraceEvent};
use lightbringer::layout::{
    get_common_header, get_index, get_last_in_slot, get_shred_type, get_signature, get_slot,
};
use lightbringer::ordmap::OrdMap;
use lightbringer::packet_filter::{lane_for, lane_of, FilterVerdict, PacketProcessor};
use lightbringer::pubkey::Pubkey;
use lightbringer::rpc::encode_shreds;
use lightbringer::solana_rpc::{decode_blockhash, HashDecodeError};
use lightbringer::store::shred::{batch_entries, shred_key};
use lightbringer::store::slot_meta::{SlotAction, SlotMetadataStore};
use lightbringer::text::{decimal, eq_ignoring_case, find, parse_number, same_text};
use lightbringer::time::Duration;
use lightbringer::types::{ShredHeader, ShredType};
use lightbringer::util::shred::{
    group_by_completion, group_by_fec_set, parent_from, parent_slot, recover_shreds_and_group_by_completion,
    ParsedShred, RecoveredBatch,
};
use solana_sdk::signer::Signer;

fn shred(index: u32, is_data: bool, data_complete: bool) -> ParsedShred {
    ParsedShred {
        fec_set_index: index / 32 * 32,
        index,
        is_data,
        data_complete,
        parent: Some(3),
        payload: vec![index as u8],
    }
}

#[test]
fn shreds_are_grouped_by_batch() {
    let all = vec![shred(33, true, false), shred(1, true, false), shred(40, false, false)];
    let batches = group_by_fec_set(all);
    assert_eq!(batches.len(), 2);
    let second = batches.get(&32).unwrap();
    assert_eq!(second.shreds.len(), 2);
    assert_eq!(second.data_cnt, 1);
    assert!(second.needs_recovery());
    let full = group_by_fec_set((0..32).map(|i| shred(i, true, false)).collect());
    assert!(!full.get(&0).unwrap().needs_recovery());
}

#[test]
fn groups_end_with_a_complete_shred() {
    // A batch joins the open group, which ends where its highest shred says so.
    let first = RecoveredBatch {
        recovered: vec![shred(1, true, false)],
        shreds: vec![shred(0, true, true), shred(2, false, true)],
    };
    let second = RecoveredBatch { recovered: vec![], shreds: vec![shred(32, true, true)] };
    let third = RecoveredBatch { recovered: vec![], shreds: vec![shred(64, true, true)] };
    let rest = RecoveredBatch { recovered: vec![], shreds: vec![shred(96, true, false)] };
    let groups = group_by_completion(vec![first, second, third, rest]);
    let indexes: Vec<Vec<u32>> = groups
        .iter()
        .map(|g| (0..g.len()).map(|i| *g.at(i).0).collect())
        .collect();
    assert_eq!(indexes, vec![vec![0, 1, 32], vec![64]]);
    assert_eq!(parent_slot(&groups), Some(3));
}

/// The first parent that is not zero counts, and a group before it must tell.
#[test]
fn the_parent_is_the_first_that_is_told() {
    let group = |index: u32, parent: Option<u64>| {
        let mut group = OrdMap::new();
        group.insert(index, ParsedShred { parent, ..shred(index, true, true) });
        group
    };
    assert_eq!(parent_slot(&vec![]), Some(0));
    assert_eq!(parent_slot(&vec![group(0, Some(0)), group(1, Some(4)), group(2, None)]), Some(4));
    assert_eq!(parent_slot(&vec![group(0, Some(0)), group(1, None)]), None);
    assert_eq!(parent_from(0, &OrdMap::new()), None);
    assert_eq!(parent_from(9, &OrdMap::new()), Some(9));
}

#[test]
fn recovered_shreds_join_batches_that_need_them() {
    let mut all: Vec<ParsedShred> = (32..64).map(|i| shred(i, true, i == 63)).collect();
    all.push(shred(0, true, false));
    all.push(shred(5, false, false));
    let batches = group_by_fec_set(all);
    let mut recovered = OrdMap::new();
    recovered.insert(0, vec![shred(31, true, true), shred(6, false, true)]);
    // The second batch is whole: nothing that is said to be recovered joins it.
    recovered.insert(32, vec![shred(70, true, true)]);
    let groups = recover_shreds_and_group_by_completion(batches, recovered);
    assert_eq!(groups.len(), 2);
    assert_eq!(groups[0].len(), 2);
    assert_eq!(*groups[0].at(1).0, 31);
    assert_eq!(groups[1].len(), 32);
    assert_eq!(*groups[1].at(0).0, 32);
}

#[test]
fn signatures_are_checked_once() {
    let keypair = derive_keypair(1, 2);
    let leader = derive_pubkey(1, 2);
    let root = [7u8; 32];
    let mut packet = keypair.sign_message(&root).as_ref().to_vec();
    packet.extend_from_slice(&[1, 2, 3]);
    let mut processor = PacketProcessor::new(true);
    assert!(processor.validate_packet(&packet, Some(root), leader));
    assert!(processor.validate_packet(&packet, Some(root), leader));
    assert!(!processor.validate_packet(&packet, Some([8; 32]), leader));
    assert!(!processor.validate_packet(&packet, Some(root), derive_pubkey(1, 3)));
    assert!(!processor.validate_packet(&packet[..63], Some(root), leader));
    assert!(!processor.validate_packet(&packet, None, leader));
    assert_eq!(
        processor.filter_packet(&packet, Some(root), leader),
        FilterVerdict::Pass { to_overlay: true }
    );
    let mut alone = PacketProcessor::new(false);
    assert_eq!(
        alone.filter_packet(&packet, Some(root), leader),
        FilterVerdict::Pass { to_overlay: false }
    );
    assert_eq!(alone.filter_packet(&packet, None, leader), FilterVerdict::RejectRepair);
    assert_eq!(alone.filter_packet(&[1, 2, 3], None, leader), FilterVerdict::Reject);
}

/// A data shred as it is on the wire, up to its flags.
fn wire_shred(slot: u64, index: u32, variant: u8, flags: u8) -> Vec<u8> {
    let mut shred = vec![7u8; 64];
    shred.push(variant);
    shred.extend_from_slice(&slot.to_le_bytes());
    shred.extend_from_slice(&index.to_le_bytes());
    shred.extend_from_slice(&7u16.to_le_bytes());
    shred.extend_from_slice(&(index / 32 * 32).to_le_bytes());
    shred.extend_from_slice(&[1, 0, flags]);
    shred
}

#[test]
fn shreds_are_read_off_the_wire() {
    let shred = wire_shred(0x0102_0304, 77, 0x96, 0xc0);
    assert_eq!(get_slot(&shred), Some(0x0102_0304));
    assert_eq!(get_index(&shred), Some(77));
    assert_eq!(get_shred_type(&shred), Some(ShredType::Data));
    assert_eq!(get_last_in_slot(&shred), Some(true));
    assert_eq!(get_signature(&shred), Some([7; 64]));
    let header = get_common_header(&shred).unwrap();
    assert_eq!(
        header,
        ShredHeader {
            slot: 0x0102_0304,
            index: 77,
            version: 7,
            fec_set_index: 64,
            kind: ShredType::Data,
        }
    );
    assert_eq!(get_last_in_slot(&wire_shred(1, 2, 0x96, 0x40)), Some(false));
    assert_eq!(get_last_in_slot(&wire_shred(1, 2, 0x66, 0xc0)), None);
    for (variant, kind) in [
        (0x5a, Some(ShredType::Code)),
        (0xa5, Some(ShredType::Data)),
        (0x46, Some(ShredType::Code)),
        (0x75, Some(ShredType::Code)),
        (0x86, Some(ShredType::Data)),
        (0xb6, Some(ShredType::Data)),
        (0x00, None),
        (0xff, None),
    ] {
        assert_eq!(get_shred_type(&wire_shred(1, 2, variant, 0)), kind, "{variant:#x}");
    }
    assert_eq!(get_slot(&shred[..72]), None);
    assert_eq!(get_index(&shred[..76]), None);
    assert_eq!(get_common_header(&shred[..82]), None);
    assert_eq!(get_last_in_slot(&shred[..85]), None);
    assert_eq!(lane_of(&shred, 4), Some((1, 0x0102_0304)));
    assert_eq!(lane_of(&shred[..70], 4), None);
}

#[test]
fn batches_are_filed_by_what_is_on_the_wire() {
    let data = wire_shred(9, 3, 0x86, 0);
    let code = wire_shred(9, 3, 0x46, 0);
    let entries = batch_entries(5, vec![data.clone(), code.clone()]).unwrap();
    assert_eq!(entries[0], (shred_key(5, 3, ShredType::Data), data.clone()));
    assert_eq!(entries[1], (shred_key(5, 3, ShredType::Code), code));
    assert!(batch_entries(5, vec![data, vec![1, 2, 3]]).is_none());
}

#[test]
fn packets_fill_slots() {
    let mut store = SlotMetadataStore::new(7);
    let packet = wire_shred(4, 0, 0x86, 0);
    assert!(matches!(store.on_packet(packet.clone(), 1), SlotAction::ArmTimer { slot: 4 }));
    assert!(matches!(store.on_packet(packet, 1), SlotAction::Nothing));
    assert!(matches!(store.on_packet(vec![1], 1), SlotAction::Nothing));
    for index in 1..31 {
        store.on_packet(wire_shred(4, index, 0x86, 0), 1);
    }
    let last = store.on_packet(wire_shred(4, 31, 0x86, 0xc0), 2);
    assert!(matches!(last, SlotAction::Completed { stop_timer: true, .. }));
}

#[test]
fn packets_are_spread_over_the_lanes() {
    assert_eq!(lane_for(0, 4), 0);
    assert_eq!(lane_for(6, 4), 2);
    assert_eq!(lane_for(u32::MAX, 4), 3);
}

#[test]
fn shreds_are_encoded_as_base64() {
    let encoded = encode_shreds(&vec![b"hello".to_vec(), vec![], vec![0xff, 0xef]]);
    assert_eq!(encoded, vec!["aGVsbG8=".to_string(), String::new(), "/+8=".to_string()]);
}

#[test]
fn block_hashes_are_base58() {
    let hash = decode_blockhash("4vJ9JU1bJJE96FWSJKvHsmmFADCg4gpZQff4P3bkLKi").unwrap();
    assert_eq!(hash, [1u8; 32]);
    assert_eq!(
        decode_blockhash("not base58: 0OIl"),
        Err(HashDecodeError::InvalidCharacter { character: ' ', index: 3 })
    );
    assert_eq!(
        decode_blockhash("ab\u{e9}"),
        Err(HashDecodeError::NonAsciiCharacter { index: 2 })
    );
    // A short text leaves the rest zero.
    let short = decode_blockhash("2").unwrap();
    assert_eq!(short[0], 1);
    assert_eq!(&short[1..], &[0; 31]);
    // One that is too long does not fit.
    assert_eq!(
        decode_blockhash("4vJ9JU1bJJE96FWSJKvHsmmFADCg4gpZQff4P3bkLKi4vJ9JU1bJJE96FWSJKvHsmm"),
        Err(HashDecodeError::BufferTooSmall)
    );
}

#[test]
fn everything_derives_from_the_seed() {
    assert_eq!(derive_bytes(1, 2, "x"), derive_bytes(1, 2, "x"));
    assert_ne!(derive_bytes(1, 2, "x"), derive_bytes(1, 2, "y"));
    assert_ne!(derive_bytes(1, 2, "x"), derive_bytes(1, 3, "x"));
    assert_ne!(derive_bytes(1, 2, "x"), derive_bytes(2, 2, "x"));
    let mut first = [0u8; 8];
    first.copy_from_slice(&derive_bytes(1, 2, "x")[..8]);
    assert_eq!(derive_u64(1, 2, "x"), u64::from_le_bytes(first));
    let expected = solana_sha256_hasher::hashv(&[
        b"overlay-sim",
        &1u64.to_le_bytes(),
        &2u32.to_le_bytes(),
        b"x",
    ]);
    assert_eq!(derive_bytes(1, 2, "x"), expected.to_bytes());
    let key = derive_keypair(5, 6).pubkey().to_bytes();
    assert_eq!(derive_pubkey(5, 6), Pubkey::from_bytes(&key));
}

#[test]
fn reset_tokens_verify() {
    let key = SeededResetKey::new(1, 2);
    let token = key.digest(b"data");
    assert!(key.verify(b"data", &token));
    assert!(!key.verify(b"date", &token));
    assert!(!key.verify(b"data", &token[..31]));
    assert!(!SeededResetKey::new(1, 3).verify(b"data", &token));
}

#[test]
fn a_trace_hashes_what_it_records() {
    let down = TraceEvent::HostDown { host: 1 };
    let up = TraceEvent::HostUp { host: 1 };
    let mut a = Trace::new(false);
    assert_eq!(a.hash_hex(), "00".repeat(32));
    a.record(5, &down);
    a.record(6, &up);
    let mut b = Trace::new(true);
    b.record(5, &down);
    b.record(6, &up);
    assert_eq!(a.hash_hex(), b.hash_hex());
    assert_eq!(a.events(), 2);
    assert_eq!(b.take_printed().len(), 2);
    assert!(a.take_printed().is_empty());
    let mut c = Trace::new(false);
    c.record(6, &up);
    c.record(5, &down);
    assert_ne!(a.hash_hex(), c.hash_hex());
    // One record, byte by byte.
    let mut d = Trace::new(false);
    d.record(9, &TraceEvent::HostDown { host: 3 });
    let mut bytes = vec![0u8; 32];
    bytes.extend_from_slice(&9u64.to_le_bytes());
    bytes.push(14);
    bytes.extend_from_slice(&3u32.to_le_bytes());
    let hash = solana_sha256_hasher::hashv(&[&bytes]).to_bytes();
    let hex: String = hash.iter().map(|b| format!("{b:02x}")).collect();
    assert_eq!(d.hash_hex(), hex);
}

#[test]
fn texts_and_numbers() {
    assert_eq!(decimal(0), "0");
    assert_eq!(decimal(u64::MAX), "18446744073709551615");
    assert_eq!(parse_number(b"65535", 65_535), Some(65_535));
    assert_eq!(parse_number(b"6x", 65_535), None);
    assert_eq!(parse_number(b"65536", 65_535), None);
    assert_eq!(parse_number(b"", 65_535), None);
    assert!(eq_ignoring_case(b"Content-Length", b"CONTENT-LENGTH"));
    assert!(!eq_ignoring_case(b"Content", b"Content-Length"));
    assert_eq!(find(b"abcabc", b"ca", 0), Some(2));
    assert_eq!(find(b"abcabc", b"bc", 2), Some(4));
    assert_eq!(find(b"abc", b"x", 0), None);
    assert!(same_text("one", "one"));
    assert!(!same_text("one", "two"));
}

#[test]
fn durations_and_links() {
    assert_eq!(Duration::from_secs(2).as_millis(), 2_000);
    assert_eq!(Duration::from_millis(1_500).as_secs(), 1);
    assert_eq!(Duration::from_secs(u64::MAX).as_nanos(), u64::MAX);
    assert_eq!(Duration::from_secs(1).min(Duration::from_secs(2)).as_secs(), 1);
    assert_eq!(Duration::from_secs(1).max(Duration::from_secs(2)).as_secs(), 2);
    let link = LinkParams::default()
        .delay(Duration::from_millis(5), Duration::from_millis(3))
        .mtu(1_300)
        .reorder_probability(Probability::ratio(1, 4));
    assert_eq!(link.mtu, Some(1_300));
    assert!(link.up);
    assert!(!link.partitioned().up);
    assert!(link.delay_max.as_nanos() >= link.delay_min.as_nanos());
}

#[test]
fn addresses_are_built_from_their_parts() {
    let a = SocketAddr::new(IpAddr::v4(1, 2, 3, 4), 5);
    assert_eq!(a.ip(), IpAddr::V4(0x0102_0304));
    assert_eq!(a.port(), 5);
    assert!(!a.ip().is_ipv6());
    let b = IpAddr::v6([0x2001, 0xdb8, 0, 0, 0, 0, 0, 1]);
    assert_eq!(b, IpAddr::V6(0x2001_0db8_0000_0000_0000_0000_0000_0001));
    assert!(b.is_ipv6());
    let key = Pubkey::from_bytes(&[3; 32]);
    assert_eq!(key.to_bytes(), vec![3; 32]);
}

#[test]
fn digests_follow_the_bytes() {
    assert_eq!(hash_bytes(b"a"), hash_bytes(b"a"));
    assert_ne!(hash_bytes(b"a"), hash_bytes(b"b"));
    assert_ne!(hash_bytes(b""), hash_bytes(&[0]));
}
