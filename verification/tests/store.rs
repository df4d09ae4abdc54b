//! The shred store's keys and the slots that fill up.

use lightbringer::repair::request::RepairReq;
use lightbringer::store::shred::{
    cutoff_for, lookup_key, shred_key, slot_of_key, slot_prefix, Retention, ShredCutoffFilter,
    RETENTION_SLOTS,
};
use lightbringer::store::slot_meta::{
    SlotAction, SlotMetaStoreRes, SlotMetadata, SlotMetadataStore,
};
use lightbringer::types::{ShredHeader, ShredType};

fn header(slot: u64, index: u32, kind: ShredType) -> ShredHeader {
    ShredHeader { slot, index, version: 7, fec_set_index: index / 32 * 32, kind }
}

#[test]
fn keys_hold_slot_index_and_kind() {
    let key = shred_key(0x0102, 0x0a0b, ShredType::Data);
    assert_eq!(key, vec![2, 1, 0, 0, 0, 0, 0, 0, 0x0b, 0x0a, 0, 0, 0b1010_0101]);
    assert_eq!(shred_key(1, 2, ShredType::Code)[12], 0b0101_1010);
    assert_eq!(lookup_key(0x0102, 0x0a0b, ShredType::Data), key);
    // An index beyond 32 bits is cut off.
    assert_eq!(lookup_key(0x0102, 0x5_0000_0a0b, ShredType::Data), key);
    assert!(key.starts_with(&slot_prefix(0x0102)));
    assert!(!key.starts_with(&slot_prefix(0x0103)));
    assert_eq!(slot_of_key(&key), Some(0x0102));
    assert_eq!(slot_of_key(&key[..7]), None);
}

#[test]
fn keys_differ_where_shreds_do() {
    let mut keys = Vec::new();
    for slot in [0u64, 1, 256] {
        for index in [0u32, 1, 256] {
            keys.push(shred_key(slot, index, ShredType::Data));
            keys.push(shred_key(slot, index, ShredType::Code));
        }
    }
    let all = keys.len();
    keys.sort();
    keys.dedup();
    assert_eq!(keys.len(), all);
}

#[test]
fn compaction_destroys_what_is_older_than_the_cutoff() {
    let last = shred_key(RETENTION_SLOTS + 10, 0, ShredType::Data);
    let cutoff = cutoff_for(&last).unwrap();
    assert_eq!(cutoff, 10);
    let filter = ShredCutoffFilter(cutoff);
    assert_eq!(filter.filter_key(&shred_key(9, 0, ShredType::Data)), Retention::Destroy);
    assert_eq!(filter.filter_key(&shred_key(10, 0, ShredType::Data)), Retention::Keep);
    assert_eq!(filter.filter_key(&[1, 2, 3]), Retention::Keep);
    assert_eq!(cutoff_for(&shred_key(5, 0, ShredType::Data)), Some(0));
    assert_eq!(cutoff_for(&[1]), None);
}

#[test]
fn a_slot_completes_once_its_batches_have() {
    let mut meta = SlotMetadata::new(5, 0);
    for index in 0..31u32 {
        let r = meta.store(header(5, index, ShredType::Data), Some(false), 1, vec![index as u8]);
        assert!(matches!(r, SlotMetaStoreRes::Incomplete));
    }
    assert!(!meta.is_complete());
    // The last shred of the slot makes the first batch full, and tells the end.
    let r = meta.store(header(5, 31, ShredType::Data), Some(true), 2, vec![31]);
    let SlotMetaStoreRes::Complete(raw) = r else { panic!("not complete") };
    assert_eq!(raw.slot, 5);
    assert_eq!(raw.shreds.len(), 32);
    assert_eq!(raw.shreds[7], vec![7]);
    assert!(meta.is_complete());
    // What comes later is ignored.
    let r = meta.store(header(5, 40, ShredType::Code), None, 3, vec![40]);
    assert!(matches!(r, SlotMetaStoreRes::Ignored));
}

#[test]
fn coding_shreds_count_towards_a_batch() {
    let mut meta = SlotMetadata::new(5, 0);
    for index in 0..16u32 {
        meta.store(header(5, index, ShredType::Data), Some(index == 15), 1, vec![]);
    }
    for index in 0..15u32 {
        let r = meta.store(header(5, index, ShredType::Code), None, 1, vec![]);
        assert!(matches!(r, SlotMetaStoreRes::Incomplete));
    }
    let r = meta.store(header(5, 15, ShredType::Code), None, 1, vec![]);
    assert!(matches!(r, SlotMetaStoreRes::Complete(_)));
}

#[test]
fn repeated_and_unreadable_shreds_are_ignored() {
    let mut meta = SlotMetadata::new(5, 0);
    let first = header(5, 3, ShredType::Data);
    assert!(matches!(meta.store(first, Some(false), 1, vec![3]), SlotMetaStoreRes::Incomplete));
    assert!(matches!(meta.store(first, Some(false), 1, vec![3]), SlotMetaStoreRes::Ignored));
    let unread = header(5, 4, ShredType::Data);
    assert!(matches!(meta.store(unread, None, 1, vec![4]), SlotMetaStoreRes::Ignored));
}

#[test]
fn missing_shreds_are_told_by_batch() {
    // The end is not known: only batches that were seen, and those before.
    let mut meta = SlotMetadata::new(5, 0);
    for index in [64u32, 66] {
        meta.store(header(5, index, ShredType::Data), Some(false), 1, vec![]);
    }
    let RepairReq::MissingUnboundedShreds { slot, shreds, max_inclusive_shred } =
        meta.calculate_missing_shreds()
    else {
        panic!("bounded")
    };
    assert_eq!(slot, 5);
    assert_eq!(max_inclusive_shred, 66);
    let mut sorted = shreds.clone();
    sorted.sort();
    let want: Vec<u32> = (0..96).filter(|i| *i != 64 && *i != 66).collect();
    assert_eq!(sorted, want);

    // The end is known.
    meta.store(header(5, 70, ShredType::Data), Some(true), 1, vec![]);
    let RepairReq::MissingBoundedShreds { slot, shreds } = meta.calculate_missing_shreds() else {
        panic!("unbounded")
    };
    assert_eq!(slot, 5);
    let want: Vec<u32> = (0..96).filter(|i| ![64, 66, 70].contains(i)).collect();
    assert_eq!(shreds, want);
}

#[test]
fn batches_that_coding_shreds_complete_are_not_missing() {
    let mut meta = SlotMetadata::new(5, 0);
    for index in 0..32u32 {
        let hdr = ShredHeader { fec_set_index: 0, ..header(5, index, ShredType::Code) };
        meta.store(hdr, None, 1, vec![]);
    }
    meta.store(header(5, 32, ShredType::Data), Some(false), 1, vec![]);
    let RepairReq::MissingUnboundedShreds { slot: 5, shreds, max_inclusive_shred: 32 } =
        meta.calculate_missing_shreds()
    else {
        panic!("bounded")
    };
    assert_eq!(shreds, (33..64).collect::<Vec<u32>>());
}

#[test]
fn the_listener_arms_repairs_and_completes() {
    let mut store = SlotMetadataStore::new(7);
    // Another version, or no header at all.
    let other = ShredHeader { version: 8, ..header(5, 0, ShredType::Data) };
    assert!(matches!(store.on_shred(Some(other), Some(false), 0, vec![]), SlotAction::Nothing));
    assert!(matches!(store.on_shred(None, None, 0, vec![]), SlotAction::Nothing));
    assert!(matches!(store.on_timeout(5), SlotAction::Nothing));

    for index in 0..31u32 {
        let hdr = header(5, index, ShredType::Data);
        let action = store.on_shred(Some(hdr), Some(false), 1, vec![index as u8]);
        assert!(matches!(action, SlotAction::ArmTimer { slot: 5 }));
    }
    // Stale: repair is asked for.
    let SlotAction::Repair(RepairReq::MissingUnboundedShreds { slot: 5, shreds, .. }) =
        store.on_timeout(5)
    else {
        panic!("no repair")
    };
    assert_eq!(shreds, vec![31]);
    // Complete after that: the repair is cancelled, and no timer runs.
    let last = header(5, 31, ShredType::Data);
    let SlotAction::Completed { raw, stop_timer, cancel_repair } =
        store.on_shred(Some(last), Some(true), 2, vec![31])
    else {
        panic!("not complete")
    };
    assert_eq!(raw.shreds.len(), 32);
    assert!(!stop_timer);
    assert!(cancel_repair);
    assert!(matches!(store.on_timeout(5), SlotAction::Nothing));
}

#[test]
fn a_slot_that_completes_in_time_stops_its_timer() {
    let mut store = SlotMetadataStore::new(7);
    for index in 0..31u32 {
        store.on_shred(Some(header(6, index, ShredType::Data)), Some(false), 1, vec![]);
    }
    let last = header(6, 31, ShredType::Data);
    let SlotAction::Completed { stop_timer, cancel_repair, .. } =
        store.on_shred(Some(last), Some(true), 2, vec![])
    else {
        panic!("not complete")
    };
    assert!(stop_timer);
    assert!(!cancel_repair);
}

#[test]
fn storing_goes_to_the_slot_of_the_shred() {
    let mut store = SlotMetadataStore::new(7);
    let one = header(1, 0, ShredType::Data);
    let two = header(2, 0, ShredType::Data);
    assert!(matches!(store.store_shred(one, Some(false), 1, vec![]), SlotMetaStoreRes::Incomplete));
    assert!(matches!(store.store_shred(two, Some(false), 1, vec![]), SlotMetaStoreRes::Incomplete));
    assert!(matches!(store.store_shred(one, Some(false), 1, vec![]), SlotMetaStoreRes::Ignored));
}

/// Shreds of many slots come in turn, and each slot completes with its own.
#[test]
fn slots_fill_up_side_by_side() {
    let mut store = SlotMetadataStore::new(7);
    let slots: Vec<u64> = (1_000..1_032).collect();
    for index in 0..32u32 {
        for &slot in &slots {
            let hdr = header(slot, index, ShredType::Data);
            let shred = vec![slot as u8, index as u8];
            let r = store.store_shred(hdr, Some(index == 31), 5, shred);
            match r {
                SlotMetaStoreRes::Complete(raw) => {
                    assert_eq!(index, 31);
                    assert_eq!(raw.slot, slot);
                    let want: Vec<Vec<u8>> = (0..32u8).map(|i| vec![slot as u8, i]).collect();
                    assert_eq!(raw.shreds, want);
                }
                SlotMetaStoreRes::Incomplete => assert!(index < 31),
                SlotMetaStoreRes::Ignored => panic!("slot {slot} was forgotten"),
            }
        }
    }
}

/// A slot that goes stale stays where it is, and so do the others.
#[test]
fn a_stale_slot_leaves_the_others_alone() {
    let mut store = SlotMetadataStore::new(7);
    for slot in [1u64, 2] {
        for index in 0..31u32 {
            let hdr = header(slot, index, ShredType::Data);
            store.on_shred(Some(hdr), Some(false), 5, vec![index as u8]);
        }
    }
    assert!(matches!(store.on_timeout(1), SlotAction::Repair(_)));
    assert!(matches!(store.on_timeout(9), SlotAction::Nothing));
    for (slot, cancel) in [(2u64, false), (1, true)] {
        let hdr = header(slot, 31, ShredType::Data);
        match store.on_shred(Some(hdr), Some(true), 6, vec![31]) {
            SlotAction::Completed { raw, cancel_repair, .. } => {
                assert_eq!(raw.slot, slot);
                assert_eq!(raw.shreds.len(), 32);
                assert_eq!(cancel_repair, cancel);
            }
            other => panic!("{other:?}"),
        }
    }
}
