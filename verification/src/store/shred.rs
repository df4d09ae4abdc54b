//! The keys and the retention rule of the shred store.

use vstd::prelude::*;
use crate::codec::{
    from_le, get_le, le_bytes, lemma_byte_spans, lemma_from_le_bound, lemma_le_len,
    lemma_le_roundtrip, put_le,
};
use crate::layout::{
    field, get_index, get_shred_type, kind_of, law_header_is_read_back, OFFSET_OF_INDEX,
    OFFSET_OF_VERSION,
};
use crate::types::{ShredHeader, ShredType};

verus! {

/// How many slots back from the latest are kept, about eight hours' worth.
pub const RETENTION_SLOTS: u64 = 72_000;

/// The shreds of a slot that is complete.
#[derive(Debug)]
pub struct SlotRaw {
    pub slot: u64,
    pub shreds: Vec<Vec<u8>>,
}

/// A batch of shreds of one slot.
#[derive(Debug)]
pub struct BatchRaw {
    pub slot: u64,
    pub shreds: Vec<Vec<u8>>,
}

/// The key of a shred: its slot, its index and its kind, 13 bytes.
pub open spec fn key_of(slot: u64, index: u32, kind: ShredType) -> Seq<u8> {
    le_bytes(slot as nat, 8) + le_bytes(index as nat, 4) + seq![kind.tag()]
}

/// What the keys of a slot's shreds begin with.
pub open spec fn prefix_of(slot: u64) -> Seq<u8> {
    le_bytes(slot as nat, 8)
}

pub fn shred_key(slot: u64, index: u32, kind: ShredType) -> (key: Vec<u8>)
    ensures
        key@ == key_of(slot, index, kind),
        key@.len() == 13,
{
    let mut key: Vec<u8> = Vec::new();
    put_le(&mut key, slot as u128, 8);
    put_le(&mut key, index as u128, 4);
    key.push(kind.as_u8());
    proof {
        lemma_le_len(slot as nat, 8);
        lemma_le_len(index as nat, 4);
        assert(key@ =~= key_of(slot, index, kind));
    }
    key
}

/// The key of the shred at `index`, of which the low 32 bits count.
pub fn lookup_key(slot: u64, index: u64, kind: ShredType) -> (key: Vec<u8>)
    ensures
        key@ == key_of(slot, (index % 0x1_0000_0000) as u32, kind),
{
    shred_key(slot, (index % 0x1_0000_0000) as u32, kind)
}

pub fn slot_prefix(slot: u64) -> (prefix: Vec<u8>)
    ensures
        prefix@ == prefix_of(slot),
{
    let mut prefix: Vec<u8> = Vec::new();
    put_le(&mut prefix, slot as u128, 8);
    assert(prefix@ =~= prefix_of(slot));
    prefix
}

/// The slot that a key begins with, if it is long enough to have one.
pub open spec fn slot_in(key: Seq<u8>) -> Option<u64> {
    if key.len() < 8 {
        None
    } else {
        Some(from_le(key.take(8)) as u64)
    }
}

pub fn slot_of_key(key: &[u8]) -> (slot: Option<u64>)
    ensures
        slot == slot_in(key@),
{
    if key.len() < 8 {
        return None;
    }
    proof {
        lemma_byte_spans();
        lemma_from_le_bound(key@.take(8));
        assert(key@.subrange(0, 8) =~= key@.take(8));
    }
    Some(get_le(key, 0, 8) as u64)
}

/// What compaction does with an entry.
#[derive(Clone, Copy, Debug, PartialEq, Eq, Structural)]
pub enum Retention {
    Keep,
    Destroy,
}

/// Compaction keeps what is not older than the cutoff, and keys that are too
/// short to name a slot.
pub struct ShredCutoffFilter(pub u64);

impl ShredCutoffFilter {
    pub fn filter_key(&self, key: &[u8]) -> (verdict: Retention)
        ensures
            verdict == (match slot_in(key@) {
                Some(slot) if slot < self.0 => Retention::Destroy,
                _ => Retention::Keep,
            }),
    {
        match slot_of_key(key) {
            Some(slot) => if slot < self.0 {
                Retention::Destroy
            } else {
                Retention::Keep
            },
            None => Retention::Keep,
        }
    }
}

/// The first slot to keep, when `last_key` is the last key of the store.
pub fn cutoff_for(last_key: &[u8]) -> (cutoff: Option<u64>)
    ensures
        cutoff == (match slot_in(last_key@) {
            Some(slot) => Some(
                if slot >= RETENTION_SLOTS {
                    (slot - RETENTION_SLOTS) as u64
                } else {
                    0
                },
            ),
            None => None,
        }),
        slot_in(last_key@) matches Some(slot) ==> cutoff is Some && (if slot >= 72_000 {
            cutoff->0 + 72_000 == slot
        } else {
            cutoff->0 == 0
        }),
{
    match slot_of_key(last_key) {
        Some(slot) => Some(slot.saturating_sub(RETENTION_SLOTS)),
        None => None,
    }
}

/// A key names its shred: no two shreds have one key.
pub proof fn law_key_injective(s1: u64, i1: u32, k1: ShredType, s2: u64, i2: u32, k2: ShredType)
    requires
        key_of(s1, i1, k1) == key_of(s2, i2, k2),
    ensures
        s1 == s2,
        i1 == i2,
        k1 == k2,
{
    lemma_byte_spans();
    lemma_le_roundtrip(s1 as nat, 8);
    lemma_le_roundtrip(s2 as nat, 8);
    lemma_le_roundtrip(i1 as nat, 4);
    lemma_le_roundtrip(i2 as nat, 4);
    let a = key_of(s1, i1, k1);
    let b = key_of(s2, i2, k2);
    assert(a.subrange(0, 8) =~= le_bytes(s1 as nat, 8));
    assert(b.subrange(0, 8) =~= le_bytes(s2 as nat, 8));
    assert(a.subrange(8, 12) =~= le_bytes(i1 as nat, 4));
    assert(b.subrange(8, 12) =~= le_bytes(i2 as nat, 4));
    assert(a[12] == k1.tag());
    assert(b[12] == k2.tag());
}

/// The keys that begin with a slot's prefix are those of its shreds.
pub proof fn law_prefix_selects_slot(slot: u64, other: u64, index: u32, kind: ShredType)
    ensures
        prefix_of(slot).is_prefix_of(key_of(other, index, kind)) == (slot == other),
        slot_in(key_of(other, index, kind)) == Some(other),
{
    lemma_byte_spans();
    lemma_le_roundtrip(slot as nat, 8);
    lemma_le_roundtrip(other as nat, 8);
    lemma_le_len(index as nat, 4);
    let key = key_of(other, index, kind);
    assert(key.take(8) =~= le_bytes(other as nat, 8));
    assert(key.subrange(0, 8) =~= le_bytes(other as nat, 8));
    if slot == other {
        assert(prefix_of(slot).is_prefix_of(key));
    } else if prefix_of(slot).is_prefix_of(key) {
        assert(prefix_of(slot) =~= key.subrange(0, 8));
    }
}

/// A cutoff drops a shred if and only if its slot lies before it.
pub proof fn law_cutoff(cutoff: u64, slot: u64, index: u32, kind: ShredType)
    ensures
        (match slot_in(key_of(slot, index, kind)) {
            Some(s) => s < cutoff,
            None => false,
        }) == (slot < cutoff),
{
    law_prefix_selects_slot(slot, slot, index, kind);
}

/// A shred can be filed: its kind and its index can be read.
pub open spec fn can_be_filed(shred: Seq<u8>) -> bool {
    kind_of(shred) is Some && shred.len() >= OFFSET_OF_VERSION
}

/// The key that a shred of `slot` is filed under.
pub open spec fn filed_under(slot: u64, shred: Seq<u8>) -> Seq<u8> {
    key_of(slot, field(shred, OFFSET_OF_INDEX as int, 4)->0 as u32, kind_of(shred)->0)
}

/// What is written for a batch: each shred under its key. A batch with a shred
/// that cannot be read is not written at all.
pub fn batch_entries(slot: u64, shreds: Vec<Vec<u8>>) -> (r: Option<Vec<(Vec<u8>, Vec<u8>)>>)
    ensures
        r is Some <==> forall|i: int| 0 <= i < shreds@.len() ==> can_be_filed(
            (#[trigger] shreds@[i])@,
        ),
        r matches Some(entries) ==> entries@.len() == shreds@.len() && forall|i: int|
            0 <= i < entries@.len() ==> (#[trigger] entries@[i]).0@ == filed_under(
                slot,
                shreds@[i]@,
            ) && entries@[i].1 == shreds@[i],
{
    let mut entries: Vec<(Vec<u8>, Vec<u8>)> = Vec::new();
    let ghost all = shreds@;
    for shred in iter: shreds
        invariant
            iter.seq() == all,
            entries@.len() == iter.index(),
            forall|i: int| 0 <= i < iter.index() ==> can_be_filed((#[trigger] all[i])@),
            forall|i: int|
                0 <= i < entries@.len() ==> (#[trigger] entries@[i]).0@ == filed_under(
                    slot,
                    all[i]@,
                ) && entries@[i].1 == all[i],
    {
        assert(all[iter.index() as int] == shred);
        let kind = match get_shred_type(&shred) {
            Some(kind) => kind,
            None => {
                return None;
            },
        };
        let index: u32 = match get_index(&shred) {
            Some(index) => index,
            None => {
                return None;
            },
        };
        entries.push((shred_key(slot, index, kind), shred));
    }
    Some(entries)
}

/// A key holds the slot and the index of its shred, in little-endian, and the
/// byte of its kind.
pub proof fn law_key_layout(slot: u64, index: u32, kind: ShredType)
    ensures
        ({
            let key = key_of(slot, index, kind);
            &&& key.len() == 13
            &&& from_le(key.subrange(0, 8)) == slot
            &&& from_le(key.subrange(8, 12)) == index
            &&& key[12] == (if kind is Data {
                0xa5u8
            } else {
                0x5au8
            })
            &&& prefix_of(slot) == key.subrange(0, 8)
        }),
{
    lemma_byte_spans();
    lemma_le_roundtrip(slot as nat, 8);
    lemma_le_roundtrip(index as nat, 4);
    let key = key_of(slot, index, kind);
    assert(key.subrange(0, 8) =~= le_bytes(slot as nat, 8));
    assert(key.subrange(8, 12) =~= le_bytes(index as nat, 4));
}

/// A shred is filed where it is looked for: under its slot, its index and its
/// kind.
pub proof fn law_filed_is_found(
    signature: Seq<u8>,
    variant: u8,
    header: ShredHeader,
    rest: Seq<u8>,
)
    requires
        signature.len() == 64,
        (header.kind is Data ==> variant / 16 == 8 || variant / 16 == 9 || variant / 16 == 11
            || variant == 0xa5),
        (header.kind is Code ==> variant / 16 == 4 || variant / 16 == 6 || variant / 16 == 7
            || variant == 0x5a),
    ensures
        ({
            let shred = signature + seq![variant] + le_bytes(header.slot as nat, 8) + le_bytes(
                header.index as nat,
                4,
            ) + le_bytes(header.version as nat, 2) + le_bytes(header.fec_set_index as nat, 4)
                + rest;
            &&& can_be_filed(shred)
            &&& filed_under(header.slot, shred) == key_of(header.slot, header.index, header.kind)
        }),
{
    law_header_is_read_back(signature, variant, header, rest);
    lemma_le_len(header.slot as nat, 8);
    lemma_le_len(header.index as nat, 4);
    lemma_le_len(header.version as nat, 2);
    lemma_le_len(header.fec_set_index as nat, 4);
}

} // verus!
