//! What has arrived of each slot, and what is missing of it.

use scc::HashCache;
use std::collections::hash_map::RandomState;
use std::collections::HashSet;
use std::hash::BuildHasher;
use vstd::arithmetic::power2::{lemma2_to64, pow2};
use vstd::prelude::*;
use crate::codec::bytes_views;
use crate::layout::{get_common_header, get_last_in_slot, header_of, last_of};
use crate::ordmap::{OrdMap, Rank};
use crate::repair::request::{RepairReq, RepairReqView};
use crate::store::shred::SlotRaw;
use crate::types::{ShredHeader, ShredType};

verus! {

/// How long a slot may go without a new shred before it is sent to repair, in
/// milliseconds.
pub const DEFER_REPAIR_THRESHOLD_MS: u64 = 200;

/// How many data shreds a batch has, and how many shreds of any kind complete
/// it.
pub const DATA_SHREDS_PER_FEC_SET: usize = 32;

/// How many slots the store has room for.
pub const MAX_SLOTS: usize = 4096;

/// How many entries a bucket of an `scc` cache holds. None has to make room
/// while there are fewer in the cache.
pub const BUCKET_ENTRIES: usize = 32;

/// The shred indexes seen of each batch, by the batch's first index.
pub type FecMap = OrdMap<u32, Vec<u32>>;

/// The indexes that a map holds for a batch.
pub open spec fn batch_of(map: Map<u32, Set<u32>>, batch: u32) -> Set<u32> {
    if map.dom().contains(batch) {
        map[batch]
    } else {
        Set::empty()
    }
}

pub open spec fn fec_view(map: FecMap) -> Map<u32, Set<u32>> {
    map@.map_values(|indexes: Vec<u32>| indexes@.to_set())
}

pub open spec fn fec_wf(map: FecMap) -> bool {
    &&& map.wf()
    &&& forall|b: u32| #[trigger] map@.dom().contains(b) ==> map@[b]@.no_duplicates()
}

/// A slot's metadata as the contracts speak of it.
#[verifier::ext_equal]
pub struct SlotMetaView {
    pub slot_num: u64,
    pub data: Map<u32, Set<u32>>,
    pub code: Map<u32, Set<u32>>,
    pub timestamp_ms: u64,
    pub completed: Set<u32>,
    pub required: Option<usize>,
    pub max_inclusive_shred: u32,
    pub shreds: Option<Seq<Seq<u8>>>,
    pub timed_out: bool,
}

/// What storing a shred comes to.
pub enum StoreOutcome {
    /// The shred completed the slot, whose shreds are these.
    Complete(Seq<Seq<u8>>),
    Incomplete,
    /// The slot was complete, the shred was there, or it could not be read.
    Ignored,
}

impl SlotMetaView {
    /// A slot of which nothing has arrived.
    pub open spec fn fresh(slot_num: u64, timestamp_ms: u64) -> Self {
        SlotMetaView {
            slot_num,
            data: Map::empty(),
            code: Map::empty(),
            timestamp_ms,
            completed: Set::empty(),
            required: None,
            max_inclusive_shred: 0,
            shreds: Some(Seq::empty()),
            timed_out: false,
        }
    }

    /// As many batches are complete as the slot has.
    pub open spec fn is_complete(self) -> bool {
        self.required is Some && self.completed.len() == self.required->0
    }

    /// A slot without its shreds is one that was complete.
    pub open spec fn wf(self) -> bool {
        &&& self.completed.finite()
        &&& self.shreds is None ==> self.is_complete()
    }

    /// The end of the slot, where the shred tells it.
    pub open spec fn ended_by(self, hdr: ShredHeader, last_in_slot: Option<bool>) -> Self {
        if hdr.kind is Data && last_in_slot == Some(true) {
            SlotMetaView {
                required: Some(((hdr.fec_set_index + 32) / 32) as usize),
                ..self
            }
        } else {
            self
        }
    }

    /// The shred's index noted under its batch.
    pub open spec fn marked(self, hdr: ShredHeader) -> Self {
        match hdr.kind {
            ShredType::Data => SlotMetaView {
                data: self.data.insert(
                    hdr.fec_set_index,
                    batch_of(self.data, hdr.fec_set_index).insert(hdr.index),
                ),
                ..self
            },
            ShredType::Code => SlotMetaView {
                code: self.code.insert(
                    hdr.fec_set_index,
                    batch_of(self.code, hdr.fec_set_index).insert(hdr.index),
                ),
                ..self
            },
        }
    }

    /// The shred has been noted before.
    pub open spec fn has(self, hdr: ShredHeader) -> bool {
        match hdr.kind {
            ShredType::Data => batch_of(self.data, hdr.fec_set_index).contains(hdr.index),
            ShredType::Code => batch_of(self.code, hdr.fec_set_index).contains(hdr.index),
        }
    }

    /// How many shreds of either kind a batch has.
    pub open spec fn batch_len(self, batch: u32) -> nat {
        batch_of(self.code, batch).len() + batch_of(self.data, batch).len()
    }

    /// What storing a shred comes to, and the slot after it. `last_in_slot` is
    /// what the shred's flags say, if they can be read.
    pub open spec fn stored(
        self,
        hdr: ShredHeader,
        last_in_slot: Option<bool>,
        now_ms: u64,
        shred: Seq<u8>,
    ) -> (StoreOutcome, Self) {
        if self.is_complete() || (hdr.kind is Data && last_in_slot is None) {
            (StoreOutcome::Ignored, self)
        } else {
            let ended = self.ended_by(hdr, last_in_slot);
            let marked = ended.marked(hdr);
            if self.has(hdr) {
                (StoreOutcome::Ignored, marked)
            } else {
                let noted = SlotMetaView {
                    timestamp_ms: now_ms,
                    max_inclusive_shred: if hdr.index > self.max_inclusive_shred {
                        hdr.index
                    } else {
                        self.max_inclusive_shred
                    },
                    completed: if marked.batch_len(hdr.fec_set_index) >= 32 {
                        marked.completed.insert(hdr.fec_set_index)
                    } else {
                        marked.completed
                    },
                    shreds: match marked.shreds {
                        Some(shreds) => Some(shreds.push(shred)),
                        None => None,
                    },
                    ..marked
                };
                if noted.is_complete() {
                    (
                        StoreOutcome::Complete(noted.shreds->0),
                        SlotMetaView { shreds: None, ..noted },
                    )
                } else {
                    (StoreOutcome::Incomplete, noted)
                }
            }
        }
    }

    /// The first batch behind the slot's end, as 32 bits hold it.
    pub open spec fn batch_limit(self) -> nat {
        ((self.required->0 as nat) * 32) % 0x1_0000_0000
    }
}

/// The indexes `batch .. batch + n` that are not in `have`, ascending.
pub open spec fn gaps(batch: u32, have: Set<u32>, n: nat) -> Seq<u32>
    decreases n,
{
    if n == 0 {
        Seq::empty()
    } else {
        let rest = gaps(batch, have, (n - 1) as nat);
        let index = batch + n - 1;
        if index <= u32::MAX && !have.contains(index as u32) {
            rest.push(index as u32)
        } else {
            rest
        }
    }
}

/// What is missing of the first `n` batches: of each that is not complete,
/// the indexes that have not arrived.
pub open spec fn missing_bounded(meta: SlotMetaView, n: nat) -> Seq<u32>
    decreases n,
{
    if n == 0 {
        Seq::empty()
    } else {
        let batch = ((n - 1) * 32) as u32;
        missing_bounded(meta, (n - 1) as nat) + (if meta.completed.contains(batch) {
            Seq::empty()
        } else {
            gaps(batch, batch_of(meta.data, batch), 32)
        })
    }
}

/// What is missing of the batches that some data has arrived of, in the order
/// of `entries`.
pub open spec fn missing_seen(entries: Seq<(u32, Vec<u32>)>, completed: Set<u32>) -> Seq<u32>
    decreases entries.len(),
{
    if entries.len() == 0 {
        Seq::empty()
    } else {
        let (batch, have) = entries.last();
        missing_seen(entries.drop_last(), completed) + (if completed.contains(batch) {
            Seq::empty()
        } else {
            gaps(batch, have@.to_set(), 32)
        })
    }
}

/// All indexes of those of the first `n` batches that no data has arrived of
/// and that are not complete either.
pub open spec fn missing_unseen(
    data: Map<u32, Set<u32>>,
    completed: Set<u32>,
    n: nat,
) -> Seq<u32>
    decreases n,
{
    if n == 0 {
        Seq::empty()
    } else {
        let batch = ((n - 1) * 32) as u32;
        missing_unseen(data, completed, (n - 1) as nat) + (if data.dom().contains(batch)
            || completed.contains(batch) {
            Seq::empty()
        } else {
            gaps(batch, Set::empty(), 32)
        })
    }
}

/// The highest batch that some data has arrived of.
pub open spec fn last_batch(entries: Seq<(u32, Vec<u32>)>) -> u32 {
    if entries.len() == 0 {
        0
    } else {
        entries.last().0
    }
}

pub struct SlotMetadata {
    pub slot_num: u64,
    pub fec_data_map: FecMap,
    pub fec_coding_map: FecMap,
    pub timestamp_ms: u64,
    pub completed_batches: Vec<u32>,
    pub required_batches: Option<usize>,
    /// The highest shred index seen.
    pub max_inclusive_shred: u32,
    pub shreds: Option<Vec<Vec<u8>>>,
    pub timed_out: bool,
}

impl SlotMetadata {
    pub open spec fn view(&self) -> SlotMetaView {
        SlotMetaView {
            slot_num: self.slot_num,
            data: fec_view(self.fec_data_map),
            code: fec_view(self.fec_coding_map),
            timestamp_ms: self.timestamp_ms,
            completed: self.completed_batches@.to_set(),
            required: self.required_batches,
            max_inclusive_shred: self.max_inclusive_shred,
            shreds: match self.shreds {
                Some(shreds) => Some(bytes_views(shreds@)),
                None => None,
            },
            timed_out: self.timed_out,
        }
    }

    pub open spec fn wf(&self) -> bool {
        &&& fec_wf(self.fec_data_map)
        &&& fec_wf(self.fec_coding_map)
        &&& self.completed_batches@.no_duplicates()
        &&& self@.wf()
    }

    pub fn new(slot_num: u64, timestamp_ms: u64) -> (meta: Self)
        ensures
            meta.wf(),
            meta@ == SlotMetaView::fresh(slot_num, timestamp_ms),
    {
        let meta = SlotMetadata {
            slot_num,
            fec_data_map: OrdMap::new(),
            fec_coding_map: OrdMap::new(),
            timestamp_ms,
            completed_batches: Vec::new(),
            required_batches: None,
            max_inclusive_shred: 0,
            shreds: Some(Vec::new()),
            timed_out: false,
        };
        proof {
            assert(meta@.data =~= Map::<u32, Set<u32>>::empty());
            assert(meta@.code =~= Map::<u32, Set<u32>>::empty());
            assert(meta@.completed =~= Set::<u32>::empty());
            assert(meta@.shreds->0 =~= Seq::<Seq<u8>>::empty());
        }
        meta
    }

    pub fn is_complete(&self) -> (r: bool)
        requires
            self.wf(),
        ensures
            r == self@.is_complete(),
    {
        proof {
            self.completed_batches@.unique_seq_to_set();
        }
        match self.required_batches {
            Some(required) => self.completed_batches.len() == required,
            None => false,
        }
    }

    /// What is missing, where the slot's end is known.
    fn calculate_missing_shreds_bounded(&self) -> (shreds: Option<Vec<u32>>)
        requires
            self.wf(),
        ensures
            shreds is Some <==> self.required_batches is Some,
            shreds matches Some(shreds) ==> shreds@ == missing_bounded(
                self@,
                self@.batch_limit() / 32,
            ),
    {
        let required: usize = match self.required_batches {
            Some(required) => required,
            None => {
                return None;
            },
        };
        let limit: u64 = ((required as u128 * 32) % 0x1_0000_0000) as u64;
        let mut missing: Vec<u32> = Vec::new();
        let mut n: u64 = 0;
        while n * 32 < limit
            invariant
                self.wf(),
                limit < 0x1_0000_0000,
                limit % 32 == 0,
                n * 32 <= limit,
                missing@ == missing_bounded(self@, n as nat),
            decreases limit - n * 32,
        {
            let batch: u32 = (n * 32) as u32;
            let ghost before = missing@;
            if !contains(&self.completed_batches, batch) {
                match self.fec_data_map.get(&batch) {
                    Some(have) => {
                        put_gaps(&mut missing, batch, have);
                    },
                    None => {
                        let none: Vec<u32> = Vec::new();
                        put_gaps(&mut missing, batch, &none);
                        assert(none@.to_set() =~= Set::<u32>::empty());
                    },
                }
                assert(missing@ == before + gaps(batch, batch_of(self@.data, batch), 32));
            }
            n += 1;
            assert(missing@ =~= missing_bounded(self@, n as nat));
        }
        Some(missing)
    }

    /// What is missing so far, where the slot's end is not known.
    fn calculate_missing_shreds_unbounded(&self) -> (shreds: Vec<u32>)
        requires
            self.wf(),
        ensures
            shreds@ == missing_seen(self.fec_data_map.entries(), self@.completed) + missing_unseen(
                self@.data,
                self@.completed,
                (last_batch(self.fec_data_map.entries()) as nat + 31) / 32,
            ),
    {
        let ghost entries = self.fec_data_map.entries();
        let mut missing: Vec<u32> = Vec::new();
        let mut max_batch: u32 = 0;
        let mut i: usize = 0;
        while i < self.fec_data_map.len()
            invariant
                self.wf(),
                entries == self.fec_data_map.entries(),
                i <= entries.len(),
                max_batch == last_batch(entries.take(i as int)),
                missing@ == missing_seen(entries.take(i as int), self@.completed),
            decreases entries.len() - i,
        {
            let (batch, have) = self.fec_data_map.at(i);
            let ghost before = missing@;
            max_batch = *batch;
            if !contains(&self.completed_batches, *batch) {
                put_gaps(&mut missing, *batch, have);
            }
            i += 1;
            proof {
                assert(entries.take(i as int).drop_last() =~= entries.take(i - 1));
                assert(missing@ =~= missing_seen(entries.take(i as int), self@.completed));
            }
        }
        assert(entries.take(i as int) =~= entries);
        let ghost seen = missing@;
        let mut n: u64 = 0;
        while n * 32 < max_batch as u64
            invariant
                self.wf(),
                n * 32 < max_batch + 32,
                missing@ == seen + missing_unseen(self@.data, self@.completed, n as nat),
            decreases max_batch + 32 - n * 32,
        {
            let batch: u32 = (n * 32) as u32;
            let ghost before = missing@;
            if !self.fec_data_map.contains_key(&batch) && !contains(&self.completed_batches, batch) {
                let none: Vec<u32> = Vec::new();
                put_gaps(&mut missing, batch, &none);
                assert(none@.to_set() =~= Set::<u32>::empty());
            }
            n += 1;
            proof {
                assert(missing@ =~= seen + missing_unseen(self@.data, self@.completed, n as nat));
            }
        }
        assert(n == (max_batch as nat + 31) / 32);
        missing
    }

    /// The shreds that it takes to complete the slot, or what is missing so
    /// far where the last shred has not been seen.
    pub fn calculate_missing_shreds(&self) -> (req: RepairReq)
        requires
            self.wf(),
        ensures
            req@ == (if self.required_batches is Some {
                RepairReqView::Bounded {
                    slot: self.slot_num,
                    shreds: missing_bounded(self@, self@.batch_limit() / 32),
                }
            } else {
                RepairReqView::Unbounded {
                    slot: self.slot_num,
                    shreds: missing_seen(self.fec_data_map.entries(), self@.completed)
                        + missing_unseen(
                        self@.data,
                        self@.completed,
                        (last_batch(self.fec_data_map.entries()) as nat + 31) / 32,
                    ),
                    max_inclusive_shred: self.max_inclusive_shred,
                }
            }),
    {
        if let Some(shreds) = self.calculate_missing_shreds_bounded() {
            return RepairReq::MissingBoundedShreds { slot: self.slot_num, shreds };
        }
        let shreds = self.calculate_missing_shreds_unbounded();
        RepairReq::MissingUnboundedShreds {
            slot: self.slot_num,
            shreds,
            max_inclusive_shred: self.max_inclusive_shred,
        }
    }
}

fn contains(indexes: &Vec<u32>, index: u32) -> (r: bool)
    ensures
        r == indexes@.contains(index),
        r == indexes@.to_set().contains(index),
{
    let mut i: usize = 0;
    while i < indexes.len()
        invariant
            i <= indexes@.len(),
            forall|j: int| 0 <= j < i ==> indexes@[j] != index,
        decreases indexes@.len() - i,
    {
        if indexes[i] == index {
            return true;
        }
        i += 1;
    }
    false
}

/// Appends what is missing of a batch.
fn put_gaps(missing: &mut Vec<u32>, batch: u32, have: &Vec<u32>)
    ensures
        final(missing)@ == old(missing)@ + gaps(batch, have@.to_set(), 32),
{
    let ghost start = missing@;
    let mut n: u32 = 0;
    while n < 32
        invariant
            n <= 32,
            missing@ == start + gaps(batch, have@.to_set(), n as nat),
        decreases 32 - n,
    {
        let index: u64 = batch as u64 + n as u64;
        if index <= u32::MAX as u64 && !contains(have, index as u32) {
            missing.push(index as u32);
        }
        n += 1;
        assert(missing@ =~= start + gaps(batch, have@.to_set(), n as nat));
    }
}

/// What storing a shred comes to.
#[derive(Debug)]
pub enum SlotMetaStoreRes {
    Complete(SlotRaw),
    Incomplete,
    Ignored,
}

impl SlotMetaStoreRes {
    /// The result says what `outcome` says of slot `slot`.
    pub open spec fn is(&self, outcome: StoreOutcome, slot: u64) -> bool {
        match (self, outcome) {
            (SlotMetaStoreRes::Complete(raw), StoreOutcome::Complete(shreds)) => raw.slot == slot
                && bytes_views(raw.shreds@) == shreds,
            (SlotMetaStoreRes::Incomplete, StoreOutcome::Incomplete) => true,
            (SlotMetaStoreRes::Ignored, StoreOutcome::Ignored) => true,
            _ => false,
        }
    }
}

/// Notes `index` under `batch`, and tells whether it is new.
fn mark(map: &mut FecMap, batch: u32, index: u32) -> (inserted: bool)
    requires
        fec_wf(*old(map)),
    ensures
        fec_wf(*final(map)),
        inserted == !batch_of(fec_view(*old(map)), batch).contains(index),
        fec_view(*final(map)) == fec_view(*old(map)).insert(
            batch,
            batch_of(fec_view(*old(map)), batch).insert(index),
        ),
{
    let ghost before = *map;
    let mut indexes: Vec<u32> = match map.get(&batch) {
        Some(indexes) => crate::codec::copy_vec(indexes),
        None => Vec::new(),
    };
    let ghost had = indexes@;
    assert(had.to_set() =~= batch_of(fec_view(before), batch));
    let inserted = !contains(&indexes, index);
    if inserted {
        indexes.push(index);
    }
    proof {
        assert forall|x: u32| indexes@.contains(x) <==> had.contains(x) || x == index by {
            if had.contains(x) {
                let k = choose|k: int| 0 <= k < had.len() && had[k] == x;
                assert(indexes@[k] == x);
            }
            if inserted {
                assert(indexes@[had.len() as int] == index);
            }
        }
        assert(indexes@.to_set() =~= had.to_set().insert(index));
        assert(indexes@.no_duplicates());
    }
    map.insert(batch, indexes);
    assert(fec_view(*map) =~= fec_view(before).insert(
        batch,
        batch_of(fec_view(before), batch).insert(index),
    ));
    inserted
}

/// How many indexes a map holds for a batch.
fn batch_len(map: &FecMap, batch: u32) -> (n: usize)
    requires
        fec_wf(*map),
    ensures
        n == batch_of(fec_view(*map), batch).len(),
{
    match map.get(&batch) {
        Some(indexes) => {
            proof {
                indexes@.unique_seq_to_set();
            }
            indexes.len()
        },
        None => 0,
    }
}

impl SlotMetadata {
    /// Stores a shred, and tells whether that completes the slot.
    pub fn store(
        &mut self,
        hdr: ShredHeader,
        last_in_slot: Option<bool>,
        now_ms: u64,
        shred: Vec<u8>,
    ) -> (r: SlotMetaStoreRes)
        requires
            old(self).wf(),
        ensures
            final(self).wf(),
            final(self)@ == old(self)@.stored(hdr, last_in_slot, now_ms, shred@).1,
            r.is(old(self)@.stored(hdr, last_in_slot, now_ms, shred@).0, old(self).slot_num),
    {
        let ghost before = *self;
        if self.is_complete() {
            return SlotMetaStoreRes::Ignored;
        }
        let ghost ended = before@.ended_by(hdr, last_in_slot);
        let inserted = match hdr.kind {
            ShredType::Data => {
                match last_in_slot {
                    None => {
                        return SlotMetaStoreRes::Ignored;
                    },
                    Some(last) => {
                        if last {
                            self.required_batches = Some(
                                ((hdr.fec_set_index as u64 + 32) / 32) as usize,
                            );
                        }
                    },
                }
                mark(&mut self.fec_data_map, hdr.fec_set_index, hdr.index)
            },
            ShredType::Code => mark(&mut self.fec_coding_map, hdr.fec_set_index, hdr.index),
        };
        let ghost marked = ended.marked(hdr);
        proof {
            assert(before@.shreds is Some);
            assert(self@ =~= marked);
            assert(inserted == !before@.has(hdr));
        }
        if !inserted {
            return SlotMetaStoreRes::Ignored;
        }
        self.timestamp_ms = now_ms;
        if hdr.index > self.max_inclusive_shred {
            self.max_inclusive_shred = hdr.index;
        }
        let code: usize = batch_len(&self.fec_coding_map, hdr.fec_set_index);
        let data: usize = batch_len(&self.fec_data_map, hdr.fec_set_index);
        let ghost done = self.completed_batches@;
        if code >= DATA_SHREDS_PER_FEC_SET || data >= DATA_SHREDS_PER_FEC_SET || code + data
            >= DATA_SHREDS_PER_FEC_SET {
            if !contains(&self.completed_batches, hdr.fec_set_index) {
                self.completed_batches.push(hdr.fec_set_index);
            }
        }
        proof {
            let batch = hdr.fec_set_index;
            assert forall|x: u32| self.completed_batches@.contains(x) <==> done.contains(x) || (
            marked.batch_len(batch) >= 32 && x == batch) by {
                if done.contains(x) {
                    let k = choose|k: int| 0 <= k < done.len() && done[k] == x;
                    assert(self.completed_batches@[k] == x);
                }
                if self.completed_batches@.len() > done.len() {
                    assert(self.completed_batches@[done.len() as int] == batch);
                }
            }
            assert(self.completed_batches@.to_set() =~= (if marked.batch_len(batch) >= 32 {
                done.to_set().insert(batch)
            } else {
                done.to_set()
            }));
            assert(self.completed_batches@.no_duplicates());
        }
        let ghost bytes = shred@;
        if let Some(shreds) = &mut self.shreds {
            let ghost had = bytes_views(shreds@);
            shreds.push(shred);
            assert(bytes_views(shreds@) =~= had.push(bytes));
        }
        let ghost noted = self@;
        if self.is_complete() {
            let mut taken: Option<Vec<Vec<u8>>> = None;
            std::mem::swap(&mut taken, &mut self.shreds);
            match taken {
                Some(shreds) => SlotMetaStoreRes::Complete(
                    SlotRaw { slot: self.slot_num, shreds },
                ),
                None => SlotMetaStoreRes::Ignored,
            }
        } else {
            SlotMetaStoreRes::Incomplete
        }
    }
}

/// `scc`'s bounded concurrent cache, which evicts the least recently used
/// entry of a full bucket.
#[verifier::external_type_specification]
#[verifier::external_body]
#[verifier::reject_recursive_types(K)]
#[verifier::reject_recursive_types(V)]
#[verifier::reject_recursive_types(H)]
pub struct ExHashCache<K, V, H: BuildHasher>(HashCache<K, V, H>);

/// The slots that a cache holds.
pub uninterp spec fn cached_slots(cache: HashCache<u64, SlotMetadata, RandomState>) -> Map<
    u64,
    SlotMetadata,
>;

/// The capacity that a cache does not grow beyond.
pub uninterp spec fn slot_room(cache: HashCache<u64, SlotMetadata, RandomState>) -> nat;

/// A power of two that a cache takes as its limit without rounding it.
pub open spec fn is_plain_limit(maximum: usize) -> bool {
    64 <= maximum <= 0x10_0000 && exists|k: nat| maximum == #[trigger] pow2(k)
}

/// `HashCache::with_capacity`: an empty cache. The limit that it grows to is
/// `maximum` where that is a power of two, neither too small nor too large;
/// what it is rounded to otherwise is not claimed.
#[verifier::external_body]
fn new_cache(minimum: usize, maximum: usize) -> (cache: HashCache<u64, SlotMetadata, RandomState>)
    ensures
        cached_slots(cache).dom() == Set::<u64>::empty(),
        minimum == 0 && is_plain_limit(maximum) ==> slot_room(cache) == maximum,
{
    HashCache::with_capacity(minimum, maximum)
}

/// `HashCache::get_sync` and `OccupiedEntry::put`: puts `meta` in the place of
/// the slot's entry, if there is one, and hands the entry out. Nothing else
/// changes.
#[verifier::external_body]
fn swap_slot(
    cache: &mut HashCache<u64, SlotMetadata, RandomState>,
    slot: u64,
    meta: SlotMetadata,
) -> (r: Option<SlotMetadata>)
    ensures
        match r {
            Some(was) => {
                &&& cached_slots(*old(cache)).dom().contains(slot)
                &&& was == cached_slots(*old(cache))[slot]
                &&& cached_slots(*final(cache)) == cached_slots(*old(cache)).insert(slot, meta)
            },
            None => {
                &&& !cached_slots(*old(cache)).dom().contains(slot)
                &&& cached_slots(*final(cache)) == cached_slots(*old(cache))
            },
        },
        slot_room(*final(cache)) == slot_room(*old(cache)),
{
    cache.get_sync(&slot).map(|mut entry| entry.put(meta))
}

/// `HashCache::put_sync`: puts an entry in for a slot that has none. Where the
/// bucket that it falls into is full, one entry of that bucket goes. Which one
/// is not claimed: it depends on the hasher and on what was used last. The
/// cache has room for [`MAX_SLOTS`] entries, but a bucket can be full before
/// the cache is.
#[verifier::external_body]
fn put_slot(cache: &mut HashCache<u64, SlotMetadata, RandomState>, slot: u64, meta: SlotMetadata)
    requires
        !cached_slots(*old(cache)).dom().contains(slot),
    ensures
        exists|gone: Option<u64>| #[trigger]
            is_put(cached_slots(*old(cache)), cached_slots(*final(cache)), slot, meta, gone),
        slot_room(*final(cache)) == slot_room(*old(cache)),
{
    let _ = cache.put_sync(slot, meta);
}

/// `HashCache::read_sync`: the `timed_out` of a slot's entry, if there is one.
#[verifier::external_body]
fn read_timed_out(cache: &HashCache<u64, SlotMetadata, RandomState>, slot: u64) -> (r: Option<bool>)
    ensures
        r == (if cached_slots(*cache).dom().contains(slot) {
            Some(cached_slots(*cache)[slot].timed_out)
        } else {
            None
        }),
{
    cache.read_sync(&slot, |_, meta| meta.timed_out)
}

/// An entry has been put in for `slot`. Another has made room for it if `gone`
/// names one, which happens only where a bucket can be full.
pub open spec fn is_put(
    before: Map<u64, SlotMetadata>,
    after: Map<u64, SlotMetadata>,
    slot: u64,
    meta: SlotMetadata,
    gone: Option<u64>,
) -> bool {
    match gone {
        Some(other) => {
            &&& before.dom().contains(other)
            &&& before.dom().len() >= BUCKET_ENTRIES
            &&& after == before.remove(other).insert(slot, meta)
        },
        None => after == before.insert(slot, meta),
    }
}

/// The other slots are as they were, but for one that `gone` may name: it has
/// made room for `slot`, which was not there.
pub open spec fn others_but(
    before: Map<u64, SlotMetadata>,
    after: Map<u64, SlotMetadata>,
    slot: u64,
    gone: Option<u64>,
) -> bool {
    &&& after.dom() == (match gone {
        Some(other) => before.dom().remove(other).insert(slot),
        None => before.dom().insert(slot),
    })
    &&& forall|s: u64| #[trigger]
        after.dom().contains(s) && s != slot ==> after[s] == before[s]
    &&& gone matches Some(other) ==> {
        &&& other != slot
        &&& before.dom().contains(other)
        &&& !before.dom().contains(slot)
        &&& before.dom().len() >= BUCKET_ENTRIES
    }
}

/// `slot` is there afterwards, and all others that were there, unless one had to
/// make room.
pub open spec fn others_kept(
    before: Map<u64, SlotMetadata>,
    after: Map<u64, SlotMetadata>,
    slot: u64,
) -> bool {
    exists|gone: Option<u64>| #[trigger] others_but(before, after, slot, gone)
}

/// The slots of which shreds have arrived, the last few thousand of them.
pub struct SlotMetadataStore {
    inner: HashCache<u64, SlotMetadata, RandomState>,
    version: u16,
    /// The slots that a staleness timer runs for.
    timers: HashSet<u64>,
}

/// What the listener has to do.
#[derive(Debug)]
pub enum SlotAction {
    Nothing,
    /// Set the slot's staleness timer to [`DEFER_REPAIR_THRESHOLD_MS`] from
    /// now, or set it anew.
    ArmTimer { slot: u64 },
    /// The slot is complete: hand its shreds on and stop its timer, if it had
    /// one. A repair under way is to be cancelled.
    Completed { raw: SlotRaw, stop_timer: bool, cancel_repair: bool },
    /// Ask for repair.
    Repair(RepairReq),
}

/// What a store holds of a slot.
pub open spec fn slot_view(slots: Map<u64, SlotMetadata>, slot: u64) -> Option<SlotMetaView> {
    if slots.dom().contains(slot) {
        Some(slots[slot]@)
    } else {
        None
    }
}

/// `after` and `action` are what a shred comes to in `before`.
pub open spec fn took_shred(
    before: SlotMetadataStore,
    after: SlotMetadataStore,
    header: Option<ShredHeader>,
    last_in_slot: Option<bool>,
    now_ms: u64,
    shred: Seq<u8>,
    action: SlotAction,
) -> bool {
    let accepted = header is Some && header->0.version == before.version();
    let hdr = header->0;
    let (outcome, meta) = before.before(hdr.slot, now_ms).stored(
        hdr,
        last_in_slot,
        now_ms,
        shred,
    );
    if !accepted {
        action is Nothing && after.slots() == before.slots() && after.armed() == before.armed()
    } else {
        &&& slot_view(after.slots(), hdr.slot) == Some(meta)
        &&& others_kept(before.slots(), after.slots(), hdr.slot)
        &&& match outcome {
            StoreOutcome::Ignored => action is Nothing && after.armed() == before.armed(),
            StoreOutcome::Incomplete => action == SlotAction::ArmTimer { slot: hdr.slot }
                && after.armed() == before.armed().insert(hdr.slot),
            StoreOutcome::Complete(shreds) => {
                &&& action matches SlotAction::Completed { raw, stop_timer, cancel_repair }
                    && raw.slot == hdr.slot && bytes_views(raw.shreds@) == shreds && stop_timer
                    == before.armed().contains(hdr.slot) && cancel_repair == meta.timed_out
                &&& after.armed() == before.armed().remove(hdr.slot)
            },
        }
    }
}

impl SlotMetadataStore {
    pub closed spec fn slots(&self) -> Map<u64, SlotMetadata> {
        cached_slots(self.inner)
    }

    /// The capacity that the store does not grow beyond.
    pub closed spec fn room(&self) -> nat {
        slot_room(self.inner)
    }

    pub closed spec fn version(&self) -> u16 {
        self.version
    }

    /// The slots that a staleness timer runs for.
    pub closed spec fn armed(&self) -> Set<u64> {
        self.timers@
    }

    pub closed spec fn wf(&self) -> bool {
        &&& cached_slots(self.inner).dom().finite()
        &&& slot_room(self.inner) == MAX_SLOTS
        &&& forall|slot: u64| #[trigger]
            cached_slots(self.inner).dom().contains(slot) ==> cached_slots(self.inner)[slot].wf()
                && cached_slots(self.inner)[slot].slot_num == slot
    }

    /// What a consistent store gives its callers: each slot that it holds is
    /// consistent, and stands under its own number.
    pub proof fn lemma_wf(&self, slot: u64)
        requires
            self.wf(),
            self.slots().dom().contains(slot),
        ensures
            self.slots()[slot].wf(),
            self.slots()[slot].slot_num == slot,
    {
    }

    /// The slots that a consistent store holds can be counted, and its capacity
    /// goes up to [`MAX_SLOTS`].
    pub proof fn lemma_finite(&self)
        requires
            self.wf(),
        ensures
            self.slots().dom().finite(),
            self.room() == MAX_SLOTS,
    {
    }

    pub fn new(version: u16) -> (store: Self)
        ensures
            store.wf(),
            store.version() == version,
            store.slots() == Map::<u64, SlotMetadata>::empty(),
            store.armed() == Set::<u64>::empty(),
    {
        proof {
            lemma2_to64();
            assert(MAX_SLOTS == pow2(12));
        }
        let store = SlotMetadataStore {
            inner: new_cache(0, MAX_SLOTS),
            version,
            timers: HashSet::new(),
        };
        assert(store.armed() =~= Set::<u64>::empty());
        assert(store.slots() =~= Map::<u64, SlotMetadata>::empty());
        store
    }

    /// What the store would start from for a shred of `slot`.
    pub open spec fn before(self, slot: u64, now_ms: u64) -> SlotMetaView {
        match slot_view(self.slots(), slot) {
            Some(meta) => meta,
            None => SlotMetaView::fresh(slot, now_ms),
        }
    }

    /// Stores a shred in its slot, which is put in if it is not there. Another
    /// slot may then have to make room; all others stay as they are.
    pub fn store_shred(
        &mut self,
        hdr: ShredHeader,
        last_in_slot: Option<bool>,
        now_ms: u64,
        shred: Vec<u8>,
    ) -> (r: SlotMetaStoreRes)
        requires
            old(self).wf(),
        ensures
            final(self).wf(),
            final(self).version() == old(self).version(),
            final(self).armed() == old(self).armed(),
            ({
                let (outcome, after) = old(self).before(hdr.slot, now_ms).stored(
                    hdr,
                    last_in_slot,
                    now_ms,
                    shred@,
                );
                &&& r.is(outcome, hdr.slot)
                &&& slot_view(final(self).slots(), hdr.slot) == Some(after)
                &&& others_kept(old(self).slots(), final(self).slots(), hdr.slot)
            }),
    {
        let ghost start = self.slots();
        let fresh = SlotMetadata::new(hdr.slot, now_ms);
        match swap_slot(&mut self.inner, hdr.slot, fresh) {
            Some(meta) => {
                let mut meta = meta;
                let r = meta.store(hdr, last_in_slot, now_ms, shred);
                let ghost stored = meta;
                let _ = swap_slot(&mut self.inner, hdr.slot, meta);
                proof {
                    assert(self.slots() =~= start.insert(hdr.slot, stored));
                    assert(others_but(start, self.slots(), hdr.slot, None));
                }
                r
            },
            None => {
                let mut meta = SlotMetadata::new(hdr.slot, now_ms);
                let r = meta.store(hdr, last_in_slot, now_ms, shred);
                let ghost stored = meta;
                put_slot(&mut self.inner, hdr.slot, meta);
                proof {
                    let gone = choose|gone: Option<u64>| #[trigger]
                        is_put(start, self.slots(), hdr.slot, stored, gone);
                    assert(others_but(start, self.slots(), hdr.slot, gone));
                }
                r
            },
        }
    }

    /// Decides what to do about a packet: those of another shred version, and
    /// those without a readable header, are passed over.
    pub fn on_shred(
        &mut self,
        header: Option<ShredHeader>,
        last_in_slot: Option<bool>,
        now_ms: u64,
        shred: Vec<u8>,
    ) -> (action: SlotAction)
        requires
            old(self).wf(),
        ensures
            final(self).wf(),
            final(self).version() == old(self).version(),
            took_shred(*old(self), *final(self), header, last_in_slot, now_ms, shred@, action),
    {
        let hdr = match header {
            Some(hdr) => hdr,
            None => {
                return SlotAction::Nothing;
            },
        };
        if hdr.version != self.version {
            return SlotAction::Nothing;
        }
        let ghost before = *self;
        match self.store_shred(hdr, last_in_slot, now_ms, shred) {
            SlotMetaStoreRes::Ignored => SlotAction::Nothing,
            SlotMetaStoreRes::Incomplete => {
                self.timers.insert(hdr.slot);
                assert(self.armed() =~= before.armed().insert(hdr.slot));
                SlotAction::ArmTimer { slot: hdr.slot }
            },
            SlotMetaStoreRes::Complete(raw) => {
                let stop_timer = self.timers.remove(&hdr.slot);
                assert(self.armed() =~= before.armed().remove(hdr.slot));
                let cancel_repair = match read_timed_out(&self.inner, hdr.slot) {
                    Some(timed_out) => timed_out,
                    None => false,
                };
                SlotAction::Completed { raw, stop_timer, cancel_repair }
            },
        }
    }

    /// Decides what to do about a packet, reading its header off it.
    pub fn on_packet(&mut self, packet: Vec<u8>, now_ms: u64) -> (action: SlotAction)
        requires
            old(self).wf(),
        ensures
            final(self).wf(),
            final(self).version() == old(self).version(),
            took_shred(
                *old(self),
                *final(self),
                header_of(packet@),
                last_of(packet@),
                now_ms,
                packet@,
                action,
            ),
    {
        let header = get_common_header(&packet);
        let last_in_slot = get_last_in_slot(&packet);
        self.on_shred(header, last_in_slot, now_ms, packet)
    }

    /// Decides what to do when a slot has gone stale: a slot that is still
    /// there and not complete is marked and sent to repair.
    pub fn on_timeout(&mut self, slot: u64) -> (action: SlotAction)
        requires
            old(self).wf(),
        ensures
            final(self).wf(),
            final(self).version() == old(self).version(),
            final(self).armed() == old(self).armed().remove(slot),
            final(self).slots().remove(slot) == old(self).slots().remove(slot),
            match slot_view(old(self).slots(), slot) {
                None => action is Nothing && slot_view(final(self).slots(), slot) is None,
                Some(meta) => {
                    &&& slot_view(final(self).slots(), slot) == Some(
                        SlotMetaView {
                            timed_out: meta.timed_out || !meta.is_complete(),
                            ..meta
                        },
                    )
                    &&& if meta.is_complete() {
                        action is Nothing
                    } else {
                        action matches SlotAction::Repair(req) && asks_for(
                            req@,
                            old(self).slots()[slot],
                        )
                    }
                },
            },
    {
        let ghost before = *self;
        self.timers.remove(&slot);
        assert(self.armed() =~= before.armed().remove(slot));
        let ghost start = self.slots();
        match swap_slot(&mut self.inner, slot, SlotMetadata::new(slot, 0)) {
            None => {
                assert(slot_view(self.slots(), slot) is None);
                SlotAction::Nothing
            },
            Some(meta) => {
                let mut meta = meta;
                let complete = meta.is_complete();
                let action = if complete {
                    SlotAction::Nothing
                } else {
                    meta.timed_out = true;
                    SlotAction::Repair(meta.calculate_missing_shreds())
                };
                let ghost kept = meta;
                proof {
                    let was = start[slot];
                    assert(kept@ =~= SlotMetaView {
                        timed_out: was.timed_out || !was@.is_complete(),
                        ..was@
                    });
                    lemma_missing_ignores_timeout(
                        was@,
                        kept@,
                        was@.batch_limit() / 32,
                    );
                }
                let _ = swap_slot(&mut self.inner, slot, meta);
                proof {
                    assert(self.slots() =~= start.insert(slot, kept));
                    assert(self.slots().remove(slot) =~= start.remove(slot));
                }
                action
            },
        }
    }
}

/// `req` asks for what is missing of `meta`.
pub open spec fn asks_for(req: RepairReqView, meta: SlotMetadata) -> bool {
    req == (if meta.required_batches is Some {
        RepairReqView::Bounded {
            slot: meta.slot_num,
            shreds: missing_bounded(meta@, meta@.batch_limit() / 32),
        }
    } else {
        RepairReqView::Unbounded {
            slot: meta.slot_num,
            shreds: missing_seen(meta.fec_data_map.entries(), meta@.completed) + missing_unseen(
                meta@.data,
                meta@.completed,
                (last_batch(meta.fec_data_map.entries()) as nat + 31) / 32,
            ),
            max_inclusive_shred: meta.max_inclusive_shred,
        }
    })
}

proof fn lemma_missing_ignores_timeout(a: SlotMetaView, b: SlotMetaView, n: nat)
    requires
        b == (SlotMetaView { timed_out: b.timed_out, ..a }),
    ensures
        missing_bounded(a, n) == missing_bounded(b, n),
    decreases n,
{
    if n > 0 {
        lemma_missing_ignores_timeout(a, b, (n - 1) as nat);
    }
}

/// A slot that is complete stays as it is: no shred changes it.
pub proof fn law_complete_is_final(
    meta: SlotMetaView,
    hdr: ShredHeader,
    last_in_slot: Option<bool>,
    now_ms: u64,
    shred: Seq<u8>,
)
    requires
        meta.is_complete(),
    ensures
        meta.stored(hdr, last_in_slot, now_ms, shred) == (StoreOutcome::Ignored, meta),
{
}

/// A shred that has been stored is ignored when it comes again, and changes
/// nothing but the slot's end, where it tells it.
pub proof fn law_repeated_shred_ignored(
    meta: SlotMetaView,
    hdr: ShredHeader,
    last_in_slot: Option<bool>,
    now_ms: u64,
    later_ms: u64,
    shred: Seq<u8>,
)
    requires
        meta.wf(),
    ensures
        ({
            let (_, once) = meta.stored(hdr, last_in_slot, now_ms, shred);
            once.stored(hdr, last_in_slot, later_ms, shred) == (StoreOutcome::Ignored, once)
        }),
{
    let (_, once) = meta.stored(hdr, last_in_slot, now_ms, shred);
    if !meta.is_complete() && !(hdr.kind is Data && last_in_slot is None) {
        if !once.is_complete() {
            let twice = once.ended_by(hdr, last_in_slot).marked(hdr);
            assert(once.has(hdr));
            let b = hdr.fec_set_index;
            if hdr.kind is Data {
                assert(batch_of(once.data, b).insert(hdr.index) =~= batch_of(once.data, b));
            } else {
                assert(batch_of(once.code, b).insert(hdr.index) =~= batch_of(once.code, b));
            }
            assert(twice.data =~= once.data);
            assert(twice.code =~= once.code);
            assert(twice =~= once);
        }
    }
}

/// A slot is handed on exactly when its last missing batch fills up, with all
/// shreds that were stored, and its shreds are then gone.
pub proof fn law_completion_hands_on_all(
    meta: SlotMetaView,
    hdr: ShredHeader,
    last_in_slot: Option<bool>,
    now_ms: u64,
    shred: Seq<u8>,
)
    requires
        meta.wf(),
    ensures
        ({
            let (outcome, after) = meta.stored(hdr, last_in_slot, now_ms, shred);
            &&& (outcome is Complete) == (!meta.is_complete() && after.is_complete() && !meta.has(
                hdr,
            ) && !(hdr.kind is Data && last_in_slot is None))
            &&& outcome matches StoreOutcome::Complete(shreds) ==> shreds == meta.shreds->0.push(
                shred,
            ) && after.shreds is None
        }),
{
}

/// An index is reported missing exactly when its batch is not complete and it
/// has not arrived.
pub proof fn law_missing_bounded(meta: SlotMetaView, n: nat, index: u32)
    requires
        n * 32 <= 0x1_0000_0000,
    ensures
        missing_bounded(meta, n).contains(index) == ({
            let batch = ((index / 32) * 32) as u32;
            &&& index < n * 32
            &&& !meta.completed.contains(batch)
            &&& !batch_of(meta.data, batch).contains(index)
        }),
    decreases n,
{
    if n > 0 {
        let batch = ((n - 1) * 32) as u32;
        law_missing_bounded(meta, (n - 1) as nat, index);
        let before = missing_bounded(meta, (n - 1) as nat);
        let more = if meta.completed.contains(batch) {
            Seq::empty()
        } else {
            gaps(batch, batch_of(meta.data, batch), 32)
        };
        lemma_gaps(batch, batch_of(meta.data, batch), 32, index);
        lemma_contains_concat(before, more, index);
        assert(batch <= index < batch + 32 ==> (index / 32) * 32 == batch);
    }
}

/// The index lies in `batch`, of which some data has arrived and which is not
/// complete, and has not arrived itself.
pub open spec fn is_gap(meta: SlotMetaView, batch: u32, index: u32) -> bool {
    &&& meta.data.dom().contains(batch)
    &&& !meta.completed.contains(batch)
    &&& batch <= index < batch + 32
    &&& !meta.data[batch].contains(index)
}

/// Where the slot's end is not known, an index is reported missing exactly when
/// it is a gap in a batch of which some data has arrived, or lies in a batch
/// below the highest of these of which none has. A batch that is complete has
/// nothing missing, whatever completed it.
pub proof fn law_missing_unbounded(meta: SlotMetadata, index: u32)
    requires
        meta.wf(),
    ensures
        ({
            let entries = meta.fec_data_map.entries();
            let last = last_batch(entries);
            let batch = ((index / 32) * 32) as u32;
            (missing_seen(entries, meta@.completed) + missing_unseen(
                meta@.data,
                meta@.completed,
                (last as nat + 31) / 32,
            )).contains(index) <==> (exists|b: u32| #[trigger] is_gap(meta@, b, index)) || (batch
                < last && !meta@.data.dom().contains(batch) && !meta@.completed.contains(batch))
        }),
{
    let entries = meta.fec_data_map.entries();
    let last = last_batch(entries);
    let n = (last as nat + 31) / 32;
    lemma_contains_concat(
        missing_seen(entries, meta@.completed),
        missing_unseen(meta@.data, meta@.completed, n),
        index,
    );
    lemma_missing_seen(entries, meta@.completed, index);
    lemma_missing_unseen(meta@.data, meta@.completed, n, index);
    if missing_seen(entries, meta@.completed).contains(index) {
        let i = choose|i: int|
            0 <= i < entries.len() && gap_in(#[trigger] entries[i], meta@.completed, index);
        meta.fec_data_map.lemma_entry(i);
        assert(is_gap(meta@, entries[i].0, index));
    }
    if exists|b: u32| #[trigger] is_gap(meta@, b, index) {
        let b = choose|b: u32| #[trigger] is_gap(meta@, b, index);
        assert(meta.fec_data_map.has(b));
        assert(gap_in(entries[meta.fec_data_map.index_of(b)], meta@.completed, index));
    }
}

/// The index lies in the batch of `entry`, which is not complete, and has not
/// arrived.
spec fn gap_in(entry: (u32, Vec<u32>), completed: Set<u32>, index: u32) -> bool {
    &&& !completed.contains(entry.0)
    &&& entry.0 <= index < entry.0 + 32
    &&& !entry.1@.to_set().contains(index)
}

proof fn lemma_missing_seen(entries: Seq<(u32, Vec<u32>)>, completed: Set<u32>, index: u32)
    ensures
        missing_seen(entries, completed).contains(index) == (exists|i: int|
            0 <= i < entries.len() && gap_in(#[trigger] entries[i], completed, index)),
    decreases entries.len(),
{
    if entries.len() > 0 {
        let rest = entries.drop_last();
        let (batch, have) = entries.last();
        lemma_missing_seen(rest, completed, index);
        let more = if completed.contains(batch) {
            Seq::empty()
        } else {
            gaps(batch, have@.to_set(), 32)
        };
        lemma_gaps(batch, have@.to_set(), 32, index);
        lemma_contains_concat(missing_seen(rest, completed), more, index);
        let last = entries.len() - 1;
        assert(more.contains(index) == gap_in(entries[last], completed, index));
        if exists|i: int| 0 <= i < rest.len() && gap_in(#[trigger] rest[i], completed, index) {
            let i = choose|i: int|
                0 <= i < rest.len() && gap_in(#[trigger] rest[i], completed, index);
            assert(entries[i] == rest[i]);
        }
        if exists|i: int| 0 <= i < entries.len() && gap_in(#[trigger] entries[i], completed, index) {
            let i = choose|i: int|
                0 <= i < entries.len() && gap_in(#[trigger] entries[i], completed, index);
            if i < last {
                assert(rest[i] == entries[i]);
            }
        }
    }
}

proof fn lemma_missing_unseen(
    data: Map<u32, Set<u32>>,
    completed: Set<u32>,
    n: nat,
    index: u32,
)
    requires
        n * 32 <= 0x1_0000_0000,
    ensures
        missing_unseen(data, completed, n).contains(index) == ({
            let batch = ((index / 32) * 32) as u32;
            index < n * 32 && !data.dom().contains(batch) && !completed.contains(batch)
        }),
    decreases n,
{
    if n > 0 {
        let batch = ((n - 1) * 32) as u32;
        lemma_missing_unseen(data, completed, (n - 1) as nat, index);
        let more = if data.dom().contains(batch) || completed.contains(batch) {
            Seq::empty()
        } else {
            gaps(batch, Set::empty(), 32)
        };
        lemma_gaps(batch, Set::empty(), 32, index);
        lemma_contains_concat(missing_unseen(data, completed, (n - 1) as nat), more, index);
        assert(batch <= index < batch + 32 ==> (index / 32) * 32 == batch);
    }
}

proof fn lemma_contains_concat(a: Seq<u32>, b: Seq<u32>, x: u32)
    ensures
        (a + b).contains(x) == (a.contains(x) || b.contains(x)),
{
    if a.contains(x) {
        let k = choose|k: int| 0 <= k < a.len() && a[k] == x;
        assert((a + b)[k] == x);
    }
    if b.contains(x) {
        let k = choose|k: int| 0 <= k < b.len() && b[k] == x;
        assert((a + b)[a.len() + k] == x);
    }
    if (a + b).contains(x) {
        let k = choose|k: int| 0 <= k < (a + b).len() && (a + b)[k] == x;
        if k < a.len() {
            assert(a[k] == x);
        } else {
            assert(b[k - a.len()] == x);
        }
    }
}

proof fn lemma_gaps(batch: u32, have: Set<u32>, n: nat, index: u32)
    ensures
        gaps(batch, have, n).contains(index) == (batch <= index < batch + n && !have.contains(
            index,
        )),
    decreases n,
{
    if n > 0 {
        lemma_gaps(batch, have, (n - 1) as nat, index);
        let rest = gaps(batch, have, (n - 1) as nat);
        let last = batch + n - 1;
        if last <= u32::MAX && !have.contains(last as u32) {
            let all = rest.push(last as u32);
            if rest.contains(index) {
                let k = choose|k: int| 0 <= k < rest.len() && rest[k] == index;
                assert(all[k] == index);
            }
            assert(all[rest.len() as int] == last as u32);
            if all.contains(index) && index != last {
                let k = choose|k: int| 0 <= k < all.len() && all[k] == index;
                assert(rest[k] == index);
            }
        }
    }
}

/// A shred that comes in.
pub struct Arrival {
    pub hdr: ShredHeader,
    pub last_in_slot: Option<bool>,
    pub now_ms: u64,
    pub shred: Seq<u8>,
}

impl Arrival {
    /// It is a data shred that says that it is the last of its slot.
    pub open spec fn is_last(self) -> bool {
        self.hdr.kind is Data && self.last_in_slot == Some(true)
    }
}

/// The slot after `arrivals`, one after the other.
pub open spec fn after_all(meta: SlotMetaView, arrivals: Seq<Arrival>) -> SlotMetaView
    decreases arrivals.len(),
{
    if arrivals.len() == 0 {
        meta
    } else {
        let a = arrivals.last();
        after_all(meta, arrivals.drop_last()).stored(a.hdr, a.last_in_slot, a.now_ms, a.shred).1
    }
}

/// What storing the last of `arrivals` comes to.
pub open spec fn last_outcome(meta: SlotMetaView, arrivals: Seq<Arrival>) -> StoreOutcome {
    let a = arrivals.last();
    after_all(meta, arrivals.drop_last()).stored(a.hdr, a.last_in_slot, a.now_ms, a.shred).0
}

/// The shreds of `arrivals` that were not ignored, in the order of arrival.
pub open spec fn kept_shreds(meta: SlotMetaView, arrivals: Seq<Arrival>) -> Seq<Seq<u8>>
    decreases arrivals.len(),
{
    if arrivals.len() == 0 {
        Seq::empty()
    } else {
        let rest = kept_shreds(meta, arrivals.drop_last());
        if last_outcome(meta, arrivals) is Ignored {
            rest
        } else {
            rest.push(arrivals.last().shred)
        }
    }
}

/// The last shred of the slot is among `arrivals`.
pub open spec fn has_last(arrivals: Seq<Arrival>) -> bool {
    exists|i: int| 0 <= i < arrivals.len() && (#[trigger] arrivals[i]).is_last()
}

/// One data shred of the slot says that it is the last: it is the one at
/// `index` of batch `fec`, and always says so.
pub open spec fn one_last(arrivals: Seq<Arrival>, fec: u32, index: u32) -> bool {
    forall|i: int|
        0 <= i < arrivals.len() ==> ((#[trigger] arrivals[i]).is_last() <==> arrivals[i].hdr.kind is Data
            && arrivals[i].hdr.fec_set_index == fec && arrivals[i].hdr.index == index)
}

/// The batches that have 32 shreds or more.
pub open spec fn full_batches(meta: SlotMetaView) -> Set<u32> {
    Set::new(|b: u32| meta.batch_len(b) >= 32)
}

/// The shreds of a batch can be counted.
spec fn is_countable(meta: SlotMetaView, batch: u32) -> bool {
    batch_of(meta.data, batch).finite() && batch_of(meta.code, batch).finite()
}

/// What is known of a slot after `arrivals`.
spec fn is_tallied(
    start: SlotMetaView,
    arrivals: Seq<Arrival>,
    fec: u32,
    index: u32,
    meta: SlotMetaView,
) -> bool {
    &&& meta.wf()
    &&& meta.completed == full_batches(meta)
    &&& forall|b: u32| #[trigger] is_countable(meta, b)
    &&& meta.required == (if has_last(arrivals) {
        Some(((fec + 32) / 32) as usize)
    } else {
        None
    })
    &&& batch_of(meta.data, fec).contains(index) ==> has_last(arrivals)
    &&& meta.shreds == (if meta.is_complete() {
        None
    } else {
        Some(kept_shreds(start, arrivals))
    })
}

proof fn lemma_tallied(slot: u64, at_ms: u64, arrivals: Seq<Arrival>, fec: u32, index: u32)
    requires
        one_last(arrivals, fec, index),
    ensures
        ({
            let start = SlotMetaView::fresh(slot, at_ms);
            is_tallied(start, arrivals, fec, index, after_all(start, arrivals))
        }),
    decreases arrivals.len(),
{
    let start = SlotMetaView::fresh(slot, at_ms);
    if arrivals.len() == 0 {
        assert(start.completed =~= full_batches(start));
    } else {
        let rest = arrivals.drop_last();
        let a = arrivals[arrivals.len() - 1];
        assert(one_last(rest, fec, index)) by {
            assert forall|i: int| 0 <= i < rest.len() implies ((#[trigger] rest[i]).is_last()
                <==> rest[i].hdr.kind is Data && rest[i].hdr.fec_set_index == fec
                && rest[i].hdr.index == index) by {
                assert(rest[i] == arrivals[i]);
            }
        }
        lemma_tallied(slot, at_ms, rest, fec, index);
        let before = after_all(start, rest);
        let after = after_all(start, arrivals);
        assert(has_last(arrivals) == (has_last(rest) || a.is_last())) by {
            if has_last(rest) {
                let i = choose|i: int| 0 <= i < rest.len() && (#[trigger] rest[i]).is_last();
                assert(arrivals[i].is_last());
            }
            if has_last(arrivals) && !a.is_last() {
                let i = choose|i: int|
                    0 <= i < arrivals.len() && (#[trigger] arrivals[i]).is_last();
                assert(rest[i].is_last());
            }
        }
        lemma_tallied_step(start, arrivals, fec, index, before, after);
    }
}

proof fn lemma_tallied_step(
    start: SlotMetaView,
    arrivals: Seq<Arrival>,
    fec: u32,
    index: u32,
    before: SlotMetaView,
    after: SlotMetaView,
)
    requires
        arrivals.len() > 0,
        before == after_all(start, arrivals.drop_last()),
        after == after_all(start, arrivals),
        is_tallied(start, arrivals.drop_last(), fec, index, before),
        has_last(arrivals) == (has_last(arrivals.drop_last()) || arrivals.last().is_last()),
        arrivals.last().is_last() <==> arrivals.last().hdr.kind is Data
            && arrivals.last().hdr.fec_set_index == fec && arrivals.last().hdr.index == index,
    ensures
        is_tallied(start, arrivals, fec, index, after),
{
    let a = arrivals.last();
    let hdr = a.hdr;
    let b = hdr.fec_set_index;
    if before.is_complete() || (hdr.kind is Data && a.last_in_slot is None) {
        assert(after == before);
    } else {
        let ended = before.ended_by(hdr, a.last_in_slot);
        let marked = ended.marked(hdr);
        assert forall|c: u32| #[trigger] is_countable(marked, c) by {
            assert(is_countable(before, c));
            assert(is_countable(before, b));
        }
        assert forall|c: u32| #[trigger] is_countable(after, c) by {
            assert(is_countable(marked, c));
        }
        assert forall|c: u32| c != b implies #[trigger] marked.batch_len(c) == before.batch_len(
            c,
        ) by {
            assert(batch_of(marked.data, c) =~= batch_of(before.data, c));
            assert(batch_of(marked.code, c) =~= batch_of(before.code, c));
        }
        if before.has(hdr) {
            assert(is_countable(before, b));
            assert(batch_of(marked.data, b) =~= batch_of(before.data, b));
            assert(batch_of(marked.code, b) =~= batch_of(before.code, b));
            assert(after == marked);
            assert(full_batches(after) =~= full_batches(before));
            if a.is_last() {
                assert(batch_of(before.data, fec).contains(index));
            }
        } else {
            assert(is_countable(before, b));
            assert(marked.batch_len(b) == before.batch_len(b) + 1) by {
                match hdr.kind {
                    ShredType::Data => {
                        assert(batch_of(marked.data, b) =~= batch_of(before.data, b).insert(
                            hdr.index,
                        ));
                        assert(batch_of(marked.code, b) =~= batch_of(before.code, b));
                    },
                    ShredType::Code => {
                        assert(batch_of(marked.code, b) =~= batch_of(before.code, b).insert(
                            hdr.index,
                        ));
                        assert(batch_of(marked.data, b) =~= batch_of(before.data, b));
                    },
                }
            }
            assert(full_batches(marked) =~= after.completed) by {
                assert forall|c: u32| full_batches(marked).contains(c) == after.completed.contains(
                    c,
                ) by {
                    assert(before.completed.contains(c) == (before.batch_len(c) >= 32));
                }
            }
            assert(full_batches(after) =~= full_batches(marked));
            assert(after.data == marked.data && after.code == marked.code);
        }
        assert(after.data == marked.data);
        if batch_of(after.data, fec).contains(index) && !batch_of(before.data, fec).contains(
            index,
        ) {
            assert(hdr.kind is Data && b == fec && hdr.index == index);
        }
    }
}

/// A slot completes exactly once. The last of `arrivals` completes it if and
/// only if before it the slot was not complete and after it the last shred has
/// been seen and as many batches are full as the slot has; all shreds that were
/// kept are then handed on in the order of arrival, and whatever comes later is
/// ignored.
pub proof fn law_slot_completes_once(
    slot: u64,
    at_ms: u64,
    arrivals: Seq<Arrival>,
    fec: u32,
    index: u32,
    later: Arrival,
)
    requires
        arrivals.len() > 0,
        one_last(arrivals, fec, index),
    ensures
        ({
            let start = SlotMetaView::fresh(slot, at_ms);
            let before = after_all(start, arrivals.drop_last());
            let after = after_all(start, arrivals);
            let full = full_batches(after).len() == (fec as int) / 32 + 1;
            let outcome = last_outcome(start, arrivals);
            &&& after.is_complete() <==> has_last(arrivals) && full
            &&& outcome is Complete <==> !before.is_complete() && after.is_complete()
            &&& outcome matches StoreOutcome::Complete(shreds) ==> shreds == kept_shreds(
                start,
                arrivals,
            )
            &&& before.is_complete() ==> outcome is Ignored && after == before
            &&& after.is_complete() ==> last_outcome(start, arrivals.push(later)) is Ignored
                && after_all(start, arrivals.push(later)) == after
        }),
{
    let start = SlotMetaView::fresh(slot, at_ms);
    let rest = arrivals.drop_last();
    assert(one_last(rest, fec, index)) by {
        assert forall|i: int| 0 <= i < rest.len() implies ((#[trigger] rest[i]).is_last()
            <==> rest[i].hdr.kind is Data && rest[i].hdr.fec_set_index == fec && rest[i].hdr.index
            == index) by {
            assert(rest[i] == arrivals[i]);
        }
    }
    lemma_tallied(slot, at_ms, arrivals, fec, index);
    lemma_tallied(slot, at_ms, rest, fec, index);
    let before = after_all(start, rest);
    let after = after_all(start, arrivals);
    assert(arrivals.push(later).drop_last() =~= arrivals);
    assert((fec + 32) / 32 == (fec as int) / 32 + 1);
    let a = arrivals[arrivals.len() - 1];
    if !before.is_complete() && after.is_complete() {
        if !(hdr_unread(a)) && before.has(a.hdr) {
            let marked = before.ended_by(a.hdr, a.last_in_slot).marked(a.hdr);
            assert(after == marked);
            if a.is_last() {
                assert(batch_of(before.data, fec).contains(index));
            }
            assert(after.required == before.required);
            assert(after.completed == before.completed);
        }
    }
}

/// A data shred whose flags cannot be read.
spec fn hdr_unread(a: Arrival) -> bool {
    a.hdr.kind is Data && a.last_in_slot is None
}

/// The arrivals of one slot among those of many.
pub open spec fn of_slot(arrivals: Seq<Arrival>, slot: u64) -> Seq<Arrival>
    decreases arrivals.len(),
{
    if arrivals.len() == 0 {
        Seq::empty()
    } else {
        let rest = of_slot(arrivals.drop_last(), slot);
        if arrivals.last().hdr.slot == slot {
            rest.push(arrivals.last())
        } else {
            rest
        }
    }
}

/// `after` is `before` once a shred has been stored in it.
pub open spec fn is_stored(before: SlotMetadataStore, after: SlotMetadataStore, a: Arrival) -> bool {
    &&& slot_view(after.slots(), a.hdr.slot) == Some(
        before.before(a.hdr.slot, a.now_ms).stored(a.hdr, a.last_in_slot, a.now_ms, a.shred).1,
    )
    &&& others_kept(before.slots(), after.slots(), a.hdr.slot)
}

/// A store that was empty at first is `stores[i]` after the first `i` of
/// `arrivals`.
pub open spec fn all_stored(stores: Seq<SlotMetadataStore>, arrivals: Seq<Arrival>) -> bool {
    &&& stores.len() == arrivals.len() + 1
    &&& stores[0].slots() == Map::<u64, SlotMetadata>::empty()
    &&& forall|i: int|
        0 <= i < arrivals.len() ==> is_stored(stores[i], stores[i + 1], #[trigger] arrivals[i])
}

/// What a slot comes to that has only its own arrivals to go by.
pub open spec fn filled_alone(arrivals: Seq<Arrival>) -> Option<SlotMetaView> {
    if arrivals.len() == 0 {
        None
    } else {
        Some(
            after_all(
                SlotMetaView::fresh(arrivals[0].hdr.slot, arrivals[0].now_ms),
                arrivals,
            ),
        )
    }
}

proof fn lemma_of_slot(arrivals: Seq<Arrival>, slot: u64)
    ensures
        forall|i: int|
            0 <= i < of_slot(arrivals, slot).len() ==> (#[trigger] of_slot(
                arrivals,
                slot,
            )[i]).hdr.slot == slot,
    decreases arrivals.len(),
{
    if arrivals.len() > 0 {
        lemma_of_slot(arrivals.drop_last(), slot);
    }
}

/// Storing a shred never leaves fewer slots than before: at most one goes, and
/// only for one that comes.
pub proof fn law_store_does_not_shrink(
    before: SlotMetadataStore,
    after: SlotMetadataStore,
    slot: u64,
)
    requires
        before.wf(),
        others_kept(before.slots(), after.slots(), slot),
    ensures
        before.slots().dom().len() <= after.slots().dom().len() <= before.slots().dom().len() + 1,
        before.slots().dom().difference(after.slots().dom()).len() <= 1,
{
    before.lemma_finite();
    let b = before.slots().dom();
    let a = after.slots().dom();
    let gone = choose|gone: Option<u64>| #[trigger]
        others_but(before.slots(), after.slots(), slot, gone);
    match gone {
        Some(other) => {
            assert(b.difference(a) =~= set![other]);
        },
        None => {
            assert(b.difference(a) =~= Set::<u64>::empty());
        },
    }
}

/// Slots fill up side by side. While shreds of no more than
/// [`BUCKET_ENTRIES`] slots have come, each slot is what it would be if its own
/// shreds alone had come, whatever comes between them.
pub proof fn law_slots_fill_side_by_side(
    stores: Seq<SlotMetadataStore>,
    arrivals: Seq<Arrival>,
    all: Set<u64>,
    slot: u64,
)
    requires
        all_stored(stores, arrivals),
        all.finite(),
        all.len() <= BUCKET_ENTRIES,
        forall|i: int| 0 <= i < arrivals.len() ==> all.contains((#[trigger] arrivals[i]).hdr.slot),
    ensures
        slot_view(stores.last().slots(), slot) == filled_alone(of_slot(arrivals, slot)),
        stores.last().slots().dom().subset_of(all),
    decreases arrivals.len(),
{
    if arrivals.len() > 0 {
        let n = arrivals.len() - 1;
        let rest = arrivals.drop_last();
        let a = arrivals[n];
        let was = stores[n];
        let now = stores[n + 1];
        let s0 = stores.drop_last();
        assert(all_stored(s0, rest)) by {
            assert forall|i: int| 0 <= i < rest.len() implies is_stored(
                s0[i],
                s0[i + 1],
                #[trigger] rest[i],
            ) by {
                assert(rest[i] == arrivals[i]);
            }
        }
        assert forall|i: int| 0 <= i < rest.len() implies all.contains(
            (#[trigger] rest[i]).hdr.slot,
        ) by {
            assert(rest[i] == arrivals[i]);
        }
        law_slots_fill_side_by_side(s0, rest, all, slot);
        assert(s0.last() == was);
        assert(is_stored(was, now, a));
        let gone = choose|gone: Option<u64>| #[trigger]
            others_but(was.slots(), now.slots(), a.hdr.slot, gone);
        if gone is Some {
            assert(all.contains(a.hdr.slot));
            let more = was.slots().dom().insert(a.hdr.slot);
            vstd::set_lib::lemma_set_subset_finite(all, was.slots().dom());
            vstd::set_lib::lemma_len_subset(more, all);
        }
        assert(gone is None);
        let own = of_slot(rest, slot);
        lemma_of_slot(rest, slot);
        if a.hdr.slot == slot {
            let next = own.push(a);
            assert(next.drop_last() =~= own);
            if own.len() == 0 {
                assert(was.before(slot, a.now_ms) == SlotMetaView::fresh(slot, a.now_ms));
                assert(after_all(SlotMetaView::fresh(slot, a.now_ms), own) == SlotMetaView::fresh(
                    slot,
                    a.now_ms,
                ));
            } else {
                assert(own[0].hdr.slot == slot);
                assert(next[0] == own[0]);
            }
        }
    }
}

/// An arrival that can be noted: a data shred has to have its flags.
pub open spec fn is_readable(a: Arrival) -> bool {
    a.hdr.kind is Code || a.last_in_slot is Some
}

/// A shred of this kind, batch and index is among `arrivals`, and can be noted.
pub open spec fn has_come(arrivals: Seq<Arrival>, kind: ShredType, batch: u32, index: u32) -> bool {
    exists|i: int|
        0 <= i < arrivals.len() && is_readable(#[trigger] arrivals[i]) && arrivals[i].hdr.kind
            == kind && arrivals[i].hdr.fec_set_index == batch && arrivals[i].hdr.index == index
}

proof fn lemma_has_come(arrivals: Seq<Arrival>, kind: ShredType, batch: u32, index: u32)
    requires
        arrivals.len() > 0,
    ensures
        has_come(arrivals, kind, batch, index) == (has_come(
            arrivals.drop_last(),
            kind,
            batch,
            index,
        ) || (is_readable(arrivals.last()) && arrivals.last().hdr.kind == kind
            && arrivals.last().hdr.fec_set_index == batch && arrivals.last().hdr.index == index)),
{
    let rest = arrivals.drop_last();
    let n = arrivals.len() - 1;
    assert(arrivals[n] == arrivals.last());
    if has_come(rest, kind, batch, index) {
        let i = choose|i: int|
            0 <= i < rest.len() && is_readable(#[trigger] rest[i]) && rest[i].hdr.kind == kind
                && rest[i].hdr.fec_set_index == batch && rest[i].hdr.index == index;
        assert(arrivals[i] == rest[i]);
        assert(is_readable(arrivals[i]));
    }
    if has_come(arrivals, kind, batch, index) {
        let i = choose|i: int|
            0 <= i < arrivals.len() && is_readable(#[trigger] arrivals[i]) && arrivals[i].hdr.kind
                == kind && arrivals[i].hdr.fec_set_index == batch && arrivals[i].hdr.index
                == index;
        if i < n {
            assert(rest[i] == arrivals[i]);
            assert(is_readable(rest[i]));
        }
    }
}

/// While a slot is not complete, what is noted of it is what has come, by kind
/// and batch.
pub proof fn law_slot_notes_what_comes(
    slot: u64,
    at_ms: u64,
    arrivals: Seq<Arrival>,
    batch: u32,
    index: u32,
)
    requires
        arrivals.len() > 0 ==> !after_all(
            SlotMetaView::fresh(slot, at_ms),
            arrivals.drop_last(),
        ).is_complete(),
    ensures
        ({
            let meta = after_all(SlotMetaView::fresh(slot, at_ms), arrivals);
            &&& batch_of(meta.data, batch).contains(index) == has_come(
                arrivals,
                ShredType::Data,
                batch,
                index,
            )
            &&& batch_of(meta.code, batch).contains(index) == has_come(
                arrivals,
                ShredType::Code,
                batch,
                index,
            )
            &&& meta.slot_num == slot
            &&& !meta.timed_out
        }),
    decreases arrivals.len(),
{
    let start = SlotMetaView::fresh(slot, at_ms);
    if arrivals.len() > 0 {
        let rest = arrivals.drop_last();
        if rest.len() > 0 {
            let before = after_all(start, rest.drop_last());
            if before.is_complete() {
                let b = rest.last();
                law_complete_is_final(before, b.hdr, b.last_in_slot, b.now_ms, b.shred);
            }
        }
        law_slot_notes_what_comes(slot, at_ms, rest, batch, index);
        lemma_has_come(arrivals, ShredType::Data, batch, index);
        lemma_has_come(arrivals, ShredType::Code, batch, index);
        let before = after_all(start, rest);
        let a = arrivals.last();
        let after = after_all(start, arrivals);
        if is_readable(a) {
            let marked = before.ended_by(a.hdr, a.last_in_slot).marked(a.hdr);
            assert(after.data == marked.data && after.code == marked.code);
        } else {
            assert(after == before);
        }
    }
}

/// What comes is ignored exactly if the slot was complete before, if it cannot
/// be noted, or if it had come before; and a slot keeps the time of the last
/// shred that was not.
pub proof fn law_ignored_if_it_had_come(slot: u64, at_ms: u64, arrivals: Seq<Arrival>)
    requires
        arrivals.len() > 0,
    ensures
        ({
            let start = SlotMetaView::fresh(slot, at_ms);
            let rest = arrivals.drop_last();
            let a = arrivals.last();
            let before = after_all(start, rest);
            let ignored = last_outcome(start, arrivals) is Ignored;
            &&& ignored == (before.is_complete() || !is_readable(a) || has_come(
                rest,
                a.hdr.kind,
                a.hdr.fec_set_index,
                a.hdr.index,
            ))
            &&& after_all(start, arrivals).timestamp_ms == (if ignored {
                before.timestamp_ms
            } else {
                a.now_ms
            })
        }),
{
    let start = SlotMetaView::fresh(slot, at_ms);
    let rest = arrivals.drop_last();
    let a = arrivals.last();
    let before = after_all(start, rest);
    if !before.is_complete() {
        if rest.len() > 0 {
            let earlier = after_all(start, rest.drop_last());
            if earlier.is_complete() {
                let b = rest.last();
                law_complete_is_final(earlier, b.hdr, b.last_in_slot, b.now_ms, b.shred);
            }
        }
        law_slot_notes_what_comes(slot, at_ms, rest, a.hdr.fec_set_index, a.hdr.index);
    }
}

/// The highest index of a slot is that of the shreds that are noted: none of
/// them is above it, and one of them has it, if there is any. It is never
/// lowered.
pub proof fn law_highest_index_is_seen(slot: u64, at_ms: u64, arrivals: Seq<Arrival>)
    ensures
        ({
            let meta = after_all(SlotMetaView::fresh(slot, at_ms), arrivals);
            &&& forall|batch: u32, index: u32|
                #![trigger batch_of(meta.data, batch).contains(index)]
                batch_of(meta.data, batch).contains(index) ==> index <= meta.max_inclusive_shred
            &&& forall|batch: u32, index: u32|
                #![trigger batch_of(meta.code, batch).contains(index)]
                batch_of(meta.code, batch).contains(index) ==> index <= meta.max_inclusive_shred
            &&& meta.max_inclusive_shred > 0 ==> exists|batch: u32|
                #![trigger batch_of(meta.data, batch)]
                #![trigger batch_of(meta.code, batch)]
                batch_of(meta.data, batch).contains(meta.max_inclusive_shred) || batch_of(
                    meta.code,
                    batch,
                ).contains(meta.max_inclusive_shred)
            &&& arrivals.len() > 0 ==> after_all(
                SlotMetaView::fresh(slot, at_ms),
                arrivals.drop_last(),
            ).max_inclusive_shred <= meta.max_inclusive_shred
        }),
    decreases arrivals.len(),
{
    let start = SlotMetaView::fresh(slot, at_ms);
    let meta = after_all(start, arrivals);
    if arrivals.len() > 0 {
        let rest = arrivals.drop_last();
        law_highest_index_is_seen(slot, at_ms, rest);
        let before = after_all(start, rest);
        let a = arrivals.last();
        let hdr = a.hdr;
        let b = hdr.fec_set_index;
        if !before.is_complete() && is_readable(a) {
            let marked = before.ended_by(hdr, a.last_in_slot).marked(hdr);
            assert(meta.data == marked.data && meta.code == marked.code);
            if before.has(hdr) {
                assert(batch_of(before.data, b).contains(hdr.index) || batch_of(
                    before.code,
                    b,
                ).contains(hdr.index));
            }
            assert forall|batch: u32, index: u32|
                #![trigger batch_of(meta.data, batch).contains(index)]
                batch_of(meta.data, batch).contains(index) implies index
                <= meta.max_inclusive_shred by {
                if !batch_of(before.data, batch).contains(index) {
                    assert(index == hdr.index);
                }
            }
            assert forall|batch: u32, index: u32|
                #![trigger batch_of(meta.code, batch).contains(index)]
                batch_of(meta.code, batch).contains(index) implies index
                <= meta.max_inclusive_shred by {
                if !batch_of(before.code, batch).contains(index) {
                    assert(index == hdr.index);
                }
            }
            if meta.max_inclusive_shred > 0 {
                let top = meta.max_inclusive_shred;
                if top == before.max_inclusive_shred {
                    let c = choose|c: u32|
                        #![trigger batch_of(before.data, c)]
                        #![trigger batch_of(before.code, c)]
                        batch_of(before.data, c).contains(top) || batch_of(before.code, c).contains(
                            top,
                        );
                    assert(batch_of(meta.data, c).contains(top) || batch_of(meta.code, c).contains(
                        top,
                    ));
                } else {
                    assert(top == hdr.index);
                    assert(batch_of(meta.data, b).contains(top) || batch_of(meta.code, b).contains(
                        top,
                    ));
                }
            }
        }
    }
}

/// Indexes that go up, all of them at `lo` or above and below `hi`.
pub open spec fn goes_up(s: Seq<u32>, lo: int, hi: int) -> bool {
    &&& forall|i: int, j: int| 0 <= i < j < s.len() ==> s[i] < s[j]
    &&& forall|i: int| 0 <= i < s.len() ==> lo <= #[trigger] s[i] < hi
}

/// The indexes of what is missing go up: none is asked for twice.
proof fn lemma_gaps_go_up(batch: u32, have: Set<u32>, n: nat)
    ensures
        goes_up(gaps(batch, have, n), batch as int, batch + n),
    decreases n,
{
    if n > 0 {
        lemma_gaps_go_up(batch, have, (n - 1) as nat);
        let rest = gaps(batch, have, (n - 1) as nat);
        let s = gaps(batch, have, n);
        assert forall|i: int, j: int| 0 <= i < j < s.len() implies s[i] < s[j] by {
            assert(s[i] == rest[i]);
            if j < rest.len() {
                assert(s[j] == rest[j]);
            }
        }
        assert forall|i: int| 0 <= i < s.len() implies batch <= #[trigger] s[i] < batch + n by {
            if i < rest.len() {
                assert(s[i] == rest[i]);
            }
        }
    }
}

proof fn lemma_missing_goes_up(meta: SlotMetaView, n: nat)
    requires
        n * 32 <= 0x1_0000_0000,
    ensures
        goes_up(missing_bounded(meta, n), 0, n as int * 32),
    decreases n,
{
    if n > 0 {
        let batch = ((n - 1) * 32) as u32;
        lemma_missing_goes_up(meta, (n - 1) as nat);
        lemma_gaps_go_up(batch, batch_of(meta.data, batch), 32);
        let rest = missing_bounded(meta, (n - 1) as nat);
        let more = if meta.completed.contains(batch) {
            Seq::empty()
        } else {
            gaps(batch, batch_of(meta.data, batch), 32)
        };
        let s = missing_bounded(meta, n);
        assert(s == rest + more);
        assert forall|i: int| 0 <= i < s.len() implies 0 <= #[trigger] s[i] < n * 32 by {
            if i < rest.len() {
                assert(s[i] == rest[i]);
            } else {
                assert(s[i] == more[i - rest.len()]);
            }
        }
        assert forall|i: int, j: int| 0 <= i < j < s.len() implies s[i] < s[j] by {
            if j < rest.len() {
                assert(s[i] == rest[i] && s[j] == rest[j]);
            } else if i < rest.len() {
                assert(s[i] == rest[i] && s[j] == more[j - rest.len()]);
            } else {
                assert(s[i] == more[i - rest.len()] && s[j] == more[j - rest.len()]);
            }
        }
    }
}

/// A slot whose end is known is repaired with what is missing of it: each index
/// below its end that has not come and whose batch is not complete, once, and
/// nothing else.
pub proof fn law_repair_asks_for_the_rest(req: RepairReqView, meta: SlotMetadata, index: u32)
    requires
        meta.wf(),
        meta.required_batches is Some,
        meta.required_batches->0 * 32 < 0x1_0000_0000,
        asks_for(req, meta),
    ensures
        req matches RepairReqView::Bounded { slot, shreds } && {
            &&& slot == meta.slot_num
            &&& shreds.contains(index) <==> index < meta.required_batches->0 * 32
                && !meta@.completed.contains((index - index % 32) as u32) && !batch_of(
                meta@.data,
                (index - index % 32) as u32,
            ).contains(index)
            &&& forall|i: int, j: int| 0 <= i < j < shreds.len() ==> shreds[i] < shreds[j]
        },
{
    let n = meta@.batch_limit() / 32;
    assert(n == meta.required_batches->0);
    law_missing_bounded(meta@, n, index);
    lemma_missing_goes_up(meta@, n);
    assert((index / 32) * 32 == index - index % 32);
}

/// A slot whose end is not known is repaired with the gaps in it so far, and from
/// the highest index on that has been seen.
pub proof fn law_repair_asks_from_the_highest_on(
    req: RepairReqView,
    meta: SlotMetadata,
    index: u32,
)
    requires
        meta.wf(),
        meta.required_batches is None,
        asks_for(req, meta),
    ensures
        req matches RepairReqView::Unbounded { slot, shreds, max_inclusive_shred } && {
            let batch = (index - index % 32) as u32;
            let below = exists|other: u32| #[trigger]
                meta@.data.dom().contains(other) && batch < other;
            &&& slot == meta.slot_num
            &&& max_inclusive_shred == meta@.max_inclusive_shred
            &&& shreds.contains(index) <==> (exists|b: u32| #[trigger]
                is_gap(meta@, b, index)) || (below && !meta@.data.dom().contains(batch)
                && !meta@.completed.contains(batch))
        },
{
    law_missing_unbounded(meta, index);
    let batch = (index - index % 32) as u32;
    assert((index / 32) * 32 == index - index % 32);
    let entries = meta.fec_data_map.entries();
    if entries.len() > 0 {
        let n = entries.len() - 1;
        meta.fec_data_map.lemma_entry(n);
        assert(meta@.data.dom().contains(entries[n].0));
        assert forall|other: u32| #[trigger] meta@.data.dom().contains(other) implies other
            <= entries[n].0 by {
            assert(meta.fec_data_map.has(other));
            let i = meta.fec_data_map.index_of(other);
            if i < n {
                assert(entries[i].0.rank() < entries[n].0.rank());
            }
        }
    } else {
        assert forall|other: u32| !#[trigger] meta@.data.dom().contains(other) by {
            if meta.fec_data_map.has(other) {
                assert(0 <= meta.fec_data_map.index_of(other) < 0);
            }
        }
    }
}

/// What the listener does about a shred. One of another version, or without a
/// header, changes nothing. One that completes its slot stops the timer that runs
/// for it, and cancels the repair that was asked for when it went stale. One that
/// adds to its slot starts the timer, and one that adds nothing leaves it alone.
/// The timers of the other slots are left alone, and at most one of them goes.
pub proof fn law_listener_takes_shreds(
    before: SlotMetadataStore,
    after: SlotMetadataStore,
    header: Option<ShredHeader>,
    last_in_slot: Option<bool>,
    now_ms: u64,
    shred: Seq<u8>,
    action: SlotAction,
    other: u64,
)
    requires
        took_shred(before, after, header, last_in_slot, now_ms, shred, action),
        header matches Some(hdr) ==> other != hdr.slot,
    ensures
        ({
            let slot = header->0.slot;
            let was = slot_view(before.slots(), slot);
            let is = slot_view(after.slots(), slot);
            if header is None || header->0.version != before.version() {
                action is Nothing && after.slots() == before.slots() && after.armed()
                    == before.armed()
            } else {
                &&& is is Some
                &&& after.armed().contains(other) == before.armed().contains(other)
                &&& after.slots().dom().contains(other) ==> before.slots().dom().contains(other)
                    && after.slots()[other] == before.slots()[other]
                &&& before.slots().dom().len() < 32 && before.slots().dom().contains(other)
                    ==> after.slots().dom().contains(other)
                &&& before.slots().dom().contains(slot) && before.slots().dom().contains(other)
                    ==> after.slots().dom().contains(other)
                &&& !(action is Repair)
                &&& action matches SlotAction::ArmTimer { slot: s } ==> s == slot
                    && after.armed().contains(slot) && !(is->0).is_complete()
                &&& action is Nothing ==> after.armed() == before.armed()
                &&& action is Nothing && was is Some ==> {
                    &&& (is->0).shreds == (was->0).shreds
                    &&& (is->0).completed == (was->0).completed
                    &&& (is->0).max_inclusive_shred == (was->0).max_inclusive_shred
                    &&& (is->0).timestamp_ms == (was->0).timestamp_ms
                    &&& (is->0).timed_out == (was->0).timed_out
                }
                &&& action matches SlotAction::Completed { raw, stop_timer, cancel_repair } ==> {
                    &&& raw.slot == slot
                    &&& (is->0).is_complete()
                    &&& was matches Some(meta) ==> !meta.is_complete()
                    &&& stop_timer == before.armed().contains(slot)
                    &&& !after.armed().contains(slot)
                    &&& cancel_repair == (was matches Some(meta) && meta.timed_out)
                }
            }
        }),
{
    if header is Some && header->0.version == before.version() {
        let slot = header->0.slot;
        let gone = choose|gone: Option<u64>| #[trigger]
            others_but(before.slots(), after.slots(), slot, gone);
        assert(others_but(before.slots(), after.slots(), slot, gone));
    }
}

/// A batch is complete exactly if 32 shreds of it or more have come, of either
/// kind together; and a slot whose last shred is of batch `fec` is complete as soon
/// as it has as many complete batches as there are up to that one.
pub proof fn law_batch_is_complete_at_32(
    slot: u64,
    at_ms: u64,
    arrivals: Seq<Arrival>,
    fec: u32,
    index: u32,
    batch: u32,
)
    requires
        one_last(arrivals, fec, index),
    ensures
        ({
            let meta = after_all(SlotMetaView::fresh(slot, at_ms), arrivals);
            &&& batch_of(meta.data, batch).finite()
            &&& batch_of(meta.code, batch).finite()
            &&& meta.completed.contains(batch) <==> batch_of(meta.data, batch).len() + batch_of(
                meta.code,
                batch,
            ).len() >= 32
            &&& meta.completed.finite()
            &&& meta.is_complete() <==> has_last(arrivals) && meta.completed.len() == fec / 32 + 1
        }),
{
    lemma_tallied(slot, at_ms, arrivals, fec, index);
    let meta = after_all(SlotMetaView::fresh(slot, at_ms), arrivals);
    assert(is_countable(meta, batch));
    assert(full_batches(meta).contains(batch) <==> meta.batch_len(batch) >= 32);
}

} // verus!
