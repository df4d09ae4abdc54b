//! From the shreds of a slot to the stretches of data that entries are read
//! from.

use vstd::prelude::*;
use crate::ordmap::{OrdMap, Rank};

verus! {

/// How many data shreds a full batch has.
pub const DATA_SHREDS_PER_FEC_SET: usize = 32;

/// What a shred says, as far as it is put in order by.
#[derive(Debug)]
pub struct ParsedShred {
    pub fec_set_index: u32,
    pub index: u32,
    pub is_data: bool,
    /// Entries can be read once this shred is there.
    pub data_complete: bool,
    /// The slot that this one builds on, where the shred tells it.
    pub parent: Option<u64>,
    pub payload: Vec<u8>,
}

pub struct ShredView {
    pub fec_set_index: u32,
    pub index: u32,
    pub is_data: bool,
    pub data_complete: bool,
    pub parent: Option<u64>,
    pub payload: Seq<u8>,
}

impl ParsedShred {
    pub open spec fn view(&self) -> ShredView {
        ShredView {
            fec_set_index: self.fec_set_index,
            index: self.index,
            is_data: self.is_data,
            data_complete: self.data_complete,
            parent: self.parent,
            payload: self.payload@,
        }
    }
}

pub open spec fn views(v: Seq<ParsedShred>) -> Seq<ShredView> {
    Seq::new(v.len(), |i: int| v[i]@)
}

/// The shreds of one batch.
#[derive(Debug)]
pub struct BatchMeta {
    pub shreds: Vec<ParsedShred>,
    pub data_cnt: usize,
}

/// The shreds of batch `fec`, in the order in which they came.
pub open spec fn of_batch(shreds: Seq<ShredView>, fec: u32) -> Seq<ShredView> {
    shreds.filter(|s: ShredView| s.fec_set_index == fec)
}

/// How many of the shreds are data.
pub open spec fn count_data(shreds: Seq<ShredView>) -> nat
    decreases shreds.len(),
{
    if shreds.len() == 0 {
        0
    } else {
        count_data(shreds.drop_last()) + (if shreds.last().is_data {
            1nat
        } else {
            0nat
        })
    }
}

impl BatchMeta {
    /// The count is that of the batch's data shreds.
    pub open spec fn wf(&self) -> bool {
        self.data_cnt == count_data(views(self.shreds@))
    }

    /// Too few data shreds came: the rest have to be recovered.
    pub fn needs_recovery(&self) -> (r: bool)
        requires
            self.wf(),
        ensures
            r == (count_data(views(self.shreds@)) < DATA_SHREDS_PER_FEC_SET),
    {
        self.data_cnt < DATA_SHREDS_PER_FEC_SET
    }
}

/// The shreds of a slot by batch. Each batch has its shreds in the order in
/// which they came, and no batch is empty.
pub open spec fn is_grouped(
    shreds: Seq<ShredView>,
    batches: Map<u32, BatchMeta>,
) -> bool {
    &&& forall|fec: u32| #[trigger]
        batches.dom().contains(fec) <==> of_batch(shreds, fec).len() > 0
    &&& forall|fec: u32| #[trigger]
        batches.dom().contains(fec) ==> batches[fec].wf() && views(batches[fec].shreds@)
            == of_batch(shreds, fec)
}

/// Sorts the shreds of a slot into their batches.
pub fn group_by_fec_set(shreds: Vec<ParsedShred>) -> (batches: OrdMap<u32, BatchMeta>)
    ensures
        batches.wf(),
        is_grouped(views(shreds@), batches@),
        forall|i: int|
            0 <= i < batches.entries().len() ==> (#[trigger] batches.entries()[i]).1.wf(),
{
    let mut batches: OrdMap<u32, BatchMeta> = OrdMap::new();
    let ghost all = shreds@;
    proof {
        let none = views(all).take(0);
        assert forall|fec: u32| of_batch(none, fec).len() == 0 by {
            reveal(Seq::filter);
        }
    }
    for shred in iter: shreds
        invariant
            iter.seq() == all,
            batches.wf(),
            is_grouped(views(all).take(iter.index() as int), batches@),
    {
        let ghost k = iter.index() as int;
        let ghost seen = views(all).take(k);
        let ghost seen2 = views(all).take(k + 1);
        let fec: u32 = shred.fec_set_index;
        let ghost v = shred@;
        let ghost before = batches@;
        proof {
            assert(seen2 =~= seen.push(v));
            assert(seen2.drop_last() =~= seen);
            assert forall|f: u32| #[trigger] of_batch(seen2, f) == (if f == fec {
                of_batch(seen, f).push(v)
            } else {
                of_batch(seen, f)
            }) by {
                reveal(Seq::filter);
            }
        }
        let mut batch = match batches.remove(&fec) {
            Some(batch) => batch,
            None => {
                let none: Vec<ParsedShred> = Vec::new();
                proof {
                    assert(views(none@) =~= Seq::<ShredView>::empty());
                    assert(of_batch(seen, fec) =~= Seq::<ShredView>::empty());
                }
                BatchMeta { shreds: none, data_cnt: 0 }
            },
        };
        let ghost had = views(batch.shreds@);
        assert(had == of_batch(seen, fec));
        proof {
            lemma_count_bound(had);
        }
        let is_data = shred.is_data;
        batch.shreds.push(shred);
        let len: usize = batch.shreds.len();
        if is_data {
            assert(batch.data_cnt < len);
            batch.data_cnt += 1;
        }
        proof {
            assert(views(batch.shreds@) =~= had.push(v));
            assert(had.push(v).drop_last() =~= had);
        }
        batches.insert(fec, batch);
        proof {
            assert(batches@ =~= before.insert(fec, batch));
        }
    }
    assert(views(all).take(all.len() as int) =~= views(all));
    assert forall|i: int| 0 <= i < batches.entries().len() implies (
    #[trigger] batches.entries()[i]).1.wf() by {
        batches.lemma_entry(i);
    }
    batches
}

proof fn lemma_count_bound(shreds: Seq<ShredView>)
    ensures
        count_data(shreds) <= shreds.len(),
    decreases shreds.len(),
{
    if shreds.len() > 0 {
        lemma_count_bound(shreds.drop_last());
    }
}

/// A batch with its missing shreds recovered, where that was needed.
#[derive(Debug)]
pub struct RecoveredBatch {
    pub recovered: Vec<ParsedShred>,
    pub shreds: Vec<ParsedShred>,
}

impl RecoveredBatch {
    /// The batch's shreds, the recovered ones first.
    pub open spec fn all(&self) -> Seq<ShredView> {
        views(self.recovered@) + views(self.shreds@)
    }
}

/// Data shreds by index. Of two with one index, the later stays.
pub open spec fn placed(group: Map<u32, ShredView>, shreds: Seq<ShredView>) -> Map<u32, ShredView>
    decreases shreds.len(),
{
    if shreds.len() == 0 {
        group
    } else {
        let before = placed(group, shreds.drop_last());
        let s = shreds.last();
        if s.is_data {
            before.insert(s.index, s)
        } else {
            before
        }
    }
}

/// The shred with the highest index says that the data is complete.
pub open spec fn closed_group(group: Map<u32, ShredView>) -> bool {
    exists|k: u32| #[trigger]
        group.dom().contains(k) && group[k].data_complete && forall|j: u32| #[trigger]
            group.dom().contains(j) ==> j <= k
}

/// The groups after one more batch: its data joins the open group, which is
/// the last, and a new one is opened when that is complete.
pub open spec fn joined(
    groups: Seq<Map<u32, ShredView>>,
    batch: Seq<ShredView>,
) -> Seq<Map<u32, ShredView>> {
    let last = placed(groups.last(), batch);
    let filled = groups.drop_last().push(last);
    if closed_group(last) {
        filled.push(Map::empty())
    } else {
        filled
    }
}

/// All groups, the open one last.
pub open spec fn all_groups(batches: Seq<Seq<ShredView>>) -> Seq<Map<u32, ShredView>>
    decreases batches.len(),
{
    if batches.len() == 0 {
        seq![Map::empty()]
    } else {
        joined(all_groups(batches.drop_last()), batches.last())
    }
}

/// What each batch holds.
pub open spec fn wholes(batches: Seq<RecoveredBatch>) -> Seq<Seq<ShredView>> {
    Seq::new(batches.len(), |i: int| batches[i].all())
}

/// A batch's shreds. Where too few of them are data, what was recovered comes
/// first.
pub open spec fn with_recovered(
    fec: u32,
    batch: BatchMeta,
    recovered: Map<u32, Vec<ParsedShred>>,
) -> Seq<ShredView> {
    let shreds = views(batch.shreds@);
    if count_data(shreds) < DATA_SHREDS_PER_FEC_SET && recovered.dom().contains(fec) {
        views(recovered[fec]@) + shreds
    } else {
        shreds
    }
}

pub open spec fn group_view(group: OrdMap<u32, ParsedShred>) -> Map<u32, ShredView> {
    group@.map_values(|s: ParsedShred| s@)
}

pub open spec fn group_views(groups: Seq<OrdMap<u32, ParsedShred>>) -> Seq<Map<u32, ShredView>> {
    Seq::new(groups.len(), |i: int| group_view(groups[i]))
}

fn place(group: &mut OrdMap<u32, ParsedShred>, shreds: Vec<ParsedShred>)
    requires
        old(group).wf(),
    ensures
        final(group).wf(),
        group_view(*final(group)) == placed(group_view(*old(group)), views(shreds@)),
{
    let ghost start = group_view(*group);
    let ghost all = shreds@;
    for shred in iter: shreds
        invariant
            iter.seq() == all,
            group.wf(),
            group_view(*group) == placed(start, views(all).take(iter.index() as int)),
    {
        let ghost k = iter.index() as int;
        let ghost before = group_view(*group);
        proof {
            assert(views(all).take(k + 1).drop_last() =~= views(all).take(k));
            assert(views(all).take(k + 1).last() == shred@);
        }
        if shred.is_data {
            let ghost v = shred@;
            group.insert(shred.index, shred);
            assert(group_view(*group) =~= before.insert(v.index, v));
        }
    }
    assert(views(all).take(all.len() as int) =~= views(all));
}

proof fn lemma_placed_concat(group: Map<u32, ShredView>, a: Seq<ShredView>, b: Seq<ShredView>)
    ensures
        placed(placed(group, a), b) == placed(group, a + b),
    decreases b.len(),
{
    if b.len() == 0 {
        assert(a + b =~= a);
    } else {
        lemma_placed_concat(group, a, b.drop_last());
        assert((a + b).drop_last() =~= a + b.drop_last());
    }
}

/// Whether the highest shred of a group says that the data is complete.
fn is_closed(group: &OrdMap<u32, ParsedShred>) -> (r: bool)
    requires
        group.wf(),
    ensures
        r == closed_group(group_view(*group)),
{
    let n: usize = group.len();
    let ghost v = group_view(*group);
    if n == 0 {
        proof {
            assert forall|k: u32| !#[trigger] v.dom().contains(k) by {
                if group.has(k) {
                    assert(0 <= group.index_of(k) < 0);
                }
            }
        }
        return false;
    }
    let (key, shred) = group.at(n - 1);
    proof {
        assert(v.dom().contains(*key));
        assert forall|j: u32| #[trigger] v.dom().contains(j) implies j <= *key by {
            let i = group.index_of(j);
            assert(group.has(j));
            if i < n - 1 {
                assert(group.entries()[i].0.rank() < group.entries()[n - 1].0.rank());
            }
        }
        assert(v[*key].data_complete == shred.data_complete);
        if closed_group(v) {
            let k = choose|k: u32| #[trigger]
                v.dom().contains(k) && v[k].data_complete && forall|j: u32| #[trigger]
                    v.dom().contains(j) ==> j <= k;
            assert(k == *key);
        }
    }
    shred.data_complete
}

/// Sorts the data of a slot's batches, in order of the batches, into groups
/// that entries can be read from. What comes after the last complete group is
/// left out.
pub fn group_by_completion(batches: Vec<RecoveredBatch>) -> (groups: Vec<
    OrdMap<u32, ParsedShred>,
>)
    ensures
        forall|i: int| 0 <= i < groups@.len() ==> (#[trigger] groups@[i]).wf(),
        group_views(groups@) == all_groups(wholes(batches@)).drop_last(),
{
    let ghost all = batches@;
    let mut groups: Vec<OrdMap<u32, ParsedShred>> = Vec::new();
    let mut open: OrdMap<u32, ParsedShred> = OrdMap::new();
    proof {
        assert(group_view(open) =~= Map::<u32, ShredView>::empty());
        assert(group_views(groups@).push(group_view(open)) =~= all_groups(wholes(all).take(0)));
    }
    for batch in iter: batches
        invariant
            iter.seq() == all,
            open.wf(),
            forall|i: int| 0 <= i < groups@.len() ==> (#[trigger] groups@[i]).wf(),
            group_views(groups@).push(group_view(open)) == all_groups(
                wholes(all).take(iter.index() as int),
            ),
    {
        let ghost k = iter.index() as int;
        let ghost before = all_groups(wholes(all).take(k));
        let ghost had = group_view(open);
        let ghost done = group_views(groups@);
        let ghost whole = batch.all();
        proof {
            assert(wholes(all).take(k + 1).drop_last() =~= wholes(all).take(k));
            assert(wholes(all).take(k + 1).last() == whole);
            lemma_placed_concat(had, views(batch.recovered@), views(batch.shreds@));
        }
        place(&mut open, batch.recovered);
        place(&mut open, batch.shreds);
        assert(before.last() == had);
        assert(before.drop_last() =~= done);
        let ghost filled = group_view(open);
        if is_closed(&open) {
            let mut full: OrdMap<u32, ParsedShred> = OrdMap::new();
            std::mem::swap(&mut full, &mut open);
            groups.push(full);
            proof {
                assert(group_view(open) =~= Map::<u32, ShredView>::empty());
                assert(group_views(groups@) =~= done.push(filled));
            }
        }
        assert(group_views(groups@).push(group_view(open)) =~= joined(before, whole));
    }
    proof {
        assert(wholes(all).take(all.len() as int) =~= wholes(all));
        assert(group_views(groups@).push(group_view(open)).drop_last() =~= group_views(groups@));
    }
    groups
}

/// Sorts the data of a slot into groups that entries can be read from: what was
/// recovered joins the batches that need it, and the batches follow in order.
pub fn recover_shreds_and_group_by_completion(
    batches: OrdMap<u32, BatchMeta>,
    recovered: OrdMap<u32, Vec<ParsedShred>>,
) -> (groups: Vec<OrdMap<u32, ParsedShred>>)
    requires
        batches.wf(),
        recovered.wf(),
        forall|i: int|
            0 <= i < batches.entries().len() ==> (#[trigger] batches.entries()[i]).1.wf(),
    ensures
        forall|i: int| 0 <= i < groups@.len() ==> (#[trigger] groups@[i]).wf(),
        group_views(groups@) == all_groups(
            recovered_batches(batches.entries(), recovered@),
        ).drop_last(),
{
    let ghost entries = batches.entries();
    let ghost found = recovered@;
    let mut recovered = recovered;
    let mut list: Vec<RecoveredBatch> = Vec::new();
    for entry in iter: batches.into_entries()
        invariant
            iter.seq() == entries,
            batches.wf(),
            entries == batches.entries(),
            forall|i: int| 0 <= i < entries.len() ==> (#[trigger] entries[i]).1.wf(),
            recovered.wf(),
            forall|i: int|
                iter.index() <= i < entries.len() ==> recovered@.dom().contains(
                    (#[trigger] entries[i]).0,
                ) == found.dom().contains(entries[i].0) && (found.dom().contains(entries[i].0)
                    ==> recovered@[entries[i].0] == found[entries[i].0]),
            wholes(list@) == Seq::new(
                iter.index() as nat,
                |i: int| with_recovered(entries[i].0, entries[i].1, found),
            ),
    {
        let ghost k = iter.index() as int;
        let ghost had = wholes(list@);
        assert(entry == entries[k]);
        let (fec, batch) = entry;
        let came: Option<Vec<ParsedShred>> = if batch.needs_recovery() {
            recovered.remove(&fec)
        } else {
            None
        };
        let missing: Vec<ParsedShred> = match came {
            Some(missing) => missing,
            None => Vec::new(),
        };
        list.push(RecoveredBatch { recovered: missing, shreds: batch.shreds });
        proof {
            assert forall|i: int| k < i < entries.len() implies (#[trigger] entries[i]).0 != fec by {
                assert(batches.entries()[k].0.rank() < batches.entries()[i].0.rank());
            }
            assert(list@.last().all() =~= with_recovered(fec, batch, found));
            assert(wholes(list@) =~= had.push(with_recovered(fec, batch, found)));
        }
    }
    assert(wholes(list@) =~= recovered_batches(entries, found));
    group_by_completion(list)
}

/// The parent once a group has been seen: the one that was told before, unless
/// that is zero, and what the group's first shred tells otherwise. There is none
/// if that tells nothing.
pub open spec fn parent_with(told: u64, group: OrdMap<u32, ParsedShred>) -> Option<u64> {
    if told != 0 {
        Some(told)
    } else if group.entries().len() > 0 {
        group.entries()[0].1.parent
    } else {
        None
    }
}

/// Sees whether a group tells the parent, where none but `told` has been told.
pub fn parent_from(told: u64, group: &OrdMap<u32, ParsedShred>) -> (r: Option<u64>)
    requires
        group.wf(),
    ensures
        r == parent_with(told, *group),
{
    if told != 0 {
        Some(told)
    } else if group.len() > 0 {
        let (_, first) = group.at(0);
        first.parent
    } else {
        None
    }
}

/// The slot that the groups build on: the first that is not zero of what the
/// first shred of each group tells. There is none if one of those tells
/// nothing.
pub open spec fn parent_told(groups: Seq<OrdMap<u32, ParsedShred>>) -> Option<u64>
    decreases groups.len(),
{
    if groups.len() == 0 {
        Some(0)
    } else {
        match parent_told(groups.drop_last()) {
            Some(told) => parent_with(told, groups.last()),
            None => None,
        }
    }
}

pub fn parent_slot(groups: &Vec<OrdMap<u32, ParsedShred>>) -> (slot: Option<u64>)
    requires
        forall|i: int| 0 <= i < groups@.len() ==> (#[trigger] groups@[i]).wf(),
    ensures
        slot == parent_told(groups@),
{
    let mut slot: Option<u64> = Some(0);
    let mut i: usize = 0;
    while i < groups.len()
        invariant
            i <= groups@.len(),
            forall|k: int| 0 <= k < groups@.len() ==> (#[trigger] groups@[k]).wf(),
            slot == parent_told(groups@.take(i as int)),
        decreases groups@.len() - i,
    {
        proof {
            let next = groups@.take(i + 1);
            assert(next.drop_last() =~= groups@.take(i as int));
            assert(next.last() == groups@[i as int]);
        }
        assert(groups@[i as int].wf());
        slot = match slot {
            Some(told) => parent_from(told, &groups[i]),
            None => None,
        };
        i += 1;
    }
    assert(groups@.take(i as int) =~= groups@);
    slot
}

/// A batch that is whole needs no recovery, and its count never lies.
pub proof fn law_full_batch_needs_no_recovery(batch: BatchMeta)
    requires
        batch.wf(),
        forall|i: int| 0 <= i < batch.shreds@.len() ==> (#[trigger] batch.shreds@[i]).is_data,
        batch.shreds@.len() >= DATA_SHREDS_PER_FEC_SET,
    ensures
        count_data(views(batch.shreds@)) >= DATA_SHREDS_PER_FEC_SET,
{
    lemma_count_all(views(batch.shreds@));
}

proof fn lemma_count_all(shreds: Seq<ShredView>)
    requires
        forall|i: int| 0 <= i < shreds.len() ==> (#[trigger] shreds[i]).is_data,
    ensures
        count_data(shreds) == shreds.len(),
    decreases shreds.len(),
{
    if shreds.len() > 0 {
        assert forall|i: int| 0 <= i < shreds.drop_last().len() implies (
        #[trigger] shreds.drop_last()[i]).is_data by {
            assert(shreds[i].is_data);
        }
        lemma_count_all(shreds.drop_last());
        assert(shreds[shreds.len() - 1].is_data);
    }
}

/// Every group that is handed out is complete.
pub proof fn law_groups_are_complete(batches: Seq<Seq<ShredView>>, i: int)
    requires
        0 <= i < all_groups(batches).len() - 1,
    ensures
        closed_group(all_groups(batches)[i]),
    decreases batches.len(),
{
    if batches.len() > 0 {
        let before = all_groups(batches.drop_last());
        let after = all_groups(batches);
        lemma_groups_nonempty(batches.drop_last());
        if i < before.len() - 1 {
            assert(after[i] == before[i]);
            law_groups_are_complete(batches.drop_last(), i);
        }
    }
}

proof fn lemma_groups_nonempty(batches: Seq<Seq<ShredView>>)
    ensures
        all_groups(batches).len() > 0,
    decreases batches.len(),
{
    if batches.len() > 0 {
        lemma_groups_nonempty(batches.drop_last());
    }
}

/// A data shred of this index is among `shreds`.
pub open spec fn has_data(shreds: Seq<ShredView>, index: u32) -> bool {
    exists|i: int|
        0 <= i < shreds.len() && (#[trigger] shreds[i]).is_data && shreds[i].index == index
}

proof fn lemma_has_data_last(shreds: Seq<ShredView>, index: u32)
    requires
        shreds.len() > 0,
    ensures
        has_data(shreds, index) == (has_data(shreds.drop_last(), index) || (shreds.last().is_data
            && shreds.last().index == index)),
{
    let rest = shreds.drop_last();
    let n = shreds.len() - 1;
    assert(shreds[n] == shreds.last());
    if has_data(rest, index) {
        let i = choose|i: int|
            0 <= i < rest.len() && (#[trigger] rest[i]).is_data && rest[i].index == index;
        assert(shreds[i].is_data);
    }
    if has_data(shreds, index) {
        let i = choose|i: int|
            0 <= i < shreds.len() && (#[trigger] shreds[i]).is_data && shreds[i].index == index;
        if i < n {
            assert(rest[i].is_data);
        }
    }
}

proof fn lemma_has_data_joined(a: Seq<ShredView>, b: Seq<ShredView>, index: u32)
    ensures
        has_data(a + b, index) == (has_data(a, index) || has_data(b, index)),
    decreases b.len(),
{
    if b.len() == 0 {
        assert(a + b =~= a);
    } else {
        lemma_has_data_joined(a, b.drop_last(), index);
        assert((a + b).drop_last() =~= a + b.drop_last());
        lemma_has_data_last(a + b, index);
        lemma_has_data_last(b, index);
    }
}

proof fn lemma_placed_dom(group: Map<u32, ShredView>, shreds: Seq<ShredView>, index: u32)
    ensures
        placed(group, shreds).dom().contains(index) == (group.dom().contains(index) || has_data(
            shreds,
            index,
        )),
        placed(group, shreds).dom().contains(index) && !has_data(shreds, index) ==> placed(
            group,
            shreds,
        )[index] == group[index],
        has_data(shreds, index) ==> exists|i: int|
            0 <= i < shreds.len() && (#[trigger] shreds[i]).is_data && shreds[i].index == index
                && placed(group, shreds)[index] == shreds[i] && forall|j: int|
                i < j < shreds.len() && (#[trigger] shreds[j]).is_data ==> shreds[j].index
                    != index,
    decreases shreds.len(),
{
    if shreds.len() > 0 {
        let rest = shreds.drop_last();
        let n = shreds.len() - 1;
        lemma_placed_dom(group, rest, index);
        lemma_has_data_last(shreds, index);
        assert(shreds[n] == shreds.last());
        if has_data(shreds, index) && !(shreds[n].is_data && shreds[n].index == index) {
            let i = choose|i: int|
                0 <= i < rest.len() && (#[trigger] rest[i]).is_data && rest[i].index == index
                    && placed(group, rest)[index] == rest[i] && forall|j: int|
                    i < j < rest.len() && (#[trigger] rest[j]).is_data ==> rest[j].index != index;
            assert(shreds[i] == rest[i]);
            assert forall|j: int| i < j < shreds.len() && (
            #[trigger] shreds[j]).is_data implies shreds[j].index != index by {
                if j < n {
                    assert(rest[j] == shreds[j]);
                }
            }
        }
    }
}

/// The index lies in one of the groups.
pub open spec fn in_groups(groups: Seq<Map<u32, ShredView>>, index: u32) -> bool {
    exists|g: int| 0 <= g < groups.len() && (#[trigger] groups[g]).dom().contains(index)
}

/// A data shred of this index is in one of the batches.
pub open spec fn in_batches(batches: Seq<Seq<ShredView>>, index: u32) -> bool {
    exists|b: int| 0 <= b < batches.len() && has_data(#[trigger] batches[b], index)
}

/// One batch more leaves the groups before the open one as they are, and brings
/// the open one exactly its data: what has the index of a shred that is there
/// takes its place. The group is closed, and another opened, exactly if its
/// highest shred then says that the data is complete.
pub proof fn law_batch_joins_the_open_group(
    batches: Seq<Seq<ShredView>>,
    batch: Seq<ShredView>,
    index: u32,
)
    ensures
        ({
            let before = all_groups(batches);
            let after = all_groups(batches.push(batch));
            let open = before.last();
            let grown = after[before.len() - 1];
            let done = exists|top: u32| #[trigger]
                grown.dom().contains(top) && grown[top].data_complete && forall|j: u32| #[trigger]
                    grown.dom().contains(j) ==> j <= top;
            &&& before.len() > 0
            &&& after.len() == before.len() + (if done {
                1int
            } else {
                0int
            })
            &&& forall|g: int| 0 <= g < before.len() - 1 ==> after[g] == #[trigger] before[g]
            &&& grown.dom().contains(index) <==> open.dom().contains(index) || has_data(
                batch,
                index,
            )
            &&& open.dom().contains(index) && !has_data(batch, index) ==> grown[index]
                == open[index]
            &&& has_data(batch, index) ==> exists|i: int|
                0 <= i < batch.len() && (#[trigger] batch[i]).is_data && batch[i].index == index
                    && grown[index] == batch[i] && forall|j: int|
                    i < j < batch.len() && (#[trigger] batch[j]).is_data ==> batch[j].index
                        != index
            &&& done ==> after.last() == Map::<u32, ShredView>::empty()
        }),
{
    let all = batches.push(batch);
    assert(all.drop_last() =~= batches);
    lemma_groups_nonempty(batches);
    lemma_placed_dom(all_groups(batches).last(), batch, index);
}

/// Nothing is lost and nothing made up: the groups together, with the open one,
/// have the data of the batches, and no other.
pub proof fn law_groups_hold_the_data(batches: Seq<Seq<ShredView>>, index: u32)
    ensures
        in_groups(all_groups(batches), index) <==> in_batches(batches, index),
    decreases batches.len(),
{
    if batches.len() == 0 {
        assert(!all_groups(batches)[0].dom().contains(index));
    } else {
        let rest = batches.drop_last();
        let batch = batches.last();
        let n = batches.len() - 1;
        assert(rest.push(batch) =~= batches);
        law_groups_hold_the_data(rest, index);
        law_batch_joins_the_open_group(rest, batch, index);
        let before = all_groups(rest);
        let after = all_groups(batches);
        let at = before.len() - 1;
        if in_groups(after, index) {
            let g = choose|g: int|
                0 <= g < after.len() && (#[trigger] after[g]).dom().contains(index);
            if g < at {
                assert(before[g].dom().contains(index));
            } else if g == at {
                if before[at].dom().contains(index) {
                } else {
                    assert(has_data(batches[n], index));
                }
            }
            if in_groups(before, index) {
                let b = choose|b: int| 0 <= b < rest.len() && has_data(#[trigger] rest[b], index);
                assert(has_data(batches[b], index));
            }
        }
        if in_batches(batches, index) {
            let b = choose|b: int|
                0 <= b < batches.len() && has_data(#[trigger] batches[b], index);
            if b < n {
                assert(has_data(rest[b], index));
                let g = choose|g: int|
                    0 <= g < before.len() && (#[trigger] before[g]).dom().contains(index);
                assert(after[g].dom().contains(index));
            } else {
                assert(after[at].dom().contains(index));
            }
        }
    }
}

proof fn lemma_count_is_of_data(shreds: Seq<ShredView>)
    ensures
        count_data(shreds) == shreds.filter(|s: ShredView| s.is_data).len(),
    decreases shreds.len(),
{
    reveal(Seq::filter);
    if shreds.len() > 0 {
        lemma_count_is_of_data(shreds.drop_last());
    }
}

/// The batches of a slot with what was recovered for them, in their order.
pub open spec fn recovered_batches(
    entries: Seq<(u32, BatchMeta)>,
    recovered: Map<u32, Vec<ParsedShred>>,
) -> Seq<Seq<ShredView>> {
    Seq::new(entries.len(), |i: int| with_recovered(entries[i].0, entries[i].1, recovered))
}

/// A data shred of this index came in the batch, or was recovered for it, which
/// counts where fewer than 32 data shreds came.
pub open spec fn came_or_recovered(
    fec: u32,
    batch: BatchMeta,
    recovered: Map<u32, Vec<ParsedShred>>,
    index: u32,
) -> bool {
    let came = views(batch.shreds@);
    has_data(came, index) || (came.filter(|s: ShredView| s.is_data).len() < 32
        && recovered.dom().contains(fec) && has_data(views(recovered[fec]@), index))
}

/// The groups of a slot, with the open one, hold exactly the data that came and
/// the data that was recovered for batches of which fewer than 32 data shreds
/// came.
pub proof fn law_recovered_data_is_used(
    entries: Seq<(u32, BatchMeta)>,
    recovered: Map<u32, Vec<ParsedShred>>,
    index: u32,
)
    ensures
        in_groups(all_groups(recovered_batches(entries, recovered)), index) <==> exists|i: int|
            0 <= i < entries.len() && came_or_recovered(
                (#[trigger] entries[i]).0,
                entries[i].1,
                recovered,
                index,
            ),
{
    let batches = recovered_batches(entries, recovered);
    law_groups_hold_the_data(batches, index);
    assert forall|i: int| 0 <= i < entries.len() implies has_data(#[trigger] batches[i], index)
        == came_or_recovered(entries[i].0, entries[i].1, recovered, index) by {
        let (fec, batch) = entries[i];
        let came = views(batch.shreds@);
        lemma_count_is_of_data(came);
        lemma_has_data_joined(views(recovered[fec]@), came, index);
    }
    if in_batches(batches, index) {
        let b = choose|b: int| 0 <= b < batches.len() && has_data(#[trigger] batches[b], index);
        assert(came_or_recovered(entries[b].0, entries[b].1, recovered, index));
    }
    if exists|i: int|
        0 <= i < entries.len() && came_or_recovered(
            (#[trigger] entries[i]).0,
            entries[i].1,
            recovered,
            index,
        ) {
        let i = choose|i: int|
            0 <= i < entries.len() && came_or_recovered(
                (#[trigger] entries[i]).0,
                entries[i].1,
                recovered,
                index,
            );
        assert(has_data(batches[i], index));
    }
}

/// Of a shred that came and was recovered too, the one that came is used.
pub proof fn law_what_came_is_preferred(
    fec: u32,
    batch: BatchMeta,
    recovered: Map<u32, Vec<ParsedShred>>,
    group: Map<u32, ShredView>,
    index: u32,
)
    requires
        has_data(views(batch.shreds@), index),
    ensures
        exists|i: int|
            0 <= i < batch.shreds@.len() && (#[trigger] batch.shreds@[i]).is_data
                && batch.shreds@[i].index == index && placed(
                group,
                with_recovered(fec, batch, recovered),
            )[index] == batch.shreds@[i]@,
{
    let came = views(batch.shreds@);
    let whole = with_recovered(fec, batch, recovered);
    if count_data(came) < DATA_SHREDS_PER_FEC_SET && recovered.dom().contains(fec) {
        let first = views(recovered[fec]@);
        lemma_placed_concat(group, first, came);
        lemma_placed_dom(placed(group, first), came, index);
        let i = choose|i: int|
            0 <= i < came.len() && (#[trigger] came[i]).is_data && came[i].index == index
                && placed(placed(group, first), came)[index] == came[i] && forall|j: int|
                i < j < came.len() && (#[trigger] came[j]).is_data ==> came[j].index != index;
        assert(batch.shreds@[i].is_data);
    } else {
        lemma_placed_dom(group, came, index);
        let i = choose|i: int|
            0 <= i < came.len() && (#[trigger] came[i]).is_data && came[i].index == index
                && placed(group, came)[index] == came[i] && forall|j: int|
                i < j < came.len() && (#[trigger] came[j]).is_data ==> came[j].index != index;
        assert(batch.shreds@[i].is_data);
    }
}

/// Every shred of a slot is in the batch that it names, and a batch has no
/// others. Its count is that of its data shreds.
pub proof fn law_shreds_are_in_their_batches(
    shreds: Seq<ShredView>,
    batches: Map<u32, BatchMeta>,
    shred: ShredView,
    fec: u32,
)
    requires
        is_grouped(shreds, batches),
    ensures
        batches.dom().contains(fec) && views(batches[fec].shreds@).contains(shred) <==> (
        shreds.contains(shred) && shred.fec_set_index == fec),
        batches.dom().contains(fec) ==> batches[fec].data_cnt == views(
            batches[fec].shreds@,
        ).filter(|s: ShredView| s.is_data).len(),
        batches.dom().contains(fec) ==> batches[fec].shreds@.len() > 0,
{
    lemma_filter_contains(shreds, fec, shred);
    if batches.dom().contains(fec) {
        lemma_count_is_of_data(views(batches[fec].shreds@));
        assert(views(batches[fec].shreds@).len() == batches[fec].shreds@.len());
    } else {
        assert(of_batch(shreds, fec).len() == 0);
    }
}

proof fn lemma_filter_contains(shreds: Seq<ShredView>, fec: u32, shred: ShredView)
    ensures
        of_batch(shreds, fec).contains(shred) == (shreds.contains(shred) && shred.fec_set_index
            == fec),
    decreases shreds.len(),
{
    reveal(Seq::filter);
    if shreds.len() > 0 {
        let rest = shreds.drop_last();
        let last = shreds[shreds.len() - 1];
        lemma_filter_contains(rest, fec, shred);
        let had = of_batch(rest, fec);
        let now = of_batch(shreds, fec);
        if shreds.contains(shred) && shred != last {
            let i = shreds.index_of(shred);
            assert(rest[i] == shred);
        }
        if rest.contains(shred) {
            let i = rest.index_of(shred);
            assert(shreds[i] == shred);
        }
        if last.fec_set_index == fec {
            assert(now == had.push(last));
            assert(now[had.len() as int] == last);
            if had.contains(shred) {
                let i = had.index_of(shred);
                assert(now[i] == shred);
            }
            if now.contains(shred) && shred != last {
                let i = now.index_of(shred);
                assert(had[i] == shred);
            }
        }
    }
}

/// The parent is what the first group tells that does not tell zero, all before
/// it telling zero; and zero where all do.
pub proof fn law_parent_is_the_first_told(groups: Seq<OrdMap<u32, ParsedShred>>)
    ensures
        parent_told(groups) matches Some(slot) ==> {
            &&& slot == 0 ==> forall|i: int|
                0 <= i < groups.len() ==> tells(#[trigger] groups[i], 0)
            &&& slot != 0 ==> exists|i: int|
                0 <= i < groups.len() && tells(#[trigger] groups[i], slot) && forall|j: int|
                    0 <= j < i ==> tells(#[trigger] groups[j], 0)
        },
        parent_told(groups) is None ==> exists|i: int|
            0 <= i < groups.len() && !(#[trigger] groups[i].entries().len() > 0
                && groups[i].entries()[0].1.parent is Some),
    decreases groups.len(),
{
    if groups.len() > 0 {
        let rest = groups.drop_last();
        let n = groups.len() - 1;
        law_parent_is_the_first_told(rest);
        assert(groups[n] == groups.last());
        match parent_told(rest) {
            Some(told) => {
                if told != 0 {
                    let i = choose|i: int|
                        0 <= i < rest.len() && tells(#[trigger] rest[i], told) && forall|j: int|
                            0 <= j < i ==> tells(#[trigger] rest[j], 0);
                    assert(tells(groups[i], told));
                    assert forall|j: int| 0 <= j < i implies tells(#[trigger] groups[j], 0) by {
                        assert(tells(rest[j], 0));
                    }
                } else {
                    assert forall|j: int| 0 <= j < n implies tells(#[trigger] groups[j], 0) by {
                        assert(tells(rest[j], 0));
                    }
                    match parent_told(groups) {
                        Some(slot) => {
                            assert(tells(groups[n], slot));
                        },
                        None => {
                            assert(!(groups[n].entries().len() > 0
                                && groups[n].entries()[0].1.parent is Some));
                        },
                    }
                }
            },
            None => {
                let i = choose|i: int|
                    0 <= i < rest.len() && !(#[trigger] rest[i].entries().len() > 0
                        && rest[i].entries()[0].1.parent is Some);
                assert(groups[i] == rest[i]);
                assert(!(groups[i].entries().len() > 0 && groups[i].entries()[0].1.parent is Some));
            },
        }
    }
}

/// The first shred of the group tells `slot` as its parent.
pub open spec fn tells(group: OrdMap<u32, ParsedShred>, slot: u64) -> bool {
    group.entries().len() > 0 && group.entries()[0].1.parent == Some(slot)
}

} // verus!
