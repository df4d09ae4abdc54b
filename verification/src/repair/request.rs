//! Repair requests.

use vstd::prelude::*;
use crate::codec::{le_bytes, lemma_byte_spans, lemma_le_roundtrip};
use crate::layout::{
    field, get_index, get_last_in_slot, get_slot, last_of, law_header_is_read_back,
    OFFSET_OF_INDEX, OFFSET_OF_SLOT,
};
use crate::pubkey::Pubkey;
use crate::repair::outstanding_timers::{
    key_for, keys_of, waits_for, Outstanding, OutstandingRequest, OutstandingTimerStore, RepairKey,
};
use crate::repair::peer_manager::{
    mapped, peer_of, MappedRequest, RepairPeerSource, RepairRequestMapper, RepairRoute,
    RepairTarget, WireRequest,
};
use crate::repair::{nonce_of, repair_nonce, OutstandingRequestKind};
use crate::types::ShredHeader;

verus! {

#[derive(Debug)]
pub enum RepairReq {
    /// The slot's end is known, and these shreds are missing.
    MissingBoundedShreds { slot: u64, shreds: Vec<u32> },
    /// The slot's end is not known; these shreds are missing so far.
    MissingUnboundedShreds { slot: u64, shreds: Vec<u32>, max_inclusive_shred: u32 },
    /// The slot needs no more repair.
    CancelRepair { slot: u64 },
}

/// A repair request as the contracts speak of it.
pub enum RepairReqView {
    Bounded { slot: u64, shreds: Seq<u32> },
    Unbounded { slot: u64, shreds: Seq<u32>, max_inclusive_shred: u32 },
    Cancel { slot: u64 },
}

impl RepairReq {
    pub open spec fn view(&self) -> RepairReqView {
        match self {
            RepairReq::MissingBoundedShreds { slot, shreds } => RepairReqView::Bounded {
                slot: *slot,
                shreds: shreds@,
            },
            RepairReq::MissingUnboundedShreds { slot, shreds, max_inclusive_shred } => {
                RepairReqView::Unbounded {
                    slot: *slot,
                    shreds: shreds@,
                    max_inclusive_shred: *max_inclusive_shred,
                }
            },
            RepairReq::CancelRepair { slot } => RepairReqView::Cancel { slot: *slot },
        }
    }
}

/// Requests to send, and what to keep of each until it is answered.
#[derive(Debug)]
pub struct Asked {
    pub requests: Vec<MappedRequest>,
    pub outstanding: Vec<OutstandingRequest>,
}

/// What is kept of a request.
pub open spec fn kept_of(
    kind: OutstandingRequestKind,
    slot: u64,
    shred: u32,
    request: MappedRequest,
    now_ms: u64,
) -> OutstandingRequest {
    OutstandingRequest {
        kind,
        nonce: request.nonce,
        slot,
        shred,
        target: request.target,
        sent_at: now_ms,
    }
}

/// The requests for `shreds`, one after the other, when the peers and nonces
/// picked for them are `picks`. A shred for which no peer was found is passed
/// over.
pub open spec fn requests_for(
    sender: Pubkey,
    now_ms: u64,
    slot: u64,
    shreds: Seq<u32>,
    picks: Seq<Option<(RepairTarget, u32)>>,
) -> (Seq<MappedRequest>, Seq<OutstandingRequest>)
    decreases shreds.len(),
{
    if shreds.len() == 0 {
        (Seq::empty(), Seq::empty())
    } else {
        let (requests, outstanding) = requests_for(
            sender,
            now_ms,
            slot,
            shreds.drop_last(),
            picks.drop_last(),
        );
        match picks.last() {
            None => (requests, outstanding),
            Some((target, nonce)) => {
                let request = mapped(sender, target, nonce, now_ms, slot, shreds.last(), false);
                (
                    requests.push(request),
                    outstanding.push(
                        kept_of(
                            OutstandingRequestKind::WindowIndex,
                            slot,
                            shreds.last(),
                            request,
                            now_ms,
                        ),
                    ),
                )
            },
        }
    }
}

/// The peers of `picks`.
pub open spec fn peers_of(picks: Seq<Option<(RepairTarget, u32)>>) -> Seq<Option<RepairTarget>> {
    Seq::new(
        picks.len(),
        |i: int|
            match picks[i] {
                Some((target, _)) => Some(target),
                None => None,
            },
    )
}

/// A source goes through `states` as it is asked about `slot` over and over and
/// gives `found`.
pub open spec fn samples_through<S: RepairPeerSource>(
    states: Seq<S>,
    slot: u64,
    found: Seq<Option<RepairTarget>>,
) -> bool {
    &&& states.len() == found.len() + 1
    &&& forall|i: int|
        0 <= i < found.len() ==> states[i].samples(slot, #[trigger] found[i], &states[i + 1])
}

/// A source goes from `before` to `after` as it is asked about `slot` over and
/// over and gives `found`.
pub open spec fn samples_all<S: RepairPeerSource>(
    before: S,
    slot: u64,
    found: Seq<Option<RepairTarget>>,
    after: S,
) -> bool {
    exists|states: Seq<S>| #[trigger]
        samples_through(states, slot, found) && states[0] == before && states.last() == after
}

/// These are requests for `shreds`, under some nonces, to the peers that the
/// source gives as it goes from `before` to `after`.
pub open spec fn asks_for_each<S: RepairPeerSource>(
    before: S,
    after: S,
    sender: Pubkey,
    now_ms: u64,
    slot: u64,
    shreds: Seq<u32>,
    requests: Seq<MappedRequest>,
    outstanding: Seq<OutstandingRequest>,
) -> bool {
    exists|picks: Seq<Option<(RepairTarget, u32)>>|
        picks.len() == shreds.len() && (requests, outstanding) == #[trigger] requests_for(
            sender,
            now_ms,
            slot,
            shreds,
            picks,
        ) && samples_all(before, slot, peers_of(picks), after)
}

/// Asks for each of `shreds`.
pub fn process_missing_shreds<S: RepairPeerSource>(
    mapper: &mut RepairRequestMapper<S>,
    now_ms: u64,
    slot: u64,
    shreds: &Vec<u32>,
) -> (asked: Asked)
    ensures
        final(mapper).identity() == old(mapper).identity(),
        asks_for_each(
            old(mapper).source(),
            final(mapper).source(),
            old(mapper).identity(),
            now_ms,
            slot,
            shreds@,
            asked.requests@,
            asked.outstanding@,
        ),
{
    let ghost sender = mapper.identity();
    let ghost mut picks: Seq<Option<(RepairTarget, u32)>> = Seq::empty();
    let ghost mut states: Seq<S> = seq![mapper.source()];
    let mut requests: Vec<MappedRequest> = Vec::new();
    let mut outstanding: Vec<OutstandingRequest> = Vec::new();
    let mut i: usize = 0;
    while i < shreds.len()
        invariant
            i <= shreds@.len(),
            mapper.identity() == sender,
            picks.len() == i,
            samples_through(states, slot, peers_of(picks)),
            states[0] == old(mapper).source(),
            states.last() == mapper.source(),
            (requests@, outstanding@) == requests_for(
                sender,
                now_ms,
                slot,
                shreds@.take(i as int),
                picks,
            ),
        decreases shreds@.len() - i,
    {
        let shred: u32 = shreds[i];
        let ghost had = picks;
        match mapper.map_bounded_shred(now_ms, slot, shred) {
            None => {
                proof {
                    picks = picks.push(None);
                }
            },
            Some(request) => {
                proof {
                    picks = picks.push(Some((request.target, request.nonce)));
                }
                outstanding.push(
                    OutstandingRequest {
                        kind: OutstandingRequestKind::WindowIndex,
                        nonce: request.nonce,
                        slot,
                        shred,
                        target: request.target,
                        sent_at: now_ms,
                    },
                );
                requests.push(request);
            },
        }
        i += 1;
        proof {
            assert(shreds@.take(i as int).drop_last() =~= shreds@.take(i - 1));
            assert(picks.drop_last() =~= had);
            states = states.push(mapper.source());
            assert forall|j: int| 0 <= j < picks.len() implies states[j].samples(
                slot,
                #[trigger] peers_of(picks)[j],
                &states[j + 1],
            ) by {
                if j < had.len() {
                    assert(peers_of(picks)[j] == peers_of(had)[j]);
                }
            }
        }
    }
    assert(shreds@.take(i as int) =~= shreds@);
    assert(samples_all(old(mapper).source(), slot, peers_of(picks), mapper.source()));
    Asked { requests, outstanding }
}

/// What to do about a repair request.
#[derive(Debug)]
pub enum RequestAction {
    /// The slot is under repair, nothing is missing, or there is no peer.
    Ignore,
    /// Stop the timers of these requests.
    Cancelled(Vec<RepairKey>),
    /// Send these requests; the slot's repair has begun.
    Send { slot: u64, asked: Asked },
}

/// Decides what to do about a repair request: a slot that is under repair
/// already is passed over.
pub fn on_request<S: RepairPeerSource>(
    store: &mut OutstandingTimerStore,
    mapper: &mut RepairRequestMapper<S>,
    now_ms: u64,
    req: RepairReq,
) -> (action: RequestAction)
    requires
        old(store).wf(),
    ensures
        final(store).wf(),
        final(mapper).identity() == old(mapper).identity(),
        match req@ {
            RepairReqView::Bounded { slot, shreds } => {
                &&& final(store)@ == old(store)@
                &&& if waits_for(old(store)@, slot) || shreds.len() == 0 {
                    action is Ignore && final(mapper).source() == old(mapper).source()
                } else {
                    action matches RequestAction::Send { slot: sent, asked } && sent == slot
                        && asks_for_each(
                        old(mapper).source(),
                        final(mapper).source(),
                        old(mapper).identity(),
                        now_ms,
                        slot,
                        shreds,
                        asked.requests@,
                        asked.outstanding@,
                    )
                }
            },
            RepairReqView::Unbounded { slot, shreds, max_inclusive_shred } => {
                &&& final(store)@ == old(store)@
                &&& if waits_for(old(store)@, slot) {
                    action is Ignore && final(mapper).source() == old(mapper).source()
                } else {
                    match action {
                        RequestAction::Ignore => old(mapper).source().samples(
                            slot,
                            None,
                            &final(mapper).source(),
                        ),
                        RequestAction::Cancelled(_) => false,
                        RequestAction::Send { slot: sent, asked } => sent == slot
                            && asks_for_each_and_last(
                            old(mapper).source(),
                            final(mapper).source(),
                            old(mapper).identity(),
                            now_ms,
                            slot,
                            shreds,
                            max_inclusive_shred,
                            max_inclusive_shred,
                            asked.requests@,
                            asked.outstanding@,
                        ),
                    }
                }
            },
            RepairReqView::Cancel { slot } => {
                &&& final(mapper).source() == old(mapper).source()
                &&& action matches RequestAction::Cancelled(keys) && keys@.to_set() == keys_of(
                    old(store)@,
                    slot,
                )
                &&& final(store)@ == old(store)@.remove_keys(keys_of(old(store)@, slot))
            },
        },
{
    match req {
        RepairReq::MissingBoundedShreds { slot, shreds } => {
            if store.contains(slot) || shreds.len() == 0 {
                return RequestAction::Ignore;
            }
            let asked = process_missing_shreds(mapper, now_ms, slot, &shreds);
            RequestAction::Send { slot, asked }
        },
        RepairReq::MissingUnboundedShreds { slot, shreds, max_inclusive_shred } => {
            if store.contains(slot) {
                return RequestAction::Ignore;
            }
            let last = match mapper.map_unbounded_shred(now_ms, slot, max_inclusive_shred) {
                Some(last) => last,
                None => {
                    return RequestAction::Ignore;
                },
            };
            let ghost picked = mapper.source();
            let mut asked = process_missing_shreds(mapper, now_ms, slot, &shreds);
            let ghost first = asked;
            asked.requests.push(last);
            asked.outstanding.push(
                OutstandingRequest {
                    kind: OutstandingRequestKind::HighestWindowIndex,
                    nonce: last.nonce,
                    slot,
                    shred: max_inclusive_shred,
                    target: last.target,
                    sent_at: now_ms,
                },
            );
            proof {
                assert(asked.requests@.drop_last() =~= first.requests@);
                assert(asked.outstanding@.drop_last() =~= first.outstanding@);
                assert(old(mapper).source().samples(slot, Some(last.target), &picked));
            }
            RequestAction::Send { slot, asked }
        },
        RepairReq::CancelRepair { slot } => RequestAction::Cancelled(store.remove_slot(slot)),
    }
}

/// These are requests for `shreds` and one more, for the highest shred from
/// `from` on, which is kept under the index `noted`. The source, which goes from
/// `before` to `after`, is asked for that one's peer first.
pub open spec fn asks_for_each_and_last<S: RepairPeerSource>(
    before: S,
    after: S,
    sender: Pubkey,
    now_ms: u64,
    slot: u64,
    shreds: Seq<u32>,
    from: u32,
    noted: u32,
    requests: Seq<MappedRequest>,
    outstanding: Seq<OutstandingRequest>,
) -> bool {
    &&& requests.len() > 0
    &&& outstanding.len() > 0
    &&& exists|picked: S| #[trigger]
        before.samples(slot, Some(requests.last().target), &picked) && asks_for_each(
            picked,
            after,
            sender,
            now_ms,
            slot,
            shreds,
            requests.drop_last(),
            outstanding.drop_last(),
        )
    &&& requests.last() == mapped(
        sender,
        requests.last().target,
        requests.last().nonce,
        now_ms,
        slot,
        from,
        true,
    )
    &&& outstanding.last() == kept_of(
        OutstandingRequestKind::HighestWindowIndex,
        slot,
        noted,
        requests.last(),
        now_ms,
    )
}

/// What a response's shred says, as far as it can be read.
#[derive(Clone, Copy, Debug, PartialEq, Eq, Structural)]
pub struct ResponseShred {
    pub slot: Option<u64>,
    pub index: Option<u32>,
    pub last_in_slot: Option<bool>,
}

impl ResponseShred {
    /// All of it can be read.
    pub open spec fn readable(self) -> bool {
        self.slot is Some && self.index is Some && self.last_in_slot is Some
    }
}

/// What the shred of a packet says.
pub open spec fn response_of(packet: Seq<u8>) -> ResponseShred {
    ResponseShred {
        slot: match field(packet, OFFSET_OF_SLOT as int, 8) {
            Some(x) => Some(x as u64),
            None => None,
        },
        index: match field(packet, OFFSET_OF_INDEX as int, 4) {
            Some(x) => Some(x as u32),
            None => None,
        },
        last_in_slot: last_of(packet),
    }
}

impl ResponseShred {
    /// Reads what the shred of a packet says.
    pub fn read(packet: &[u8]) -> (r: Self)
        ensures
            r == response_of(packet@),
    {
        ResponseShred {
            slot: get_slot(packet),
            index: get_index(packet),
            last_in_slot: get_last_in_slot(packet),
        }
    }
}

/// The indexes from `from` up to but not including `to`.
pub open spec fn index_range(from: u32, to: u32) -> Seq<u32> {
    Seq::new(
        if from < to {
            (to - from) as nat
        } else {
            0
        },
        |i: int| (from + i) as u32,
    )
}

fn index_list(from: u32, to: u32) -> (list: Vec<u32>)
    ensures
        list@ == index_range(from, to),
{
    let mut list: Vec<u32> = Vec::new();
    let mut i: u32 = from;
    while i < to
        invariant
            from <= i,
            i <= to || i == from,
            list@ == Seq::new((i - from) as nat, |k: int| (from + k) as u32),
        decreases to - i,
    {
        list.push(i);
        i += 1;
        assert(list@ =~= Seq::new((i - from) as nat, |k: int| (from + k) as u32));
    }
    assert(list@ =~= index_range(from, to));
    list
}

/// These requests go on from a shred that answers a request for the highest
/// shred from `req_shred_index` on: they ask for what lies between and, where
/// the source has a peer and the shred is not the slot's last, for what comes
/// after it.
pub open spec fn goes_on<S: RepairPeerSource>(
    before: S,
    after: S,
    sender: Pubkey,
    now_ms: u64,
    shred: ResponseShred,
    req_shred_index: u32,
    requests: Seq<MappedRequest>,
    outstanding: Seq<OutstandingRequest>,
) -> bool {
    let slot = shred.slot->0;
    let index = shred.index->0;
    let between = index_range(req_shred_index, index);
    if shred.last_in_slot == Some(false) && index < u32::MAX {
        ||| exists|asked: S| #[trigger]
            before.samples(slot, None, &asked) && asks_for_each(
                asked,
                after,
                sender,
                now_ms,
                slot,
                between,
                requests,
                outstanding,
            )
        ||| asks_for_each_and_last(
            before,
            after,
            sender,
            now_ms,
            slot,
            between,
            (index + 1) as u32,
            index,
            requests,
            outstanding,
        )
    } else {
        asks_for_each(before, after, sender, now_ms, slot, between, requests, outstanding)
    }
}

/// Goes on from the answer to a request for the highest shred from
/// `req_shred_index` on: asks for what lies between, and for what comes after
/// it unless it is the slot's last. There is nothing to go on from where the
/// shred cannot be read.
pub fn handle_unbounded_packet_response<S: RepairPeerSource>(
    mapper: &mut RepairRequestMapper<S>,
    now_ms: u64,
    shred: ResponseShred,
    req_shred_index: u32,
) -> (r: Option<Asked>)
    ensures
        final(mapper).identity() == old(mapper).identity(),
        r is Some <==> shred.readable(),
        r is None ==> final(mapper).source() == old(mapper).source(),
        r matches Some(asked) ==> goes_on(
            old(mapper).source(),
            final(mapper).source(),
            old(mapper).identity(),
            now_ms,
            shred,
            req_shred_index,
            asked.requests@,
            asked.outstanding@,
        ),
{
    match (shred.last_in_slot, shred.index, shred.slot) {
        (Some(last_in_slot), Some(index), Some(slot)) => {
            let next = if !last_in_slot && index < u32::MAX {
                mapper.map_unbounded_shred(now_ms, slot, index + 1)
            } else {
                None
            };
            let ghost picked = mapper.source();
            assert(!last_in_slot && index < u32::MAX ==> old(mapper).source().samples(
                slot,
                peer_of(next),
                &picked,
            ));
            let between = index_list(req_shred_index, index);
            let mut asked = process_missing_shreds(mapper, now_ms, slot, &between);
            let ghost first = asked;
            if let Some(next) = next {
                asked.requests.push(next);
                asked.outstanding.push(
                    OutstandingRequest {
                        kind: OutstandingRequestKind::HighestWindowIndex,
                        nonce: next.nonce,
                        slot,
                        shred: index,
                        target: next.target,
                        sent_at: now_ms,
                    },
                );
                proof {
                    assert(asked.requests@.drop_last() =~= first.requests@);
                    assert(asked.outstanding@.drop_last() =~= first.outstanding@);
                }
            }
            Some(asked)
        },
        _ => None,
    }
}

/// What to do about a packet that came in on the repair socket.
#[derive(Debug)]
pub enum ResponseAction {
    /// It answers nothing that was asked, or cannot be read.
    Drop,
    /// Hand the packet on. The request that it answers is done with: stop its
    /// timer.
    Forward { answered: Outstanding, asked: Option<Asked> },
    /// It answers a request, whose timer is to be stopped, but the shred is
    /// not valid.
    Discard { answered: Outstanding },
}

/// `action` and `after` are what a packet from `route`, whose shred says
/// `shred`, comes to when `before` is outstanding. `source` is asked for the
/// peers that the packet makes needed, and for no others.
pub open spec fn responded<S: RepairPeerSource>(
    source: S,
    source_after: S,
    before: Map<RepairKey, Outstanding>,
    identity: Pubkey,
    now_ms: u64,
    packet: Seq<u8>,
    shred: ResponseShred,
    route: RepairRoute,
    action: ResponseAction,
    after: Map<RepairKey, Outstanding>,
) -> bool {
    let nonce = nonce_of(packet);
    let key = key_for(shred.slot->0, nonce->0, route);
    if nonce is None || shred.slot is None || !before.dom().contains(key) {
        action is Drop && after == before && source_after == source
    } else {
        let waiting = before[key];
        &&& after == before.remove(key)
        &&& if waiting.kind is HighestWindowIndex {
            if shred.readable() {
                action matches ResponseAction::Forward { answered, asked } && answered == waiting
                    && asked is Some && goes_on(
                    source,
                    source_after,
                    identity,
                    now_ms,
                    shred,
                    waiting.shred_index,
                    asked->0.requests@,
                    asked->0.outstanding@,
                )
            } else {
                action == ResponseAction::Discard { answered: waiting } && source_after == source
            }
        } else {
            action == ResponseAction::Forward { answered: waiting, asked: None } && source_after
                == source
        }
    }
}

/// Decides what to do about a packet from `route`, reading its shred off it.
pub fn on_packet<S: RepairPeerSource>(
    store: &mut OutstandingTimerStore,
    mapper: &mut RepairRequestMapper<S>,
    now_ms: u64,
    packet: &[u8],
    route: RepairRoute,
) -> (action: ResponseAction)
    requires
        old(store).wf(),
    ensures
        final(store).wf(),
        final(mapper).identity() == old(mapper).identity(),
        responded(
            old(mapper).source(),
            final(mapper).source(),
            old(store)@,
            old(mapper).identity(),
            now_ms,
            packet@,
            response_of(packet@),
            route,
            action,
            final(store)@,
        ),
{
    on_response(store, mapper, now_ms, packet, ResponseShred::read(packet), route)
}

/// Decides what to do about a packet from `route`, whose shred says `shred`.
pub fn on_response<S: RepairPeerSource>(
    store: &mut OutstandingTimerStore,
    mapper: &mut RepairRequestMapper<S>,
    now_ms: u64,
    packet: &[u8],
    shred: ResponseShred,
    route: RepairRoute,
) -> (action: ResponseAction)
    requires
        old(store).wf(),
    ensures
        final(store).wf(),
        final(mapper).identity() == old(mapper).identity(),
        responded(
            old(mapper).source(),
            final(mapper).source(),
            old(store)@,
            old(mapper).identity(),
            now_ms,
            packet@,
            shred,
            route,
            action,
            final(store)@,
        ),
{
    let nonce: u32 = match repair_nonce(packet) {
        Some(nonce) => nonce,
        None => {
            return ResponseAction::Drop;
        },
    };
    let slot: u64 = match shred.slot {
        Some(slot) => slot,
        None => {
            return ResponseAction::Drop;
        },
    };
    let answered = match store.remove(slot, nonce, route) {
        Some(answered) => answered,
        None => {
            assert(store@ =~= old(store)@);
            return ResponseAction::Drop;
        },
    };
    match answered.kind {
        OutstandingRequestKind::WindowIndex => ResponseAction::Forward { answered, asked: None },
        OutstandingRequestKind::HighestWindowIndex => {
            match handle_unbounded_packet_response(mapper, now_ms, shred, answered.shred_index) {
                Some(asked) => ResponseAction::Forward { answered, asked: Some(asked) },
                None => ResponseAction::Discard { answered },
            }
        },
    }
}

/// A request is answered once: a packet that answered one is dropped when it
/// comes again, unless the same was asked anew.
pub proof fn law_answered_once<S: RepairPeerSource>(
    s1: S,
    s2: S,
    s3: S,
    s4: S,
    before: Map<RepairKey, Outstanding>,
    between: Map<RepairKey, Outstanding>,
    after: Map<RepairKey, Outstanding>,
    identity: Pubkey,
    now_ms: u64,
    later_ms: u64,
    packet: Seq<u8>,
    shred: ResponseShred,
    route: RepairRoute,
    first: ResponseAction,
    second: ResponseAction,
)
    requires
        responded(s1, s2, before, identity, now_ms, packet, shred, route, first, between),
        responded(s3, s4, between, identity, later_ms, packet, shred, route, second, after),
    ensures
        second is Drop,
        after == between,
{
}

/// What was not asked for changes nothing: a packet that answers no outstanding
/// request is dropped, and no other packet is.
pub proof fn law_unasked_is_dropped<S: RepairPeerSource>(
    source: S,
    source_after: S,
    before: Map<RepairKey, Outstanding>,
    identity: Pubkey,
    now_ms: u64,
    packet: Seq<u8>,
    shred: ResponseShred,
    route: RepairRoute,
    action: ResponseAction,
    after: Map<RepairKey, Outstanding>,
)
    requires
        responded(
            source,
            source_after,
            before,
            identity,
            now_ms,
            packet,
            shred,
            route,
            action,
            after,
        ),
    ensures
        action is Drop <==> !(nonce_of(packet) is Some && shred.slot is Some
            && before.dom().contains(key_for(shred.slot->0, nonce_of(packet)->0, route))),
        action is Drop ==> after == before,
{
}

/// A response is recognised by its nonce: what a server appends to a shred is
/// what the client reads off it.
pub proof fn law_nonce_roundtrip(shred: Seq<u8>, nonce: u32)
    ensures
        nonce_of(shred + le_bytes(nonce as nat, 4)) == Some(nonce),
{
    lemma_byte_spans();
    lemma_le_roundtrip(nonce as nat, 4);
    let packet = shred + le_bytes(nonce as nat, 4);
    assert(packet.skip(packet.len() - 4) =~= le_bytes(nonce as nat, 4));
}

/// A request for one shred, as it is sent and as it is kept.
pub open spec fn asks_one(
    request: MappedRequest,
    kept: OutstandingRequest,
    sender: Pubkey,
    now_ms: u64,
    slot: u64,
    from: u32,
    highest: bool,
) -> bool {
    &&& request.target == kept.target
    &&& request.nonce == kept.nonce
    &&& kept.slot == slot
    &&& kept.sent_at == now_ms
    &&& (kept.kind is HighestWindowIndex) == highest
    &&& match (request.wire, request.target) {
        (
            WireRequest::Cluster { header, slot: s, shred_index, highest: h },
            RepairTarget::Udp(_, peer),
        ) => header.sender == sender && header.recipient == peer && header.timestamp == now_ms
            && header.nonce == request.nonce && s == slot && shred_index == from && h == highest,
        (
            WireRequest::Overlay { slot: s, shred_index, highest: h },
            RepairTarget::Overlay(_),
        ) => s == slot && shred_index == from && h == highest,
        _ => false,
    }
}

/// The source finds a peer whenever it is asked.
pub open spec fn always_finds<S: RepairPeerSource>() -> bool {
    forall|s: S, slot: u64, found: Option<RepairTarget>, after: S| #[trigger]
        s.samples(slot, found, &after) ==> found is Some
}

proof fn lemma_requests_for(
    sender: Pubkey,
    now_ms: u64,
    slot: u64,
    shreds: Seq<u32>,
    picks: Seq<Option<(RepairTarget, u32)>>,
)
    requires
        picks.len() == shreds.len(),
    ensures
        ({
            let (requests, kept) = requests_for(sender, now_ms, slot, shreds, picks);
            &&& requests.len() == kept.len()
            &&& forall|k: int|
                0 <= k < kept.len() ==> asks_one(
                    requests[k],
                    #[trigger] kept[k],
                    sender,
                    now_ms,
                    slot,
                    kept[k].shred,
                    false,
                ) && shreds.contains(kept[k].shred)
            &&& (forall|i: int| 0 <= i < picks.len() ==> (#[trigger] picks[i]) is Some) ==> {
                &&& kept.len() == shreds.len()
                &&& forall|k: int|
                    0 <= k < kept.len() ==> (#[trigger] kept[k]).shred == shreds[k]
                        && kept[k].target == (picks[k]->0).0 && kept[k].nonce == (picks[k]->0).1
            }
        }),
    decreases shreds.len(),
{
    if shreds.len() > 0 {
        let n = shreds.len() - 1;
        let s0 = shreds.drop_last();
        let p0 = picks.drop_last();
        lemma_requests_for(sender, now_ms, slot, s0, p0);
        let (r0, k0) = requests_for(sender, now_ms, slot, s0, p0);
        let (requests, kept) = requests_for(sender, now_ms, slot, shreds, picks);
        assert(shreds[n] == shreds.last() && picks[n] == picks.last());
        assert forall|k: int| 0 <= k < kept.len() implies asks_one(
            requests[k],
            #[trigger] kept[k],
            sender,
            now_ms,
            slot,
            kept[k].shred,
            false,
        ) && shreds.contains(kept[k].shred) by {
            if k < k0.len() {
                assert(kept[k] == k0[k] && requests[k] == r0[k]);
                let i = s0.index_of(k0[k].shred);
                assert(shreds[i] == kept[k].shred);
            } else {
                assert(kept[k].shred == shreds[n]);
            }
        }
        if forall|i: int| 0 <= i < picks.len() ==> (#[trigger] picks[i]) is Some {
            assert forall|i: int| 0 <= i < p0.len() implies (#[trigger] p0[i]) is Some by {
                assert(picks[i] is Some);
            }
            assert(picks[n] is Some);
            assert forall|k: int| 0 <= k < kept.len() implies (#[trigger] kept[k]).shred
                == shreds[k] && kept[k].target == (picks[k]->0).0 && kept[k].nonce == (
            picks[k]->0).1 by {
                if k < n {
                    assert(kept[k] == k0[k]);
                    assert(s0[k] == shreds[k] && p0[k] == picks[k]);
                }
            }
        }
    }
}

/// Of the shreds that are missing, each is asked for once, in their order, if
/// there is a peer for it, and nothing else is; and each request is kept as it
/// was sent.
pub proof fn law_each_missing_shred_is_asked_for<S: RepairPeerSource>(
    before: S,
    after: S,
    sender: Pubkey,
    now_ms: u64,
    slot: u64,
    shreds: Seq<u32>,
    requests: Seq<MappedRequest>,
    kept: Seq<OutstandingRequest>,
)
    requires
        asks_for_each(before, after, sender, now_ms, slot, shreds, requests, kept),
    ensures
        requests.len() == kept.len(),
        kept.len() <= shreds.len(),
        forall|k: int|
            0 <= k < kept.len() ==> asks_one(
                requests[k],
                #[trigger] kept[k],
                sender,
                now_ms,
                slot,
                kept[k].shred,
                false,
            ) && shreds.contains(kept[k].shred),
        always_finds::<S>() ==> kept.len() == shreds.len() && forall|k: int|
            0 <= k < kept.len() ==> (#[trigger] kept[k]).shred == shreds[k],
{
    let picks = choose|picks: Seq<Option<(RepairTarget, u32)>>|
        picks.len() == shreds.len() && (requests, kept) == #[trigger] requests_for(
            sender,
            now_ms,
            slot,
            shreds,
            picks,
        ) && samples_all(before, slot, peers_of(picks), after);
    lemma_requests_for(sender, now_ms, slot, shreds, picks);
    lemma_fewer(sender, now_ms, slot, shreds, picks);
    if always_finds::<S>() {
        let found = peers_of(picks);
        let states = choose|states: Seq<S>| #[trigger]
            samples_through(states, slot, found) && states[0] == before && states.last() == after;
        assert forall|i: int| 0 <= i < picks.len() implies (#[trigger] picks[i]) is Some by {
            assert(states[i].samples(slot, found[i], &states[i + 1]));
        }
    }
}

proof fn lemma_fewer(
    sender: Pubkey,
    now_ms: u64,
    slot: u64,
    shreds: Seq<u32>,
    picks: Seq<Option<(RepairTarget, u32)>>,
)
    ensures
        requests_for(sender, now_ms, slot, shreds, picks).1.len() <= shreds.len(),
    decreases shreds.len(),
{
    if shreds.len() > 0 {
        lemma_fewer(sender, now_ms, slot, shreds.drop_last(), picks.drop_last());
    }
}

/// Where the end of the slot is not known, one request more asks for the highest
/// shred from an index on, and is kept to be asked again.
pub proof fn law_highest_is_asked_for<S: RepairPeerSource>(
    before: S,
    after: S,
    sender: Pubkey,
    now_ms: u64,
    slot: u64,
    shreds: Seq<u32>,
    from: u32,
    noted: u32,
    requests: Seq<MappedRequest>,
    kept: Seq<OutstandingRequest>,
)
    requires
        asks_for_each_and_last(
            before,
            after,
            sender,
            now_ms,
            slot,
            shreds,
            from,
            noted,
            requests,
            kept,
        ),
    ensures
        requests.len() == kept.len(),
        kept.len() > 0,
        asks_one(requests.last(), kept.last(), sender, now_ms, slot, from, true),
        kept.last().shred == noted,
        always_finds::<S>() ==> kept.len() == shreds.len() + 1,
        forall|k: int|
            0 <= k < kept.len() - 1 ==> asks_one(
                requests[k],
                #[trigger] kept[k],
                sender,
                now_ms,
                slot,
                kept[k].shred,
                false,
            ) && shreds.contains(kept[k].shred),
        always_finds::<S>() ==> forall|k: int|
            0 <= k < shreds.len() ==> (#[trigger] kept[k]).shred == shreds[k],
{
    let picked = choose|picked: S| #[trigger]
        before.samples(slot, Some(requests.last().target), &picked) && asks_for_each(
            picked,
            after,
            sender,
            now_ms,
            slot,
            shreds,
            requests.drop_last(),
            kept.drop_last(),
        );
    let r0 = requests.drop_last();
    let k0 = kept.drop_last();
    law_each_missing_shred_is_asked_for(picked, after, sender, now_ms, slot, shreds, r0, k0);
    assert forall|k: int| 0 <= k < kept.len() - 1 implies asks_one(
        requests[k],
        #[trigger] kept[k],
        sender,
        now_ms,
        slot,
        kept[k].shred,
        false,
    ) && shreds.contains(kept[k].shred) by {
        assert(k0[k] == kept[k] && r0[k] == requests[k]);
    }
    if always_finds::<S>() {
        assert forall|k: int| 0 <= k < shreds.len() implies (#[trigger] kept[k]).shred
            == shreds[k] by {
            assert(k0[k] == kept[k]);
        }
    }
}

/// From the answer to a request for the highest shred, repair goes on: what lies
/// between the index that was asked from and the one that came is asked for, each
/// shred once; and unless the shred that came is the last of its slot, the highest
/// from the one after it on.
pub proof fn law_repair_goes_on<S: RepairPeerSource>(
    before: S,
    after: S,
    sender: Pubkey,
    now_ms: u64,
    slot: u64,
    index: u32,
    last: bool,
    asked_from: u32,
    requests: Seq<MappedRequest>,
    kept: Seq<OutstandingRequest>,
)
    requires
        goes_on(
            before,
            after,
            sender,
            now_ms,
            ResponseShred { slot: Some(slot), index: Some(index), last_in_slot: Some(last) },
            asked_from,
            requests,
            kept,
        ),
        always_finds::<S>(),
    ensures
        ({
            let n = if asked_from < index {
                index - asked_from
            } else {
                0int
            };
            let more = !last && index < u32::MAX;
            &&& requests.len() == kept.len()
            &&& kept.len() == n + (if more {
                1int
            } else {
                0int
            })
            &&& forall|k: int|
                0 <= k < n ==> (#[trigger] kept[k]).shred == asked_from + k && asks_one(
                    requests[k],
                    kept[k],
                    sender,
                    now_ms,
                    slot,
                    (asked_from + k) as u32,
                    false,
                )
            &&& more ==> asks_one(
                requests.last(),
                kept.last(),
                sender,
                now_ms,
                slot,
                (index + 1) as u32,
                true,
            )
        }),
{
    let between = index_range(asked_from, index);
    if !last && index < u32::MAX {
        assert(asks_for_each_and_last(
            before,
            after,
            sender,
            now_ms,
            slot,
            between,
            (index + 1) as u32,
            index,
            requests,
            kept,
        ));
        law_highest_is_asked_for(
            before,
            after,
            sender,
            now_ms,
            slot,
            between,
            (index + 1) as u32,
            index,
            requests,
            kept,
        );
    } else {
        law_each_missing_shred_is_asked_for(
            before,
            after,
            sender,
            now_ms,
            slot,
            between,
            requests,
            kept,
        );
    }
}

/// An answer finds its request: a packet that ends in the nonce of a request that
/// is outstanding, whose shred is of its slot, and that comes from where it was
/// sent, is taken for its answer, which is done with then; the others stay.
pub proof fn law_answer_finds_its_request<S: RepairPeerSource>(
    source: S,
    source_after: S,
    store: Map<RepairKey, Outstanding>,
    identity: Pubkey,
    now_ms: u64,
    request: OutstandingRequest,
    shred: Seq<u8>,
    says: ResponseShred,
    action: ResponseAction,
    after: Map<RepairKey, Outstanding>,
)
    requires
        says.slot == Some(request.slot),
        responded(
            source,
            source_after,
            store.insert(request.key(), Outstanding::of(request)),
            identity,
            now_ms,
            shred + le_bytes(request.nonce as nat, 4),
            says,
            request.target.route_of(),
            action,
            after,
        ),
    ensures
        after == store.remove(request.key()),
        ({
            let answered = Outstanding {
                kind: request.kind,
                shred_index: request.shred,
                sent_at: request.sent_at,
                target: request.target,
            };
            match request.kind {
                OutstandingRequestKind::WindowIndex => action == ResponseAction::Forward {
                    answered,
                    asked: None,
                },
                OutstandingRequestKind::HighestWindowIndex => if says.index is Some
                    && says.last_in_slot is Some {
                    action matches ResponseAction::Forward { answered: a, asked } && a == answered
                        && asked is Some
                } else {
                    action == ResponseAction::Discard { answered }
                },
            }
        }),
{
    law_nonce_roundtrip(shred, request.nonce);
    let kept = store.insert(request.key(), Outstanding::of(request));
    assert(kept.remove(request.key()) =~= store.remove(request.key()));
}

/// What a shred of a packet says is what stands in its header.
pub proof fn law_response_is_read(
    signature: Seq<u8>,
    variant: u8,
    header: ShredHeader,
    rest: Seq<u8>,
)
    requires
        signature.len() == 64,
        header.kind is Data,
        variant / 16 == 8 || variant / 16 == 9 || variant / 16 == 11,
        rest.len() >= 3,
    ensures
        ({
            let shred = signature + seq![variant] + le_bytes(header.slot as nat, 8) + le_bytes(
                header.index as nat,
                4,
            ) + le_bytes(header.version as nat, 2) + le_bytes(header.fec_set_index as nat, 4)
                + rest;
            response_of(shred) == (ResponseShred {
                slot: Some(header.slot),
                index: Some(header.index),
                last_in_slot: Some(rest[2] & 0b1100_0000u8 == 0b1100_0000u8),
            })
        }),
{
    law_header_is_read_back(signature, variant, header, rest);
}

} // verus!
