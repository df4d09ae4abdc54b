//! Requests that wait for an answer.

use vstd::prelude::*;
use crate::addr::IpAddr;
use crate::codec::{
    be_bytes, le_bytes, lemma_be_len, lemma_be_roundtrip, lemma_byte_spans, lemma_le_len,
    lemma_le_roundtrip, put_be, put_le,
};
use crate::ordmap::{lemma_lexicographic, OrdMap, Rank};
use crate::repair::peer_manager::{
    mapped, MappedRequest, RepairPeerSource, RepairRequestMapper, RepairRoute, RepairTarget,
};
use crate::repair::OutstandingRequestKind;

verus! {

/// How long a request waits for its answer, in milliseconds.
pub const REPAIR_REQUEST_TIMEOUT_MS: u64 = 200;

/// What an outstanding request is known by: the slot, the nonce and the route
/// that the answer will show.
#[derive(Clone, Copy, Debug, PartialEq, Eq, Structural)]
pub struct RepairKey {
    pub slot: u64,
    pub nonce: u32,
    /// 0 for an address, 1 for a peer.
    pub tag: u8,
    /// The address and port, or the peer's key: 32 bytes in two halves.
    pub hi: u128,
    pub lo: u128,
}

impl RepairKey {
    /// The key in 45 bytes. The slot is big-endian, so that the keys of one
    /// slot lie together and the slots in order.
    pub open spec fn bytes(self) -> Seq<u8> {
        be_bytes(self.slot as nat, 8) + le_bytes(self.nonce as nat, 4) + seq![self.tag] + be_bytes(
            self.hi as nat,
            16,
        ) + be_bytes(self.lo as nat, 16)
    }

    pub fn to_raw(&self) -> (raw: Vec<u8>)
        ensures
            raw@ == self.bytes(),
            raw@.len() == 45,
    {
        let mut raw: Vec<u8> = Vec::new();
        put_be(&mut raw, self.slot as u128, 8);
        put_le(&mut raw, self.nonce as u128, 4);
        raw.push(self.tag);
        put_be(&mut raw, self.hi, 16);
        put_be(&mut raw, self.lo, 16);
        proof {
            lemma_be_len(self.slot as nat, 8);
            lemma_le_len(self.nonce as nat, 4);
            lemma_be_len(self.hi as nat, 16);
            lemma_be_len(self.lo as nat, 16);
            assert(raw@ =~= self.bytes());
        }
        raw
    }

    /// The place of what follows the slot.
    pub open spec fn tail_rank(self) -> int {
        ((self.nonce * 0x100 + self.tag) * key_half() + self.hi) * key_half() + self.lo
    }
}

pub open spec fn key_half() -> int {
    0x1_0000_0000_0000_0000_0000_0000_0000_0000int
}

pub open spec fn tail_span() -> int {
    0x100_0000_0000 * key_half() * key_half()
}

proof fn lemma_tail_rank(a: RepairKey, b: RepairKey)
    ensures
        0 <= a.tail_rank() < tail_span(),
        (a.tail_rank() == b.tail_rank()) == (a.nonce == b.nonce && a.tag == b.tag && a.hi == b.hi
            && a.lo == b.lo),
        (a.tail_rank() < b.tail_rank()) == (a.nonce < b.nonce || (a.nonce == b.nonce && (a.tag
            < b.tag || (a.tag == b.tag && (a.hi < b.hi || (a.hi == b.hi && a.lo < b.lo)))))),
{
    let h = key_half();
    let x = a.nonce * 0x100 + a.tag;
    let y = b.nonce * 0x100 + b.tag;
    lemma_lexicographic(x, a.hi as int, y, b.hi as int, h);
    lemma_lexicographic(x * h + a.hi, a.lo as int, y * h + b.hi, b.lo as int, h);
    assert(0 <= x < 0x100_0000_0000);
    assert(x * h + a.hi < 0x100_0000_0000 * h && 0 <= x * h) by (nonlinear_arith)
        requires
            0 <= x < 0x100_0000_0000,
            0 <= a.hi < h,
    ;
    let m = x * h + a.hi;
    assert(m * h + a.lo < 0x100_0000_0000 * h * h && 0 <= m * h) by (nonlinear_arith)
        requires
            0 <= m < 0x100_0000_0000 * h,
            0 <= a.lo < h,
    ;
}

impl Rank for RepairKey {
    open spec fn rank(self) -> int {
        self.slot * tail_span() + self.tail_rank()
    }

    proof fn rank_injective(a: Self, b: Self) {
        lemma_tail_rank(a, b);
        lemma_tail_rank(b, a);
        lemma_lexicographic(
            a.slot as int,
            a.tail_rank(),
            b.slot as int,
            b.tail_rank(),
            tail_span(),
        );
    }

    fn before(&self, other: &Self) -> (r: bool) {
        proof {
            lemma_tail_rank(*self, *other);
            lemma_tail_rank(*other, *self);
            lemma_lexicographic(
                self.slot as int,
                self.tail_rank(),
                other.slot as int,
                other.tail_rank(),
                tail_span(),
            );
        }
        if self.slot != other.slot {
            self.slot < other.slot
        } else if self.nonce != other.nonce {
            self.nonce < other.nonce
        } else if self.tag != other.tag {
            self.tag < other.tag
        } else if self.hi != other.hi {
            self.hi < other.hi
        } else {
            self.lo < other.lo
        }
    }
}

/// The key of a request. An address takes the first 16 of the 32 bytes, an
/// IPv4 address the first four of these; the port follows them.
pub open spec fn key_for(slot: u64, nonce: u32, route: RepairRoute) -> RepairKey {
    match route {
        RepairRoute::Addr(socket) => RepairKey {
            slot,
            nonce,
            tag: 0,
            hi: match socket.ip {
                IpAddr::V4(ip) => (ip * 0x1_0000_0000_0000_0000_0000_0000) as u128,
                IpAddr::V6(ip) => ip,
            },
            lo: ((socket.port % 0x100 * 0x100 + socket.port / 0x100)
                * 0x1_0000_0000_0000_0000_0000_0000_0000) as u128,
        },
        RepairRoute::Peer(pubkey) => RepairKey {
            slot,
            nonce,
            tag: 1,
            hi: pubkey.hi,
            lo: pubkey.lo,
        },
    }
}

pub fn repair_key(slot: u64, nonce: u32, route: RepairRoute) -> (key: RepairKey)
    ensures
        key == key_for(slot, nonce, route),
{
    match route {
        RepairRoute::Addr(socket) => {
            let hi: u128 = match socket.ip() {
                IpAddr::V4(ip) => ip as u128 * 0x1_0000_0000_0000_0000_0000_0000,
                IpAddr::V6(ip) => ip,
            };
            let port: u128 = socket.port() as u128;
            let lo: u128 = (port % 0x100 * 0x100 + port / 0x100)
                * 0x1_0000_0000_0000_0000_0000_0000_0000;
            RepairKey { slot, nonce, tag: 0, hi, lo }
        },
        RepairRoute::Peer(pubkey) => RepairKey {
            slot,
            nonce,
            tag: 1,
            hi: pubkey.hi,
            lo: pubkey.lo,
        },
    }
}

/// A request that was sent.
#[derive(Clone, Copy, Debug, PartialEq, Eq, Structural)]
pub struct OutstandingRequest {
    pub kind: OutstandingRequestKind,
    pub nonce: u32,
    pub slot: u64,
    pub shred: u32,
    pub target: RepairTarget,
    /// Milliseconds since the epoch.
    pub sent_at: u64,
}

impl OutstandingRequest {
    pub open spec fn key(self) -> RepairKey {
        key_for(self.slot, self.nonce, self.target.route_of())
    }
}

/// What is kept of a request until it is answered.
#[derive(Clone, Copy, Debug, PartialEq, Eq, Structural)]
pub struct Outstanding {
    pub kind: OutstandingRequestKind,
    pub shred_index: u32,
    pub sent_at: u64,
    pub target: RepairTarget,
}

impl Outstanding {
    pub open spec fn of(request: OutstandingRequest) -> Self {
        Outstanding {
            kind: request.kind,
            shred_index: request.shred,
            sent_at: request.sent_at,
            target: request.target,
        }
    }
}

/// The requests that wait for an answer.
pub struct OutstandingTimerStore(OrdMap<RepairKey, Outstanding>);

impl OutstandingTimerStore {
    pub closed spec fn view(&self) -> Map<RepairKey, Outstanding> {
        self.0@
    }

    pub closed spec fn wf(&self) -> bool {
        self.0.wf()
    }

    pub fn new() -> (store: Self)
        ensures
            store.wf(),
            store@ == Map::<RepairKey, Outstanding>::empty(),
    {
        OutstandingTimerStore(OrdMap::new())
    }

    /// Keeps a request until it is answered.
    pub fn insert(&mut self, request: &OutstandingRequest)
        requires
            old(self).wf(),
        ensures
            final(self).wf(),
            final(self)@ == old(self)@.insert(request.key(), Outstanding::of(*request)),
    {
        self.0.insert(
            repair_key(request.slot, request.nonce, request.target.route()),
            Outstanding {
                kind: request.kind,
                shred_index: request.shred,
                sent_at: request.sent_at,
                target: request.target,
            },
        );
    }

    /// Takes an outstanding request out, when it is answered or has timed out.
    pub fn remove(&mut self, slot: u64, nonce: u32, route: RepairRoute) -> (r: Option<Outstanding>)
        requires
            old(self).wf(),
        ensures
            final(self).wf(),
            final(self)@ == old(self)@.remove(key_for(slot, nonce, route)),
            r == (if old(self)@.dom().contains(key_for(slot, nonce, route)) {
                Some(old(self)@[key_for(slot, nonce, route)])
            } else {
                None
            }),
    {
        self.0.remove(&repair_key(slot, nonce, route))
    }

    /// Whether a request for `slot` is outstanding.
    pub fn contains(&self, slot: u64) -> (r: bool)
        requires
            self.wf(),
        ensures
            r == waits_for(self@, slot),
    {
        let mut i: usize = 0;
        while i < self.0.len()
            invariant
                self.wf(),
                i <= self.0.entries().len(),
                forall|j: int| 0 <= j < i ==> (#[trigger] self.0.entries()[j]).0.slot != slot,
            decreases self.0.entries().len() - i,
        {
            let (key, _) = self.0.at(i);
            if key.slot == slot {
                assert(self@.dom().contains(*key));
                return true;
            }
            i += 1;
        }
        proof {
            assert forall|k: RepairKey| #[trigger] self@.dom().contains(k) implies k.slot
                != slot by {
                let j = self.0.index_of(k);
                assert(self.0.has(k));
                assert(self.0.entries()[j].0 == k);
            }
        }
        false
    }

    /// Takes out every request for `slot`, and gives their keys.
    pub fn remove_slot(&mut self, slot: u64) -> (removed: Vec<RepairKey>)
        requires
            old(self).wf(),
        ensures
            final(self).wf(),
            final(self)@ == old(self)@.remove_keys(keys_of(old(self)@, slot)),
            removed@.to_set() == keys_of(old(self)@, slot),
    {
        let ghost start = *self;
        let mut removed: Vec<RepairKey> = Vec::new();
        let mut i: usize = 0;
        while i < self.0.len()
            invariant
                self.wf(),
                start.wf(),
                *self == start,
                i <= self.0.entries().len(),
                forall|j: int|
                    0 <= j < removed@.len() ==> (#[trigger] removed@[j]).slot == slot
                        && start@.dom().contains(removed@[j]),
                forall|j: int|
                    0 <= j < i && (#[trigger] self.0.entries()[j]).0.slot == slot
                        ==> removed@.contains(self.0.entries()[j].0),
            decreases self.0.entries().len() - i,
        {
            let ghost had = removed@;
            let (key, _) = self.0.at(i);
            if key.slot == slot {
                removed.push(*key);
            }
            i += 1;
            proof {
                assert forall|j: int|
                    0 <= j < i && (#[trigger] self.0.entries()[j]).0.slot
                        == slot implies removed@.contains(self.0.entries()[j].0) by {
                    if j < i - 1 {
                        let k = choose|k: int|
                            0 <= k < had.len() && had[k] == self.0.entries()[j].0;
                        assert(removed@[k] == self.0.entries()[j].0);
                    } else {
                        assert(removed@[had.len() as int] == self.0.entries()[j].0);
                    }
                }
            }
        }
        proof {
            assert forall|k: RepairKey| removed@.contains(k) <==> keys_of(start@, slot).contains(
                k,
            ) by {
                if start@.dom().contains(k) && k.slot == slot {
                    let j = start.0.index_of(k);
                    assert(start.0.has(k));
                    assert(self.0.entries()[j].0 == k);
                }
            }
            assert(removed@.to_set() =~= keys_of(start@, slot));
        }
        let mut n: usize = 0;
        while n < removed.len()
            invariant
                self.wf(),
                n <= removed@.len(),
                forall|k: RepairKey| #[trigger]
                    self@.dom().contains(k) <==> start@.dom().contains(k) && !removed@.take(
                        n as int,
                    ).contains(k),
                forall|k: RepairKey| #[trigger] self@.dom().contains(k) ==> self@[k] == start@[k],
            decreases removed@.len() - n,
        {
            let ghost was = *self;
            self.0.remove(&removed[n]);
            n += 1;
            proof {
                let gone = removed@[n - 1];
                assert(removed@.take(n as int) =~= removed@.take(n - 1).push(gone));
                assert forall|k: RepairKey| #[trigger]
                    self@.dom().contains(k) <==> start@.dom().contains(k) && !removed@.take(
                        n as int,
                    ).contains(k) by {
                    assert(was@.dom().contains(k) <==> start@.dom().contains(k) && !removed@.take(
                        n - 1,
                    ).contains(k));
                    let shorter = removed@.take(n - 1);
                    let longer = removed@.take(n as int);
                    if shorter.contains(k) {
                        let j = choose|j: int| 0 <= j < shorter.len() && shorter[j] == k;
                        assert(longer[j] == k);
                    }
                    assert(longer[n - 1] == gone);
                }
                assert forall|k: RepairKey| #[trigger] self@.dom().contains(k) implies self@[k]
                    == start@[k] by {
                    assert(was@.dom().contains(k));
                }
            }
        }
        proof {
            assert(removed@.take(n as int) =~= removed@);
            assert forall|k: RepairKey| removed@.contains(k) <==> keys_of(start@, slot).contains(
                k,
            ) by {
                assert(removed@.to_set().contains(k) <==> removed@.contains(k));
            }
            assert(self@ =~= start@.remove_keys(keys_of(start@, slot)));
        }
        removed
    }

    /// Decides what to do when a request has waited long enough. An answered
    /// request is left alone; any other is taken out and counted against its
    /// peer, and asked again of whichever peer the mapper gives.
    pub fn on_timeout<S: RepairPeerSource>(
        &mut self,
        mapper: &mut RepairRequestMapper<S>,
        request: &OutstandingRequest,
        now_ms: u64,
    ) -> (r: TimeoutAction)
        requires
            old(self).wf(),
        ensures
            final(self).wf(),
            final(mapper).identity() == old(mapper).identity(),
            if !old(self)@.dom().contains(request.key()) {
                r is Answered && final(self)@ == old(self)@ && final(mapper).source() == old(
                    mapper,
                ).source()
            } else {
                &&& final(self)@ == old(self)@.remove(request.key())
                &&& match r {
                    TimeoutAction::Answered => false,
                    TimeoutAction::GiveUp => old(mapper).source().samples(
                        request.slot,
                        None,
                        &final(mapper).source(),
                    ),
                    TimeoutAction::Retry { request: again, wire } => {
                        &&& old(mapper).source().samples(
                            request.slot,
                            Some(wire.target),
                            &final(mapper).source(),
                        )
                        &&& again == retried(*request, wire, now_ms)
                        &&& wire == mapped(
                            old(mapper).identity(),
                            wire.target,
                            wire.nonce,
                            now_ms,
                            request.slot,
                            request.shred,
                            request.kind is HighestWindowIndex,
                        )
                    },
                }
            },
    {
        let removed = self.remove(request.slot, request.nonce, request.target.route());
        if removed.is_none() {
            assert(self@ =~= old(self)@);
            return TimeoutAction::Answered;
        }
        let asked = match request.kind {
            OutstandingRequestKind::WindowIndex => mapper.map_bounded_shred(
                now_ms,
                request.slot,
                request.shred,
            ),
            OutstandingRequestKind::HighestWindowIndex => mapper.map_unbounded_shred(
                now_ms,
                request.slot,
                request.shred,
            ),
        };
        match asked {
            None => TimeoutAction::GiveUp,
            Some(wire) => {
                let again = OutstandingRequest {
                    kind: request.kind,
                    nonce: wire.nonce,
                    slot: request.slot,
                    shred: request.shred,
                    target: wire.target,
                    sent_at: now_ms,
                };
                TimeoutAction::Retry { request: again, wire }
            },
        }
    }
}

/// A request asked again.
pub open spec fn retried(
    request: OutstandingRequest,
    wire: MappedRequest,
    now_ms: u64,
) -> OutstandingRequest {
    OutstandingRequest { nonce: wire.nonce, target: wire.target, sent_at: now_ms, ..request }
}

/// What to do about a request that has waited long enough.
#[derive(Clone, Copy, Debug, PartialEq, Eq, Structural)]
pub enum TimeoutAction {
    /// It was answered: there is nothing to do.
    Answered,
    /// Count the timeout. There is no peer to ask.
    GiveUp,
    /// Count the timeout, send `wire` and, once it is sent, keep `request`.
    Retry { request: OutstandingRequest, wire: MappedRequest },
}

/// The keys of a slot's requests.
pub open spec fn keys_of(store: Map<RepairKey, Outstanding>, slot: u64) -> Set<RepairKey> {
    Set::new(|k: RepairKey| store.dom().contains(k) && k.slot == slot)
}

/// A request for `slot` is outstanding.
pub open spec fn waits_for(store: Map<RepairKey, Outstanding>, slot: u64) -> bool {
    exists|k: RepairKey| #[trigger] store.dom().contains(k) && k.slot == slot
}

/// The raw key tells all that the key holds.
pub proof fn law_raw_key_injective(a: RepairKey, b: RepairKey)
    requires
        a.bytes() == b.bytes(),
    ensures
        a == b,
{
    lemma_byte_spans();
    lemma_be_roundtrip(a.slot as nat, 8);
    lemma_be_roundtrip(b.slot as nat, 8);
    lemma_le_roundtrip(a.nonce as nat, 4);
    lemma_le_roundtrip(b.nonce as nat, 4);
    lemma_be_roundtrip(a.hi as nat, 16);
    lemma_be_roundtrip(b.hi as nat, 16);
    lemma_be_roundtrip(a.lo as nat, 16);
    lemma_be_roundtrip(b.lo as nat, 16);
    assert(a.bytes().subrange(0, 8) =~= be_bytes(a.slot as nat, 8));
    assert(b.bytes().subrange(0, 8) =~= be_bytes(b.slot as nat, 8));
    assert(a.bytes().subrange(8, 12) =~= le_bytes(a.nonce as nat, 4));
    assert(b.bytes().subrange(8, 12) =~= le_bytes(b.nonce as nat, 4));
    assert(a.bytes()[12] == a.tag);
    assert(b.bytes()[12] == b.tag);
    assert(a.bytes().subrange(13, 29) =~= be_bytes(a.hi as nat, 16));
    assert(b.bytes().subrange(13, 29) =~= be_bytes(b.hi as nat, 16));
    assert(a.bytes().subrange(29, 45) =~= be_bytes(a.lo as nat, 16));
    assert(b.bytes().subrange(29, 45) =~= be_bytes(b.lo as nat, 16));
}

/// Requests with one key are for one slot and under one nonce, and go to one
/// peer, or to one port of one address of a family.
pub proof fn law_key_tells_route(
    s1: u64,
    n1: u32,
    r1: RepairRoute,
    s2: u64,
    n2: u32,
    r2: RepairRoute,
)
    requires
        key_for(s1, n1, r1) == key_for(s2, n2, r2),
    ensures
        s1 == s2,
        n1 == n2,
        match (r1, r2) {
            (RepairRoute::Addr(a), RepairRoute::Addr(b)) => a.port == b.port && ((a.ip is V4)
                == (b.ip is V4) ==> a == b),
            (RepairRoute::Peer(a), RepairRoute::Peer(b)) => a == b,
            _ => false,
        },
{
}

/// Keys lie in the order of their slots.
pub proof fn law_keys_in_slot_order(a: RepairKey, b: RepairKey)
    ensures
        a.slot < b.slot ==> a.rank() < b.rank(),
{
    lemma_tail_rank(a, b);
    lemma_tail_rank(b, a);
    lemma_lexicographic(a.slot as int, a.tail_rank(), b.slot as int, b.tail_rank(), tail_span());
}

/// What is kept can be taken out again by what its answer shows, and then it
/// is gone.
pub proof fn law_insert_then_remove(store: Map<RepairKey, Outstanding>, request: OutstandingRequest)
    ensures
        ({
            let kept = store.insert(request.key(), Outstanding::of(request));
            let key = key_for(request.slot, request.nonce, request.target.route_of());
            &&& kept.dom().contains(key)
            &&& kept[key] == Outstanding::of(request)
            &&& waits_for(kept, request.slot)
            &&& !kept.remove(key).dom().contains(key)
        }),
{
    let kept = store.insert(request.key(), Outstanding::of(request));
    assert(kept.dom().contains(request.key()));
    assert(request.key().slot == request.slot);
}

/// Once a slot is cancelled, nothing waits for it, and other slots are as
/// they were.
pub proof fn law_remove_slot(store: Map<RepairKey, Outstanding>, slot: u64, other: u64)
    requires
        other != slot,
    ensures
        !waits_for(store.remove_keys(keys_of(store, slot)), slot),
        waits_for(store.remove_keys(keys_of(store, slot)), other) == waits_for(store, other),
{
    let after = store.remove_keys(keys_of(store, slot));
    if waits_for(store, other) {
        let k = choose|k: RepairKey| #[trigger] store.dom().contains(k) && k.slot == other;
        assert(after.dom().contains(k));
    }
    if waits_for(after, other) {
        let k = choose|k: RepairKey| #[trigger] after.dom().contains(k) && k.slot == other;
        assert(store.dom().contains(k));
    }
}

/// A request that is asked again asks for the same: only the peer, the nonce and
/// the time are new.
pub proof fn law_retry_asks_for_the_same(
    request: OutstandingRequest,
    wire: MappedRequest,
    now_ms: u64,
)
    ensures
        ({
            let again = retried(request, wire, now_ms);
            &&& again.kind == request.kind
            &&& again.slot == request.slot
            &&& again.shred == request.shred
            &&& again.nonce == wire.nonce
            &&& again.target == wire.target
            &&& again.sent_at == now_ms
        }),
{
}

/// What is kept of a request is what it asked for, of whom and when, under a key
/// that holds its slot and its nonce.
pub proof fn law_kept_as_it_was_sent(request: OutstandingRequest)
    ensures
        ({
            let kept = Outstanding::of(request);
            &&& kept.kind == request.kind
            &&& kept.shred_index == request.shred
            &&& kept.sent_at == request.sent_at
            &&& kept.target == request.target
            &&& request.key().slot == request.slot
            &&& request.key().nonce == request.nonce
        }),
{
}

} // verus!
