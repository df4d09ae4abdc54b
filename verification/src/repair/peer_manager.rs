//! From missing shreds to requests to peers.

use rand::rngs::SmallRng;
use rand::{Rng, SeedableRng};
use uluru::LRUCache;
use vstd::prelude::*;
use crate::addr::SocketAddr;
use crate::pubkey::Pubkey;

verus! {

/// Where a request goes: a UDP endpoint of the cluster, or an overlay peer.
#[derive(Clone, Copy, Debug, PartialEq, Eq, Structural)]
pub enum RepairTarget {
    Udp(SocketAddr, Pubkey),
    Overlay(Pubkey),
}

/// What a response can be told by: the address it came from, or the peer that
/// its stream ran to.
#[derive(Clone, Copy, Debug, PartialEq, Eq, Structural)]
pub enum RepairRoute {
    Addr(SocketAddr),
    Peer(Pubkey),
}

impl RepairTarget {
    pub open spec fn route_of(self) -> RepairRoute {
        match self {
            RepairTarget::Udp(socket, _) => RepairRoute::Addr(socket),
            RepairTarget::Overlay(pubkey) => RepairRoute::Peer(pubkey),
        }
    }

    pub open spec fn identity(self) -> Pubkey {
        match self {
            RepairTarget::Udp(_, pubkey) => pubkey,
            RepairTarget::Overlay(pubkey) => pubkey,
        }
    }

    pub fn route(&self) -> (route: RepairRoute)
        ensures
            route == self.route_of(),
    {
        match self {
            RepairTarget::Udp(socket, _) => RepairRoute::Addr(*socket),
            RepairTarget::Overlay(pubkey) => RepairRoute::Peer(*pubkey),
        }
    }

    pub fn pubkey(&self) -> (pubkey: Pubkey)
        ensures
            pubkey == self.identity(),
    {
        match self {
            RepairTarget::Udp(_, pubkey) => *pubkey,
            RepairTarget::Overlay(pubkey) => *pubkey,
        }
    }
}

/// Where the peers to ask come from.
pub trait RepairPeerSource {
    /// Asked about `slot`, the source gives `found` and is then `after`.
    open spec fn samples(&self, slot: u64, found: Option<RepairTarget>, after: &Self) -> bool {
        true
    }

    /// A peer that may have shreds of `slot`, if there is any.
    fn sample_peer(&mut self, slot: u64) -> (found: Option<RepairTarget>)
        ensures
            old(self).samples(slot, found, &*final(self)),
    ;
}

/// The header of a cluster repair request.
#[derive(Clone, Copy, Debug, PartialEq, Eq, Structural)]
pub struct RepairRequestHeader {
    pub sender: Pubkey,
    pub recipient: Pubkey,
    /// Milliseconds since the epoch.
    pub timestamp: u64,
    pub nonce: u32,
}

/// What goes over the wire: a cluster request, which is signed before it is
/// sent, or an overlay request, which travels on a stream of its own and so
/// needs no nonce.
#[allow(inconsistent_fields)]
#[derive(Clone, Copy, Debug, PartialEq, Eq, Structural)]
pub enum WireRequest {
    Cluster { header: RepairRequestHeader, slot: u64, shred_index: u64, highest: bool },
    Overlay { slot: u64, shred_index: u32, highest: bool },
}

/// A request and where it goes.
#[derive(Clone, Copy, Debug, PartialEq, Eq, Structural)]
pub struct MappedRequest {
    pub target: RepairTarget,
    pub nonce: u32,
    pub wire: WireRequest,
}

/// The request for a shred from `target` under `nonce`.
pub open spec fn mapped(
    sender: Pubkey,
    target: RepairTarget,
    nonce: u32,
    now_ms: u64,
    slot: u64,
    shred_index: u32,
    highest: bool,
) -> MappedRequest {
    MappedRequest {
        target,
        nonce,
        wire: match target {
            RepairTarget::Udp(_, recipient) => WireRequest::Cluster {
                header: RepairRequestHeader { sender, recipient, timestamp: now_ms, nonce },
                slot,
                shred_index: shred_index as u64,
                highest,
            },
            RepairTarget::Overlay(_) => WireRequest::Overlay { slot, shred_index, highest },
        },
    }
}

/// The peer that a request goes to, where there is one.
pub open spec fn peer_of(request: Option<MappedRequest>) -> Option<RepairTarget> {
    match request {
        Some(request) => Some(request.target),
        None => None,
    }
}

pub fn map_request(
    sender: Pubkey,
    target: RepairTarget,
    nonce: u32,
    now_ms: u64,
    slot: u64,
    shred_index: u32,
    highest: bool,
) -> (request: MappedRequest)
    ensures
        request == mapped(sender, target, nonce, now_ms, slot, shred_index, highest),
{
    let wire = match target {
        RepairTarget::Udp(_, recipient) => WireRequest::Cluster {
            header: RepairRequestHeader { sender, recipient, timestamp: now_ms, nonce },
            slot,
            shred_index: shred_index as u64,
            highest,
        },
        RepairTarget::Overlay(_) => WireRequest::Overlay { slot, shred_index, highest },
    };
    MappedRequest { target, nonce, wire }
}

/// `rand`'s small generator.
#[verifier::external_type_specification]
#[verifier::external_body]
pub struct ExSmallRng(SmallRng);

/// `SeedableRng::from_rng` on the thread's generator: a generator seeded from
/// entropy, of which nothing is claimed.
#[verifier::external_body]
fn entropy_rng() -> (rng: SmallRng) {
    SmallRng::from_rng(&mut rand::rng())
}

/// `Rng::random`: any number.
#[verifier::external_body]
fn random_u32(rng: &mut SmallRng) -> (n: u32) {
    rng.random()
}

/// Picks a peer and a nonce for each request.
pub struct RepairRequestMapper<S> {
    source: S,
    identity: Pubkey,
    rng: SmallRng,
}

impl<S: RepairPeerSource> RepairRequestMapper<S> {
    pub closed spec fn identity(&self) -> Pubkey {
        self.identity
    }

    pub closed spec fn source(&self) -> S {
        self.source
    }

    pub fn new(source: S, identity: Pubkey) -> (mapper: Self)
        ensures
            mapper.identity() == identity,
            mapper.source() == source,
    {
        RepairRequestMapper { source, identity, rng: entropy_rng() }
    }

    /// A request for a shred from the peer that the source gives. There is none
    /// where the source has no peer.
    pub fn map_shred(&mut self, now_ms: u64, slot: u64, shred_index: u32, highest: bool) -> (r:
        Option<MappedRequest>)
        ensures
            final(self).identity() == old(self).identity(),
            old(self).source().samples(slot, peer_of(r), &final(self).source()),
            r matches Some(request) ==> request == mapped(
                old(self).identity(),
                request.target,
                request.nonce,
                now_ms,
                slot,
                shred_index,
                highest,
            ),
    {
        let target = match self.source.sample_peer(slot) {
            Some(target) => target,
            None => {
                return None;
            },
        };
        let nonce: u32 = random_u32(&mut self.rng);
        Some(map_request(self.identity, target, nonce, now_ms, slot, shred_index, highest))
    }

    /// A request for one shred.
    pub fn map_bounded_shred(&mut self, now_ms: u64, slot: u64, shred: u32) -> (r: Option<
        MappedRequest,
    >)
        ensures
            final(self).identity() == old(self).identity(),
            old(self).source().samples(slot, peer_of(r), &final(self).source()),
            r matches Some(request) ==> request == mapped(
                old(self).identity(),
                request.target,
                request.nonce,
                now_ms,
                slot,
                shred,
                false,
            ),
    {
        self.map_shred(now_ms, slot, shred, false)
    }

    /// A request for the highest shred from an index on.
    pub fn map_unbounded_shred(&mut self, now_ms: u64, slot: u64, max_exclusive_shred: u32) -> (r:
        Option<MappedRequest>)
        ensures
            final(self).identity() == old(self).identity(),
            old(self).source().samples(slot, peer_of(r), &final(self).source()),
            r matches Some(request) ==> request == mapped(
                old(self).identity(),
                request.target,
                request.nonce,
                now_ms,
                slot,
                max_exclusive_shred,
                true,
            ),
    {
        self.map_shred(now_ms, slot, max_exclusive_shred, true)
    }
}

/// A slot and the peers that may have its shreds.
type PeerList = (u64, Vec<(SocketAddr, Pubkey)>);

/// How many slots' peers are remembered.
pub const MAX_PEER_LISTS: usize = 200;

/// `uluru`'s least-recently-used cache.
#[verifier::external_type_specification]
#[verifier::external_body]
#[verifier::reject_recursive_types(T)]
pub struct ExLRUCache<T, const N: usize>(LRUCache<T, N>);

/// What a cache holds, from the most to the least recently used.
pub uninterp spec fn peer_lists(cache: LRUCache<PeerList, 200>) -> Seq<
    (u64, Seq<(SocketAddr, Pubkey)>),
>;

/// Where the list of `slot` stands.
pub open spec fn place_of(
    lists: Seq<(u64, Seq<(SocketAddr, Pubkey)>)>,
    slot: u64,
) -> Option<int> {
    Seq::new(lists.len(), |i: int| lists[i].0).index_of_first(slot)
}

/// The lists once the one at `at` has been used.
pub open spec fn used(lists: Seq<(u64, Seq<(SocketAddr, Pubkey)>)>, at: int) -> Seq<
    (u64, Seq<(SocketAddr, Pubkey)>),
> {
    seq![lists[at]] + lists.remove(at)
}

/// The lists with one more in front; the last makes room.
pub open spec fn with_list(
    lists: Seq<(u64, Seq<(SocketAddr, Pubkey)>)>,
    slot: u64,
    peers: Seq<(SocketAddr, Pubkey)>,
) -> Seq<(u64, Seq<(SocketAddr, Pubkey)>)> {
    seq![(slot, peers)] + if lists.len() >= MAX_PEER_LISTS {
        lists.take(MAX_PEER_LISTS - 1)
    } else {
        lists
    }
}

/// `LRUCache::new`: an empty cache.
#[verifier::external_body]
fn new_lists() -> (cache: LRUCache<PeerList, 200>)
    ensures
        peer_lists(cache).len() == 0,
{
    LRUCache::new()
}

/// `LRUCache::find`, for the list of `slot`: the first that there is, which
/// becomes the most recently used one. Where there is none, nothing changes.
#[verifier::external_body]
fn find_list(cache: &mut LRUCache<PeerList, 200>, slot: u64) -> (r: Option<
    Vec<(SocketAddr, Pubkey)>,
>)
    ensures
        match place_of(peer_lists(*old(cache)), slot) {
            Some(at) => {
                &&& r is Some
                &&& r->0@ == peer_lists(*old(cache))[at].1
                &&& peer_lists(*final(cache)) == used(peer_lists(*old(cache)), at)
            },
            None => r is None && peer_lists(*final(cache)) == peer_lists(*old(cache)),
        },
{
    let list = cache.find(|list| is_for(list, slot))?;
    Some(list.1.clone())
}

/// `LRUCache::insert`: the list becomes the most recently used one, and the
/// least recently used one of a full cache goes.
#[verifier::external_body]
fn insert_list(cache: &mut LRUCache<PeerList, 200>, slot: u64, peers: Vec<(SocketAddr, Pubkey)>)
    ensures
        peer_lists(*final(cache)) == with_list(peer_lists(*old(cache)), slot, peers@),
{
    let _ = cache.insert((slot, peers));
}

/// Whether a list is that of `slot`.
fn is_for(list: &PeerList, slot: u64) -> (r: bool)
    ensures
        r == (list.0 == slot),
{
    list.0 == slot
}

/// The targets that peers of the cluster are.
pub open spec fn udp_targets(peers: Seq<(SocketAddr, Pubkey)>) -> Seq<RepairTarget> {
    Seq::new(peers.len(), |i: int| RepairTarget::Udp(peers[i].0, peers[i].1))
}

fn as_targets(peers: &Vec<(SocketAddr, Pubkey)>) -> (targets: Vec<RepairTarget>)
    ensures
        targets@ == udp_targets(peers@),
{
    let mut targets: Vec<RepairTarget> = Vec::new();
    let mut i: usize = 0;
    while i < peers.len()
        invariant
            i <= peers@.len(),
            targets@ == udp_targets(peers@).take(i as int),
        decreases peers@.len() - i,
    {
        targets.push(RepairTarget::Udp(peers[i].0, peers[i].1));
        i += 1;
        assert(targets@ =~= udp_targets(peers@).take(i as int));
    }
    assert(targets@ =~= udp_targets(peers@));
    targets
}

/// The contacts that serve repair at some address.
pub open spec fn serving(contacts: Seq<(Option<SocketAddr>, Pubkey)>) -> Seq<(SocketAddr, Pubkey)>
    decreases contacts.len(),
{
    if contacts.len() == 0 {
        Seq::empty()
    } else {
        let rest = serving(contacts.drop_last());
        match contacts.last().0 {
            Some(addr) => rest.push((addr, contacts.last().1)),
            None => rest,
        }
    }
}

/// The repair peers of the cluster, by slot. What the cluster knows is asked
/// once for each slot, and remembered for the last few hundred of them.
pub struct SolanaRepairPeers {
    cache: LRUCache<PeerList, 200>,
}

impl SolanaRepairPeers {
    /// What is remembered, from the most to the least recently used.
    pub closed spec fn lists(&self) -> Seq<(u64, Seq<(SocketAddr, Pubkey)>)> {
        peer_lists(self.cache)
    }

    pub fn new() -> (peers: Self)
        ensures
            peers.lists().len() == 0,
    {
        SolanaRepairPeers { cache: new_lists() }
    }

    /// Whom to ask for shreds of `slot`, if that is remembered.
    pub fn remembered(&mut self, slot: u64) -> (r: Option<Vec<RepairTarget>>)
        ensures
            match place_of(old(self).lists(), slot) {
                Some(at) => {
                    &&& r is Some
                    &&& r->0@ == udp_targets(old(self).lists()[at].1)
                    &&& final(self).lists() == used(old(self).lists(), at)
                },
                None => r is None && final(self).lists() == old(self).lists(),
            },
    {
        match find_list(&mut self.cache, slot) {
            Some(peers) => Some(as_targets(&peers)),
            None => None,
        }
    }

    /// Remembers the contacts of the cluster that may have shreds of `slot`, as
    /// far as they serve repair, and gives them as targets.
    pub fn remember(&mut self, slot: u64, contacts: &Vec<(Option<SocketAddr>, Pubkey)>) -> (targets:
        Vec<RepairTarget>)
        ensures
            final(self).lists() == with_list(old(self).lists(), slot, serving(contacts@)),
            targets@ == udp_targets(serving(contacts@)),
    {
        let mut peers: Vec<(SocketAddr, Pubkey)> = Vec::new();
        let mut i: usize = 0;
        assert(contacts@.take(0) =~= Seq::empty());
        while i < contacts.len()
            invariant
                i <= contacts@.len(),
                peers@ == serving(contacts@.take(i as int)),
            decreases contacts@.len() - i,
        {
            if let Some(addr) = contacts[i].0 {
                peers.push((addr, contacts[i].1));
            }
            proof {
                let next = contacts@.take(i + 1);
                assert(next.drop_last() =~= contacts@.take(i as int));
                assert(next.last() == contacts@[i as int]);
            }
            i += 1;
        }
        assert(contacts@.take(i as int) =~= contacts@);
        let targets = as_targets(&peers);
        insert_list(&mut self.cache, slot, peers);
        targets
    }
}

/// What has just been remembered for a slot is what is found for it, and the
/// memory stays within its bound.
pub proof fn law_remembered_is_found(
    lists: Seq<(u64, Seq<(SocketAddr, Pubkey)>)>,
    slot: u64,
    peers: Seq<(SocketAddr, Pubkey)>,
)
    ensures
        place_of(with_list(lists, slot, peers), slot) == Some(0int),
        with_list(lists, slot, peers)[0].1 == peers,
        lists.len() <= MAX_PEER_LISTS ==> with_list(lists, slot, peers).len() <= MAX_PEER_LISTS,
{
    let after = with_list(lists, slot, peers);
    let keys = Seq::new(after.len(), |i: int| after[i].0);
    assert(keys[0] == slot);
    keys.index_of_first_ensures(slot);
}

/// Using a list only moves it to the front: nothing is forgotten.
pub proof fn law_use_forgets_nothing(
    lists: Seq<(u64, Seq<(SocketAddr, Pubkey)>)>,
    at: int,
    list: (u64, Seq<(SocketAddr, Pubkey)>),
)
    requires
        0 <= at < lists.len(),
    ensures
        used(lists, at).contains(list) <==> lists.contains(list),
        used(lists, at).len() == lists.len(),
{
    let after = used(lists, at);
    if lists.contains(list) {
        let i = lists.index_of(list);
        if i < at {
            assert(after[i + 1] == list);
        } else if i == at {
            assert(after[0] == list);
        } else {
            assert(after[i] == list);
        }
    }
    if after.contains(list) {
        let i = after.index_of(list);
        if i == 0 {
            assert(lists[at] == list);
        } else if i - 1 < at {
            assert(lists[i - 1] == list);
        } else {
            assert(lists[i] == list);
        }
    }
}

/// What goes over the wire is what was asked: from this node to the one that the
/// request is for, now, under its nonce, for the shred of the slot. An overlay
/// peer is asked over its stream, with no more than that.
pub proof fn law_wire_says_what_is_asked(
    sender: Pubkey,
    socket: SocketAddr,
    peer: Pubkey,
    nonce: u32,
    now_ms: u64,
    slot: u64,
    shred_index: u32,
    highest: bool,
)
    ensures
        ({
            let udp = mapped(
                sender,
                RepairTarget::Udp(socket, peer),
                nonce,
                now_ms,
                slot,
                shred_index,
                highest,
            );
            let overlay = mapped(
                sender,
                RepairTarget::Overlay(peer),
                nonce,
                now_ms,
                slot,
                shred_index,
                highest,
            );
            &&& udp.target.route_of() == RepairRoute::Addr(socket)
            &&& udp.target.identity() == peer
            &&& udp.nonce == nonce
            &&& udp.wire matches WireRequest::Cluster { header, slot: s, shred_index: i, highest: h }
                && header.sender == sender && header.recipient == peer && header.timestamp == now_ms
                && header.nonce == nonce && s == slot && i == shred_index && h == highest
            &&& overlay.target.route_of() == RepairRoute::Peer(peer)
            &&& overlay.target.identity() == peer
            &&& overlay.nonce == nonce
            &&& overlay.wire matches WireRequest::Overlay { slot: s, shred_index: i, highest: h }
                && s == slot && i == shred_index && h == highest
        }),
{
}

/// The contacts that are asked are those that serve repair somewhere, at that
/// address, in their order.
pub proof fn law_those_who_serve_are_asked(
    contacts: Seq<(Option<SocketAddr>, Pubkey)>,
    addr: SocketAddr,
    peer: Pubkey,
)
    ensures
        udp_targets(serving(contacts)).contains(RepairTarget::Udp(addr, peer))
            <==> contacts.contains((Some(addr), peer)),
        (forall|i: int| 0 <= i < contacts.len() ==> (#[trigger] contacts[i]).0 is Some) ==> {
            &&& serving(contacts).len() == contacts.len()
            &&& forall|i: int|
                0 <= i < contacts.len() ==> (#[trigger] serving(contacts)[i]) == (
                    contacts[i].0->0,
                    contacts[i].1,
                )
        },
    decreases contacts.len(),
{
    let target = RepairTarget::Udp(addr, peer);
    if contacts.len() > 0 {
        let rest = contacts.drop_last();
        let n = contacts.len() - 1;
        law_those_who_serve_are_asked(rest, addr, peer);
        assert(contacts[n] == contacts.last());
        let had = serving(rest);
        let now = serving(contacts);
        let a = udp_targets(had);
        let b = udp_targets(now);
        if contacts.contains((Some(addr), peer)) && contacts[n] != (Some(addr), peer) {
            let i = contacts.index_of((Some(addr), peer));
            assert(rest[i] == (Some(addr), peer));
        }
        if rest.contains((Some(addr), peer)) {
            let i = rest.index_of((Some(addr), peer));
            assert(contacts[i] == (Some(addr), peer));
        }
        if a.contains(target) {
            let i = a.index_of(target);
            assert(now[i] == had[i]);
            assert(b[i] == target);
        }
        if contacts[n] == (Some(addr), peer) {
            assert(b[had.len() as int] == target);
        }
        if b.contains(target) {
            let i = b.index_of(target);
            if i < had.len() {
                assert(a[i] == target);
            } else {
                assert(contacts[n].0 is Some);
                assert(contacts[n] == (Some(addr), peer));
            }
        }
        if forall|i: int| 0 <= i < contacts.len() ==> (#[trigger] contacts[i]).0 is Some {
            assert forall|i: int| 0 <= i < rest.len() implies (#[trigger] rest[i]).0 is Some by {
                assert(contacts[i].0 is Some);
            }
            assert(contacts[n].0 is Some);
            assert forall|i: int| 0 <= i < contacts.len() implies (
            #[trigger] serving(contacts)[i]) == (contacts[i].0->0, contacts[i].1) by {
                if i < n {
                    assert(had[i] == (rest[i].0->0, rest[i].1));
                }
            }
        }
    }
}

/// The peers of two hundred slots are remembered: a list goes only when two
/// hundred newer ones are there, and then it is the one that was used the longest
/// ago.
pub proof fn law_two_hundred_lists(
    lists: Seq<(u64, Seq<(SocketAddr, Pubkey)>)>,
    slot: u64,
    peers: Seq<(SocketAddr, Pubkey)>,
)
    ensures
        ({
            let after = with_list(lists, slot, peers);
            &&& after[0] == (slot, peers)
            &&& lists.len() < 200 ==> after.len() == lists.len() + 1
            &&& lists.len() == 200 ==> after.len() == 200
            &&& forall|i: int|
                0 <= i < lists.len() && i < 199 ==> after[i + 1] == #[trigger] lists[i]
        }),
{
}

} // verus!
