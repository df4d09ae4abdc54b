//! Which packets are let in: those whose Merkle root the slot's leader signed.

use scc::HashCache;
use solana_sdk::signature::Signature;
use std::collections::hash_map::RandomState;
use vstd::arithmetic::power2::{lemma2_to64, pow2};
use vstd::prelude::*;
use crate::layout::{
    field, get_index, get_signature, get_slot, OFFSET_OF_INDEX, OFFSET_OF_SLOT, SIZE_OF_SIGNATURE,
};
use crate::pubkey::Pubkey;
use crate::repair::{nonce_of, repair_nonce};
use crate::store::slot_meta::{is_plain_limit, BUCKET_ENTRIES};

verus! {

/// How many threads check signatures.
pub const PACKET_PROCESSOR_THREADS: usize = 4;

/// How many checked signatures there is room for.
pub const MAX_CHECKED: usize = 262_144;

/// Whether `signature` is one by `key` under `message`.
pub uninterp spec fn ed25519_verifies(
    signature: Seq<u8>,
    key: Seq<u8>,
    message: Seq<u8>,
) -> bool;

/// `Signature::verify`: whether the signature holds is a function of its
/// bytes, the key and the message.
#[verifier::external_body]
fn verify_signature(signature: &[u8; 64], key: &[u8], message: &[u8]) -> (ok: bool)
    ensures
        ok == ed25519_verifies(signature@, key@, message@),
{
    Signature::from(*signature).verify(key, message)
}

/// A signature, its key and its message, 128 bytes.
pub type SigCacheKey = [u8; 128];

/// The keys that a cache holds.
pub uninterp spec fn checked_keys(cache: HashCache<SigCacheKey, (), RandomState>) -> Set<Seq<u8>>;

/// The capacity that a cache does not grow beyond.
pub uninterp spec fn key_room(cache: HashCache<SigCacheKey, (), RandomState>) -> nat;

/// `HashCache::with_capacity`: an empty cache. The limit that it grows to is
/// `maximum` where that is a power of two, neither too small nor too large;
/// what it is rounded to otherwise is not claimed.
#[verifier::external_body]
fn new_sig_cache(minimum: usize, maximum: usize) -> (cache: HashCache<SigCacheKey, (), RandomState>)
    ensures
        checked_keys(cache) == Set::<Seq<u8>>::empty(),
        minimum == 0 && is_plain_limit(maximum) ==> key_room(cache) == maximum,
{
    HashCache::with_capacity(minimum, maximum)
}

/// `HashCache::contains_sync`: whether the key is there. It only looks.
#[verifier::external_body]
fn sig_cached(cache: &HashCache<SigCacheKey, (), RandomState>, key: &SigCacheKey) -> (r: bool)
    ensures
        r == checked_keys(*cache).contains(key@),
{
    cache.contains_sync(key)
}

/// `HashCache::put_sync`: puts the key in, if it is not there. Where the bucket
/// that it falls into is full, one key of that bucket goes; which one is not
/// claimed.
#[verifier::external_body]
fn cache_sig(cache: &mut HashCache<SigCacheKey, (), RandomState>, key: SigCacheKey)
    ensures
        exists|gone: Option<Seq<u8>>| #[trigger]
            is_added(checked_keys(*old(cache)), checked_keys(*final(cache)), key@, gone),
        key_room(*final(cache)) == key_room(*old(cache)),
{
    let _ = cache.put_sync(key, ());
}

/// `key` has been added. If it is new, another may have made room for it, which
/// `gone` then names.
pub open spec fn is_added(
    before: Set<Seq<u8>>,
    after: Set<Seq<u8>>,
    key: Seq<u8>,
    gone: Option<Seq<u8>>,
) -> bool {
    match gone {
        Some(other) => {
            &&& before.contains(other)
            &&& !before.contains(key)
            &&& before.len() >= BUCKET_ENTRIES
            &&& after == before.remove(other).insert(key)
        },
        None => after == before.insert(key),
    }
}

/// What is remembered of a signature: the packet's signature, the leader and the
/// Merkle root.
pub open spec fn sig_key(packet: Seq<u8>, root: Option<[u8; 32]>, leader: Pubkey) -> Seq<u8> {
    packet.subrange(0, 64) + leader.bytes() + (root->0)@
}

fn make_key(signature: &[u8; 64], leader: &[u8], root: &[u8; 32]) -> (key: SigCacheKey)
    requires
        leader@.len() == 32,
    ensures
        key@ == signature@ + leader@ + root@,
{
    let mut key: SigCacheKey = [0u8;128];
    let mut i: usize = 0;
    while i < 128
        invariant
            i <= 128,
            leader@.len() == 32,
            forall|j: int| 0 <= j < i ==> key@[j] == (signature@ + leader@ + root@)[j],
        decreases 128 - i,
    {
        let byte: u8 = if i < 64 {
            signature[i]
        } else if i < 96 {
            leader[i - 64]
        } else {
            root[i - 96]
        };
        key[i] = byte;
        i += 1;
    }
    assert(key@ =~= signature@ + leader@ + root@);
    key
}

/// What to do with a packet.
#[derive(Clone, Copy, Debug, PartialEq, Eq, Structural)]
pub enum FilterVerdict {
    /// Hand it on, to the overlay too where there is one.
    Pass { to_overlay: bool },
    /// Drop it.
    Reject,
    /// Drop it, though it looks like the answer to a repair request.
    RejectRepair,
}

/// The signature that a packet begins with is the leader's, over its Merkle
/// root.
pub open spec fn signed_by(packet: Seq<u8>, root: Option<[u8; 32]>, leader: Pubkey) -> bool {
    packet.len() >= SIZE_OF_SIGNATURE && root is Some && ed25519_verifies(
        packet.subrange(0, 64),
        leader.bytes(),
        (root->0)@,
    )
}

/// Checks signatures, and remembers those that held.
pub struct PacketProcessor {
    sig_cache: HashCache<SigCacheKey, (), RandomState>,
    has_overlay: bool,
}

impl PacketProcessor {
    /// The signatures that are remembered.
    pub closed spec fn remembered(&self) -> Set<Seq<u8>> {
        checked_keys(self.sig_cache)
    }

    /// Only signatures that held are remembered.
    pub closed spec fn wf(&self) -> bool {
        &&& checked_keys(self.sig_cache).finite()
        &&& key_room(self.sig_cache) == MAX_CHECKED
        &&& forall|key: Seq<u8>| #[trigger]
            checked_keys(self.sig_cache).contains(key) ==> key.len() == 128 && ed25519_verifies(
                key.subrange(0, 64),
                key.subrange(64, 96),
                key.subrange(96, 128),
            )
    }

    /// The capacity that what is remembered does not grow beyond.
    pub closed spec fn room(&self) -> nat {
        key_room(self.sig_cache)
    }

    /// What a consistent processor remembers can be counted, and its capacity
    /// goes up to [`MAX_CHECKED`].
    pub proof fn lemma_room(&self)
        requires
            self.wf(),
        ensures
            self.remembered().finite(),
            self.room() == MAX_CHECKED,
    {
    }

    /// What a consistent processor gives its callers: each signature that is
    /// remembered held.
    pub proof fn lemma_wf(&self, key: Seq<u8>)
        requires
            self.wf(),
            self.remembered().contains(key),
        ensures
            key.len() == 128,
            ed25519_verifies(key.subrange(0, 64), key.subrange(64, 96), key.subrange(96, 128)),
    {
    }

    pub closed spec fn has_overlay(&self) -> bool {
        self.has_overlay
    }

    /// `after` is this processor once a packet has been checked: a signature
    /// that holds is remembered from then on.
    pub open spec fn remembers(
        &self,
        packet: Seq<u8>,
        root: Option<[u8; 32]>,
        leader: Pubkey,
        after: &Self,
    ) -> bool {
        if signed_by(packet, root, leader) {
            exists|gone: Option<Seq<u8>>| #[trigger]
                is_added(
                    self.remembered(),
                    after.remembered(),
                    sig_key(packet, root, leader),
                    gone,
                )
        } else {
            after.remembered() == self.remembered()
        }
    }

    pub fn new(has_overlay: bool) -> (processor: Self)
        ensures
            processor.wf(),
            processor.has_overlay() == has_overlay,
            processor.remembered() == Set::<Seq<u8>>::empty(),
    {
        proof {
            lemma2_to64();
            assert(MAX_CHECKED == pow2(18));
        }
        PacketProcessor { sig_cache: new_sig_cache(0, MAX_CHECKED), has_overlay }
    }

    /// Whether the leader signed the packet. `root` is its Merkle root, if that
    /// can be told.
    pub fn validate_packet(
        &mut self,
        packet: &[u8],
        root: Option<[u8; 32]>,
        leader: Pubkey,
    ) -> (ok: bool)
        requires
            old(self).wf(),
        ensures
            final(self).wf(),
            final(self).has_overlay() == old(self).has_overlay(),
            ok == signed_by(packet@, root, leader),
            old(self).remembers(packet@, root, leader, final(self)),
    {
        let (sig, data) = match (get_signature(packet), root) {
            (Some(sig), Some(data)) => (sig, data),
            _ => {
                return false;
            },
        };
        let leader_bytes = leader.to_bytes();
        proof {
            leader.lemma_len();
        }
        let key = make_key(&sig, &leader_bytes, &data);
        proof {
            assert(key@.subrange(0, 64) =~= sig@);
            assert(key@.subrange(64, 96) =~= leader.bytes());
            assert(key@.subrange(96, 128) =~= data@);
            assert(key@ =~= sig_key(packet@, root, leader));
        }
        let ghost before = self.remembered();
        if sig_cached(&self.sig_cache, &key) {
            proof {
                assert(before =~= before.insert(key@));
                assert(is_added(before, before, key@, None));
            }
            return true;
        }
        if verify_signature(&sig, &leader_bytes, &data) {
            cache_sig(&mut self.sig_cache, key);
            proof {
                let gone = choose|gone: Option<Seq<u8>>| #[trigger]
                    is_added(before, self.remembered(), key@, gone);
                assert(is_added(before, self.remembered(), key@, gone));
            }
            true
        } else {
            false
        }
    }

    /// Decides what to do with a packet.
    pub fn filter_packet(
        &mut self,
        packet: &[u8],
        root: Option<[u8; 32]>,
        leader: Pubkey,
    ) -> (verdict: FilterVerdict)
        requires
            old(self).wf(),
        ensures
            final(self).wf(),
            final(self).has_overlay() == old(self).has_overlay(),
            old(self).remembers(packet@, root, leader, final(self)),
            verdict == (if signed_by(packet@, root, leader) {
                FilterVerdict::Pass { to_overlay: old(self).has_overlay() }
            } else if nonce_of(packet@) is Some {
                FilterVerdict::RejectRepair
            } else {
                FilterVerdict::Reject
            }),
    {
        if self.validate_packet(packet, root, leader) {
            FilterVerdict::Pass { to_overlay: self.has_overlay }
        } else if repair_nonce(packet).is_some() {
            FilterVerdict::RejectRepair
        } else {
            FilterVerdict::Reject
        }
    }
}

/// Which of the threads checks a shred: shreds of one index go to one thread.
pub fn lane_for(index: u32, lanes: usize) -> (lane: usize)
    requires
        0 < lanes,
    ensures
        lane == index as int % lanes as int,
        lane < lanes,
{
    index as usize % lanes
}

/// The lane and the slot of a packet, if they can be read off it: its index
/// picks the lane, its slot the leader whose signature it has to have.
pub fn lane_of(packet: &[u8], lanes: usize) -> (r: Option<(usize, u64)>)
    requires
        0 < lanes,
    ensures
        match (
            field(packet@, OFFSET_OF_INDEX as int, 4),
            field(packet@, OFFSET_OF_SLOT as int, 8),
        ) {
            (Some(index), Some(slot)) => r == Some(
                ((index as u32 as int % lanes as int) as usize, slot as u64),
            ),
            _ => r is None,
        },
{
    match (get_index(packet), get_slot(packet)) {
        (Some(index), Some(slot)) => Some((lane_for(index, lanes), slot)),
        _ => None,
    }
}

/// A packet is let in exactly if what it begins with is the leader's signature of
/// its Merkle root.
pub proof fn law_signature_is_checked(
    signature: Seq<u8>,
    rest: Seq<u8>,
    root: [u8; 32],
    leader: Pubkey,
)
    requires
        signature.len() == 64,
    ensures
        signed_by(signature + rest, Some(root), leader) == ed25519_verifies(
            signature,
            leader.bytes(),
            root@,
        ),
        !signed_by(signature + rest, None, leader),
        forall|short: Seq<u8>, root: Option<[u8; 32]>|
            short.len() < 64 ==> !#[trigger] signed_by(short, root, leader),
{
    assert((signature + rest).subrange(0, 64) =~= signature);
}

/// What is remembered of one signature is not taken for another: it tells the
/// signature, the leader and the root.
pub proof fn law_checks_are_told_apart(
    a: Seq<u8>,
    b: Seq<u8>,
    root_a: [u8; 32],
    root_b: [u8; 32],
    leader_a: Pubkey,
    leader_b: Pubkey,
)
    requires
        a.len() >= 64,
        b.len() >= 64,
        sig_key(a, Some(root_a), leader_a) == sig_key(b, Some(root_b), leader_b),
    ensures
        a.subrange(0, 64) == b.subrange(0, 64),
        leader_a == leader_b,
        root_a@ == root_b@,
{
    leader_a.lemma_len();
    leader_b.lemma_len();
    let x = sig_key(a, Some(root_a), leader_a);
    let y = sig_key(b, Some(root_b), leader_b);
    assert(x.subrange(0, 64) =~= a.subrange(0, 64));
    assert(y.subrange(0, 64) =~= b.subrange(0, 64));
    assert(x.subrange(64, 96) =~= leader_a.bytes());
    assert(y.subrange(64, 96) =~= leader_b.bytes());
    assert(x.subrange(96, 128) =~= root_a@);
    assert(y.subrange(96, 128) =~= root_b@);
    Pubkey::lemma_bytes_injective(leader_a, leader_b);
}

/// A signature that held is remembered, one that did not is not, and of the
/// others that are at most one is forgotten, which happens only where at least 32
/// are remembered.
pub proof fn law_what_held_is_remembered(
    before: PacketProcessor,
    after: PacketProcessor,
    packet: Seq<u8>,
    root: Option<[u8; 32]>,
    leader: Pubkey,
)
    requires
        before.remembers(packet, root, leader, &after),
    ensures
        signed_by(packet, root, leader) ==> after.remembered().contains(
            packet.subrange(0, 64) + leader.bytes() + (root->0)@,
        ),
        signed_by(packet, root, leader) ==> after.remembered().subset_of(
            before.remembered().insert(packet.subrange(0, 64) + leader.bytes() + (root->0)@),
        ),
        !signed_by(packet, root, leader) ==> after.remembered() == before.remembered(),
        before.remembered().len() < 32 ==> before.remembered().subset_of(after.remembered()),
        forall|a: Seq<u8>, b: Seq<u8>|
            #![trigger before.remembered().contains(a), before.remembered().contains(b)]
            a != b && before.remembered().contains(a) && before.remembered().contains(b)
                ==> after.remembered().contains(a) || after.remembered().contains(b),
{
}

} // verus!
