//! Asking peers for missing shreds.

use vstd::prelude::*;
use crate::codec::{from_le, get_le, lemma_byte_spans, lemma_from_le_bound};

pub mod outstanding_timers;
pub mod peer_cache;
pub mod peer_manager;
pub mod request;

verus! {

/// The nonce that a repair response ends with: its last four bytes.
pub open spec fn nonce_of(packet: Seq<u8>) -> Option<u32> {
    if packet.len() < 4 {
        None
    } else {
        Some(from_le(packet.skip(packet.len() - 4)) as u32)
    }
}

pub fn repair_nonce(packet: &[u8]) -> (nonce: Option<u32>)
    ensures
        nonce == nonce_of(packet@),
{
    let n: usize = packet.len();
    if n < 4 {
        return None;
    }
    let ghost tail = packet@.skip(n - 4);
    proof {
        lemma_byte_spans();
        lemma_from_le_bound(tail);
        assert(packet@.subrange(n - 4, n as int) =~= tail);
    }
    Some(get_le(packet, n - 4, 4) as u32)
}

/// What a request asks for.
#[derive(Clone, Copy, Debug, PartialEq, Eq, Structural)]
pub enum OutstandingRequestKind {
    /// One shred.
    WindowIndex,
    /// The highest shred from an index on.
    HighestWindowIndex,
}

} // verus!
