//! How a shred is laid out on the wire: the signature, then the common header
//! in little-endian, then what belongs to its kind.

use vstd::prelude::*;
use crate::codec::{
    from_le, get_le, le_bytes, lemma_byte_spans, lemma_from_le_bound, lemma_le_roundtrip,
};
use crate::types::{ShredHeader, ShredType};

verus! {

pub const SIZE_OF_SIGNATURE: usize = 64;

pub const OFFSET_OF_VARIANT: usize = 64;

pub const OFFSET_OF_SLOT: usize = 65;

pub const OFFSET_OF_INDEX: usize = 73;

pub const OFFSET_OF_VERSION: usize = 77;

pub const OFFSET_OF_FEC_SET_INDEX: usize = 79;

pub const SIZE_OF_COMMON_HEADER: usize = 83;

pub const OFFSET_OF_FLAGS: usize = 85;

/// Both of these bits are set in the flags of a slot's last shred.
pub const LAST_SHRED_IN_SLOT: u8 = 0b1100_0000;

/// The number that the `n` bytes at `at` spell, if they are there.
pub open spec fn field(shred: Seq<u8>, at: int, n: int) -> Option<nat> {
    if at + n <= shred.len() {
        Some(from_le(shred.subrange(at, at + n)))
    } else {
        None
    }
}

/// The kind that a variant byte stands for: Merkle shreds have it in the high
/// nibble, and the shreds before them in the whole byte.
pub open spec fn kind_of_variant(variant: u8) -> Option<ShredType> {
    if variant == 0x5a || variant / 16 == 4 || variant / 16 == 6 || variant / 16 == 7 {
        Some(ShredType::Code)
    } else if variant == 0xa5 || variant / 16 == 8 || variant / 16 == 9 || variant / 16 == 11 {
        Some(ShredType::Data)
    } else {
        None
    }
}

/// The kind of a shred.
pub open spec fn kind_of(shred: Seq<u8>) -> Option<ShredType> {
    if shred.len() > OFFSET_OF_VARIANT {
        kind_of_variant(shred[OFFSET_OF_VARIANT as int])
    } else {
        None
    }
}

/// The common header of a shred, if it is all there.
pub open spec fn header_of(shred: Seq<u8>) -> Option<ShredHeader> {
    if shred.len() < SIZE_OF_COMMON_HEADER {
        None
    } else {
        match kind_of(shred) {
            Some(kind) => Some(
                ShredHeader {
                    slot: field(shred, OFFSET_OF_SLOT as int, 8)->0 as u64,
                    index: field(shred, OFFSET_OF_INDEX as int, 4)->0 as u32,
                    version: field(shred, OFFSET_OF_VERSION as int, 2)->0 as u16,
                    fec_set_index: field(shred, OFFSET_OF_FEC_SET_INDEX as int, 4)->0 as u32,
                    kind,
                },
            ),
            None => None,
        }
    }
}

/// Whether a data shred is the last of its slot; a coding shred does not tell.
pub open spec fn last_of(shred: Seq<u8>) -> Option<bool> {
    if kind_of(shred) == Some(ShredType::Data) && shred.len() > OFFSET_OF_FLAGS {
        Some(shred[OFFSET_OF_FLAGS as int] >= LAST_SHRED_IN_SLOT)
    } else {
        None
    }
}

/// The number that the `n` bytes at `at` spell.
fn read_field(shred: &[u8], at: usize, n: usize) -> (r: Option<u128>)
    requires
        at + n <= usize::MAX,
        n <= 16,
    ensures
        match field(shred@, at as int, n as int) {
            Some(x) => r matches Some(y) && y == x,
            None => r is None,
        },
{
    if shred.len() < at + n {
        return None;
    }
    Some(get_le(shred, at, n))
}

pub fn get_slot(shred: &[u8]) -> (r: Option<u64>)
    ensures
        r == (match field(shred@, OFFSET_OF_SLOT as int, 8) {
            Some(x) => Some(x as u64),
            None => None,
        }),
{
    match read_field(shred, OFFSET_OF_SLOT, 8) {
        Some(x) => {
            proof {
                lemma_byte_spans();
                lemma_from_le_bound(shred@.subrange(65, 73));
            }
            Some(x as u64)
        },
        None => None,
    }
}

pub fn get_index(shred: &[u8]) -> (r: Option<u32>)
    ensures
        r == (match field(shred@, OFFSET_OF_INDEX as int, 4) {
            Some(x) => Some(x as u32),
            None => None,
        }),
{
    match read_field(shred, OFFSET_OF_INDEX, 4) {
        Some(x) => {
            proof {
                lemma_byte_spans();
                lemma_from_le_bound(shred@.subrange(73, 77));
            }
            Some(x as u32)
        },
        None => None,
    }
}

pub fn get_shred_type(shred: &[u8]) -> (r: Option<ShredType>)
    ensures
        r == kind_of(shred@),
{
    if shred.len() <= OFFSET_OF_VARIANT {
        return None;
    }
    let variant: u8 = shred[OFFSET_OF_VARIANT];
    let nibble: u8 = variant / 16;
    if variant == 0x5a || nibble == 4 || nibble == 6 || nibble == 7 {
        Some(ShredType::Code)
    } else if variant == 0xa5 || nibble == 8 || nibble == 9 || nibble == 11 {
        Some(ShredType::Data)
    } else {
        None
    }
}

pub fn get_common_header(shred: &[u8]) -> (r: Option<ShredHeader>)
    ensures
        r == header_of(shred@),
{
    if shred.len() < SIZE_OF_COMMON_HEADER {
        return None;
    }
    let kind = match get_shred_type(shred) {
        Some(kind) => kind,
        None => {
            return None;
        },
    };
    proof {
        lemma_byte_spans();
        lemma_from_le_bound(shred@.subrange(65, 73));
        lemma_from_le_bound(shred@.subrange(73, 77));
        lemma_from_le_bound(shred@.subrange(77, 79));
        lemma_from_le_bound(shred@.subrange(79, 83));
    }
    Some(
        ShredHeader {
            slot: get_le(shred, OFFSET_OF_SLOT, 8) as u64,
            index: get_le(shred, OFFSET_OF_INDEX, 4) as u32,
            version: get_le(shred, OFFSET_OF_VERSION, 2) as u16,
            fec_set_index: get_le(shred, OFFSET_OF_FEC_SET_INDEX, 4) as u32,
            kind,
        },
    )
}

/// Whether a data shred is the last of its slot.
pub fn get_last_in_slot(shred: &[u8]) -> (r: Option<bool>)
    ensures
        r == last_of(shred@),
{
    match get_shred_type(shred) {
        Some(ShredType::Data) => {
            if shred.len() > OFFSET_OF_FLAGS {
                Some(shred[OFFSET_OF_FLAGS] >= LAST_SHRED_IN_SLOT)
            } else {
                None
            }
        },
        _ => None,
    }
}

pub fn get_signature(shred: &[u8]) -> (r: Option<[u8; 64]>)
    ensures
        match r {
            Some(signature) => SIZE_OF_SIGNATURE <= shred@.len() && signature@
                == shred@.subrange(0, 64),
            None => shred@.len() < SIZE_OF_SIGNATURE,
        },
{
    if shred.len() < SIZE_OF_SIGNATURE {
        return None;
    }
    let mut signature: [u8; 64] = [0u8;64];
    let mut i: usize = 0;
    while i < 64
        invariant
            i <= 64,
            64 <= shred@.len(),
            forall|j: int| 0 <= j < i ==> signature@[j] == shred@[j],
        decreases 64 - i,
    {
        signature[i] = shred[i];
        i += 1;
    }
    assert(signature@ =~= shred@.subrange(0, 64));
    Some(signature)
}

/// The flags of a slot's last shred are those with both bits set.
pub proof fn law_last_shred_bits(flags: u8)
    ensures
        (flags >= LAST_SHRED_IN_SLOT) == (flags & 0b1100_0000u8 == 0b1100_0000u8),
{
    assert((flags >= 0b1100_0000u8) == (flags & 0b1100_0000u8 == 0b1100_0000u8)) by (bit_vector);
}

/// A shred is its signature, the byte of its variant, and its slot, index,
/// version and batch in little-endian, before what belongs to its kind: what
/// was written there is what is read.
pub proof fn law_header_is_read_back(
    signature: Seq<u8>,
    variant: u8,
    header: ShredHeader,
    rest: Seq<u8>,
)
    requires
        signature.len() == 64,
        (header.kind is Data ==> variant / 16 == 8 || variant / 16 == 9 || variant / 16 == 11
            || variant == 0xa5),
        (header.kind is Code ==> variant / 16 == 4 || variant / 16 == 6 || variant / 16 == 7
            || variant == 0x5a),
    ensures
        ({
            let shred = signature + seq![variant] + le_bytes(header.slot as nat, 8) + le_bytes(
                header.index as nat,
                4,
            ) + le_bytes(header.version as nat, 2) + le_bytes(header.fec_set_index as nat, 4)
                + rest;
            &&& header_of(shred) == Some(header)
            &&& kind_of(shred) == Some(header.kind)
            &&& field(shred, OFFSET_OF_SLOT as int, 8) == Some(header.slot as nat)
            &&& field(shred, OFFSET_OF_INDEX as int, 4) == Some(header.index as nat)
            &&& last_of(shred) == (if header.kind is Data && rest.len() >= 3 {
                Some(rest[2] & 0b1100_0000u8 == 0b1100_0000u8)
            } else {
                None::<bool>
            })
        }),
{
    let slot = le_bytes(header.slot as nat, 8);
    let index = le_bytes(header.index as nat, 4);
    let version = le_bytes(header.version as nat, 2);
    let fec = le_bytes(header.fec_set_index as nat, 4);
    let shred = signature + seq![variant] + slot + index + version + fec + rest;
    lemma_byte_spans();
    lemma_le_roundtrip(header.slot as nat, 8);
    lemma_le_roundtrip(header.index as nat, 4);
    lemma_le_roundtrip(header.version as nat, 2);
    lemma_le_roundtrip(header.fec_set_index as nat, 4);
    assert(shred[64] == variant);
    assert(shred.subrange(65, 73) =~= slot);
    assert(shred.subrange(73, 77) =~= index);
    assert(shred.subrange(77, 79) =~= version);
    assert(shred.subrange(79, 83) =~= fec);
    if rest.len() >= 3 {
        assert(shred[85] == rest[2]);
        law_last_shred_bits(rest[2]);
    }
}

/// What is shorter than a header, or of a variant that is of neither kind, has
/// no header.
pub proof fn law_no_header(shred: Seq<u8>)
    requires
        shred.len() < 83 || ({
            let high = shred[64] / 16;
            shred[64] != 0x5a && shred[64] != 0xa5 && high != 4 && high != 6 && high != 7 && high
                != 8 && high != 9 && high != 11
        }),
    ensures
        header_of(shred) is None,
{
}

} // verus!
