//! Node identities.

use vstd::prelude::*;
use crate::codec::{be_bytes, from_be, get_be, lemma_be_len, put_be};
use crate::ordmap::Rank;

verus! {

/// An Ed25519 public key: 32 bytes, held as two big-endian halves.
#[derive(Clone, Copy, Debug, PartialEq, Eq, Structural, Hash)]
pub struct Pubkey {
    pub hi: u128,
    pub lo: u128,
}

impl Pubkey {
    /// The 32 bytes of the key.
    pub open spec fn bytes(self) -> Seq<u8> {
        be_bytes(self.hi as nat, 16) + be_bytes(self.lo as nat, 16)
    }

    /// The key whose bytes are `bytes`.
    pub open spec fn of_bytes(bytes: Seq<u8>) -> Self {
        Pubkey {
            hi: from_be(bytes.subrange(0, 16)) as u128,
            lo: from_be(bytes.subrange(16, 32)) as u128,
        }
    }

    pub proof fn lemma_len(self)
        ensures
            self.bytes().len() == 32,
    {
        lemma_be_len(self.hi as nat, 16);
        lemma_be_len(self.lo as nat, 16);
    }

    /// Keys with the same bytes are the same key.
    pub proof fn lemma_bytes_injective(a: Self, b: Self)
        requires
            a.bytes() == b.bytes(),
        ensures
            a == b,
    {
        crate::codec::lemma_byte_spans();
        crate::codec::lemma_be_roundtrip(a.hi as nat, 16);
        crate::codec::lemma_be_roundtrip(a.lo as nat, 16);
        crate::codec::lemma_be_roundtrip(b.hi as nat, 16);
        crate::codec::lemma_be_roundtrip(b.lo as nat, 16);
        assert(a.bytes().take(16) =~= be_bytes(a.hi as nat, 16));
        assert(b.bytes().take(16) =~= be_bytes(b.hi as nat, 16));
        assert(a.bytes().skip(16) =~= be_bytes(a.lo as nat, 16));
        assert(b.bytes().skip(16) =~= be_bytes(b.lo as nat, 16));
    }

    pub fn to_bytes(&self) -> (bytes: Vec<u8>)
        ensures
            bytes@ == self.bytes(),
    {
        let mut bytes: Vec<u8> = Vec::new();
        put_be(&mut bytes, self.hi, 16);
        put_be(&mut bytes, self.lo, 16);
        assert(bytes@ =~= self.bytes());
        bytes
    }

    /// The key whose bytes are `bytes`.
    pub fn from_bytes(bytes: &[u8]) -> (key: Self)
        requires
            bytes@.len() == 32,
        ensures
            key == Self::of_bytes(bytes@),
            key.bytes() == bytes@,
    {
        let hi: u128 = get_be(bytes, 0, 16);
        let lo: u128 = get_be(bytes, 16, 16);
        let key = Pubkey { hi, lo };
        proof {
            crate::codec::lemma_be_reencode(bytes@.subrange(0, 16));
            crate::codec::lemma_be_reencode(bytes@.subrange(16, 32));
            assert(key.bytes() =~= bytes@);
        }
        key
    }
}

impl Rank for Pubkey {
    /// The order of the bytes.
    open spec fn rank(self) -> int {
        self.hi * 0x1_0000_0000_0000_0000_0000_0000_0000_0000 + self.lo
    }

    proof fn rank_injective(a: Self, b: Self) {
    }

    fn before(&self, other: &Self) -> (r: bool) {
        self.hi < other.hi || (self.hi == other.hi && self.lo < other.lo)
    }
}

proof fn lemma_from_be_joined(a: Seq<u8>, b: Seq<u8>)
    ensures
        from_be(a + b) == from_be(a) * crate::codec::byte_span(b.len()) + from_be(b),
    decreases b.len(),
{
    if b.len() == 0 {
        assert(a + b =~= a);
        assert(crate::codec::byte_span(0) == 1);
        assert(from_be(a) * 1 == from_be(a)) by (nonlinear_arith);
    } else {
        let rest = b.drop_last();
        lemma_from_be_joined(a, rest);
        assert((a + b).drop_last() =~= a + rest);
        let span = crate::codec::byte_span(rest.len());
        assert(crate::codec::byte_span(b.len()) == 256 * span);
        assert((from_be(a) * span + from_be(rest)) * 256 == from_be(a) * (256 * span) + from_be(
            rest,
        ) * 256) by (nonlinear_arith);
    }
}

/// Keys are in the order of their bytes, as a number that these spell.
pub proof fn law_keys_are_ordered_by_bytes(a: Pubkey, b: Pubkey)
    ensures
        a.rank() == from_be(a.bytes()),
        a.bytes().len() == 32,
        a.rank() < b.rank() <==> from_be(a.bytes()) < from_be(b.bytes()),
        Pubkey::of_bytes(a.bytes()) == a,
{
    lemma_rank(a);
    lemma_rank(b);
}

proof fn lemma_rank(a: Pubkey)
    ensures
        a.rank() == from_be(a.bytes()),
        a.bytes().len() == 32,
        Pubkey::of_bytes(a.bytes()) == a,
{
    let hi = be_bytes(a.hi as nat, 16);
    let lo = be_bytes(a.lo as nat, 16);
    crate::codec::lemma_byte_spans();
    crate::codec::lemma_be_roundtrip(a.hi as nat, 16);
    crate::codec::lemma_be_roundtrip(a.lo as nat, 16);
    lemma_from_be_joined(hi, lo);
    assert(a.bytes().subrange(0, 16) =~= hi);
    assert(a.bytes().subrange(16, 32) =~= lo);
}

/// A key is the one of its bytes.
pub proof fn law_key_of_its_bytes(key: Pubkey)
    ensures
        Pubkey::of_bytes(key.bytes()) == key,
{
    key.lemma_len();
    crate::codec::lemma_byte_spans();
    crate::codec::lemma_be_roundtrip(key.hi as nat, 16);
    crate::codec::lemma_be_roundtrip(key.lo as nat, 16);
    lemma_be_len(key.hi as nat, 16);
    lemma_be_len(key.lo as nat, 16);
    assert(key.bytes().subrange(0, 16) =~= be_bytes(key.hi as nat, 16));
    assert(key.bytes().subrange(16, 32) =~= be_bytes(key.lo as nat, 16));
}

} // verus!
