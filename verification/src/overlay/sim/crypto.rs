//! Everything random about a simulated node derives from the run's seed: its
//! keypair, its generators, its connection ids and its reset key.

use solana_sdk::signature::Keypair;
use solana_sdk::signer::keypair::keypair_from_seed;
use solana_sdk::signer::Signer;
use vstd::prelude::*;
use crate::codec::{bytes_eq, from_le, get_le, le_bytes, put_bytes, put_le};
use crate::digest::{sha256, sha256_of};
use crate::pubkey::Pubkey;

verus! {

/// What is digested for `(seed, host, label)`.
pub open spec fn derivation(seed: u64, host: u32, label: Seq<u8>) -> Seq<u8> {
    "overlay-sim"@.map_values(|c: char| c as u8) + le_bytes(seed as nat, 8) + le_bytes(
        host as nat,
        4,
    ) + label
}

/// The 32 bytes of `(seed, host, label)`.
pub open spec fn derived(seed: u64, host: u32, label: Seq<u8>) -> Seq<u8> {
    sha256_of(derivation(seed, host, label))
}

/// The number of `(seed, host, label)`: the first eight of its bytes.
pub open spec fn derived_u64(seed: u64, host: u32, label: Seq<u8>) -> u64 {
    from_le(derived(seed, host, label).take(8)) as u64
}

/// Deterministic 32 bytes for `(seed, host, label)`.
pub fn derive_bytes(seed: u64, host: u32, label: &str) -> (bytes: [u8; 32])
    ensures
        bytes@ == derived(seed, host, vstd::utf8::encode_utf8(label@)),
{
    derive_label(seed, host, label.as_bytes())
}

/// [`derive_bytes`] with the label in bytes.
pub fn derive_label(seed: u64, host: u32, label: &[u8]) -> (bytes: [u8; 32])
    ensures
        bytes@ == derived(seed, host, label@),
{
    let mut buf: Vec<u8> = Vec::new();
    let domain = "overlay-sim";
    proof {
        reveal_strlit("overlay-sim");
        vstd::utf8::is_ascii_chars_encode_utf8(domain@);
    }
    put_bytes(&mut buf, domain.as_bytes());
    put_le(&mut buf, seed as u128, 8);
    put_le(&mut buf, host as u128, 4);
    put_bytes(&mut buf, label);
    assert(buf@ =~= derivation(seed, host, label@));
    sha256(&buf)
}

/// A deterministic number for `(seed, host, label)`.
pub fn derive_u64(seed: u64, host: u32, label: &str) -> (n: u64)
    ensures
        n == derived_u64(seed, host, vstd::utf8::encode_utf8(label@)),
{
    first_u64(derive_bytes(seed, host, label))
}

/// The number that the first eight bytes spell.
pub(crate) fn first_u64(bytes: [u8; 32]) -> (n: u64)
    ensures
        n == from_le(bytes@.take(8)),
{
    proof {
        crate::codec::lemma_byte_spans();
        crate::codec::lemma_from_le_bound(bytes@.take(8));
        assert(bytes@.subrange(0, 8) =~= bytes@.take(8));
    }
    get_le(&bytes, 0, 8) as u64
}

/// An Ed25519 keypair.
#[verifier::external_type_specification]
#[verifier::external_body]
pub struct ExKeypair(Keypair);

/// The secret seed that a keypair was made from.
pub uninterp spec fn keypair_secret(keypair: Keypair) -> Seq<u8>;

/// The Ed25519 public key of a 32-byte secret seed.
pub uninterp spec fn ed25519_public(secret: Seq<u8>) -> Seq<u8>;

/// `keypair_from_seed`: the keypair whose secret is the first 32 bytes of
/// `seed`. It refuses only shorter seeds.
#[verifier::external_body]
fn keypair_of_seed(seed: &[u8; 32]) -> (keypair: Keypair)
    ensures
        keypair_secret(keypair) == seed@,
{
    keypair_from_seed(seed).expect("a 32-byte seed always yields a keypair")
}

/// `Signer::pubkey`: the public key is a function of the secret.
#[verifier::external_body]
fn keypair_public(keypair: &Keypair) -> (bytes: [u8; 32])
    ensures
        bytes@ == ed25519_public(keypair_secret(*keypair)),
{
    keypair.pubkey().to_bytes()
}

/// The keypair of a simulated host.
pub fn derive_keypair(seed: u64, host: u32) -> (keypair: Keypair)
    ensures
        keypair_secret(keypair) == derived(seed, host, vstd::utf8::encode_utf8("keypair"@)),
{
    keypair_of_seed(&derive_bytes(seed, host, "keypair"))
}

/// The identity of a simulated host.
pub open spec fn derived_identity(seed: u64, host: u32) -> Pubkey {
    Pubkey::of_bytes(ed25519_public(derived(seed, host, vstd::utf8::encode_utf8("keypair"@))))
}

/// The identity of a simulated host.
pub fn derive_pubkey(seed: u64, host: u32) -> (pubkey: Pubkey)
    ensures
        pubkey == derived_identity(seed, host),
{
    let keypair = derive_keypair(seed, host);
    let bytes = keypair_public(&keypair);
    Pubkey::from_bytes(&bytes)
}

/// A deterministic key for stateless-reset tokens. A keyed SHA-256 is enough
/// for tokens that only have to be reproducible.
pub struct SeededResetKey {
    key: [u8; 32],
}

impl SeededResetKey {
    pub closed spec fn key(&self) -> Seq<u8> {
        self.key@
    }

    /// The token for `data`.
    pub open spec fn token(&self, data: Seq<u8>) -> Seq<u8> {
        sha256_of(self.key() + data)
    }

    pub fn new(seed: u64, host: u32) -> (key: Self)
        ensures
            key.key() == derived(seed, host, vstd::utf8::encode_utf8("reset-key"@)),
    {
        SeededResetKey { key: derive_bytes(seed, host, "reset-key") }
    }

    pub fn digest(&self, data: &[u8]) -> (digest: [u8; 32])
        ensures
            digest@ == self.token(data@),
    {
        let mut buf: Vec<u8> = Vec::new();
        put_bytes(&mut buf, &self.key);
        put_bytes(&mut buf, data);
        assert(buf@ =~= self.key() + data@);
        sha256(&buf)
    }

    /// Whether `signature` is the token for `data`.
    pub fn verify(&self, data: &[u8], signature: &[u8]) -> (ok: bool)
        ensures
            ok == (signature@ == self.token(data@)),
    {
        let digest = self.digest(data);
        bytes_eq(&digest, signature)
    }
}

/// What is digested for a host tells the seed, the host and the label apart, so
/// that no two draw on the same bytes.
pub proof fn law_derivations_are_apart(
    seed_a: u64,
    host_a: u32,
    label_a: Seq<u8>,
    seed_b: u64,
    host_b: u32,
    label_b: Seq<u8>,
)
    requires
        derivation(seed_a, host_a, label_a) == derivation(seed_b, host_b, label_b),
    ensures
        seed_a == seed_b,
        host_a == host_b,
        label_a == label_b,
        derived(seed_a, host_a, label_a) == sha256_of(derivation(seed_a, host_a, label_a)),
        derived_u64(seed_a, host_a, label_a) == from_le(
            sha256_of(derivation(seed_a, host_a, label_a)).subrange(0, 8),
        ) as u64,
{
    reveal_strlit("overlay-sim");
    let a = derivation(seed_a, host_a, label_a);
    let b = derivation(seed_b, host_b, label_b);
    let p = "overlay-sim"@.map_values(|c: char| c as u8);
    assert(p.len() == 11);
    crate::codec::lemma_le_len(seed_a as nat, 8);
    crate::codec::lemma_le_len(seed_b as nat, 8);
    crate::codec::lemma_le_len(host_a as nat, 4);
    crate::codec::lemma_le_len(host_b as nat, 4);
    assert(a.subrange(11, 19) =~= le_bytes(seed_a as nat, 8));
    assert(b.subrange(11, 19) =~= le_bytes(seed_b as nat, 8));
    assert(a.subrange(19, 23) =~= le_bytes(host_a as nat, 4));
    assert(b.subrange(19, 23) =~= le_bytes(host_b as nat, 4));
    assert(a.skip(23) =~= label_a);
    assert(b.skip(23) =~= label_b);
    crate::codec::lemma_byte_spans();
    crate::codec::lemma_le_roundtrip(seed_a as nat, 8);
    crate::codec::lemma_le_roundtrip(seed_b as nat, 8);
    crate::codec::lemma_le_roundtrip(host_a as nat, 4);
    crate::codec::lemma_le_roundtrip(host_b as nat, 4);
    assert(derived(seed_a, host_a, label_a).take(8) =~= derived(
        seed_a,
        host_a,
        label_a,
    ).subrange(0, 8));
}

/// A token is of its key and its data.
pub proof fn law_tokens_are_keyed(key: SeededResetKey, data: Seq<u8>, m: Seq<u8>)
    requires
        m.len() == key.key().len() + data.len(),
        m.take(key.key().len() as int) == key.key(),
        m.skip(key.key().len() as int) == data,
    ensures
        key.token(data) == sha256_of(m),
{
    assert(m =~= key.key() + data);
}

} // verus!
