//! What the cluster's RPC nodes answer.

use vstd::prelude::*;

verus! {

/// Why a text is not a block hash, as the decoder of base58 tells it.
#[derive(Clone, Copy, Debug, PartialEq, Eq, Structural)]
pub enum HashDecodeError {
    /// It stands for more bytes than a hash has.
    BufferTooSmall,
    /// It has a character that base58 does not use, at this byte.
    InvalidCharacter { character: char, index: usize },
    /// It has a character that is not ASCII, at this byte.
    NonAsciiCharacter { index: usize },
    /// The decoder has another reason.
    Other,
}

/// What a base58 text decodes to where there is room for `room` bytes, or why it
/// does not.
pub uninterp spec fn bs58_decoded(text: Seq<char>, room: nat) -> Result<
    Seq<u8>,
    HashDecodeError,
>;

/// `bs58::decode(..).onto(..)`: writes the decoded bytes to the front of `out`
/// and leaves the rest as it was, or fails. Which it is, the bytes, and the
/// reason are a function of the text. What a failure leaves in `out` is not
/// claimed.
#[verifier::external_body]
fn bs58_onto(text: &str, out: &mut [u8; 32]) -> (r: Result<usize, HashDecodeError>)
    ensures
        match (r, bs58_decoded(text@, 32)) {
            (Ok(n), Ok(bytes)) => n <= 32 && n == bytes.len() && final(out)@ == bytes + old(
                out,
            )@.skip(n as int),
            (Err(e), Err(why)) => e == why,
            _ => false,
        },
{
    bs58::decode(text).onto(out).map_err(|e| match e {
        bs58::decode::Error::BufferTooSmall => HashDecodeError::BufferTooSmall,
        bs58::decode::Error::InvalidCharacter { character, index } => {
            HashDecodeError::InvalidCharacter { character, index }
        },
        bs58::decode::Error::NonAsciiCharacter { index } => {
            HashDecodeError::NonAsciiCharacter { index }
        },
        _ => HashDecodeError::Other,
    })
}

/// The 32 bytes of a block hash. A shorter text fills up with zeros.
pub fn decode_blockhash(text: &str) -> (r: Result<[u8; 32], HashDecodeError>)
    ensures
        match bs58_decoded(text@, 32) {
            Ok(bytes) => r matches Ok(hash) && hash@ == bytes + Seq::new(
                (32 - bytes.len()) as nat,
                |i: int| 0u8,
            ),
            Err(why) => r == Err::<[u8; 32], HashDecodeError>(why),
        },
{
    let mut hash: [u8; 32] = [0u8;32];
    match bs58_onto(text, &mut hash) {
        Ok(n) => {
            proof {
                let bytes = bs58_decoded(text@, 32)->Ok_0;
                assert(hash@ =~= bytes + Seq::new((32 - bytes.len()) as nat, |i: int| 0u8));
            }
            Ok(hash)
        },
        Err(why) => Err(why),
    }
}

} // verus!
