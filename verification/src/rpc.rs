//! What the debug endpoint answers with.

use base64::prelude::BASE64_STANDARD;
use base64::Engine;
use vstd::prelude::*;

verus! {

/// The character that stands for six bits.
pub open spec fn base64_char(n: int) -> char {
    if n < 26 {
        (65 + n) as u8 as char
    } else if n < 52 {
        (71 + n) as u8 as char
    } else if n < 62 {
        (n - 4) as u8 as char
    } else if n == 62 {
        '+'
    } else {
        '/'
    }
}

/// Standard base64, with padding: four characters for every three bytes.
pub open spec fn base64_of(bytes: Seq<u8>) -> Seq<char>
    decreases bytes.len(),
{
    let n = bytes.len();
    if n == 0 {
        Seq::empty()
    } else {
        let a = bytes[0] as int;
        let b = if n > 1 {
            bytes[1] as int
        } else {
            0
        };
        let c = if n > 2 {
            bytes[2] as int
        } else {
            0
        };
        seq![
            base64_char(a / 4),
            base64_char(a % 4 * 16 + b / 16),
            if n > 1 {
                base64_char(b % 16 * 4 + c / 64)
            } else {
                '='
            },
            if n > 2 {
                base64_char(c % 64)
            } else {
                '='
            },
        ] + if n > 3 {
            base64_of(bytes.skip(3))
        } else {
            Seq::empty()
        }
    }
}

/// `Engine::encode` of the standard engine, which has the standard alphabet
/// and pads.
#[verifier::external_body]
fn base64_encode(bytes: &[u8]) -> (text: String)
    ensures
        text@ == base64_of(bytes@),
{
    BASE64_STANDARD.encode(bytes)
}

pub open spec fn texts(v: Seq<String>) -> Seq<Seq<char>> {
    Seq::new(v.len(), |i: int| v[i]@)
}

/// The stored shreds of a slot, each in base64.
pub fn encode_shreds(shreds: &Vec<Vec<u8>>) -> (encoded: Vec<String>)
    ensures
        texts(encoded@) == Seq::new(shreds@.len(), |i: int| base64_of(shreds@[i]@)),
{
    let mut encoded: Vec<String> = Vec::new();
    let mut i: usize = 0;
    while i < shreds.len()
        invariant
            i <= shreds@.len(),
            texts(encoded@) == Seq::new(i as nat, |j: int| base64_of(shreds@[j]@)),
        decreases shreds@.len() - i,
    {
        let ghost had = texts(encoded@);
        encoded.push(base64_encode(&shreds[i]));
        i += 1;
        proof {
            assert(texts(encoded@) =~= had.push(base64_of(shreds@[i - 1]@)));
            assert(texts(encoded@) =~= Seq::new(i as nat, |j: int| base64_of(shreds@[j]@)));
        }
    }
    encoded
}

/// The six bits that a character stands for.
pub open spec fn six_bits(c: char) -> int {
    if 'A' <= c <= 'Z' {
        c as int - 65
    } else if 'a' <= c <= 'z' {
        c as int - 71
    } else if '0' <= c <= '9' {
        c as int + 4
    } else if c == '+' {
        62
    } else {
        63
    }
}

/// Three bytes are four characters of six bits each, the high ones first, and what
/// follows is encoded after them.
pub proof fn law_base64_holds_the_bits(bytes: Seq<u8>)
    requires
        bytes.len() >= 3,
    ensures
        ({
            let text = base64_of(bytes);
            &&& text.len() >= 4
            &&& six_bits(text[0]) * 0x4_0000 + six_bits(text[1]) * 0x1000 + six_bits(text[2]) * 0x40
                + six_bits(text[3]) == bytes[0] * 0x1_0000 + bytes[1] * 0x100 + bytes[2]
            &&& text.skip(4) == base64_of(bytes.skip(3))
        }),
{
    let text = base64_of(bytes);
    let a = bytes[0] as int;
    let b = bytes[1] as int;
    let c = bytes[2] as int;
    let rest = if bytes.len() > 3 {
        base64_of(bytes.skip(3))
    } else {
        Seq::<char>::empty()
    };
    assert(bytes.len() == 3 ==> base64_of(bytes.skip(3)) =~= Seq::<char>::empty());
    assert(text.skip(4) =~= rest);
    lemma_six_bits(a / 4);
    lemma_six_bits(a % 4 * 16 + b / 16);
    lemma_six_bits(b % 16 * 4 + c / 64);
    lemma_six_bits(c % 64);
}

/// One byte or two that are left are padded.
pub proof fn law_base64_is_padded(bytes: Seq<u8>)
    requires
        bytes.len() == 1 || bytes.len() == 2,
    ensures
        ({
            let text = base64_of(bytes);
            &&& text.len() == 4
            &&& text[3] == '='
            &&& bytes.len() == 1 ==> text[2] == '=' && six_bits(text[0]) * 0x40 + six_bits(text[1])
                == bytes[0] * 16
            &&& bytes.len() == 2 ==> six_bits(text[0]) * 0x1000 + six_bits(text[1]) * 0x40
                + six_bits(text[2]) == (bytes[0] * 0x100 + bytes[1]) * 4
        }),
{
    let a = bytes[0] as int;
    lemma_six_bits(a / 4);
    if bytes.len() == 1 {
        lemma_six_bits(a % 4 * 16);
    } else {
        let b = bytes[1] as int;
        lemma_six_bits(a % 4 * 16 + b / 16);
        lemma_six_bits(b % 16 * 4);
    }
}

proof fn lemma_six_bits(n: int)
    requires
        0 <= n < 64,
    ensures
        six_bits(base64_char(n)) == n,
{
}

} // verus!
