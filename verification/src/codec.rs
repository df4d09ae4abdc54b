//! Fixed-width integers as bytes, in both byte orders.

use vstd::prelude::*;

verus! {

/// What byte vectors hold.
pub open spec fn bytes_views(v: Seq<Vec<u8>>) -> Seq<Seq<u8>> {
    Seq::new(v.len(), |i: int| v[i]@)
}

/// `x` in `n` bytes, least significant byte first.
pub open spec fn le_bytes(x: nat, n: nat) -> Seq<u8>
    decreases n,
{
    if n == 0 {
        Seq::empty()
    } else {
        seq![(x % 256) as u8] + le_bytes(x / 256, (n - 1) as nat)
    }
}

/// `x` in `n` bytes, most significant byte first.
pub open spec fn be_bytes(x: nat, n: nat) -> Seq<u8>
    decreases n,
{
    if n == 0 {
        Seq::empty()
    } else {
        be_bytes(x / 256, (n - 1) as nat).push((x % 256) as u8)
    }
}

/// The number that `s` spells, least significant byte first.
pub open spec fn from_le(s: Seq<u8>) -> nat
    decreases s.len(),
{
    if s.len() == 0 {
        0
    } else {
        s[0] as nat + 256 * from_le(s.skip(1))
    }
}

/// The number that `s` spells, most significant byte first.
pub open spec fn from_be(s: Seq<u8>) -> nat
    decreases s.len(),
{
    if s.len() == 0 {
        0
    } else {
        from_be(s.drop_last()) * 256 + s.last() as nat
    }
}

/// How many values `n` bytes can hold.
pub open spec fn byte_span(n: nat) -> nat
    decreases n,
{
    if n == 0 {
        1
    } else {
        256 * byte_span((n - 1) as nat)
    }
}

/// The spans of the widths in use.
pub proof fn lemma_byte_spans()
    ensures
        byte_span(1) == 0x100,
        byte_span(2) == 0x1_0000,
        byte_span(4) == 0x1_0000_0000,
        byte_span(8) == 0x1_0000_0000_0000_0000,
        byte_span(16) == 0x1_0000_0000_0000_0000_0000_0000_0000_0000,
{
    reveal_with_fuel(byte_span, 17);
}

pub proof fn lemma_le_len(x: nat, n: nat)
    ensures
        le_bytes(x, n).len() == n,
    decreases n,
{
    if n > 0 {
        lemma_le_len(x / 256, (n - 1) as nat);
    }
}

pub proof fn lemma_be_len(x: nat, n: nat)
    ensures
        be_bytes(x, n).len() == n,
    decreases n,
{
    if n > 0 {
        lemma_be_len(x / 256, (n - 1) as nat);
    }
}

/// Reading back what `le_bytes` wrote gives the number, if it fits the width.
pub proof fn lemma_le_roundtrip(x: nat, n: nat)
    requires
        x < byte_span(n),
    ensures
        le_bytes(x, n).len() == n,
        from_le(le_bytes(x, n)) == x,
    decreases n,
{
    if n > 0 {
        lemma_le_roundtrip(x / 256, (n - 1) as nat);
        let s = le_bytes(x, n);
        assert(s.skip(1) =~= le_bytes(x / 256, (n - 1) as nat));
    }
}

/// Reading back what `be_bytes` wrote gives the number, if it fits the width.
pub proof fn lemma_be_roundtrip(x: nat, n: nat)
    requires
        x < byte_span(n),
    ensures
        be_bytes(x, n).len() == n,
        from_be(be_bytes(x, n)) == x,
    decreases n,
{
    if n > 0 {
        lemma_be_roundtrip(x / 256, (n - 1) as nat);
        let s = be_bytes(x, n);
        assert(s.drop_last() =~= be_bytes(x / 256, (n - 1) as nat));
    }
}

/// A number read from bytes fits the width that they have.
pub proof fn lemma_from_le_bound(s: Seq<u8>)
    ensures
        from_le(s) < byte_span(s.len()),
    decreases s.len(),
{
    if s.len() > 0 {
        lemma_from_le_bound(s.skip(1));
    }
}

pub proof fn lemma_from_be_bound(s: Seq<u8>)
    ensures
        from_be(s) < byte_span(s.len()),
    decreases s.len(),
{
    if s.len() > 0 {
        lemma_from_be_bound(s.drop_last());
    }
}

/// Writing what was read gives the bytes again.
pub proof fn lemma_le_reencode(s: Seq<u8>)
    ensures
        le_bytes(from_le(s), s.len()) == s,
    decreases s.len(),
{
    if s.len() > 0 {
        lemma_le_reencode(s.skip(1));
        assert(s =~= seq![s[0]] + s.skip(1));
    }
}

pub proof fn lemma_be_reencode(s: Seq<u8>)
    ensures
        be_bytes(from_be(s), s.len()) == s,
    decreases s.len(),
{
    if s.len() > 0 {
        lemma_be_reencode(s.drop_last());
        assert(s =~= s.drop_last().push(s.last()));
    }
}

/// Appends `x` in `n` bytes, least significant byte first.
pub fn put_le(buf: &mut Vec<u8>, x: u128, n: usize)
    ensures
        final(buf)@ == old(buf)@ + le_bytes(x as nat, n as nat),
{
    let mut rest: u128 = x;
    let mut i: usize = 0;
    let ghost start = buf@;
    assert(start + le_bytes(x as nat, n as nat) =~= buf@ + le_bytes(rest as nat, n as nat));
    while i < n
        invariant
            i <= n,
            start + le_bytes(x as nat, n as nat) == buf@ + le_bytes(rest as nat, (n - i) as nat),
        decreases n - i,
    {
        let ghost before = buf@;
        let ghost r0 = rest;
        buf.push((rest % 256) as u8);
        rest = rest / 256;
        i += 1;
        proof {
            assert(before + le_bytes(r0 as nat, (n - i + 1) as nat) =~= buf@ + le_bytes(
                rest as nat,
                (n - i) as nat,
            ));
        }
    }
    assert(buf@ + le_bytes(rest as nat, 0) =~= buf@);
}

/// Appends `x` in `n` bytes, most significant byte first.
pub fn put_be(buf: &mut Vec<u8>, x: u128, n: usize)
    ensures
        final(buf)@ == old(buf)@ + be_bytes(x as nat, n as nat),
{
    let ghost start = buf@;
    let mut digits: Vec<u8> = Vec::new();
    let mut rest: u128 = x;
    let mut i: usize = 0;
    while i < n
        invariant
            i <= n,
            digits@.len() == i,
            be_bytes(x as nat, n as nat) == be_bytes(rest as nat, (n - i) as nat)
                + digits@.reverse(),
        decreases n - i,
    {
        let ghost before = digits@;
        let ghost r0 = rest;
        digits.push((rest % 256) as u8);
        rest = rest / 256;
        i += 1;
        proof {
            assert(be_bytes(r0 as nat, (n - i + 1) as nat) + before.reverse() =~= be_bytes(
                rest as nat,
                (n - i) as nat,
            ) + digits@.reverse());
        }
    }
    assert(be_bytes(x as nat, n as nat) =~= digits@.reverse());
    let mut j: usize = n;
    while j > 0
        invariant
            j <= n,
            digits@.len() == n,
            buf@ == start + digits@.reverse().take(n - j),
        decreases j,
    {
        j -= 1;
        buf.push(digits[j]);
        assert(digits@.reverse().take(n - j) =~= digits@.reverse().take(n - j - 1).push(
            digits@[j as int],
        ));
    }
    assert(digits@.reverse().take(n as int) =~= digits@.reverse());
}

/// The number in `bytes[at..at + n]`, least significant byte first.
pub fn get_le(bytes: &[u8], at: usize, n: usize) -> (x: u128)
    requires
        at + n <= bytes@.len(),
        n <= 16,
    ensures
        x == from_le(bytes@.subrange(at as int, at + n)),
{
    let mut x: u128 = 0;
    let mut i: usize = n;
    let len: usize = bytes.len();
    proof {
        lemma_byte_spans();
    }
    while i > 0
        invariant
            i <= n <= 16,
            at + n <= bytes@.len(),
            bytes@.len() == len,
            x == from_le(bytes@.subrange(at + i, at + n)),
            byte_span(16) == 0x1_0000_0000_0000_0000_0000_0000_0000_0000,
        decreases i,
    {
        i -= 1;
        proof {
            let s = bytes@.subrange(at + i, at + n);
            assert(s.skip(1) =~= bytes@.subrange(at + i + 1, at + n));
            lemma_from_le_bound(s);
            lemma_byte_span_mono(s.len(), 16);
        }
        x = bytes[at + i] as u128 + 256 * x;
    }
    x
}

pub proof fn lemma_byte_span_mono(a: nat, b: nat)
    requires
        a <= b,
    ensures
        byte_span(a) <= byte_span(b),
    decreases b,
{
    if a < b {
        lemma_byte_span_mono(a, (b - 1) as nat);
    }
}

/// The number in `bytes[at..at + n]`, most significant byte first.
pub fn get_be(bytes: &[u8], at: usize, n: usize) -> (x: u128)
    requires
        at + n <= bytes@.len(),
        n <= 16,
    ensures
        x == from_be(bytes@.subrange(at as int, at + n)),
{
    let mut x: u128 = 0;
    let mut i: usize = 0;
    let len: usize = bytes.len();
    proof {
        lemma_byte_spans();
    }
    while i < n
        invariant
            i <= n <= 16,
            at + n <= bytes@.len(),
            bytes@.len() == len,
            x == from_be(bytes@.subrange(at as int, at + i)),
            byte_span(16) == 0x1_0000_0000_0000_0000_0000_0000_0000_0000,
        decreases n - i,
    {
        i += 1;
        proof {
            let s = bytes@.subrange(at as int, at + i);
            assert(s.drop_last() =~= bytes@.subrange(at as int, at + i - 1));
            lemma_from_be_bound(s);
            lemma_byte_span_mono(s.len(), 16);
        }
        x = 256 * x + bytes[at + i - 1] as u128;
    }
    x
}

/// Appends a copy of `bytes`.
pub fn put_bytes(buf: &mut Vec<u8>, bytes: &[u8])
    ensures
        final(buf)@ == old(buf)@ + bytes@,
{
    let ghost start = buf@;
    let mut i: usize = 0;
    while i < bytes.len()
        invariant
            i <= bytes@.len(),
            buf@ == start + bytes@.take(i as int),
        decreases bytes@.len() - i,
    {
        buf.push(bytes[i]);
        i += 1;
        assert(bytes@.take(i as int) =~= bytes@.take(i - 1).push(bytes@[i - 1]));
    }
    assert(bytes@.take(i as int) =~= bytes@);
}

/// A copy of `bytes[from..to]`.
pub fn copy_range(bytes: &[u8], from: usize, to: usize) -> (out: Vec<u8>)
    requires
        from <= to <= bytes@.len(),
    ensures
        out@ == bytes@.subrange(from as int, to as int),
{
    let mut out: Vec<u8> = Vec::new();
    let mut i: usize = from;
    while i < to
        invariant
            from <= i <= to <= bytes@.len(),
            out@ == bytes@.subrange(from as int, i as int),
        decreases to - i,
    {
        out.push(bytes[i]);
        i += 1;
        assert(bytes@.subrange(from as int, i as int) =~= bytes@.subrange(
            from as int,
            i - 1,
        ).push(bytes@[i - 1]));
    }
    out
}

/// A copy of `items`.
pub fn copy_vec<T: Copy>(items: &Vec<T>) -> (out: Vec<T>)
    ensures
        out@ == items@,
{
    let mut out: Vec<T> = Vec::new();
    let mut i: usize = 0;
    while i < items.len()
        invariant
            i <= items@.len(),
            out@ == items@.take(i as int),
        decreases items@.len() - i,
    {
        out.push(items[i]);
        i += 1;
        assert(items@.take(i as int) =~= items@.take(i - 1).push(items@[i - 1]));
    }
    assert(items@.take(i as int) =~= items@);
    out
}

/// Whether two byte strings are equal.
pub fn bytes_eq(a: &[u8], b: &[u8]) -> (eq: bool)
    ensures
        eq == (a@ == b@),
{
    if a.len() != b.len() {
        return false;
    }
    let mut i: usize = 0;
    while i < a.len()
        invariant
            i <= a@.len() == b@.len(),
            forall|j: int| 0 <= j < i ==> a@[j] == b@[j],
        decreases a@.len() - i,
    {
        if a[i] != b[i] {
            return false;
        }
        i += 1;
    }
    assert(a@ =~= b@);
    true
}

/// Least significant byte first: the byte at `i` is the `i`-th digit of `x` in
/// base 256. The other order has the same bytes from behind.
pub proof fn law_byte_order(x: nat, n: nat, i: int)
    requires
        0 <= i < n,
    ensures
        le_bytes(x, n).len() == n,
        be_bytes(x, n).len() == n,
        le_bytes(x, n)[i] == (x as int / vstd::arithmetic::power::pow(256, i as nat)) % 256,
        be_bytes(x, n)[n - 1 - i] == le_bytes(x, n)[i],
    decreases n,
{
    lemma_pow_step(i as nat);
    lemma_le_len(x, n);
    lemma_be_len(x, n);
    lemma_le_len(x / 256, (n - 1) as nat);
    lemma_be_len(x / 256, (n - 1) as nat);
    if i > 0 {
        law_byte_order(x / 256, (n - 1) as nat, i - 1);
        let p = vstd::arithmetic::power::pow(256, (i - 1) as nat);
        vstd::arithmetic::power::lemma_pow_positive(256, (i - 1) as nat);
        vstd::arithmetic::div_mod::lemma_div_denominator(x as int, 256, p);
        assert(le_bytes(x, n)[i] == le_bytes(x / 256, (n - 1) as nat)[i - 1]);
        assert(be_bytes(x, n)[n - 1 - i] == be_bytes(x / 256, (n - 1) as nat)[n - 1 - i]);
    }
}

proof fn lemma_pow_step(i: nat)
    ensures
        i == 0 ==> vstd::arithmetic::power::pow(256, i) == 1,
        i > 0 ==> vstd::arithmetic::power::pow(256, i) == 256 * vstd::arithmetic::power::pow(
            256,
            (i - 1) as nat,
        ),
{
    reveal(vstd::arithmetic::power::pow);
}

/// Numbers that fit a width have different bytes there.
pub proof fn law_bytes_tell_numbers_apart(a: nat, b: nat, n: nat)
    requires
        a < byte_span(n),
        b < byte_span(n),
        a != b,
    ensures
        le_bytes(a, n) != le_bytes(b, n),
        be_bytes(a, n) != be_bytes(b, n),
{
    lemma_le_roundtrip(a, n);
    lemma_le_roundtrip(b, n);
    lemma_be_roundtrip(a, n);
    lemma_be_roundtrip(b, n);
}

} // verus!
