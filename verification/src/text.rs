//! Numbers and literals as text.

use vstd::prelude::*;
use crate::codec::{bytes_eq, copy_range, put_bytes};

verus! {

/// The decimal digits of `n`, as ASCII.
pub open spec fn decimal_of(n: nat) -> Seq<u8>
    decreases n,
{
    if n < 10 {
        seq![(48 + n) as u8]
    } else {
        decimal_of(n / 10).push((48 + n % 10) as u8)
    }
}

/// The characters of ASCII text.
pub open spec fn ascii_chars(bytes: Seq<u8>) -> Seq<char> {
    Seq::new(bytes.len(), |i: int| bytes[i] as char)
}

/// Appends the decimal digits of `n`.
pub fn put_decimal(buf: &mut Vec<u8>, n: u64)
    ensures
        final(buf)@ == old(buf)@ + decimal_of(n as nat),
    decreases n,
{
    let ghost start = buf@;
    if n >= 10 {
        put_decimal(buf, n / 10);
    }
    buf.push(48 + (n % 10) as u8);
    assert(buf@ =~= start + decimal_of(n as nat));
}

/// The number in decimal.
pub fn decimal(n: u64) -> (s: String)
    ensures
        s@ == ascii_chars(decimal_of(n as nat)),
    decreases n,
{
    let mut s = if n >= 10 {
        decimal(n / 10)
    } else {
        String::new()
    };
    s.append(digit(n % 10));
    assert(s@ =~= ascii_chars(decimal_of(n as nat)));
    s
}

fn digit(d: u64) -> (s: &'static str)
    requires
        d < 10,
    ensures
        s@ == seq![(48 + d) as u8 as char],
{
    proof {
        reveal_strlit("0");
        reveal_strlit("1");
        reveal_strlit("2");
        reveal_strlit("3");
        reveal_strlit("4");
        reveal_strlit("5");
        reveal_strlit("6");
        reveal_strlit("7");
        reveal_strlit("8");
        reveal_strlit("9");
    }
    let s: &'static str = match d {
        0 => "0",
        1 => "1",
        2 => "2",
        3 => "3",
        4 => "4",
        5 => "5",
        6 => "6",
        7 => "7",
        8 => "8",
        _ => "9",
    };
    assert(s@ =~= seq![(48 + d) as u8 as char]);
    s
}

/// The bytes of a text.
pub open spec fn lit(text: Seq<char>) -> Seq<u8> {
    vstd::utf8::encode_utf8(text)
}

/// Whether two texts are the same.
pub fn same_text(a: &str, b: &str) -> (r: bool)
    ensures
        r == (a@ == b@),
{
    proof {
        vstd::utf8::encode_utf8_decode_utf8(a@);
        vstd::utf8::encode_utf8_decode_utf8(b@);
    }
    bytes_eq(a.as_bytes(), b.as_bytes())
}

/// Appends the bytes of `text`.
pub fn put_text(buf: &mut Vec<u8>, text: &str)
    ensures
        final(buf)@ == old(buf)@ + lit(text@),
{
    put_bytes(buf, text.as_bytes());
}

/// `needle` stands in `hay` at `at`.
pub open spec fn stands_at(hay: Seq<u8>, needle: Seq<u8>, at: int) -> bool {
    0 <= at && at + needle.len() <= hay.len() && hay.subrange(at, at + needle.len()) == needle
}

/// Where `needle` first stands in `hay` from `from` on.
pub open spec fn find_from(hay: Seq<u8>, needle: Seq<u8>, from: int) -> Option<int>
    decreases hay.len() + 1 - from,
{
    if from + needle.len() > hay.len() {
        None
    } else if stands_at(hay, needle, from) {
        Some(from)
    } else {
        find_from(hay, needle, from + 1)
    }
}

/// Whether `needle` stands in `hay` at `at`.
pub fn text_at(hay: &[u8], needle: &[u8], at: usize) -> (r: bool)
    ensures
        r == stands_at(hay@, needle@, at as int),
{
    if needle.len() > hay.len() || at > hay.len() - needle.len() {
        return false;
    }
    let mut i: usize = 0;
    while i < needle.len()
        invariant
            i <= needle@.len(),
            at + needle@.len() <= hay@.len() <= usize::MAX,
            forall|j: int| 0 <= j < i ==> hay@[at + j] == needle@[j],
        decreases needle@.len() - i,
    {
        if hay[at + i] != needle[i] {
            assert(hay@.subrange(at as int, at + needle@.len())[i as int] != needle@[i as int]);
            return false;
        }
        i += 1;
    }
    assert(hay@.subrange(at as int, at + needle@.len()) =~= needle@);
    true
}

/// Where `needle` first stands in `hay` from `from` on.
pub fn find(hay: &[u8], needle: &[u8], from: usize) -> (r: Option<usize>)
    requires
        from <= hay@.len(),
    ensures
        match r {
            Some(at) => find_from(hay@, needle@, from as int) == Some(at as int) && from <= at
                && at + needle@.len() <= hay@.len(),
            None => find_from(hay@, needle@, from as int) is None,
        },
{
    let mut at: usize = from;
    if needle.len() > hay.len() {
        return None;
    }
    let last: usize = hay.len() - needle.len();
    while at <= last
        invariant
            from <= at <= hay@.len(),
            last == hay@.len() - needle@.len(),
            at <= last + 1 || at == from,
            hay@.len() <= usize::MAX,
            find_from(hay@, needle@, from as int) == find_from(hay@, needle@, at as int),
        decreases hay@.len() - at,
    {
        if text_at(hay, needle, at) {
            return Some(at);
        }
        if at == last {
            assert(find_from(hay@, needle@, at + 1) is None);
            return None;
        }
        at += 1;
    }
    None
}

/// How long the white space character is that begins at `i`; 0 if none does.
/// The text is UTF-8, in which no character begins inside another.
pub open spec fn space_at(s: Seq<u8>, i: int) -> nat {
    if i >= s.len() {
        0
    } else if 9 <= s[i] <= 13 || s[i] == 32 {
        1
    } else if i + 1 < s.len() && s[i] == 0xc2 && (s[i + 1] == 0x85 || s[i + 1] == 0xa0) {
        2
    } else if i + 2 < s.len() && is_wide_space(s[i], s[i + 1], s[i + 2]) {
        3
    } else {
        0
    }
}

/// The white space characters of three bytes.
pub open spec fn is_wide_space(a: u8, b: u8, c: u8) -> bool {
    ||| a == 0xe1 && b == 0x9a && c == 0x80
    ||| a == 0xe2 && b == 0x80 && (0x80 <= c <= 0x8a || c == 0xa8 || c == 0xa9 || c == 0xaf)
    ||| a == 0xe2 && b == 0x81 && c == 0x9f
    ||| a == 0xe3 && b == 0x80 && c == 0x80
}

fn wide_space(a: u8, b: u8, c: u8) -> (r: bool)
    ensures
        r == is_wide_space(a, b, c),
{
    (a == 0xe1 && b == 0x9a && c == 0x80) || (a == 0xe2 && b == 0x80 && ((0x80 <= c && c <= 0x8a)
        || c == 0xa8 || c == 0xa9 || c == 0xaf)) || (a == 0xe2 && b == 0x81 && c == 0x9f) || (a
        == 0xe3 && b == 0x80 && c == 0x80)
}

fn space_len(s: &[u8], i: usize) -> (n: usize)
    ensures
        n == space_at(s@, i as int),
        n <= 3,
        n > 0 ==> i + n <= s@.len(),
{
    let len: usize = s.len();
    if i >= len {
        return 0;
    }
    if (9 <= s[i] && s[i] <= 13) || s[i] == 32 {
        return 1;
    }
    if len - i > 1 && s[i] == 0xc2 && (s[i + 1] == 0x85 || s[i + 1] == 0xa0) {
        return 2;
    }
    if len - i > 2 && wide_space(s[i], s[i + 1], s[i + 2]) {
        return 3;
    }
    0
}

/// How long the white space character is that ends before `i`; 0 if none does.
pub open spec fn space_before(s: Seq<u8>, i: int) -> nat {
    if i >= 1 && (9 <= s[i - 1] <= 13 || s[i - 1] == 32) {
        1
    } else if i >= 2 && s[i - 2] == 0xc2 && (s[i - 1] == 0x85 || s[i - 1] == 0xa0) {
        2
    } else if i >= 3 && is_wide_space(s[i - 3], s[i - 2], s[i - 1]) {
        3
    } else {
        0
    }
}

/// The first place from `from` on where no white space character begins.
pub open spec fn skip_spaces(s: Seq<u8>, from: int) -> int
    decreases s.len() - from,
{
    if space_at(s, from) == 0 {
        from
    } else {
        skip_spaces(s, from + space_at(s, from))
    }
}

/// The first place from `from` on where a white space character begins, or
/// the end.
pub open spec fn skip_word(s: Seq<u8>, from: int) -> int
    decreases s.len() - from,
{
    if from >= s.len() || space_at(s, from) > 0 {
        from
    } else {
        skip_word(s, from + 1)
    }
}

/// The last place down to `from` before which no white space character ends.
pub open spec fn skip_back(s: Seq<u8>, from: int, to: int) -> int
    decreases to - from,
{
    let n = space_before(s, to);
    if n == 0 || to - n < from {
        to
    } else {
        skip_back(s, from, to - n)
    }
}

/// The text without white space at either end.
pub open spec fn trimmed(s: Seq<u8>) -> Seq<u8> {
    let from = skip_spaces(s, 0);
    if from >= s.len() {
        Seq::empty()
    } else {
        s.subrange(from, skip_back(s, from, s.len() as int))
    }
}

fn past_spaces(s: &[u8], from: usize) -> (at: usize)
    requires
        from <= s@.len(),
    ensures
        at == skip_spaces(s@, from as int),
        from <= at <= s@.len(),
{
    let len: usize = s.len();
    let mut at: usize = from;
    let mut n: usize = space_len(s, at);
    while n > 0
        invariant
            from <= at <= s@.len(),
            n == space_at(s@, at as int),
            n > 0 ==> at + n <= s@.len(),
            skip_spaces(s@, from as int) == skip_spaces(s@, at as int),
            s@.len() == len,
        decreases s@.len() - at,
    {
        at += n;
        n = space_len(s, at);
    }
    at
}

fn past_word(s: &[u8], from: usize) -> (at: usize)
    requires
        from <= s@.len(),
    ensures
        at == skip_word(s@, from as int),
        from <= at <= s@.len(),
{
    let mut at: usize = from;
    while at < s.len() && space_len(s, at) == 0
        invariant
            from <= at <= s@.len(),
            skip_word(s@, from as int) == skip_word(s@, at as int),
        decreases s@.len() - at,
    {
        at += 1;
    }
    at
}

/// The text without white space at either end.
pub fn trim(s: &[u8]) -> (out: Vec<u8>)
    ensures
        out@ == trimmed(s@),
{
    let from: usize = past_spaces(s, 0);
    if from >= s.len() {
        return Vec::new();
    }
    let len: usize = s.len();
    let mut to: usize = len;
    loop
        invariant_except_break
            from <= to <= len,
            len == s@.len(),
            skip_back(s@, from as int, len as int) == skip_back(s@, from as int, to as int),
        ensures
            from <= to <= len,
            to == skip_back(s@, from as int, len as int),
        decreases to,
    {
        let n: usize = if to >= 1 && ((9 <= s[to - 1] && s[to - 1] <= 13) || s[to - 1] == 32) {
            1
        } else if to >= 2 && s[to - 2] == 0xc2 && (s[to - 1] == 0x85 || s[to - 1] == 0xa0) {
            2
        } else if to >= 3 && wide_space(s[to - 3], s[to - 2], s[to - 1]) {
            3
        } else {
            0
        };
        if n == 0 || to - from < n {
            break;
        }
        to -= n;
    }
    copy_range(s, from, to)
}

/// The first two words of a text.
pub open spec fn two_words(s: Seq<u8>) -> Option<(Seq<u8>, Seq<u8>)> {
    let a = skip_spaces(s, 0);
    let b = skip_word(s, a);
    let c = skip_spaces(s, b);
    let d = skip_word(s, c);
    if a >= s.len() || c >= s.len() {
        None
    } else {
        Some((s.subrange(a, b), s.subrange(c, d)))
    }
}

pub open spec fn pair_view(pair: Option<(Vec<u8>, Vec<u8>)>) -> Option<(Seq<u8>, Seq<u8>)> {
    match pair {
        Some((a, b)) => Some((a@, b@)),
        None => None,
    }
}

pub fn first_two_words(s: &[u8]) -> (r: Option<(Vec<u8>, Vec<u8>)>)
    ensures
        pair_view(r) == two_words(s@),
{
    let a: usize = past_spaces(s, 0);
    let b: usize = past_word(s, a);
    let c: usize = past_spaces(s, b);
    let d: usize = past_word(s, c);
    if a >= s.len() || c >= s.len() {
        return None;
    }
    Some((copy_range(s, a, b), copy_range(s, c, d)))
}

/// The number that decimal digits spell, if there are any, there is nothing
/// else, and the number is at most `max`.
pub open spec fn digits_value(s: Seq<u8>) -> Option<nat>
    decreases s.len(),
{
    if s.len() == 0 {
        None
    } else if !(48 <= s.last() <= 57) {
        None
    } else if s.len() == 1 {
        Some((s.last() - 48) as nat)
    } else {
        match digits_value(s.drop_last()) {
            Some(n) => Some(n * 10 + (s.last() - 48) as nat),
            None => None,
        }
    }
}

/// An unsigned number in decimal, with an optional plus sign, that is at most
/// `max`.
pub open spec fn number(s: Seq<u8>, max: nat) -> Option<nat> {
    let digits = if s.len() >= 2 && s[0] == 43 {
        s.skip(1)
    } else {
        s
    };
    match digits_value(digits) {
        Some(n) => if n <= max {
            Some(n)
        } else {
            None
        },
        None => None,
    }
}

/// Reads an unsigned number that is at most `max`.
pub fn parse_number(s: &[u8], max: u64) -> (r: Option<u64>)
    ensures
        match r {
            Some(n) => number(s@, max as nat) == Some(n as nat),
            None => number(s@, max as nat) is None,
        },
{
    let start: usize = if s.len() >= 2 && s[0] == 43 {
        1
    } else {
        0
    };
    let ghost digits = s@.skip(start as int);
    assert(start == 0 ==> digits =~= s@);
    if s.len() == 0 {
        return None;
    }
    let mut value: u64 = 0;
    let mut i: usize = start;
    while i < s.len()
        invariant
            start <= i <= s@.len(),
            start <= 1,
            start < s@.len(),
            digits == s@.skip(start as int),
            value <= max,
            i > start ==> digits_value(digits.take(i - start)) == Some(value as nat),
            i == start ==> value == 0,
            number(s@, max as nat) == (match digits_value(digits) {
                Some(n) => if n <= max as nat {
                    Some(n)
                } else {
                    None
                },
                None => None,
            }),
        decreases s@.len() - i,
    {
        let byte: u8 = s[i];
        let ghost k = i - start + 1;
        proof {
            assert(digits.take(k).drop_last() =~= digits.take(k - 1));
            assert(digits.take(k).last() == byte);
        }
        if byte < 48 || byte > 57 {
            proof {
                lemma_digits_prefix(digits, k);
            }
            return None;
        }
        let digit: u64 = (byte - 48) as u64;
        let wide: u128 = value as u128 * 10 + digit as u128;
        if wide > max as u128 {
            proof {
                assert(digits_value(digits.take(k)) == Some(wide as nat));
                lemma_digits_prefix(digits, k);
            }
            return None;
        }
        value = wide as u64;
        i += 1;
    }
    assert(digits.take(i - start) =~= digits);
    Some(value)
}

/// A prefix that is no number spoils the whole, and one that is a number is
/// not above the whole.
proof fn lemma_digits_prefix(s: Seq<u8>, k: int)
    requires
        0 < k <= s.len(),
    ensures
        digits_value(s.take(k)) is None ==> digits_value(s) is None,
        digits_value(s) is Some && digits_value(s.take(k)) is Some ==> digits_value(s)->0
            >= digits_value(s.take(k))->0,
    decreases s.len(),
{
    if k < s.len() {
        lemma_digits_prefix(s.drop_last(), k);
        assert(s.drop_last().take(k) =~= s.take(k));
    } else {
        assert(s.take(k) =~= s);
    }
}

/// The letter in lower case.
pub open spec fn lower(b: u8) -> u8 {
    if 65 <= b <= 90 {
        (b + 32) as u8
    } else {
        b
    }
}

/// Equal but for the case of ASCII letters.
pub open spec fn same_ignoring_case(a: Seq<u8>, b: Seq<u8>) -> bool {
    a.len() == b.len() && forall|i: int| 0 <= i < a.len() ==> lower(#[trigger] a[i]) == lower(b[i])
}

fn lowered(b: u8) -> (r: u8)
    ensures
        r == lower(b),
{
    if 65 <= b && b <= 90 {
        b + 32
    } else {
        b
    }
}

pub fn eq_ignoring_case(a: &[u8], b: &[u8]) -> (r: bool)
    ensures
        r == same_ignoring_case(a@, b@),
{
    if a.len() != b.len() {
        return false;
    }
    let mut i: usize = 0;
    while i < a.len()
        invariant
            i <= a@.len() == b@.len(),
            forall|j: int| 0 <= j < i ==> lower(#[trigger] a@[j]) == lower(b@[j]),
        decreases a@.len() - i,
    {
        if lowered(a[i]) != lowered(b[i]) {
            assert(lower(a@[i as int]) != lower(b@[i as int]));
            return false;
        }
        i += 1;
    }
    true
}

/// `core::str::from_utf8`: whether the bytes are UTF-8.
#[verifier::external_body]
pub(crate) fn is_utf8(bytes: &[u8]) -> (r: bool)
    ensures
        r == vstd::utf8::valid_utf8(bytes@),
{
    core::str::from_utf8(bytes).is_ok()
}

/// `String::from_utf8`: the text that UTF-8 bytes spell.
#[verifier::external_body]
pub(crate) fn text_of(bytes: Vec<u8>) -> (r: Option<String>)
    ensures
        r is Some <==> vstd::utf8::valid_utf8(bytes@),
        r matches Some(text) ==> text@ == vstd::utf8::decode_utf8(bytes@),
{
    String::from_utf8(bytes).ok()
}

/// What is found is the first place from there on where the text stands; if
/// nothing is found, it stands nowhere from there on.
pub proof fn law_find_is_the_first(hay: Seq<u8>, needle: Seq<u8>, from: int)
    requires
        0 <= from,
    ensures
        match find_from(hay, needle, from) {
            Some(at) => from <= at && stands_at(hay, needle, at) && forall|i: int|
                from <= i < at ==> !#[trigger] stands_at(hay, needle, i),
            None => forall|i: int| from <= i ==> !#[trigger] stands_at(hay, needle, i),
        },
    decreases hay.len() + 1 - from,
{
    if from + needle.len() > hay.len() {
    } else if stands_at(hay, needle, from) {
    } else {
        law_find_is_the_first(hay, needle, from + 1);
    }
}

/// A number that is written out in digits is read back, with or without a plus
/// sign before it, if it is no larger than may be.
pub proof fn law_numbers_are_read_back(n: nat, max: nat)
    ensures
        digits_value(decimal_of(n)) == Some(n),
        decimal_of(n).len() > 0,
        forall|i: int|
            0 <= i < decimal_of(n).len() ==> 48 <= #[trigger] decimal_of(n)[i] <= 57,
        n <= max ==> number(decimal_of(n), max) == Some(n) && number(
            seq![43u8] + decimal_of(n),
            max,
        ) == Some(n),
        n > max ==> number(decimal_of(n), max) is None,
    decreases n,
{
    let s = decimal_of(n);
    if n >= 10 {
        law_numbers_are_read_back(n / 10, max);
        assert(s.drop_last() =~= decimal_of(n / 10));
        assert(s.last() == 48 + n % 10);
    }
    assert((seq![43u8] + s).skip(1) =~= s);
    assert(s[0] != 43);
}

/// What holds a character that is no digit is no number.
pub proof fn law_letters_are_no_number(s: Seq<u8>, max: nat, i: int)
    requires
        0 <= i < s.len(),
        !(48 <= s[i] <= 57),
        s[i] != 43 || i > 0 || s.len() == 1,
    ensures
        number(s, max) is None,
{
    lemma_not_digits(s, i);
    if s.len() >= 2 && s[0] == 43 {
        lemma_not_digits(s.skip(1), i - 1);
    }
}

proof fn lemma_not_digits(s: Seq<u8>, i: int)
    requires
        0 <= i < s.len(),
        !(48 <= s[i] <= 57),
    ensures
        digits_value(s) is None,
    decreases s.len(),
{
    if i < s.len() - 1 {
        lemma_not_digits(s.drop_last(), i);
    }
}

/// A byte of ASCII that is no space.
pub open spec fn is_visible(b: u8) -> bool {
    b < 0x80 && b != 32 && !(9 <= b <= 13)
}

/// A byte that is a space.
pub open spec fn is_space(b: u8) -> bool {
    b == 32 || 9 <= b <= 13
}

/// Spaces before and after a text are cut off, and nothing else is.
pub proof fn law_spaces_are_trimmed(before: Seq<u8>, text: Seq<u8>, after: Seq<u8>)
    requires
        forall|i: int| 0 <= i < before.len() ==> is_space(#[trigger] before[i]),
        forall|i: int| 0 <= i < after.len() ==> is_space(#[trigger] after[i]),
        text.len() > 0,
        is_visible(text[0]),
        is_visible(text.last()),
    ensures
        trimmed(before + text + after) == text,
{
    let s = before + text + after;
    let a = before.len() as int;
    let b = a + text.len();
    lemma_skip_front(s, 0, a);
    lemma_skip_end(s, a, b, s.len() as int);
    assert(s.subrange(a, b) =~= text);
}

proof fn lemma_skip_front(s: Seq<u8>, from: int, to: int)
    requires
        0 <= from <= to < s.len(),
        forall|i: int| from <= i < to ==> is_space(#[trigger] s[i]),
        is_visible(s[to]),
    ensures
        skip_spaces(s, from) == to,
    decreases to - from,
{
    if from < to {
        assert(is_space(s[from]));
        lemma_skip_front(s, from + 1, to);
    }
}

proof fn lemma_skip_end(s: Seq<u8>, from: int, to: int, end: int)
    requires
        0 <= from < to <= end <= s.len(),
        forall|i: int| to <= i < end ==> is_space(#[trigger] s[i]),
        is_visible(s[to - 1]),
    ensures
        skip_back(s, from, end) == to,
    decreases end - to,
{
    if to < end {
        assert(is_space(s[end - 1]));
        lemma_skip_end(s, from, to, end - 1);
    }
}

/// The two words of a line are what spaces part.
pub proof fn law_words_are_parted_by_spaces(one: Seq<u8>, two: Seq<u8>, rest: Seq<u8>)
    requires
        one.len() > 0,
        two.len() > 0,
        forall|i: int| 0 <= i < one.len() ==> is_visible(#[trigger] one[i]),
        forall|i: int| 0 <= i < two.len() ==> is_visible(#[trigger] two[i]),
    ensures
        two_words(one + seq![32u8] + two) == Some((one, two)),
        two_words(one + seq![32u8] + two + seq![32u8] + rest) == Some((one, two)),
        two_words(one) is None,
{
    let short = one + seq![32u8] + two;
    let long = one + seq![32u8] + two + seq![32u8] + rest;
    let a = one.len() as int;
    let b = a + 1 + two.len();
    lemma_skip_front(short, 0, 0);
    lemma_skip_front(long, 0, 0);
    lemma_skip_front(one, 0, 0);
    lemma_skip_to(short, 0, a);
    lemma_skip_to(long, 0, a);
    lemma_skip_to(one, 0, a);
    lemma_skip_front(short, a, a + 1);
    lemma_skip_front(long, a, a + 1);
    lemma_skip_to(short, a + 1, b);
    lemma_skip_to(long, a + 1, b);
    assert(short.subrange(0, a) =~= one);
    assert(long.subrange(0, a) =~= one);
    assert(short.subrange(a + 1, b) =~= two);
    assert(long.subrange(a + 1, b) =~= two);
}

proof fn lemma_skip_to(s: Seq<u8>, from: int, to: int)
    requires
        0 <= from <= to <= s.len(),
        forall|i: int| from <= i < to ==> is_visible(#[trigger] s[i]),
        to < s.len() ==> is_space(s[to]),
    ensures
        skip_word(s, from) == to,
    decreases to - from,
{
    if from < to {
        assert(is_visible(s[from]));
        lemma_skip_to(s, from + 1, to);
    }
}

/// Texts are the same but for capitals exactly if they agree letter for letter,
/// where a capital agrees with its small letter and all else with itself alone.
pub proof fn law_capitals_make_no_difference(a: Seq<u8>, b: Seq<u8>)
    ensures
        same_ignoring_case(a, b) <==> a.len() == b.len() && forall|i: int|
            0 <= i < a.len() ==> (#[trigger] a[i] == b[i] || (65 <= a[i] <= 90 && b[i] == a[i] + 32)
                || (65 <= b[i] <= 90 && a[i] == b[i] + 32)),
{
    if same_ignoring_case(a, b) {
        assert forall|i: int| 0 <= i < a.len() implies (#[trigger] a[i] == b[i] || (65 <= a[i] <= 90
            && b[i] == a[i] + 32) || (65 <= b[i] <= 90 && a[i] == b[i] + 32)) by {
            assert(lower(a[i]) == lower(b[i]));
        }
    }
}

} // verus!
