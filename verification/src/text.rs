//! Text as the configuration reads it: strings by their UTF-8 bytes, split
//! at ASCII separators, and port numbers in decimal.
use vstd::prelude::*;
use vstd::string::StringSliceAdditionalSpecFns;
use vstd::utf8::{
    encode_scalar, encode_utf8, encode_utf8_decode_utf8, encode_utf8_valid_utf8, is_char_boundary,
    is_char_boundary_iff_not_is_continuation_byte, is_char_boundary_start_end_of_seq, valid_utf8,
};

verus! {

/// The UTF-8 bytes of a character sequence.
pub open spec fn utf8(chars: Seq<char>) -> Seq<u8> {
    encode_utf8(chars)
}

/// The parts of `s` before and after its first `sep`, when it has one.
pub open spec fn split_once(s: Seq<u8>, sep: u8) -> Option<(Seq<u8>, Seq<u8>)> {
    match s.index_of_first(sep) {
        Some(i) => Some((s.subrange(0, i), s.subrange(i + 1, s.len() as int))),
        None => None,
    }
}

/// The parts of `s` before and after its last `sep`, when it has one.
pub open spec fn rsplit_once(s: Seq<u8>, sep: u8) -> Option<(Seq<u8>, Seq<u8>)> {
    match s.index_of_last(sep) {
        Some(i) => Some((s.subrange(0, i), s.subrange(i + 1, s.len() as int))),
        None => None,
    }
}

/// The pieces of `s` between its `sep` bytes, empty pieces included.
pub open spec fn split_all(s: Seq<u8>, sep: u8) -> Seq<Seq<u8>>
    decreases s.len(),
{
    match s.index_of_first(sep) {
        Some(i) => {
            proof {
                s.index_of_first_ensures(sep);
            }
            seq![s.subrange(0, i)] + split_all(s.subrange(i + 1, s.len() as int), sep)
        },
        None => seq![s],
    }
}

/// An ASCII decimal digit.
pub open spec fn is_digit(b: u8) -> bool {
    0x30 <= b <= 0x39
}

/// The number that a sequence of decimal digits writes.
pub open spec fn decimal_value(digits: Seq<u8>) -> nat
    decreases digits.len(),
{
    if digits.len() == 0 {
        0
    } else {
        decimal_value(digits.drop_last()) * 10 + (digits.last() - 0x30) as nat
    }
}

/// The digits of a port number: the text without a leading `+` that has
/// something after it.
pub open spec fn port_digits(s: Seq<u8>) -> Seq<u8> {
    if s.len() > 1 && s[0] == 0x2b {
        s.drop_first()
    } else {
        s
    }
}

/// A port number as `u16`'s `FromStr` reads it: an optional `+`, then one or
/// more decimal digits whose value fits in 16 bits.
pub open spec fn spec_parse_u16(s: Seq<u8>) -> Option<u16> {
    let digits = port_digits(s);
    if digits.len() > 0 && (forall|i: int| 0 <= i < digits.len() ==> is_digit(#[trigger] digits[i]))
        && decimal_value(digits) <= 0xffff {
        Some(decimal_value(digits) as u16)
    } else {
        None
    }
}

/// The ASCII digit character for `d`.
pub open spec fn digit_char(d: nat) -> char {
    (d + 0x30) as char
}

/// The decimal writing of `n`, without leading zeros.
pub open spec fn decimal_chars(n: nat) -> Seq<char>
    decreases n,
{
    if n < 10 {
        seq![digit_char(n)]
    } else {
        decimal_chars(n / 10).push(digit_char(n % 10))
    }
}

/// The bytes of any string slice are valid UTF-8.
pub proof fn lemma_str_valid(s: &str)
    ensures
        valid_utf8(s.spec_bytes()),
{
    encode_utf8_valid_utf8(s@);
}

/// UTF-8 encoding distributes over concatenation.
pub proof fn lemma_utf8_append(a: Seq<char>, b: Seq<char>)
    ensures
        utf8(a + b) == utf8(a) + utf8(b),
    decreases a.len(),
{
    if a.len() > 0 {
        assert((a + b).drop_first() == a.drop_first() + b);
        lemma_utf8_append(a.drop_first(), b);
    } else {
        assert(a + b == b);
    }
}

/// An ASCII character encodes as its single byte.
pub proof fn lemma_utf8_ascii(c: char)
    requires
        (c as u32) < 128,
    ensures
        utf8(seq![c]) == seq![(c as u32) as u8],
{
    let u = c as u32;
    assert(u < 128 ==> (u & 0x7F) as u8 == u as u8) by (bit_vector);
    assert(seq![c].drop_first() == Seq::<char>::empty());
    reveal_with_fuel(encode_utf8, 2);
    assert(encode_utf8(seq![c]) == encode_scalar(u) + encode_utf8(Seq::<char>::empty()));
}

/// Two strings have the same bytes exactly when they have the same characters.
pub proof fn lemma_utf8_injective(a: Seq<char>, b: Seq<char>)
    ensures
        utf8(a) == utf8(b) <==> a == b,
{
    if utf8(a) == utf8(b) {
        encode_utf8_decode_utf8(a);
        encode_utf8_decode_utf8(b);
    }
}

/// In valid UTF-8 whose first byte is ASCII, the first character ends after
/// one byte.
proof fn lemma_boundary_after_ascii_first(bytes: Seq<u8>)
    requires
        valid_utf8(bytes),
        bytes.len() >= 1,
        bytes[0] < 128,
    ensures
        is_char_boundary(bytes, 1),
{
    if bytes.len() == 1 {
        is_char_boundary_start_end_of_seq(bytes);
    } else {
        reveal_with_fuel(is_char_boundary, 2);
        assert(valid_utf8(bytes.subrange(1, bytes.len() as int)));
    }
}

/// Splits `s` around the ASCII byte at `index`: the text before it and the
/// text after it.
pub fn split_around(s: &str, index: usize) -> (parts: (&str, &str))
    requires
        index < s.spec_bytes().len(),
        s.spec_bytes()[index as int] < 128,
    ensures
        parts.0.spec_bytes() == s.spec_bytes().subrange(0, index as int),
        parts.1.spec_bytes() == s.spec_bytes().subrange(index + 1, s.spec_bytes().len() as int),
{
    proof {
        lemma_str_valid(s);
        is_char_boundary_iff_not_is_continuation_byte(s.spec_bytes(), index as int);
    }
    let (before, rest) = s.split_at(index);
    proof {
        lemma_str_valid(rest);
        lemma_boundary_after_ascii_first(rest.spec_bytes());
    }
    let (_, after) = rest.split_at(1);
    (before, after)
}

/// Position of the first `needle` in `bytes`.
pub fn find_byte(bytes: &[u8], needle: u8) -> (found: Option<usize>)
    ensures
        match found {
            Some(i) => bytes@.index_of_first(needle) == Some(i as int),
            None => bytes@.index_of_first(needle) is None,
        },
{
    let mut i: usize = 0;
    while i < bytes.len()
        invariant
            i <= bytes.len(),
            forall|j: int| 0 <= j < i ==> bytes@[j] != needle,
        decreases bytes.len() - i,
    {
        if bytes[i] == needle {
            proof {
                bytes@.index_of_first_ensures(needle);
            }
            return Some(i);
        }
        i = i + 1;
    }
    proof {
        bytes@.index_of_first_ensures(needle);
    }
    None
}

/// Position of the last `needle` in `bytes`.
pub fn rfind_byte(bytes: &[u8], needle: u8) -> (found: Option<usize>)
    ensures
        match found {
            Some(i) => bytes@.index_of_last(needle) == Some(i as int),
            None => bytes@.index_of_last(needle) is None,
        },
{
    let mut i: usize = bytes.len();
    while i > 0
        invariant
            i <= bytes.len(),
            forall|j: int| i <= j < bytes.len() ==> bytes@[j] != needle,
        decreases i,
    {
        if bytes[i - 1] == needle {
            proof {
                bytes@.index_of_last_ensures(needle);
            }
            return Some(i - 1);
        }
        i = i - 1;
    }
    proof {
        bytes@.index_of_last_ensures(needle);
    }
    None
}

/// Whether two strings hold the same text.
pub fn same_text(a: &str, b: &str) -> (same: bool)
    ensures
        same == (a@ == b@),
{
    proof {
        lemma_utf8_injective(a@, b@);
    }
    same_bytes(a.as_bytes(), b.as_bytes())
}

/// Whether two byte strings are equal.
pub fn same_bytes(x: &[u8], y: &[u8]) -> (same: bool)
    ensures
        same == (x@ == y@),
{
    if x.len() != y.len() {
        return false;
    }
    let mut i: usize = 0;
    while i < x.len()
        invariant
            x.len() == y.len(),
            i <= x.len(),
            forall|j: int| 0 <= j < i ==> x@[j] == y@[j],
        decreases x.len() - i,
    {
        if x[i] != y[i] {
            return false;
        }
        i = i + 1;
    }
    assert(x@ == y@);
    true
}

proof fn lemma_decimal_prefix(digits: Seq<u8>, k: int)
    requires
        0 <= k <= digits.len(),
        forall|i: int| 0 <= i < digits.len() ==> is_digit(#[trigger] digits[i]),
    ensures
        decimal_value(digits.subrange(0, k)) <= decimal_value(digits),
    decreases digits.len() - k,
{
    if k < digits.len() {
        let next = digits.subrange(0, k + 1);
        assert(next.drop_last() == digits.subrange(0, k));
        lemma_decimal_prefix(digits, k + 1);
    } else {
        assert(digits.subrange(0, k) == digits);
    }
}

/// Reads a port number the way `u16`'s `FromStr` does.
pub fn parse_u16(s: &[u8]) -> (value: Option<u16>)
    ensures
        value == spec_parse_u16(s@),
{
    let start: usize = if s.len() > 1 && s[0] == 0x2b {
        1
    } else {
        0
    };
    let ghost digits = port_digits(s@);
    assert(digits == s@.subrange(start as int, s@.len() as int));
    if start >= s.len() {
        return None;
    }
    let mut value: u32 = 0;
    let mut i: usize = start;
    while i < s.len()
        invariant
            start <= i <= s.len(),
            digits == s@.subrange(start as int, s@.len() as int),
            digits == port_digits(s@),
            forall|j: int| 0 <= j < i - start ==> is_digit(#[trigger] digits[j]),
            value as nat == decimal_value(digits.subrange(0, i - start)),
            value <= 0xffff,
        decreases s.len() - i,
    {
        let b = s[i];
        if b < 0x30 || b > 0x39 {
            assert(!is_digit(digits[i - start]));
            return None;
        }
        let ghost prefix = digits.subrange(0, i - start + 1);
        assert(prefix.drop_last() == digits.subrange(0, i - start));
        value = value * 10 + (b - 0x30) as u32;
        i = i + 1;
        if value > 0xffff {
            proof {
                if forall|j: int| 0 <= j < digits.len() ==> is_digit(#[trigger] digits[j]) {
                    lemma_decimal_prefix(digits, i - start);
                }
            }
            return None;
        }
    }
    assert(digits.subrange(0, digits.len() as int) == digits);
    Some(value as u16)
}

/// The single-character text of the digit `d`.
fn digit_text(d: u16) -> (text: &'static str)
    requires
        d < 10,
    ensures
        text@ == seq![digit_char(d as nat)],
{
    proof {
        reveal_strlit("0");
        reveal_strlit("1");
        reveal_strlit("2");
        reveal_strlit("3");
        reveal_strlit("4");
        reveal_strlit("5");
        reveal_strlit("6");
        reveal_strlit("7");
        reveal_strlit("8");
        reveal_strlit("9");
    }
    match d {
        0 => "0",
        1 => "1",
        2 => "2",
        3 => "3",
        4 => "4",
        5 => "5",
        6 => "6",
        7 => "7",
        8 => "8",
        _ => "9",
    }
}

/// Appends the decimal writing of `n` to `out`.
pub fn push_decimal(out: &mut String, n: u16)
    ensures
        final(out)@ == old(out)@ + decimal_chars(n as nat),
    decreases n,
{
    if n >= 10 {
        push_decimal(out, n / 10);
    }
    out.append(digit_text(n % 10));
    assert(n >= 10 ==> old(out)@ + decimal_chars(n as nat) == old(out)@ + decimal_chars((n / 10) as nat)
        + seq![digit_char((n % 10) as nat)]);
}

} // verus!
