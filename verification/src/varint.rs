//! Minecraft VarInt: a 32-bit value written seven bits per byte, least
//! significant group first, with the high bit of a byte set when more follow.
use vstd::prelude::*;

use crate::error::{spec_invalid_data, spec_unexpected_eof, unexpected_eof, WireError, VARINT_TOO_LONG};
use crate::error::invalid_data;

verus! {

/// A VarInt holds at most this many bytes.
pub const MAX_VARINT_LEN: usize = 5;

/// `128` raised to `count`: the weight of the `count`-th seven-bit group.
pub open spec fn weight(count: nat) -> nat
    decreases count,
{
    if count == 0 {
        1
    } else {
        128 * weight((count - 1) as nat)
    }
}

/// The unsigned reading of the two's-complement bits of `v`.
pub open spec fn bits_of(v: i32) -> nat {
    if v >= 0 {
        v as nat
    } else {
        (v + 0x1_0000_0000) as nat
    }
}

/// The `i32` whose two's-complement bits are the low 32 bits of `n`.
pub open spec fn wrap_i32(n: int) -> i32 {
    let low = n % 0x1_0000_0000;
    if low < 0x8000_0000 {
        low as i32
    } else {
        (low - 0x1_0000_0000) as i32
    }
}

/// The shortest VarInt encoding of the natural number `n`.
pub open spec fn varint_bytes(n: nat) -> Seq<u8>
    decreases n,
{
    if n < 128 {
        seq![n as u8]
    } else {
        seq![(n % 128 + 128) as u8] + varint_bytes(n / 128)
    }
}

/// The bytes that `encode_varint` writes for `v`.
pub open spec fn encoded_varint(v: i32) -> Seq<u8> {
    varint_bytes(bits_of(v))
}

/// Reading a VarInt at `pos` of `s`, after `count` bytes that all had their
/// high bit set and whose seven-bit groups add up to `acc`.
pub open spec fn read_varint_from(s: Seq<u8>, pos: int, count: nat, acc: int) -> Result<(i32, int), WireError>
    decreases 5 - count,
{
    if count >= 5 {
        Err(spec_invalid_data(VARINT_TOO_LONG))
    } else if pos + count >= s.len() || pos < 0 {
        Err(spec_unexpected_eof())
    } else {
        let byte = s[pos + count];
        let total = acc + (byte % 128) * weight(count);
        if byte < 128 {
            Ok((wrap_i32(total), pos + count + 1))
        } else {
            read_varint_from(s, pos, count + 1, total)
        }
    }
}

/// Reading a VarInt that starts at `pos` of `s`: its value and the position
/// just after it, or why there is none.
pub open spec fn spec_read_varint(s: Seq<u8>, pos: int) -> Result<(i32, int), WireError> {
    read_varint_from(s, pos, 0, 0)
}

proof fn lemma_weight_values()
    ensures
        weight(0) == 1,
        weight(1) == 128,
        weight(2) == 16384,
        weight(3) == 2097152,
        weight(4) == 268435456,
        weight(5) == 34359738368,
{
    reveal_with_fuel(weight, 6);
}

/// Adding the next seven-bit group to an accumulator below its weight, as the
/// decoder does with `|` and `<<` on `u32`.
proof fn lemma_add_group(value: u32, byte: u8, count: u32)
    requires
        count <= 4,
        value < weight(count as nat),
    ensures
        (value | (((byte & 0x7f) as u32) << ((7 * count) as u32))) as nat == (value + (byte % 128)
            * weight(count as nat)) % 0x1_0000_0000,
        byte & 0x7f == byte % 128,
{
    lemma_weight_values();
    assert(byte & 0x7f == byte % 128) by (bit_vector);
    let low: u32 = (byte & 0x7f) as u32;
    assert(low < 128);
    if count == 0 {
        assert(value == 0);
        assert((0u32 | (low << 0u32)) == low) by (bit_vector);
    } else if count == 1 {
        assert(value < 128 && low < 128 ==> (value | (low << 7u32)) == value + low * 128) by (bit_vector);
    } else if count == 2 {
        assert(value < 16384 && low < 128 ==> (value | (low << 14u32)) == value + low * 16384) by (bit_vector);
    } else if count == 3 {
        assert(value < 2097152 && low < 128 ==> (value | (low << 21u32)) == value + low * 2097152) by (bit_vector);
    } else {
        assert(value < 268435456 && low < 128 ==> (value | (low << 28u32)) as int == (value as int + low as int
            * 268435456) % 0x1_0000_0000) by (bit_vector);
    }
}

proof fn lemma_wrap_cast(u: u32)
    ensures
        u as i32 == wrap_i32(u as int),
{
    assert((u as i32) as int == (if u < 0x8000_0000u32 { u as int } else { u as int - 0x1_0000_0000 }))
        by (bit_vector);
}

proof fn lemma_bits_cast(v: i32)
    ensures
        v as u32 == bits_of(v),
{
    assert((v as u32) as int == (if v >= 0 { v as int } else { v as int + 0x1_0000_0000 })) by (bit_vector);
}

/// What a decoder gives for `byte` after `count` bytes whose groups add up to
/// `acc`: the value when the byte ends the VarInt, an error when it is the
/// fifth and does not, and nothing yet otherwise.
pub open spec fn decode_step(count: nat, acc: int, byte: u8) -> Option<Result<i32, WireError>> {
    if byte < 128 {
        Some(Ok(wrap_i32(acc + (byte % 128) * weight(count))))
    } else if count >= 4 {
        Some(Err(spec_invalid_data(VARINT_TOO_LONG)))
    } else {
        None
    }
}

/// Feeding the bytes of `s` from index `count` on to a decoder that has taken
/// `count` bytes adding up to `acc`, until it gives an outcome: that outcome
/// and the number of bytes taken in all, or `None` when `s` ends first.
pub open spec fn decoder_run(s: Seq<u8>, count: nat, acc: int) -> Option<(Result<i32, WireError>, int)>
    decreases s.len() - count,
{
    if count >= s.len() {
        None
    } else {
        let byte = s[count as int];
        match decode_step(count, acc, byte) {
            Some(outcome) => Some((outcome, (count + 1) as int)),
            None => decoder_run(s, count + 1, acc + (byte % 128) * weight(count)),
        }
    }
}

/// A decoder that takes a VarInt one byte at a time.
pub struct VarIntDecoder {
    value: u32,
    count: u32,
}

impl VarIntDecoder {
    /// Number of bytes taken so far, all with their high bit set.
    pub closed spec fn count(&self) -> nat {
        self.count as nat
    }

    /// Sum of the seven-bit groups taken so far, each at its weight.
    pub closed spec fn acc(&self) -> nat {
        self.value as nat
    }

    #[verifier::type_invariant]
    spec fn inv(&self) -> bool {
        &&& self.count <= 4
        &&& self.value < weight(self.count as nat)
    }

    /// A decoder that has taken no byte.
    pub fn new() -> (decoder: Self)
        ensures
            decoder.count() == 0,
            decoder.acc() == 0,
    {
        proof {
            lemma_weight_values();
        }
        VarIntDecoder { value: 0, count: 0 }
    }

    /// What one more byte of a VarInt gives: the value when the byte ends it,
    /// an error when it is the fifth and does not, or `None` with the decoder
    /// advanced.
    pub fn push(&mut self, byte: u8) -> (outcome: Option<Result<i32, WireError>>)
        ensures
            ({
                let count = old(self).count();
                let total = old(self).acc() + (byte % 128) * weight(count);
                &&& byte < 128 ==> outcome == Some(Ok::<i32, WireError>(wrap_i32(total)))
                &&& byte >= 128 && count == 4 ==> outcome == Some(
                    Err::<i32, WireError>(spec_invalid_data(VARINT_TOO_LONG)),
                )
                &&& byte >= 128 && count < 4 ==> {
                    &&& outcome is None
                    &&& final(self).count() == count + 1
                    &&& final(self).acc() == total
                }
                &&& count <= 4
                &&& old(self).acc() < weight(count)
            }),
        outcome == decode_step(old(self).count(), old(self).acc() as int, byte),
    {
        proof {
            use_type_invariant(&*self);
            lemma_weight_values();
            lemma_add_group(self.value, byte, self.count);
        }
        let shift: u32 = 7 * self.count;
        let value = self.value | (((byte & 0x7f) as u32) << shift);
        if byte & 0x80 == 0 {
            assert(byte & 0x80 == 0 <==> byte < 128) by (bit_vector);
            proof {
                lemma_wrap_cast(value);
                assert(wrap_i32(value as int) == wrap_i32(self.value + (byte % 128) * weight(self.count as nat)))
                    by {
                    let t = self.value + (byte % 128) * weight(self.count as nat);
                    assert((t % 0x1_0000_0000) % 0x1_0000_0000 == t % 0x1_0000_0000);
                }
            }
            return Some(Ok(value as i32));
        }
        assert(byte & 0x80 != 0 ==> byte >= 128) by (bit_vector);
        if self.count == 4 {
            return Some(Err(invalid_data(VARINT_TOO_LONG)));
        }
        proof {
            let c = self.count as nat;
            assert(self.value + (byte % 128) * weight(c) < weight(c + 1)) by (nonlinear_arith)
                requires
                    self.value < weight(c),
                    byte % 128 <= 127,
                    weight(c + 1) == 128 * weight(c),
            ;
            assert(weight(c + 1) <= 268435456);
        }
        *self = VarIntDecoder { value, count: self.count + 1 };
        None
    }
}

/// Reads the VarInt that starts at `pos` of `bytes`, giving its value and the
/// position just after it.
pub fn read_varint(bytes: &[u8], pos: usize) -> (result: Result<(i32, usize), WireError>)
    ensures
        match result {
            Ok((value, next)) => spec_read_varint(bytes@, pos as int) == Ok::<(i32, int), WireError>(
                (value, next as int),
            ),
            Err(error) => spec_read_varint(bytes@, pos as int) == Err::<(i32, int), WireError>(error),
        },
        result matches Ok((_, next)) ==> pos < next <= bytes.len() && next <= pos + MAX_VARINT_LEN,
{
    proof {
        lemma_read_varint_advances(bytes@, pos as int);
    }
    let mut decoder = VarIntDecoder::new();
    let mut count: usize = 0;
    loop
        invariant
            count <= 4,
            decoder.count() == count,
            spec_read_varint(bytes@, pos as int) == read_varint_from(bytes@, pos as int, count as nat, decoder.acc() as int),
        decreases 5 - count,
    {
        if pos >= bytes.len() || count >= bytes.len() - pos {
            return Err(unexpected_eof());
        }
        let byte = bytes[pos + count];
        match decoder.push(byte) {
            Some(Ok(value)) => {
                return Ok((value, pos + count + 1));
            },
            Some(Err(error)) => {
                proof {
                    reveal_with_fuel(read_varint_from, 2);
                }
                return Err(error);
            },
            None => {
                count = count + 1;
            },
        }
    }
}

/// Appends the VarInt encoding of `value` to `output`.
pub fn encode_varint(value: i32, output: &mut Vec<u8>)
    ensures
        final(output)@ == old(output)@ + encoded_varint(value),
{
    proof {
        lemma_bits_cast(value);
    }
    let mut rest: u32 = value as u32;
    loop
        invariant
            old(output)@ + encoded_varint(value) == output@ + varint_bytes(rest as nat),
        decreases rest,
    {
        let low = (rest & 0x7f) as u8;
        let next = rest >> 7;
        assert(rest & 0x7f == rest % 128 && rest >> 7 == rest / 128) by (bit_vector);
        let ghost before = output@;
        if next == 0 {
            output.push(low);
            assert(varint_bytes(rest as nat) == seq![low]);
            assert(output@ == before + varint_bytes(rest as nat));
            return;
        }
        let byte = low | 0x80;
        assert(low < 128 ==> low | 0x80 == low + 128) by (bit_vector);
        output.push(byte);
        assert(varint_bytes(rest as nat) == seq![byte] + varint_bytes(next as nat));
        assert(output@ + varint_bytes(next as nat) == before + varint_bytes(rest as nat));
        rest = next;
    }
}

/// The encoding of `n` has at most `k` bytes when `n` is below `128^k`.
proof fn lemma_varint_bytes_len(n: nat, k: nat)
    requires
        n < weight(k),
        k >= 1,
    ensures
        1 <= varint_bytes(n).len() <= k,
    decreases n,
{
    if n >= 128 {
        let k1 = (k - 1) as nat;
        if k == 1 {
            assert(weight(1) == 128) by {
                reveal_with_fuel(weight, 2);
            }
        }
        assert(weight(k) == 128 * weight(k1));
        assert(n / 128 < weight(k1)) by (nonlinear_arith)
            requires
                n < 128 * weight(k1),
        ;
        lemma_varint_bytes_len(n / 128, k1);
    }
}

/// Every VarInt that `encode_varint` writes has between one and five bytes.
pub proof fn lemma_encoded_varint_len(v: i32)
    ensures
        1 <= encoded_varint(v).len() <= MAX_VARINT_LEN,
{
    lemma_weight_values();
    lemma_varint_bytes_len(bits_of(v), 5);
}

/// Reading resumes correctly in the middle of an encoding: after `count`
/// groups of `n`, the rest of the encoding of `n` completes the value.
proof fn lemma_read_encoded_from(s: Seq<u8>, pos: int, count: nat, n: nat)
    requires
        n < 0x1_0000_0000,
        count <= 4,
        pos >= 0,
        pos + count + varint_bytes(n / weight(count)).len() <= s.len(),
        forall|j: int|
            0 <= j < varint_bytes(n / weight(count)).len() ==> s[pos + count + j] == #[trigger] varint_bytes(
                n / weight(count),
            )[j],
    ensures
        read_varint_from(s, pos, count, (n % weight(count)) as int) == Ok::<(i32, int), WireError>(
            (wrap_i32(n as int), pos + count + varint_bytes(n / weight(count)).len()),
        ),
    decreases 4 - count,
{
    lemma_weight_values();
    let w = weight(count);
    let q = n / w;
    let vb = varint_bytes(q);
    assert(w > 0);
    let byte = s[pos + count];
    assert(byte == vb[0]);
    assert(n == w * q + n % w) by (nonlinear_arith)
        requires
            w > 0,
            q == n / w,
    ;
    if q < 128 {
        assert(vb == seq![q as u8]);
        assert(byte % 128 == q);
        assert(n % w + q * w == n) by (nonlinear_arith)
            requires
                n == w * q + n % w,
        ;
    } else {
        if count == 4 {
            assert(q < 16) by (nonlinear_arith)
                requires
                    n < 0x1_0000_0000,
                    w == 268435456,
                    q == n / w,
            ;
        }
        let w1 = weight(count + 1);
        assert(w1 == 128 * w);
        assert(vb == seq![(q % 128 + 128) as u8] + varint_bytes(q / 128));
        assert(byte % 128 == q % 128);
        assert(n % (w * 128) == w * ((n / w) % 128) + n % w) by {
            vstd::arithmetic::div_mod::lemma_mod_breakdown(n as int, w as int, 128);
        }
        assert(n / w1 == q / 128) by {
            vstd::arithmetic::div_mod::lemma_div_denominator(n as int, w as int, 128);
            assert(w * 128 == w1);
        }
        assert((n % w) as int + (byte % 128) * w == (n % w1) as int) by {
            assert(w * 128 == w1);
            assert(w * (q % 128) == (q % 128) * w) by (nonlinear_arith);
        }
        assert forall|j: int| 0 <= j < varint_bytes(n / w1).len() implies s[pos + (count + 1) + j]
            == #[trigger] varint_bytes(n / w1)[j] by {
            assert(vb[j + 1] == varint_bytes(q / 128)[j]);
        }
        lemma_read_encoded_from(s, pos, count + 1, n);
    }
}

/// Reading a VarInt where `encode_varint` wrote one gives back the value it
/// encoded and stops just after it, whatever surrounds it.
pub proof fn lemma_varint_roundtrip(v: i32, before: Seq<u8>, after: Seq<u8>)
    ensures
        spec_read_varint(before + encoded_varint(v) + after, before.len() as int) == Ok::<(i32, int), WireError>(
            (v, (before.len() + encoded_varint(v).len()) as int),
        ),
{
    lemma_weight_values();
    let n = bits_of(v);
    let s = before + encoded_varint(v) + after;
    assert(n / weight(0) == n && n % weight(0) == 0);
    assert forall|j: int| 0 <= j < varint_bytes(n / weight(0)).len() implies s[before.len() + 0 + j]
        == #[trigger] varint_bytes(n / weight(0))[j] by {}
    lemma_read_encoded_from(s, before.len() as int, 0, n);
    assert(wrap_i32(n as int) == v);
}

proof fn lemma_read_from_advances(s: Seq<u8>, pos: int, count: nat, acc: int)
    requires
        count <= 5,
    ensures
        read_varint_from(s, pos, count, acc) matches Ok((_, next)) ==> pos + count < next <= s.len()
            && next <= pos + 5,
    decreases 5 - count,
{
    if count < 5 && !(pos + count >= s.len() || pos < 0) {
        let byte = s[pos + count];
        if byte >= 128 {
            lemma_read_from_advances(s, pos, count + 1, acc + (byte % 128) * weight(count));
        }
    }
}

/// A VarInt that reads successfully takes between one and five bytes, all
/// within the input.
pub proof fn lemma_read_varint_advances(s: Seq<u8>, pos: int)
    ensures
        spec_read_varint(s, pos) matches Ok((_, next)) ==> 0 <= pos < next <= s.len() && next <= pos
            + MAX_VARINT_LEN,
{
    lemma_read_from_advances(s, pos, 0, 0);
}

proof fn lemma_decoder_run_from(s: Seq<u8>, count: nat, acc: int)
    requires
        count <= 4,
    ensures
        match decoder_run(s, count, acc) {
            Some((Ok(value), taken)) => read_varint_from(s, 0, count, acc) == Ok::<(i32, int), WireError>(
                (value, taken),
            ),
            Some((Err(error), taken)) => read_varint_from(s, 0, count, acc) == Err::<(i32, int), WireError>(error)
                && error == spec_invalid_data(VARINT_TOO_LONG) && taken == 5,
            None => read_varint_from(s, 0, count, acc) == Err::<(i32, int), WireError>(spec_unexpected_eof()),
        },
    decreases 4 - count,
{
    if count < s.len() {
        let byte = s[count as int];
        if byte >= 128 && count < 4 {
            lemma_decoder_run_from(s, count + 1, acc + (byte % 128) * weight(count));
        } else if byte >= 128 {
            reveal_with_fuel(read_varint_from, 2);
        }
    }
}

/// Taking the bytes of `s` one at a time with a fresh `VarIntDecoder` agrees
/// with reading a VarInt from `s`: the decoder gives the value after exactly
/// the bytes the reader consumes, gives the reader's error after five bytes
/// when the VarInt is too long, and gives nothing for all of `s` exactly when
/// the reader finds `s` too short.
pub proof fn lemma_decoder_agrees_with_reader(s: Seq<u8>)
    ensures
        match decoder_run(s, 0, 0) {
            Some((Ok(value), taken)) => spec_read_varint(s, 0) == Ok::<(i32, int), WireError>((value, taken)),
            Some((Err(error), taken)) => spec_read_varint(s, 0) == Err::<(i32, int), WireError>(error) && error
                == spec_invalid_data(VARINT_TOO_LONG) && taken == MAX_VARINT_LEN,
            None => spec_read_varint(s, 0) == Err::<(i32, int), WireError>(spec_unexpected_eof()),
        },
{
    lemma_decoder_run_from(s, 0, 0);
}

} // verus!
