//! The codes of the index format, as bit runs, and what a reader makes of a
//! stream at a given bit offset.
//!
//! Every code stores `n + 1` for a value `n`, so that zero is representable.
//! A reader may consume a code only if at least one more bit follows it in
//! the stream; the writer's tail padding guarantees this for all it wrote.
use vstd::prelude::*;
use vstd::arithmetic::power2::pow2;
use vstd::utf8::{encode_utf8, decode_utf8, valid_utf8};
use crate::disk::bits::{CodecError, zeros, nat_bits, bits_of_bytes, bits_value};

verus! {

// ---------------------------------------------------------------------------
// Encodings.
// ---------------------------------------------------------------------------

/// ⌊log₂ v⌋ for `v >= 1`.
pub open spec fn floor_log2(v: nat) -> nat
    decreases v,
{
    if v <= 1 {
        0
    } else {
        1 + floor_log2(v / 2)
    }
}

/// Elias γ code of `v >= 1`: ⌊log₂ v⌋ zeros, a one, then the digits of `v`
/// below its leading one, lowest first.
pub open spec fn gamma_code(v: nat) -> Seq<bool> {
    let z = floor_log2(v);
    zeros(z) + seq![true] + nat_bits((v - pow2(z)) as nat, z)
}

/// The γ code that stores the value `n`.
pub open spec fn gamma_bits(n: nat) -> Seq<bool> {
    gamma_code(n + 1)
}

/// Variable-byte code of `v >= 1`: groups of seven digits, lowest group
/// first, one per byte; the high bit of a byte is set on the last group only.
pub open spec fn vbyte_code(v: nat) -> Seq<bool>
    decreases v,
{
    if v < 128 {
        nat_bits(v + 128, 8)
    } else {
        nat_bits(v % 128, 8) + vbyte_code(v / 128)
    }
}

/// The variable-byte code that stores the value `n`.
pub open spec fn vbyte_bits(n: nat) -> Seq<bool> {
    vbyte_code(n + 1)
}

/// A byte string: its γ-coded length, then its bytes.
pub open spec fn bytes_bits(b: Seq<u8>) -> Seq<bool> {
    gamma_bits(b.len()) + bits_of_bytes(b)
}

/// A string is stored as its UTF-8 bytes.
pub open spec fn str_bits(chars: Seq<char>) -> Seq<bool> {
    bytes_bits(encode_utf8(chars))
}

/// γ-coded differences between successive elements, the first taken from `prev`.
pub open spec fn gaps_bits(v: Seq<u32>, prev: nat) -> Seq<bool>
    decreases v.len(),
{
    if v.len() == 0 {
        Seq::empty()
    } else {
        gamma_bits((v[0] - prev) as nat) + gaps_bits(v.drop_first(), v[0] as nat)
    }
}

/// A gap-coded vector: variable-byte count, then the γ-coded gaps.
pub open spec fn gap_vector_bits(v: Seq<u32>) -> Seq<bool> {
    vbyte_bits(v.len()) + gaps_bits(v, 0)
}

/// Each element is larger than the one before it.
pub open spec fn strictly_ascending(v: Seq<u32>) -> bool {
    forall|i: int, j: int| 0 <= i < j < v.len() ==> v[i] < v[j]
}

/// What a gap-coded vector may hold: ascending values, each below the
/// largest `u32` (whose successor no code can store), and a count that a
/// variable-byte code can store.
pub open spec fn gap_codable(v: Seq<u32>) -> bool {
    &&& strictly_ascending(v)
    &&& v.len() < u32::MAX
    &&& forall|i: int| 0 <= i < v.len() ==> v[i] < u32::MAX
}

// ---------------------------------------------------------------------------
// Decodings.
// ---------------------------------------------------------------------------

/// The run `c` stands in the stream `s` at bit offset `pos`.
pub open spec fn holds_at(s: Seq<bool>, pos: nat, c: Seq<bool>) -> bool {
    pos + c.len() <= s.len() && s.subrange(pos as int, (pos + c.len()) as int) == c
}

/// The number held by the `len` bits at offset `pos`.
pub open spec fn field(s: Seq<bool>, pos: nat, len: nat) -> nat {
    bits_value(s.subrange(pos as int, (pos + len) as int))
}

/// The count of zero bits from `pos` up to the next one bit or the end.
pub open spec fn zero_run(s: Seq<bool>, pos: nat) -> nat
    decreases s.len() - pos,
{
    if pos < s.len() && !s[pos as int] {
        1 + zero_run(s, pos + 1)
    } else {
        0
    }
}

/// Reading `len` raw bits at `pos`: the number and the offset after it.
pub open spec fn parse_bits(s: Seq<bool>, pos: nat, len: nat) -> Result<(nat, nat), CodecError> {
    if pos + len >= s.len() {
        Err(CodecError::UnexpectedEof)
    } else {
        Ok((field(s, pos, len), pos + len))
    }
}

/// Reading a γ-coded value at `pos`. No `u32` has a code that starts with
/// 32 zeros; a stream that ends within the code, or right behind its 32nd
/// zero, has ended too early.
pub open spec fn parse_gamma(s: Seq<bool>, pos: nat) -> Result<(u32, nat), CodecError> {
    let z = zero_run(s, pos);
    if z >= 32 {
        if pos + 32 >= s.len() {
            Err(CodecError::UnexpectedEof)
        } else {
            Err(CodecError::Malformed)
        }
    } else if pos + 2 * z + 1 >= s.len() {
        Err(CodecError::UnexpectedEof)
    } else {
        Ok(((pow2(z) + field(s, pos + z + 1, z) - 1) as u32, pos + 2 * z + 1))
    }
}

/// Reading the groups of a variable-byte code from group `i` on, with the
/// lower groups already summed up in `acc`.
pub open spec fn parse_vbyte_groups(s: Seq<bool>, pos: nat, i: nat, acc: nat) -> Result<
    (u32, nat),
    CodecError,
>
    decreases 5 - i,
{
    if i >= 5 {
        Err(CodecError::Malformed)
    } else if pos + 8 >= s.len() {
        Err(CodecError::UnexpectedEof)
    } else {
        let b = field(s, pos, 8);
        let sum = acc + (b % 128) * pow2(7 * i);
        if b >= 128 {
            if 1 <= sum <= u32::MAX {
                Ok(((sum - 1) as u32, pos + 8))
            } else {
                Err(CodecError::Malformed)
            }
        } else {
            parse_vbyte_groups(s, pos + 8, i + 1, sum)
        }
    }
}

/// Reading a variable-byte value at `pos`.
pub open spec fn parse_vbyte(s: Seq<bool>, pos: nat) -> Result<(u32, nat), CodecError> {
    parse_vbyte_groups(s, pos, 0, 0)
}

/// The `n` bytes that start at bit offset `pos`.
pub open spec fn bytes_at(s: Seq<bool>, pos: nat, n: nat) -> Seq<u8> {
    Seq::new(n, |i: int| field(s, (pos + 8 * i) as nat, 8) as u8)
}

/// Reading a length-prefixed byte string at `pos`.
pub open spec fn parse_bytes(s: Seq<bool>, pos: nat) -> Result<(Seq<u8>, nat), CodecError> {
    match parse_gamma(s, pos) {
        Err(e) => Err(e),
        Ok((len, p)) => if p + 8 * (len as nat) >= s.len() {
            Err(CodecError::UnexpectedEof)
        } else {
            Ok((bytes_at(s, p, len as nat), p + 8 * (len as nat)))
        },
    }
}

/// Reading a string at `pos`; bytes that are not UTF-8 are malformed.
pub open spec fn parse_str(s: Seq<bool>, pos: nat) -> Result<(Seq<char>, nat), CodecError> {
    match parse_bytes(s, pos) {
        Err(e) => Err(e),
        Ok((b, p)) => if valid_utf8(b) {
            Ok((decode_utf8(b), p))
        } else {
            Err(CodecError::Malformed)
        },
    }
}

/// Reading `k` γ-coded gaps at `pos` and summing them up from `acc`. A gap
/// of zero is accepted only in first place (`first`), so the result ascends;
/// a sum beyond `u32` is malformed.
pub open spec fn parse_gaps(s: Seq<bool>, pos: nat, k: nat, acc: nat, first: bool) -> Result<
    (Seq<u32>, nat),
    CodecError,
>
    decreases k,
{
    if k == 0 {
        Ok((Seq::empty(), pos))
    } else {
        match parse_gamma(s, pos) {
            Err(e) => Err(e),
            Ok((gap, p)) => if (!first && gap == 0) || acc + gap > u32::MAX {
                Err(CodecError::Malformed)
            } else {
                match parse_gaps(s, p, (k - 1) as nat, acc + (gap as nat), false) {
                    Err(e) => Err(e),
                    Ok((rest, q)) => Ok((seq![(acc + gap) as u32] + rest, q)),
                }
            },
        }
    }
}

/// Reading a gap-coded vector at `pos`.
pub open spec fn parse_gap_vector(s: Seq<bool>, pos: nat) -> Result<(Seq<u32>, nat), CodecError> {
    match parse_vbyte(s, pos) {
        Err(e) => Err(e),
        Ok((k, p)) => parse_gaps(s, p, k as nat, 0, true),
    }
}

} // verus!

verus! {

/// The part of `data` that a reader can see when its registers are framed
/// at byte offsets congruent to `phase` modulo 16: whole registers only.
pub open spec fn visible(data: Seq<u8>, phase: nat) -> Seq<bool> {
    bits_of_bytes(data.subrange(0, data.len() - (data.len() - phase) % 16))
}

} // verus!
