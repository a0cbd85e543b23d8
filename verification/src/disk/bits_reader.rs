//! The reading end of a bit stream: a 128-bit register loaded from sixteen
//! little-endian bytes at a time and consumed from its low-order end.
use vstd::prelude::*;
use vstd::arithmetic::power2::{pow2, lemma2_to64, lemma_pow2_adds};
use vstd::bits::lemma_u64_shl_is_mul;
use vstd::utf8::{decode_utf8, valid_utf8};
use crate::disk::bits::{
    CodecError, bit_of, low_bits, fits_in, bits_of_bytes, lemma_register_join,
    lemma_register_shift, lemma_register_mask, lemma_register_value, lemma_bit_zero,
    lemma_bit_of_byte,
};
use crate::disk::codes::{
    visible, field, zero_run, parse_bits, parse_gamma, parse_vbyte_groups, parse_vbyte,
    bytes_at, parse_bytes, parse_str, parse_gaps, parse_gap_vector, strictly_ascending,
};
use crate::disk::laws::{lemma_zero_run, lemma_zero_run_bounds, lemma_parse_gaps_ascending};

verus! {

/// A reader of bit streams over a byte buffer.
pub struct BitsReader {
    data: Vec<u8>,
    /// Byte offset of the register that follows the loaded one.
    next: usize,
    /// The loaded register, with the bits already consumed shifted out.
    buffer: u128,
    /// How many bits of the loaded register were consumed.
    read: u32,
}

proof fn lemma_mask_positive(n: u128)
    by (bit_vector)
    requires
        n < 128,
    ensures
        (1u128 << n) >= 1,
{
}

proof fn lemma_low_seven(b: u128)
    by (bit_vector)
    requires
        b < 256,
    ensures
        b & 0x7f == b % 128,
        (b & 0x80 != 0) <==> b >= 128,
{
}

/// `String::from_utf8`: the string whose UTF-8 encoding the bytes are, where
/// they are one.
#[verifier::external_body]
pub(crate) fn string_from_utf8(bytes: Vec<u8>) -> (r: Option<String>)
    ensures
        r is Some <==> valid_utf8(bytes@),
        r matches Some(s) ==> s@ == decode_utf8(bytes@),
{
    String::from_utf8(bytes).ok()
}

fn mask(n: u32) -> (m: u128)
    requires
        n < 128,
    ensures
        m == ((1u128 << (n as u128)) - 1) as u128,
{
    proof {
        lemma_mask_positive(n as u128);
    }
    (1u128 << n) - 1
}

impl BitsReader {
    /// All the bytes that the reader was given.
    pub closed spec fn source(&self) -> Seq<u8> {
        self.data@
    }

    /// The byte offsets of the registers, modulo 16. Zero until a seek.
    pub closed spec fn phase(&self) -> nat {
        (self.next % 16) as nat
    }

    /// The bits that the reader can see: those of the whole registers.
    pub open spec fn stream(&self) -> Seq<bool> {
        visible(self.source(), self.phase())
    }

    /// The offset of the next bit to read.
    pub closed spec fn position(&self) -> nat {
        ((self.next - 16) * 8 + self.read) as nat
    }

    /// A register is loaded and the cursor stands inside it.
    pub closed spec fn wf(&self) -> bool {
        &&& 16 <= self.next <= self.data@.len()
        &&& self.read < 128
        &&& forall|j: int|
            0 <= j < 128 ==> bit_of(self.buffer, j) == (j + self.read < 128 && bits_of_bytes(
                self.data@,
            )[(self.next - 16) * 8 + self.read + j])
    }

    /// The reader is usable, sees the same stream as `before`, and stands at `pos`.
    pub open spec fn advanced(&self, before: Self, pos: nat) -> bool {
        &&& self.wf()
        &&& self.source() == before.source()
        &&& self.phase() == before.phase()
        &&& self.position() == pos
    }

    /// The reader is usable and sees the same stream as `before`.
    pub open spec fn kept(&self, before: Self) -> bool {
        &&& self.wf()
        &&& self.source() == before.source()
        &&& self.phase() == before.phase()
    }

    /// The cursor always stands before the end of the visible stream.
    pub proof fn lemma_position_in_stream(&self)
        requires
            self.wf(),
        ensures
            self.position() < self.stream().len(),
            self.stream().len() <= 8 * self.source().len(),
            self.stream() =~= bits_of_bytes(self.source()).subrange(0, self.stream().len() as int),
    {
        self.lemma_stream_len();
    }

    proof fn lemma_stream_len(&self)
        requires
            16 <= self.next <= self.data@.len(),
        ensures
            self.stream().len() == 8 * (self.next + 16 * ((self.data@.len() - self.next) / 16)),
            self.stream() =~= bits_of_bytes(self.data@).subrange(0, self.stream().len() as int),
    {
        let len = self.data@.len() as int;
        let next = self.next as int;
        let ph = next % 16;
        assert((len - ph) % 16 == (len - next) % 16) by (nonlinear_arith)
            requires
                ph == next % 16,
        ;
        assert(len - next == 16 * ((len - next) / 16) + (len - next) % 16) by (nonlinear_arith);
    }

    /// A reader at the start of `data`.
    pub fn new(data: Vec<u8>) -> (r: Result<BitsReader, CodecError>)
        ensures
            data@.len() < 16 <==> r is Err,
            r matches Err(e) ==> e == CodecError::UnexpectedEof,
            r matches Ok(reader) ==> reader.wf() && reader.source() == data@ && reader.phase() == 0
                && reader.position() == 0 && reader.stream() == visible(data@, 0),
            r is Err ==> visible(data@, 0).len() == 0,
    {
        let mut reader = BitsReader { data, next: 0, buffer: 0, read: 0 };
        match reader.fill_buffer() {
            Ok(()) => Ok(reader),
            Err(e) => Err(e),
        }
    }

    /// Loads the register at `next`.
    fn fill_buffer(&mut self) -> (r: Result<(), CodecError>)
        requires
            old(self).next <= old(self).data@.len(),
        ensures
            r is Ok <==> old(self).next + 16 <= old(self).data@.len(),
            r matches Err(e) ==> e == CodecError::UnexpectedEof && *final(self) == *old(self),
            r is Ok ==> final(self).wf() && final(self).data@ == old(self).data@ && final(self).next
                == old(self).next + 16 && final(self).read == 0,
    {
        if self.data.len() - self.next < 16 {
            return Err(CodecError::UnexpectedEof);
        }
        let mut reg: u128 = 0;
        let mut k: usize = 0;
        let n: usize = self.data.len();
        proof {
            assert forall|j: int| 0 <= j < 128 implies !bit_of(0u128, j) by {
                lemma_bit_zero(j as u128);
            }
        }
        while k < 16
            invariant
                k <= 16,
                n == self.data@.len(),
                self.next + 16 <= n,
                *self == *old(self),
                fits_in(reg, (8 * k) as nat),
                forall|j: int|
                    0 <= j < 8 * k ==> bit_of(reg, j) == bits_of_bytes(self.data@)[self.next * 8
                        + j],
            decreases 16 - k,
        {
            let b: u8 = self.data[self.next + k];
            proof {
                lemma_register_join(reg, (8 * k) as nat, b as u128);
                assert forall|j: int| 0 <= j < 128 implies #[trigger] bit_of(
                    reg | ((b as u128) << ((8 * k) as u128)),
                    j,
                ) == (if j < 8 * k {
                    bit_of(reg, j)
                } else {
                    j < 8 * k + 8 && bits_of_bytes(self.data@)[self.next * 8 + j]
                }) by {
                    if j >= 8 * k {
                        lemma_bit_of_byte(b, (j - 8 * k) as u128);
                        if j < 8 * k + 8 {
                            assert((self.next * 8 + j) / 8 == self.next + k);
                            assert((self.next * 8 + j) % 8 == j - 8 * k);
                        }
                    }
                }
            }
            let ghost prior = reg;
            reg |= (b as u128) << ((8 * k) as u32);
            proof {
                assert(reg == prior | ((b as u128) << ((8 * k) as u128)));
                assert forall|j: int| 0 <= j < 128 implies bit_of(reg, j) == (if j < 8 * k {
                    bit_of(prior, j)
                } else {
                    j < 8 * k + 8 && bits_of_bytes(self.data@)[self.next * 8 + j]
                }) by {
                    assert(bit_of(prior | ((b as u128) << ((8 * k) as u128)), j) == (if j < 8 * k {
                        bit_of(prior, j)
                    } else {
                        j < 8 * k + 8 && bits_of_bytes(self.data@)[self.next * 8 + j]
                    }));
                }
            }
            k += 1;
        }
        self.buffer = reg;
        self.read = 0;
        self.next += 16;
        Ok(())
    }

    /// Consumes `len` raw bits.
    fn read_internal(&mut self, len: u32) -> (r: Result<u128, CodecError>)
        requires
            old(self).wf(),
            len < 128,
        ensures
            match parse_bits(old(self).stream(), old(self).position(), len as nat) {
                Ok((v, p)) => r == Ok::<u128, CodecError>(v as u128) && v < pow2(len as nat)
                    && final(self).advanced(*old(self), p),
                Err(e) => r == Err::<u128, CodecError>(e) && *final(self) == *old(self),
            },
    {
        let ghost all = bits_of_bytes(self.data@);
        let ghost pos = self.position();
        let ghost before = *self;
        proof {
            self.lemma_stream_len();
        }
        let remaining: u32 = 128 - self.read;
        let res: u128;
        if remaining <= len {
            if self.data.len() - self.next < 16 {
                return Err(CodecError::UnexpectedEof);
            }
            let lo: u128 = self.buffer;
            let filled = self.fill_buffer();
            assert(filled is Ok);
            let delta: u32 = len - remaining;
            let m: u128 = mask(delta);
            let hi: u128 = self.buffer & m;
            proof {
                lemma_register_mask(self.buffer, delta as nat);
                lemma_register_shift(self.buffer, delta as nat);
                assert(fits_in(lo, remaining as nat));
                lemma_register_join(lo, remaining as nat, hi);
            }
            self.buffer >>= delta;
            self.read = delta;
            res = lo | (hi << remaining);
            proof {
                self.lemma_stream_len();
                assert(self.phase() == before.phase()) by {
                    assert((before.next + 16) % 16 == before.next % 16) by (nonlinear_arith)
                        requires
                            before.next >= 0,
                    ;
                }
                assert forall|j: int| 0 <= j < 128 implies #[trigger] bit_of(res, j) == (j < len
                    && all[pos + j]) by {
                    assert(bit_of(lo | (hi << (remaining as u128)), j) == (if j < remaining {
                        bit_of(lo, j)
                    } else {
                        bit_of(hi, j - remaining)
                    }));
                }
            }
        } else {
            let m: u128 = mask(len);
            proof {
                lemma_register_mask(self.buffer, len as nat);
                lemma_register_shift(self.buffer, len as nat);
            }
            res = self.buffer & m;
            self.buffer >>= len;
            self.read += len;
            proof {
                assert forall|j: int| 0 <= j < 128 implies #[trigger] bit_of(res, j) == (j < len
                    && all[pos + j]) by {}
            }
        }
        proof {
            let s = before.stream();
            assert(pos + len < s.len());
            assert(low_bits(res, len as nat) =~= s.subrange(pos as int, (pos + len) as int));
            lemma_register_value(res, len as nat);
        }
        Ok(res)
    }

    /// Consumes zero bits up to and including the next one bit; returns how
    /// many zeros there were.
    fn read_unary(&mut self) -> (r: Result<u32, CodecError>)
        requires
            old(self).wf(),
        ensures
            ({
                let s = old(self).stream();
                let pos = old(self).position();
                let z = zero_run(s, pos);
                if z >= 32 {
                    r is Err && final(self).kept(*old(self)) && (r->Err_0 == (if pos + 32
                        >= s.len() {
                        CodecError::UnexpectedEof
                    } else {
                        CodecError::Malformed
                    }))
                } else if pos + z + 1 >= s.len() {
                    r == Err::<u32, CodecError>(CodecError::UnexpectedEof) && final(self).kept(
                        *old(self),
                    )
                } else {
                    r == Ok::<u32, CodecError>(z as u32) && final(self).advanced(
                        *old(self),
                        pos + z + 1,
                    )
                }
            }),
    {
        let ghost s = self.stream();
        let ghost pos = self.position();
        let mut count: u32 = 0;
        proof {
            lemma_zero_run_bounds(s, pos);
            lemma2_to64();
        }
        while count < 32
            invariant
                count <= 32,
                self.advanced(*old(self), (pos + count) as nat),
                s == old(self).stream(),
                pos == old(self).position(),
                forall|i: int| pos <= i < pos + count ==> i < s.len() && !s[i],
            decreases 32 - count,
        {
            proof {
                self.lemma_position_in_stream();
                lemma_zero_run_bounds(s, pos);
                if pos + count + 1 >= s.len() {
                    // the stream ends with this bit: the run cannot be completed
                    let z = zero_run(s, pos);
                    if z < count {
                        assert(!s[(pos + z) as int]);
                    }
                }
            }
            match self.read_internal(1) {
                Err(e) => {
                    proof {
                        let z = zero_run(s, pos);
                        if z < count {
                            assert(!s[(pos + z) as int]);
                        }
                    }
                    return Err(e);
                },
                Ok(bit) => {
                    proof {
                        let one = s.subrange((pos + count) as int, (pos + count + 1) as int);
                        assert(one.drop_first() =~= Seq::<bool>::empty());
                        assert(field(s, (pos + count) as nat, 1) == if s[pos + count] { 1nat } else { 0nat })
                            by {
                            assert(one[0] == s[pos + count]);
                            assert(crate::disk::bits::bits_value(one.drop_first()) == 0);
                        }
                    }
                    if bit == 1 {
                        proof {
                            lemma_zero_run(s, pos, count as nat);
                        }
                        return Ok(count);
                    }
                    count += 1;
                },
            }
        }
        proof {
            self.lemma_position_in_stream();
            let z = zero_run(s, pos);
            if z < 32 {
                assert(!s[(pos + z) as int]);
            }
        }
        Err(CodecError::Malformed)
    }

    /// Reads a γ-coded value.
    pub fn read_gamma(&mut self) -> (r: Result<u32, CodecError>)
        requires
            old(self).wf(),
        ensures
            match parse_gamma(old(self).stream(), old(self).position()) {
                Ok((v, p)) => r == Ok::<u32, CodecError>(v) && final(self).advanced(*old(self), p),
                Err(e) => r == Err::<u32, CodecError>(e) && final(self).kept(*old(self)),
            },
    {
        let ghost s = self.stream();
        let ghost pos = self.position();
        let len: u32 = match self.read_unary() {
            Ok(z) => z,
            Err(e) => {
                return Err(e);
            },
        };
        let low: u128 = match self.read_internal(len) {
            Ok(v) => v,
            Err(e) => {
                return Err(e);
            },
        };
        proof {
            lemma2_to64();
            vstd::bits::lemma_u64_pow2_no_overflow(len as nat);
            assert(1 * pow2(len as nat) == pow2(len as nat)) by (nonlinear_arith);
            lemma_u64_shl_is_mul(1, len as u64);
            vstd::arithmetic::power2::lemma_pow2_strictly_increases(len as nat, 32);
        }
        let top: u64 = 1u64 << len;
        Ok((top + (low as u64) - 1) as u32)
    }

    /// Reads a variable-byte value.
    pub fn read_vbyte(&mut self) -> (r: Result<u32, CodecError>)
        requires
            old(self).wf(),
        ensures
            match parse_vbyte(old(self).stream(), old(self).position()) {
                Ok((v, p)) => r == Ok::<u32, CodecError>(v) && final(self).advanced(*old(self), p),
                Err(e) => r == Err::<u32, CodecError>(e) && final(self).kept(*old(self)),
            },
    {
        let ghost s = self.stream();
        let ghost pos = self.position();
        let mut res: u64 = 0;
        let mut byte_num: u32 = 0;
        proof {
            lemma2_to64();
        }
        while byte_num < 5
            invariant
                byte_num <= 5,
                self.kept(*old(self)),
                s == old(self).stream(),
                pos == old(self).position(),
                (res as nat) < pow2((7 * byte_num) as nat),
                parse_vbyte(s, pos) == parse_vbyte_groups(
                    s,
                    self.position(),
                    byte_num as nat,
                    res as nat,
                ),
            decreases 5 - byte_num,
        {
            let byte: u128 = match self.read_internal(8) {
                Ok(b) => b,
                Err(e) => {
                    return Err(e);
                },
            };
            proof {
                lemma2_to64();
                vstd::arithmetic::power2::lemma2_to64_rest();
                lemma_low_seven(byte);
                lemma_pow2_adds(7, (7 * byte_num) as nat);
                let p = pow2((7 * byte_num) as nat);
                vstd::arithmetic::power2::lemma_pow2_strictly_increases((7 * byte_num) as nat, 35);
                assert(((byte & 0x7f) as u64) * p <= u64::MAX && ((byte & 0x7f) as u64) * p + res
                    < 128 * p) by (nonlinear_arith)
                    requires
                        (byte & 0x7f) < 128,
                        res < p,
                        p < 0x800000000,
                ;
                lemma_u64_shl_is_mul((byte & 0x7f) as u64, (7 * byte_num) as u64);
            }
            let group: u64 = ((byte & 0x7f) as u64) << (7 * byte_num);
            res = res + group;
            byte_num += 1;
            if byte & 0x80 != 0 {
                if res == 0 || res > 0xffff_ffff {
                    return Err(CodecError::Malformed);
                }
                return Ok((res - 1) as u32);
            }
        }
        Err(CodecError::Malformed)
    }

    /// Reads a gap-coded vector: the running sums of the gaps stored.
    pub fn read_vbyte_gamma_gap_vector(&mut self) -> (r: Result<Vec<u32>, CodecError>)
        requires
            old(self).wf(),
        ensures
            match parse_gap_vector(old(self).stream(), old(self).position()) {
                Ok((v, p)) => r is Ok && r->Ok_0@ == v && final(self).advanced(*old(self), p),
                Err(e) => r == Err::<Vec<u32>, CodecError>(e) && final(self).kept(*old(self)),
            },
            r is Ok ==> strictly_ascending(r->Ok_0@),
    {
        let n: u32 = match self.read_vbyte() {
            Ok(n) => n,
            Err(e) => {
                return Err(e);
            },
        };
        let r = self.read_gaps(n, 0, true);
        proof {
            let s = old(self).stream();
            let p = parse_vbyte(s, old(self).position())->Ok_0.1;
            if r is Ok {
                lemma_parse_gaps_ascending(s, p, n as nat, 0, true);
            }
        }
        r
    }

    /// Reads `k` γ-coded gaps and returns their running sums from `start`.
    /// A zero gap is accepted in first place only, and only if `first`.
    pub fn read_gaps(&mut self, k: u32, start: u32, first: bool) -> (r: Result<
        Vec<u32>,
        CodecError,
    >)
        requires
            old(self).wf(),
        ensures
            match parse_gaps(
                old(self).stream(),
                old(self).position(),
                k as nat,
                start as nat,
                first,
            ) {
                Ok((v, p)) => r is Ok && r->Ok_0@ == v && final(self).advanced(*old(self), p),
                Err(e) => r == Err::<Vec<u32>, CodecError>(e) && final(self).kept(*old(self)),
            },
    {
        let ghost s = self.stream();
        let ghost pos = self.position();
        let mut out: Vec<u32> = Vec::new();
        let mut prefix: u32 = start;
        let mut i: u32 = 0;
        while i < k
            invariant
                i <= k,
                self.kept(*old(self)),
                s == old(self).stream(),
                pos == old(self).position(),
                out@.len() == i,
                parse_gaps(s, pos, k as nat, start as nat, first) == (match parse_gaps(
                    s,
                    self.position(),
                    (k - i) as nat,
                    prefix as nat,
                    first && i == 0,
                ) {
                    Ok((rest, q)) => Ok((out@ + rest, q)),
                    Err(e) => Err(e),
                }),
            decreases k - i,
        {
            let gap: u32 = match self.read_gamma() {
                Ok(g) => g,
                Err(e) => {
                    return Err(e);
                },
            };
            if (!(first && i == 0) && gap == 0) || gap > u32::MAX - prefix {
                return Err(CodecError::Malformed);
            }
            let ghost here = out@;
            prefix = prefix + gap;
            out.push(prefix);
            i += 1;
            proof {
                let p = self.position();
                match parse_gaps(s, p, (k - i) as nat, prefix as nat, false) {
                    Ok((rest, q)) => {
                        assert(here + (seq![prefix] + rest) =~= out@ + rest);
                    },
                    Err(e) => {},
                }
            }
        }
        proof {
            assert(out@ + Seq::<u32>::empty() =~= out@);
        }
        Ok(out)
    }

    /// Reads a length-prefixed run of bytes.
    pub fn read_bytes(&mut self) -> (r: Result<Vec<u8>, CodecError>)
        requires
            old(self).wf(),
        ensures
            match parse_bytes(old(self).stream(), old(self).position()) {
                Ok((b, p)) => r is Ok && r->Ok_0@ == b && final(self).advanced(*old(self), p),
                Err(e) => r == Err::<Vec<u8>, CodecError>(e) && final(self).kept(*old(self)),
            },
    {
        let ghost s = self.stream();
        let len: u32 = match self.read_gamma() {
            Ok(n) => n,
            Err(e) => {
                return Err(e);
            },
        };
        let ghost start = self.position();
        let mut bytes: Vec<u8> = Vec::new();
        let mut i: u32 = 0;
        while i < len
            invariant
                i <= len,
                self.advanced(*old(self), (start + 8 * i) as nat),
                s == old(self).stream(),
                parse_gamma(s, old(self).position()) == Ok::<(u32, nat), CodecError>((len, start)),
                bytes@ =~= bytes_at(s, start, i as nat),
            decreases len - i,
        {
            let b: u128 = match self.read_internal(8) {
                Ok(b) => b,
                Err(e) => {
                    proof {
                        assert(start + 8 * i + 8 <= start + 8 * len);
                    }
                    return Err(e);
                },
            };
            proof {
                lemma2_to64();
            }
            bytes.push(b as u8);
            i += 1;
        }
        proof {
            self.lemma_position_in_stream();
        }
        Ok(bytes)
    }

    /// Reads a string.
    pub fn read_str(&mut self) -> (r: Result<String, CodecError>)
        requires
            old(self).wf(),
        ensures
            match parse_str(old(self).stream(), old(self).position()) {
                Ok((c, p)) => r is Ok && r->Ok_0@ == c && final(self).advanced(*old(self), p),
                Err(e) => r == Err::<String, CodecError>(e) && final(self).kept(*old(self)),
            },
    {
        let bytes = match self.read_bytes() {
            Ok(b) => b,
            Err(e) => {
                return Err(e);
            },
        };
        match string_from_utf8(bytes) {
            Some(s) => Ok(s),
            None => Err(CodecError::Malformed),
        }
    }

    /// Moves the cursor to `bit_offset`, counted from the start of the
    /// bytes. The registers are framed anew from the byte that holds it.
    pub fn seek(&mut self, bit_offset: u64) -> (r: Result<(), CodecError>)
        requires
            old(self).wf(),
        ensures
            r is Ok <==> bit_offset / 8 + 16 <= old(self).source().len(),
            r matches Err(e) ==> e == CodecError::UnexpectedEof && *final(self) == *old(self),
            r is Ok ==> final(self).wf() && final(self).source() == old(self).source()
                && final(self).phase() == (bit_offset / 8) % 16 && final(self).position()
                == bit_offset,
    {
        let byte_seek: u64 = bit_offset / 8;
        let remainder_seek: u32 = (bit_offset % 8) as u32;
        let n: usize = self.data.len();
        if byte_seek > usize::MAX as u64 || byte_seek as usize > n || n - (byte_seek as usize)
            < 16 {
            return Err(CodecError::UnexpectedEof);
        }
        let ghost before = *self;
        self.next = byte_seek as usize;
        let filled = self.fill_buffer();
        assert(filled is Ok);
        proof {
            assert((byte_seek + 16) % 16 == byte_seek % 16) by (nonlinear_arith)
                requires
                    byte_seek >= 0,
            ;
        }
        if remainder_seek > 0 {
            let ghost mid = *self;
            proof {
                self.lemma_position_in_stream();
                self.lemma_stream_len();
            }
            let skipped = self.read_internal(remainder_seek);
            assert(skipped is Ok);
        }
        Ok(())
    }
}

} // verus!
