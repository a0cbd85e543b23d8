//! The writing end of a bit stream: a 128-bit register filled from its
//! low-order end and emitted, sixteen little-endian bytes at a time, into a
//! byte buffer that the caller stores.
use vstd::prelude::*;
use vstd::arithmetic::power2::{pow2, lemma2_to64, lemma_pow2_adds};
use vstd::bits::lemma_u32_shl_is_mul;
use vstd::std_specs::bits::axiom_u32_leading_zeros;
use vstd::string::StringSliceAdditionalSpecFns;
use vstd::utf8::encode_utf8;
use crate::disk::bits::{
    bit_of, low_bits, fits_in, bits_of_bytes, nat_bits, zeros, register_bytes,
    lemma_register_join, lemma_register_shift, lemma_register_append, lemma_register_bytes,
    lemma_bits_of_bytes_append, lemma_fits_in, lemma_low_bits_are_nat_bits, lemma_bit_one,
    lemma_bit_zero, lemma_bit_of_byte, lemma_register_value,
};
use crate::disk::codes::{floor_log2, gamma_code, gamma_bits, vbyte_code, vbyte_bits, str_bits};
use crate::disk::laws::{lemma_log2_unique, sealed};

verus! {

/// A writer of bit streams.
///
/// `out` holds the registers emitted so far; `buffer` holds the `written`
/// bits that wait for the register to fill up.
pub struct BitsWriter {
    pub out: Vec<u8>,
    pub buffer: u128,
    pub written: u32,
}

proof fn lemma_leading_one(n: u32, m: u32)
    by (bit_vector)
    requires
        m < 32,
        (n >> m) & 1 != 0,
        m < 31 ==> n >> ((m + 1) as u32) == 0,
    ensures
        (1u32 << m) <= n,
        n ^ (1u32 << m) == n - (1u32 << m),
        (n ^ (1u32 << m)) < (1u32 << m),
{
}

proof fn lemma_low_group(r: u32)
    by (bit_vector)
    ensures
        r & 0x7f == r % 128,
        r >> 7 == r / 128,
        r < 128 ==> r | 0x80 == r + 128,
{
}

proof fn lemma_widen_one(m: u32)
    by (bit_vector)
    requires
        m < 32,
    ensures
        (1u32 << m) as u128 == 1u128 << (m as u128),
{
}

impl BitsWriter {
    /// The register holds `written` bits and nothing above them, and whole
    /// registers only have been emitted.
    pub open spec fn wf(&self) -> bool {
        &&& self.written < 128
        &&& fits_in(self.buffer, self.written as nat)
        &&& self.out@.len() % 16 == 0
    }

    /// The stream written so far.
    pub open spec fn bits(&self) -> Seq<bool> {
        bits_of_bytes(self.out@) + low_bits(self.buffer, self.written as nat)
    }

    /// A writer of an empty stream.
    pub fn new() -> (w: BitsWriter)
        ensures
            w.wf(),
            w.bits() =~= Seq::<bool>::empty(),
            w.out@.len() == 0,
            w.buffer == 0,
            w.written == 0,
    {
        proof {
            assert forall|j: int| 0 <= j < 128 implies !bit_of(0u128, j) by {
                lemma_bit_zero(j as u128);
            }
        }
        BitsWriter { out: Vec::new(), buffer: 0, written: 0 }
    }

    /// Appends the γ code of `n`; returns the number of bits written.
    pub fn write_gamma(&mut self, n: u32) -> (len: u64)
        requires
            old(self).wf(),
            n < u32::MAX,
        ensures
            final(self).wf(),
            final(self).bits() == old(self).bits() + gamma_bits(n as nat),
            len == gamma_bits(n as nat).len(),
            len <= 63,
    {
        let (gamma, len) = Self::int_to_gamma(n + 1);
        self.write_internal(gamma, len)
    }

    /// The γ code of `n >= 1`, packed into the low bits of a register, and
    /// its length in bits.
    pub fn int_to_gamma(n: u32) -> (r: (u128, u32))
        requires
            n > 0,
        ensures
            low_bits(r.0, r.1 as nat) == gamma_code(n as nat),
            fits_in(r.0, r.1 as nat),
            r.1 == 2 * floor_log2(n as nat) + 1,
            r.1 <= 63,
    {
        proof {
            axiom_u32_leading_zeros(n);
        }
        let msb: u32 = 31 - n.leading_zeros();
        let unary: u32 = 1 << msb;
        let low: u32 = n ^ unary;
        let gamma: u128 = ((low as u128) << (msb + 1)) | unary as u128;
        proof {
            let z = msb as nat;
            lemma2_to64();
            lemma_leading_one(n, msb);
            vstd::bits::lemma_u32_pow2_no_overflow(z);
            assert(1 * pow2(z) <= u32::MAX) by (nonlinear_arith)
                requires
                    pow2(z) < u32::MAX,
            ;
            lemma_u32_shl_is_mul(1, msb);
            assert(unary == pow2(z)) by (nonlinear_arith)
                requires
                    unary == 1 * pow2(z),
            ;
            lemma_log2_unique(n as nat, z);
            let w: u128 = low as u128;
            let u: u128 = unary as u128;
            lemma_fits_in(w, z);
            lemma_widen_one(msb);
            assert(fits_in(u, z + 1) && low_bits(u, z + 1) =~= zeros(z) + seq![true]) by {
                assert forall|j: int| 0 <= j < 128 implies bit_of(u, j) == (j == z) by {
                    lemma_bit_one(msb as u128, j as u128);
                }
            }
            lemma_register_append(u, z + 1, w, z);
            let sh: u128 = w << ((z + 1) as u128);
            assert(gamma == sh | u);
            assert(sh | u == u | sh) by (bit_vector);
            lemma_low_bits_are_nat_bits(w, z);
            assert(low_bits(gamma, 2 * z + 1) =~= gamma_code(n as nat));
        }
        (gamma, 2 * msb + 1)
    }

    /// Appends the variable-byte code of `n`; returns the number of bits
    /// written.
    pub fn write_vbyte(&mut self, n: u32) -> (len: u64)
        requires
            old(self).wf(),
            n < u32::MAX,
        ensures
            final(self).wf(),
            final(self).bits() == old(self).bits() + vbyte_bits(n as nat),
            len == vbyte_bits(n as nat).len(),
            len <= 40,
    {
        let (vbyte, len) = Self::int_to_vbyte(n + 1);
        self.write_internal(vbyte, len)
    }

    /// The variable-byte code of `n >= 1`, packed into the low bits of a
    /// register, and its length in bits.
    pub fn int_to_vbyte(n: u32) -> (r: (u128, u32))
        requires
            n > 0,
        ensures
            low_bits(r.0, r.1 as nat) == vbyte_code(n as nat),
            fits_in(r.0, r.1 as nat),
            r.1 % 8 == 0,
            8 <= r.1 <= 40,
    {
        let mut vbyte: u128 = 0;
        let mut rest: u32 = n;
        let mut byte_num: u32 = 0;
        proof {
            lemma2_to64();
            assert(low_bits(vbyte, 0) =~= Seq::<bool>::empty());
            assert forall|j: int| 0 <= j < 128 implies !bit_of(vbyte, j) by {
                lemma_bit_zero(j as u128);
            }
        }
        while rest >= 128
            invariant
                byte_num <= 4,
                rest >= 1,
                (rest as nat) < pow2((32 - 7 * byte_num) as nat),
                fits_in(vbyte, (8 * byte_num) as nat),
                low_bits(vbyte, (8 * byte_num) as nat) + vbyte_code(rest as nat) == vbyte_code(
                    n as nat,
                ),
            decreases rest,
        {
            proof {
                lemma2_to64();
                lemma_low_group(rest);
                if byte_num == 4 {
                    assert(false);
                }
                let g: u128 = (rest & 0x7f) as u128;
                lemma_fits_in(g, 8);
                lemma_register_append(vbyte, (8 * byte_num) as nat, g, 8);
                lemma_low_bits_are_nat_bits(g, 8);
                lemma_pow2_adds(7, (32 - 7 * (byte_num + 1)) as nat);
                assert(((rest / 128) as nat) < pow2((32 - 7 * (byte_num + 1)) as nat))
                    by (nonlinear_arith)
                    requires
                        (rest as nat) < 128 * pow2((32 - 7 * (byte_num + 1)) as nat),
                ;
                assert((low_bits(vbyte, (8 * byte_num) as nat) + nat_bits(g as nat, 8))
                    + vbyte_code((rest / 128) as nat) =~= low_bits(vbyte, (8 * byte_num) as nat)
                    + vbyte_code(rest as nat));
            }
            vbyte |= ((rest & 0x7f) as u128) << (8 * byte_num);
            rest >>= 7;
            byte_num += 1;
        }
        proof {
            lemma2_to64();
            lemma_low_group(rest);
            let g: u128 = (rest | 0x80) as u128;
            lemma_fits_in(g, 8);
            lemma_register_append(vbyte, (8 * byte_num) as nat, g, 8);
            lemma_low_bits_are_nat_bits(g, 8);
        }
        vbyte |= ((rest | 0x80) as u128) << (8 * byte_num);
        (vbyte, 8 * (byte_num + 1))
    }

    /// Appends a string: the γ code of its length in bytes, then its bytes.
    /// Returns the number of bits written.
    pub fn write_str(&mut self, s: &str) -> (len: u64)
        requires
            old(self).wf(),
            encode_utf8(s@).len() < u32::MAX,
        ensures
            final(self).wf(),
            final(self).bits() == old(self).bits() + str_bits(s@),
            len == str_bits(s@).len(),
    {
        let bytes = s.as_bytes();
        let mut total: u64 = self.write_gamma(bytes.len() as u32);
        let mut i: usize = 0;
        proof {
            assert(bits_of_bytes(bytes@.subrange(0, 0)) =~= Seq::<bool>::empty());
            assert(old(self).bits() + gamma_bits(bytes@.len()) + bits_of_bytes(
                bytes@.subrange(0, 0),
            ) =~= old(self).bits() + gamma_bits(bytes@.len()));
        }
        while i < bytes.len()
            invariant
                i <= bytes.len(),
                bytes@ == encode_utf8(s@),
                bytes@.len() < u32::MAX,
                self.wf(),
                self.bits() == old(self).bits() + gamma_bits(bytes@.len()) + bits_of_bytes(
                    bytes@.subrange(0, i as int),
                ),
                total == gamma_bits(bytes@.len()).len() + 8 * i,
                total <= 63 + 8 * i,
            decreases bytes.len() - i,
        {
            let b: u8 = bytes[i];
            proof {
                let x: u128 = b as u128;
                assert(fits_in(x, 8)) by {
                    assert forall|j: int| 8 <= j < 128 implies !bit_of(x, j) by {
                        lemma_bit_of_byte(b, j as u128);
                    }
                }
                assert(low_bits(x, 8) =~= bits_of_bytes(seq![b])) by {
                    assert forall|j: int| 0 <= j < 8 implies bit_of(x, j) == bits_of_bytes(
                        seq![b],
                    )[j] by {
                        lemma_bit_of_byte(b, j as u128);
                    }
                }
                lemma_bits_of_bytes_append(bytes@.subrange(0, i as int), seq![b]);
                assert(bytes@.subrange(0, i as int) + seq![b] =~= bytes@.subrange(0, i + 1));
            }
            let l: u64 = self.write_internal(b as u128, 8);
            total = total + l;
            i = i + 1;
        }
        proof {
            assert(bytes@.subrange(0, i as int) =~= bytes@);
            assert(old(self).bits() + gamma_bits(bytes@.len()) + bits_of_bytes(bytes@)
                =~= old(self).bits() + str_bits(s@));
        }
        total
    }

    /// Appends the `len` low bits of `payload`, emitting the register when
    /// it fills up. Returns `len`.
    pub fn write_internal(&mut self, payload: u128, len: u32) -> (n: u64)
        requires
            old(self).wf(),
            len <= 128,
            fits_in(payload, len as nat),
        ensures
            final(self).wf(),
            final(self).bits() == old(self).bits() + low_bits(payload, len as nat),
            n == len,
    {
        let free: u32 = 128 - self.written;
        let ghost before = self.bits();
        let ghost w = self.written as nat;
        let ghost x = self.buffer;
        proof {
            lemma_register_join(x, w, payload);
        }
        self.buffer |= payload << self.written;
        if free > len {
            self.written += len;
            proof {
                lemma_register_append(x, w, payload, len as nat);
                assert(self.bits() =~= before + low_bits(payload, len as nat));
            }
        } else {
            let ghost full = self.buffer;
            let ghost emitted = self.out@;
            self.update_buffer();
            proof {
                lemma_register_bytes(full);
                lemma_bits_of_bytes_append(emitted, register_bytes(full));
                assert(full == x | (payload << (w as u128)));
                assert forall|j: int| 0 <= j < 128 implies low_bits(full, 128)[j] == (low_bits(x, w)
                    + low_bits(payload, free as nat))[j] by {
                    assert(bit_of(x | (payload << (w as u128)), j) == (if j < w {
                        bit_of(x, j)
                    } else {
                        bit_of(payload, j - w)
                    }));
                }
                assert(low_bits(full, 128) =~= low_bits(x, w) + low_bits(payload, free as nat));
            }
            if len > free {
                proof {
                    lemma_register_shift(payload, free as nat);
                }
                self.buffer |= payload >> free;
                self.written += len - free;
                proof {
                    let moved: u128 = payload >> (free as u128);
                    assert(0u128 | moved == moved) by (bit_vector);
                    assert(self.buffer == moved);
                    assert(low_bits(payload, len as nat) =~= low_bits(payload, free as nat)
                        + low_bits(self.buffer, (len - free) as nat));
                }
            } else {
                proof {
                    assert(low_bits(self.buffer, 0) =~= Seq::<bool>::empty());
                }
            }
            proof {
                assert(self.bits() =~= before + low_bits(payload, len as nat));
            }
        }
        len as u64
    }

    /// Emits the register as sixteen little-endian bytes and clears it.
    fn update_buffer(&mut self)
        ensures
            final(self).out@ == old(self).out@ + register_bytes(old(self).buffer),
            final(self).buffer == 0,
            final(self).written == 0,
            fits_in(final(self).buffer, 0),
    {
        let mut k: u32 = 0;
        while k < 16
            invariant
                k <= 16,
                self.buffer == old(self).buffer,
                self.out@ == old(self).out@ + register_bytes(self.buffer).subrange(0, k as int),
            decreases 16 - k,
        {
            let byte: u8 = (self.buffer >> (8 * k)) as u8;
            self.out.push(byte);
            proof {
                assert(register_bytes(self.buffer).subrange(0, k as int).push(byte)
                    =~= register_bytes(self.buffer).subrange(0, k + 1));
            }
            k += 1;
        }
        proof {
            assert(register_bytes(self.buffer).subrange(0, 16) =~= register_bytes(self.buffer));
            assert forall|j: int| 0 <= j < 128 implies !bit_of(0u128, j) by {
                lemma_bit_zero(j as u128);
            }
        }
        self.buffer = 0;
        self.written = 0;
    }

    /// Ends the stream: emits the register if it holds anything, then one
    /// register of zeros, so that a reader can consume every value written.
    pub fn flush(&mut self)
        requires
            old(self).wf(),
        ensures
            final(self).wf(),
            final(self).written == 0,
            final(self).bits() == bits_of_bytes(final(self).out@),
            final(self).bits() == old(self).bits() + zeros(
                (final(self).bits().len() - old(self).bits().len()) as nat,
            ),
            128 <= final(self).bits().len() - old(self).bits().len() < 256,
            final(self).bits().len() % 128 == 0,
    {
        let ghost before = self.bits();
        let ghost w = self.written as nat;
        let ghost x = self.buffer;
        if self.written != 0 {
            let ghost emitted = self.out@;
            self.update_buffer();
            proof {
                lemma_register_bytes(x);
                lemma_bits_of_bytes_append(emitted, register_bytes(x));
                assert(low_bits(x, 128) =~= low_bits(x, w) + zeros((128 - w) as nat));
                assert(bits_of_bytes(self.out@) =~= before + zeros((128 - w) as nat));
            }
        }
        let ghost middle = self.out@;
        proof {
            assert(low_bits(self.buffer, 0) =~= Seq::<bool>::empty());
            if w == 0 {
                lemma_register_value(self.buffer, 0);
            }
            assert(self.buffer == 0);
        }
        self.update_buffer();
        proof {
            lemma_register_bytes(0u128);
            lemma_bits_of_bytes_append(middle, register_bytes(0u128));
            assert(low_bits(0u128, 128) =~= zeros(128)) by {
                assert forall|j: int| 0 <= j < 128 implies !bit_of(0u128, j) by {
                    lemma_bit_zero(j as u128);
                }
            }
            assert(low_bits(self.buffer, 0) =~= Seq::<bool>::empty());
            assert(self.bits() =~= bits_of_bytes(self.out@));
            assert(self.bits() =~= before + zeros((self.bits().len() - before.len()) as nat));
        }
    }

    /// The bytes emitted so far. After `flush` they hold the whole stream.
    pub fn into_bytes(self) -> (bytes: Vec<u8>)
        ensures
            bytes@ == self.out@,
    {
        self.out
    }

    /// Ends the stream and hands out its bytes.
    pub fn finish(self) -> (bytes: Vec<u8>)
        requires
            self.wf(),
        ensures
            sealed(self.bits(), bytes@),
    {
        let mut w = self;
        w.flush();
        w.out
    }
}

} // verus!
