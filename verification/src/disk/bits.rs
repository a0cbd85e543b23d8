//! The mathematical model of a bit stream and of the codes stored in it.
//!
//! A stream is a `Seq<bool>`; bit `i` of the stream is bit `i % 8` (counted
//! from the low-order end) of byte `i / 8`. Values are laid out low-order bit
//! first, so a 128-bit register written as 16 little-endian bytes holds 128
//! consecutive stream bits.
use vstd::prelude::*;
use vstd::arithmetic::power2::{
    pow2, lemma_pow2_unfold, lemma_pow2_pos, lemma_pow2_adds, lemma2_to64,
};

verus! {

/// Width of the packed register, in bits.
pub const BUFFER_SIZE: u32 = 128;

/// Why a read from a bit stream failed.
#[derive(Clone, Copy, Debug, PartialEq, Eq, Structural)]
pub enum CodecError {
    /// The stream ended before the value was complete.
    UnexpectedEof,
    /// The bits do not form a value of the expected kind.
    Malformed,
}

/// Bit `j` of a register, counted from the low-order end.
pub open spec fn bit_of(x: u128, j: int) -> bool {
    0 <= j < 128 && (x >> (j as u128)) & 1 == 1
}

/// Bit `j` of a byte, counted from the low-order end.
pub open spec fn byte_bit(b: u8, j: int) -> bool {
    0 <= j < 8 && (b >> (j as u8)) & 1 == 1
}

/// The `n` low-order bits of a register, lowest first.
pub open spec fn low_bits(x: u128, n: nat) -> Seq<bool> {
    Seq::new(n, |j: int| bit_of(x, j))
}

/// True when no bit of `x` at index `n` or above is set.
pub open spec fn fits_in(x: u128, n: nat) -> bool {
    forall|j: int| n <= j < 128 ==> !bit_of(x, j)
}

/// The bits of a byte sequence, in stream order.
pub open spec fn bits_of_bytes(bytes: Seq<u8>) -> Seq<bool> {
    Seq::new(8 * bytes.len(), |i: int| byte_bit(bytes[i / 8], i % 8))
}

/// The number that a run of bits denotes, lowest bit first.
pub open spec fn bits_value(s: Seq<bool>) -> nat
    decreases s.len(),
{
    if s.len() == 0 {
        0
    } else {
        (if s[0] { 1nat } else { 0nat }) + 2 * bits_value(s.drop_first())
    }
}

/// The `n` low-order binary digits of `v`, lowest first.
pub open spec fn nat_bits(v: nat, n: nat) -> Seq<bool>
    decreases n,
{
    if n == 0 {
        Seq::empty()
    } else {
        seq![v % 2 == 1] + nat_bits(v / 2, (n - 1) as nat)
    }
}

/// `n` zero bits.
pub open spec fn zeros(n: nat) -> Seq<bool> {
    Seq::new(n, |j: int| false)
}

// ---------------------------------------------------------------------------
// Per-bit facts about register operations.
// ---------------------------------------------------------------------------

pub proof fn lemma_bit_shr(x: u128, s: u128, j: u128)
    by (bit_vector)
    requires
        s < 128,
        j < 128,
    ensures
        (((x >> s) >> j) & 1 == 1) <==> (j + s < 128 && (x >> ((j + s) as u128)) & 1 == 1),
{
}

pub proof fn lemma_bit_shl(x: u128, s: u128, j: u128)
    by (bit_vector)
    requires
        s < 128,
        j < 128,
    ensures
        (((x << s) >> j) & 1 == 1) <==> (j >= s && (x >> ((j - s) as u128)) & 1 == 1),
{
}

pub proof fn lemma_bit_or(x: u128, y: u128, j: u128)
    by (bit_vector)
    requires
        j < 128,
    ensures
        (((x | y) >> j) & 1 == 1) <==> ((x >> j) & 1 == 1 || (y >> j) & 1 == 1),
{
}

pub proof fn lemma_bit_mask(x: u128, n: u128, j: u128)
    by (bit_vector)
    requires
        n < 128,
        j < 128,
    ensures
        (((x & (((1u128 << n) - 1) as u128)) >> j) & 1 == 1) <==> (j < n && (x >> j) & 1 == 1),
{
}

pub proof fn lemma_bit_one(s: u128, j: u128)
    by (bit_vector)
    requires
        s < 128,
        j < 128,
    ensures
        (((1u128 << s) >> j) & 1 == 1) <==> j == s,
{
}

pub proof fn lemma_bit_zero(j: u128)
    by (bit_vector)
    requires
        j < 128,
    ensures
        !((0u128 >> j) & 1 == 1),
{
}

pub proof fn lemma_bit_of_byte(b: u8, j: u128)
    by (bit_vector)
    requires
        j < 128,
    ensures
        ((((b as u128) >> j) & 1 == 1) <==> (j < 8 && (b >> (j as u8)) & 1 == 1)),
{
}

pub proof fn lemma_byte_of_register(x: u128, k: u128, j: u8)
    by (bit_vector)
    requires
        k < 16,
        j < 8,
    ensures
        ((((x >> ((8 * k) as u128)) as u8) >> j) & 1 == 1) <==> ((x >> ((8 * k + j) as u128)) & 1 == 1),
{
}

pub proof fn lemma_halve(x: u128)
    by (bit_vector)
    ensures
        (x >> 1) == x / 2,
        ((x >> 0) & 1 == 1) <==> x % 2 == 1,
{
}


// ---------------------------------------------------------------------------
// Bits and numbers.
// ---------------------------------------------------------------------------

/// Halving splits a remainder by an even modulus into its parity and the rest.
pub proof fn lemma_mod_double(v: nat, m: nat)
    requires
        m > 0,
    ensures
        v % (2 * m) == v % 2 + 2 * ((v / 2) % m),
{
    let h = v / 2;
    let q = h / m;
    let r = h % m;
    assert(h == q * m + r) by {
        vstd::arithmetic::div_mod::lemma_fundamental_div_mod(h as int, m as int);
        vstd::arithmetic::mul::lemma_mul_is_commutative(q as int, m as int);
    }
    assert(v == q * (2 * m) + (2 * r + v % 2)) by (nonlinear_arith)
        requires
            h == q * m + r,
            v == 2 * h + v % 2,
    ;
    vstd::arithmetic::div_mod::lemma_fundamental_div_mod_converse(
        v as int,
        (2 * m) as int,
        q as int,
        (2 * r + v % 2) as int,
    );
}

pub proof fn lemma_nat_bits_len(v: nat, n: nat)
    ensures
        nat_bits(v, n).len() == n,
    decreases n,
{
    if n > 0 {
        lemma_nat_bits_len(v / 2, (n - 1) as nat);
    }
}

/// Reading back the digits of `v` gives `v` modulo `2^n`.
pub proof fn lemma_value_of_nat_bits(v: nat, n: nat)
    ensures
        bits_value(nat_bits(v, n)) == v % pow2(n),
    decreases n,
{
    lemma_nat_bits_len(v, n);
    if n == 0 {
        lemma2_to64();
    } else {
        let rest = nat_bits(v / 2, (n - 1) as nat);
        lemma_value_of_nat_bits(v / 2, (n - 1) as nat);
        assert(nat_bits(v, n).drop_first() =~= rest);
        lemma_pow2_unfold(n);
        lemma_pow2_pos((n - 1) as nat);
        lemma_mod_double(v, pow2((n - 1) as nat));
    }
}

/// A run of bits denotes a number below `2^len`, whose digits are the run.
pub proof fn lemma_nat_bits_of_value(s: Seq<bool>)
    ensures
        bits_value(s) < pow2(s.len()),
        nat_bits(bits_value(s), s.len()) =~= s,
    decreases s.len(),
{
    if s.len() == 0 {
        lemma2_to64();
    } else {
        let t = s.drop_first();
        lemma_nat_bits_of_value(t);
        lemma_pow2_unfold(s.len());
        let v = bits_value(s);
        assert(v / 2 == bits_value(t));
        assert((v % 2 == 1) == s[0]);
        lemma_nat_bits_len(bits_value(t), t.len());
        assert(nat_bits(v, s.len()) =~= seq![s[0]] + t);
    }
}

/// Trailing zero bits do not change the number denoted.
pub proof fn lemma_value_append_zeros(s: Seq<bool>, n: nat)
    ensures
        bits_value(s + zeros(n)) == bits_value(s),
    decreases s.len(),
{
    if s.len() == 0 {
        lemma_value_zeros(n);
        assert(s + zeros(n) =~= zeros(n));
    } else {
        lemma_value_append_zeros(s.drop_first(), n);
        assert((s + zeros(n)).drop_first() =~= s.drop_first() + zeros(n));
    }
}

pub proof fn lemma_value_zeros(n: nat)
    ensures
        bits_value(zeros(n)) == 0,
    decreases n,
{
    if n > 0 {
        lemma_value_zeros((n - 1) as nat);
        assert(zeros(n).drop_first() =~= zeros((n - 1) as nat));
    }
}

/// The number denoted by two runs laid end to end.
pub proof fn lemma_value_append(a: Seq<bool>, b: Seq<bool>)
    ensures
        bits_value(a + b) == bits_value(a) + pow2(a.len()) * bits_value(b),
    decreases a.len(),
{
    if a.len() == 0 {
        lemma2_to64();
        assert(a + b =~= b);
    } else {
        lemma_value_append(a.drop_first(), b);
        assert((a + b).drop_first() =~= a.drop_first() + b);
        lemma_pow2_unfold(a.len());
        let p = pow2((a.len() - 1) as nat);
        let vb = bits_value(b);
        assert(2 * (p * vb) == (2 * p) * vb) by (nonlinear_arith);
    }
}

/// The low bits of a register are the binary digits of its value.
pub proof fn lemma_low_bits_are_nat_bits(x: u128, n: nat)
    requires
        n <= 128,
    ensures
        low_bits(x, n) =~= nat_bits(x as nat, n),
    decreases n,
{
    lemma_nat_bits_len(x as nat, n);
    if n > 0 {
        let y: u128 = x >> 1;
        lemma_halve(x);
        lemma_low_bits_are_nat_bits(y, (n - 1) as nat);
        lemma_nat_bits_len(y as nat, (n - 1) as nat);
        assert forall|j: int| 0 <= j < n implies low_bits(x, n)[j] == nat_bits(x as nat, n)[j] by {
            if j == 0 {
            } else {
                lemma_bit_shr(x, 1, (j - 1) as u128);
                assert(bit_of(y, j - 1) == bit_of(x, j));
                assert(low_bits(y, (n - 1) as nat)[j - 1] == bit_of(y, j - 1));
            }
        }
    }
}

pub proof fn lemma_pow2_128()
    ensures
        pow2(128) == 0x1_0000_0000_0000_0000_0000_0000_0000_0000,
{
    lemma2_to64();
    lemma_pow2_adds(64, 64);
}

/// A register with no bit set at index `n` or above equals the number that
/// its `n` low bits denote.
pub proof fn lemma_register_value(x: u128, n: nat)
    requires
        n <= 128,
        fits_in(x, n),
    ensures
        bits_value(low_bits(x, n)) == x,
        (x as nat) < pow2(n),
{
    lemma_low_bits_are_nat_bits(x, 128);
    lemma_value_of_nat_bits(x as nat, 128);
    lemma_pow2_128();
    assert((x as nat) % pow2(128) == x) by {
        vstd::arithmetic::div_mod::lemma_small_mod(x as nat, pow2(128));
    }
    assert(low_bits(x, 128) =~= low_bits(x, n) + zeros((128 - n) as nat));
    lemma_value_append_zeros(low_bits(x, n), (128 - n) as nat);
    lemma_nat_bits_of_value(low_bits(x, n));
}

/// The converse: the digits of a number below `2^n` fit in `n` register bits.
pub proof fn lemma_fits_in(x: u128, n: nat)
    requires
        n <= 128,
        (x as nat) < pow2(n),
    ensures
        fits_in(x, n),
    decreases 128 - n,
{
    if n < 128 {
        lemma_pow2_unfold(n + 1);
        lemma_fits_in(x, n + 1);
        // bit n is the digit of weight 2^n, which a number below 2^n lacks
        lemma_low_bits_are_nat_bits(x, n + 1);
        lemma_value_of_nat_bits(x as nat, n + 1);
        vstd::arithmetic::div_mod::lemma_small_mod(x as nat, pow2(n + 1));
        let s = low_bits(x, n + 1);
        assert(s =~= low_bits(x, n) + seq![bit_of(x, n as int)]);
        lemma_value_append(low_bits(x, n), seq![bit_of(x, n as int)]);
        lemma_nat_bits_of_value(low_bits(x, n));
        let top = seq![bit_of(x, n as int)];
        assert(top.drop_first() =~= Seq::<bool>::empty());
        assert(bits_value(top) == if bit_of(x, n as int) { 1nat } else { 0nat }) by {
            assert(bits_value(top.drop_first()) == 0);
        }
        if bit_of(x, n as int) {
            assert(pow2(n) * 1 == pow2(n)) by (nonlinear_arith);
            assert(false);
        }
    }
}


// ---------------------------------------------------------------------------
// Whole-register facts, in terms of `bit_of`.
// ---------------------------------------------------------------------------

/// The sixteen bytes of a register, lowest first.
pub open spec fn register_bytes(x: u128) -> Seq<u8> {
    Seq::new(16, |k: int| (x >> ((8 * k) as u128)) as u8)
}

/// Laying `y` above the `w` low bits of `x`.
pub proof fn lemma_register_join(x: u128, w: nat, y: u128)
    requires
        w < 128,
        fits_in(x, w),
    ensures
        forall|j: int|
            0 <= j < 128 ==> #[trigger] bit_of(x | (y << (w as u128)), j) == (if j < w {
                bit_of(x, j)
            } else {
                bit_of(y, j - w)
            }),
{
    assert forall|j: int| 0 <= j < 128 implies #[trigger] bit_of(x | (y << (w as u128)), j) == (if j
        < w {
        bit_of(x, j)
    } else {
        bit_of(y, j - w)
    }) by {
        lemma_bit_or(x, y << (w as u128), j as u128);
        lemma_bit_shl(y, w as u128, j as u128);
        if j >= w {
            assert(!bit_of(x, j));
        }
    }
}

/// Dropping the `s` low bits of `x`.
pub proof fn lemma_register_shift(x: u128, s: nat)
    requires
        s < 128,
    ensures
        forall|j: int| 0 <= j < 128 ==> #[trigger] bit_of(x >> (s as u128), j) == bit_of(x, j + s),
{
    assert forall|j: int| 0 <= j < 128 implies #[trigger] bit_of(x >> (s as u128), j) == bit_of(
        x,
        j + s,
    ) by {
        lemma_bit_shr(x, s as u128, j as u128);
    }
}

/// Keeping the `n` low bits of `x`.
pub proof fn lemma_register_mask(x: u128, n: nat)
    requires
        n < 128,
    ensures
        forall|j: int|
            0 <= j < 128 ==> #[trigger] bit_of(x & (((1u128 << (n as u128)) - 1) as u128), j) == (j
                < n && bit_of(x, j)),
{
    assert forall|j: int| 0 <= j < 128 implies #[trigger] bit_of(
        x & (((1u128 << (n as u128)) - 1) as u128),
        j,
    ) == (j < n && bit_of(x, j)) by {
        lemma_bit_mask(x, n as u128, j as u128);
    }
}

/// Appending `l` bits of `y` to the `w` bits that a register holds.
pub proof fn lemma_register_append(x: u128, w: nat, y: u128, l: nat)
    requires
        w < 128,
        w + l <= 128,
        fits_in(x, w),
        fits_in(y, l),
    ensures
        fits_in(x | (y << (w as u128)), w + l),
        low_bits(x | (y << (w as u128)), w + l) =~= low_bits(x, w) + low_bits(y, l),
{
    lemma_register_join(x, w, y);
}

/// The bits of a register's bytes are the bits of the register.
pub proof fn lemma_register_bytes(x: u128)
    ensures
        bits_of_bytes(register_bytes(x)) =~= low_bits(x, 128),
{
    assert forall|i: int| 0 <= i < 128 implies bits_of_bytes(register_bytes(x))[i] == bit_of(
        x,
        i,
    ) by {
        let k = i / 8;
        let j = i % 8;
        lemma_byte_of_register(x, k as u128, j as u8);
        assert((8 * (k as u128) + (j as u8)) as u128 == i as u128);
        assert(((8 * (k as u128)) as u128) == ((8 * k) as u128));
    }
}

/// The bits of two byte runs laid end to end.
pub proof fn lemma_bits_of_bytes_append(a: Seq<u8>, b: Seq<u8>)
    ensures
        bits_of_bytes(a + b) =~= bits_of_bytes(a) + bits_of_bytes(b),
{
    assert forall|i: int| 0 <= i < 8 * (a.len() + b.len()) implies bits_of_bytes(a + b)[i] == (
    bits_of_bytes(a) + bits_of_bytes(b))[i] by {
        if i >= 8 * a.len() {
            assert((i - 8 * a.len()) / 8 == i / 8 - a.len());
            assert((i - 8 * a.len()) % 8 == i % 8);
        }
    }
}

} // verus!
