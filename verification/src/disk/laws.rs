//! Round-trip laws of the codes: what was encoded into a stream is what a
//! reader at the same offset decodes, wherever in the stream it stands.
use vstd::prelude::*;
use vstd::arithmetic::power2::{
    pow2, lemma_pow2_unfold, lemma_pow2_pos, lemma_pow2_adds, lemma2_to64,
    lemma_pow2_strictly_increases,
};
use vstd::arithmetic::div_mod::lemma_small_mod;
use vstd::utf8::{encode_utf8, encode_utf8_valid_utf8, encode_utf8_decode_utf8};
use crate::disk::bits::{
    CodecError, zeros, nat_bits, bits_of_bytes, bits_value, byte_bit, bit_of, low_bits,
    lemma_nat_bits_len, lemma_value_of_nat_bits, lemma_low_bits_are_nat_bits, lemma_bit_of_byte,
};
use crate::disk::codes::{
    visible, floor_log2, gamma_code, gamma_bits, vbyte_code, vbyte_bits, bytes_bits, str_bits,
    gaps_bits, gap_vector_bits, strictly_ascending, gap_codable, holds_at, field, zero_run,
    parse_gamma, parse_vbyte_groups, parse_vbyte, bytes_at, parse_bytes, parse_str, parse_gaps,
    parse_gap_vector,
};

verus! {

/// A run made of two parts stands at `pos` exactly when the first part
/// stands there and the second right behind it.
pub proof fn lemma_holds_at_split(s: Seq<bool>, pos: nat, a: Seq<bool>, b: Seq<bool>)
    ensures
        holds_at(s, pos, a + b) <==> (holds_at(s, pos, a) && holds_at(s, pos + a.len(), b)),
{
    if holds_at(s, pos, a + b) {
        let c = a + b;
        assert(s.subrange(pos as int, (pos + a.len()) as int) =~= c.subrange(0, a.len() as int));
        assert(c.subrange(0, a.len() as int) =~= a);
        assert(s.subrange((pos + a.len()) as int, (pos + a.len() + b.len()) as int)
            =~= c.subrange(a.len() as int, c.len() as int));
        assert(c.subrange(a.len() as int, c.len() as int) =~= b);
    }
    if holds_at(s, pos, a) && holds_at(s, pos + a.len(), b) {
        let x = s.subrange(pos as int, (pos + a.len()) as int);
        let y = s.subrange((pos + a.len()) as int, (pos + a.len() + b.len()) as int);
        assert(s.subrange(pos as int, (pos + (a + b).len()) as int) =~= x + y);
    }
}

pub proof fn lemma_log2_bounds(v: nat)
    requires
        v >= 1,
    ensures
        pow2(floor_log2(v)) <= v < 2 * pow2(floor_log2(v)),
    decreases v,
{
    if v <= 1 {
        lemma2_to64();
    } else {
        lemma_log2_bounds(v / 2);
        lemma_pow2_unfold(floor_log2(v));
    }
}

/// A number below `2^k` has a logarithm below `k`.
pub proof fn lemma_log2_below(v: nat, k: nat)
    requires
        1 <= v < pow2(k),
    ensures
        floor_log2(v) < k,
{
    lemma_log2_bounds(v);
    if floor_log2(v) >= k {
        if floor_log2(v) > k {
            lemma_pow2_strictly_increases(k, floor_log2(v));
        }
    }
}

/// The logarithm is the one exponent whose power brackets the number.
pub proof fn lemma_log2_unique(v: nat, z: nat)
    requires
        pow2(z) <= v < 2 * pow2(z),
    ensures
        floor_log2(v) == z,
{
    lemma_pow2_pos(z);
    lemma_log2_bounds(v);
    let w = floor_log2(v);
    if w < z {
        lemma_pow2_unfold(w + 1);
        if w + 1 < z {
            lemma_pow2_strictly_increases(w + 1, z);
        }
    } else if w > z {
        lemma_pow2_unfold(z + 1);
        if z + 1 < w {
            lemma_pow2_strictly_increases(z + 1, w);
        }
    }
}

pub proof fn lemma_zero_run(s: Seq<bool>, pos: nat, z: nat)
    requires
        pos + z < s.len(),
        forall|i: int| pos <= i < pos + z ==> !s[i],
        s[(pos + z) as int],
    ensures
        zero_run(s, pos) == z,
    decreases z,
{
    if z > 0 {
        lemma_zero_run(s, pos + 1, (z - 1) as nat);
    }
}

/// A run of zeros reaches as far as said, and stops at a one or at the end.
pub proof fn lemma_zero_run_bounds(s: Seq<bool>, pos: nat)
    ensures
        forall|i: int| pos <= i < pos + zero_run(s, pos) ==> i < s.len() && !s[i],
        pos + zero_run(s, pos) < s.len() ==> s[(pos + zero_run(s, pos)) as int],
        pos <= s.len() ==> pos + zero_run(s, pos) <= s.len(),
    decreases s.len() - pos,
{
    if pos < s.len() && !s[pos as int] {
        lemma_zero_run_bounds(s, pos + 1);
    }
}

pub proof fn lemma_gamma_code_len(v: nat)
    ensures
        gamma_code(v).len() == 2 * floor_log2(v) + 1,
{
    let z = floor_log2(v);
    lemma_nat_bits_len((v - pow2(z)) as nat, z);
}

/// A γ-coded value reads back as itself.
pub proof fn lemma_gamma_roundtrip(s: Seq<bool>, pos: nat, n: nat)
    requires
        n < u32::MAX,
        holds_at(s, pos, gamma_bits(n)),
        pos + gamma_bits(n).len() < s.len(),
    ensures
        parse_gamma(s, pos) == Ok::<(u32, nat), CodecError>(
            (n as u32, pos + gamma_bits(n).len()),
        ),
{
    let v = n + 1;
    let z = floor_log2(v);
    let low = (v - pow2(z)) as nat;
    lemma_gamma_code_len(v);
    lemma_log2_bounds(v);
    lemma2_to64();
    assert(z < 32) by {
        lemma_log2_below(v, 32);
    }
    lemma_nat_bits_len(low, z);
    let head = zeros(z) + seq![true];
    lemma_holds_at_split(s, pos, head, nat_bits(low, z));
    lemma_holds_at_split(s, pos, zeros(z), seq![true]);
    assert forall|i: int| pos <= i < pos + z implies !s[i] by {
        assert(s.subrange(pos as int, (pos + z) as int)[i - pos] == zeros(z)[i - pos]);
    }
    assert(s[(pos + z) as int]) by {
        assert(s.subrange((pos + z) as int, (pos + z + 1) as int)[0] == seq![true][0]);
    }
    lemma_zero_run(s, pos, z);
    lemma_value_of_nat_bits(low, z);
    lemma_small_mod(low, pow2(z));
    assert(field(s, pos + z + 1, z) == low);
}

pub open spec fn vbyte_len(v: nat) -> nat
    decreases v,
{
    if v < 128 {
        1
    } else {
        1 + vbyte_len(v / 128)
    }
}

pub proof fn lemma_vbyte_code_len(v: nat)
    ensures
        vbyte_code(v).len() == 8 * vbyte_len(v),
    decreases v,
{
    if v < 128 {
        lemma_nat_bits_len(v + 128, 8);
    } else {
        lemma_nat_bits_len(v % 128, 8);
        lemma_vbyte_code_len(v / 128);
    }
}

proof fn lemma_vbyte_groups_roundtrip(s: Seq<bool>, pos: nat, i: nat, acc: nat, w: nat)
    requires
        w >= 1,
        i < 5,
        w < pow2((7 * (5 - i)) as nat),
        holds_at(s, pos, vbyte_code(w)),
        pos + vbyte_code(w).len() < s.len(),
        1 <= acc + w * pow2(7 * i) <= u32::MAX,
    ensures
        parse_vbyte_groups(s, pos, i, acc) == Ok::<(u32, nat), CodecError>(
            ((acc + w * pow2(7 * i) - 1) as u32, pos + vbyte_code(w).len()),
        ),
    decreases w,
{
    lemma2_to64();
    lemma_vbyte_code_len(w);
    let p = pow2(7 * i);
    if w < 128 {
        lemma_value_of_nat_bits(w + 128, 8);
        lemma_small_mod(w + 128, pow2(8));
        let b = field(s, pos, 8);
        assert(b == w + 128);
        assert(b % 128 == w);
        assert(vbyte_code(w).len() == 8);
        assert(acc + (b % 128) * p == acc + w * p);
    } else {
        let head = nat_bits(w % 128, 8);
        lemma_nat_bits_len(w % 128, 8);
        lemma_holds_at_split(s, pos, head, vbyte_code(w / 128));
        lemma_value_of_nat_bits(w % 128, 8);
        lemma_small_mod(w % 128, pow2(8));
        let b = field(s, pos, 8);
        assert(b == w % 128);
        assert(b % 128 == b);
        lemma_vbyte_code_len(w / 128);
        if i == 4 {
            assert(false);
        }
        lemma_pow2_adds(7, (7 * (5 - i - 1)) as nat);
        assert(w / 128 < pow2((7 * (5 - i - 1)) as nat)) by (nonlinear_arith)
            requires
                w < 128 * pow2((7 * (5 - i - 1)) as nat),
        ;
        lemma_pow2_adds(7, 7 * i);
        assert(pow2(7 * (i + 1)) == 128 * p);
        let next = acc + (w % 128) * p;
        assert(next + (w / 128) * (128 * p) == acc + w * p) by (nonlinear_arith)
            requires
                next == acc + (w % 128) * p,
        ;
        assert(1 <= next + (w / 128) * pow2(7 * (i + 1)) <= u32::MAX);
        lemma_vbyte_groups_roundtrip(s, pos + 8, i + 1, next, w / 128);
        assert(vbyte_code(w).len() == 8 + vbyte_code(w / 128).len());
        assert(parse_vbyte_groups(s, pos, i, acc) == parse_vbyte_groups(s, pos + 8, i + 1, next));
    }
}

/// A variable-byte value reads back as itself.
pub proof fn lemma_vbyte_roundtrip(s: Seq<bool>, pos: nat, n: nat)
    requires
        n < u32::MAX,
        holds_at(s, pos, vbyte_bits(n)),
        pos + vbyte_bits(n).len() < s.len(),
    ensures
        parse_vbyte(s, pos) == Ok::<(u32, nat), CodecError>(
            (n as u32, pos + vbyte_bits(n).len()),
        ),
{
    lemma2_to64();
    vstd::arithmetic::power2::lemma2_to64_rest();
    assert(pow2(0) == 1);
    assert(pow2(35) == 0x800000000);
    assert((n + 1) * pow2(0) == n + 1);
    lemma_vbyte_groups_roundtrip(s, pos, 0, 0, n + 1);
}

/// The eight bits of a byte denote the byte.
pub proof fn lemma_byte_value(b: u8)
    ensures
        Seq::new(8, |j: int| byte_bit(b, j)) =~= nat_bits(b as nat, 8),
        bits_value(Seq::new(8, |j: int| byte_bit(b, j))) == b,
{
    let x: u128 = b as u128;
    lemma_low_bits_are_nat_bits(x, 8);
    lemma_nat_bits_len(b as nat, 8);
    assert forall|j: int| 0 <= j < 8 implies byte_bit(b, j) == bit_of(x, j) by {
        lemma_bit_of_byte(b, j as u128);
    }
    assert(Seq::new(8, |j: int| byte_bit(b, j)) =~= low_bits(x, 8));
    lemma_value_of_nat_bits(b as nat, 8);
    lemma2_to64();
    lemma_small_mod(b as nat, pow2(8));
}

/// Bytes laid into a stream are the bytes found there.
pub proof fn lemma_bytes_at(s: Seq<bool>, pos: nat, b: Seq<u8>)
    requires
        holds_at(s, pos, bits_of_bytes(b)),
    ensures
        bytes_at(s, pos, b.len()) =~= b,
{
    assert forall|i: int| 0 <= i < b.len() implies bytes_at(s, pos, b.len())[i] == b[i] by {
        let all = bits_of_bytes(b);
        let one = s.subrange((pos + 8 * i) as int, (pos + 8 * i + 8) as int);
        assert forall|j: int| 0 <= j < 8 implies one[j] == byte_bit(b[i], j) by {
            assert(s.subrange(pos as int, (pos + all.len()) as int)[8 * i + j] == all[8 * i + j]);
            assert((8 * i + j) / 8 == i && (8 * i + j) % 8 == j);
        }
        assert(one =~= Seq::new(8, |j: int| byte_bit(b[i], j)));
        lemma_byte_value(b[i]);
    }
}

/// A byte string reads back as itself.
pub proof fn lemma_bytes_roundtrip(s: Seq<bool>, pos: nat, b: Seq<u8>)
    requires
        b.len() < u32::MAX,
        holds_at(s, pos, bytes_bits(b)),
        pos + bytes_bits(b).len() < s.len(),
    ensures
        parse_bytes(s, pos) == Ok::<(Seq<u8>, nat), CodecError>((b, pos + bytes_bits(b).len())),
{
    let g = gamma_bits(b.len());
    lemma_holds_at_split(s, pos, g, bits_of_bytes(b));
    lemma_gamma_roundtrip(s, pos, b.len());
    lemma_bytes_at(s, pos + g.len(), b);
}

/// A string reads back as itself.
pub proof fn lemma_str_roundtrip(s: Seq<bool>, pos: nat, chars: Seq<char>)
    requires
        encode_utf8(chars).len() < u32::MAX,
        holds_at(s, pos, str_bits(chars)),
        pos + str_bits(chars).len() < s.len(),
    ensures
        parse_str(s, pos) == Ok::<(Seq<char>, nat), CodecError>(
            (chars, pos + str_bits(chars).len()),
        ),
{
    lemma_bytes_roundtrip(s, pos, encode_utf8(chars));
    encode_utf8_valid_utf8(chars);
    encode_utf8_decode_utf8(chars);
}

/// Ascending values written as gaps read back as themselves.
pub proof fn lemma_gaps_roundtrip(s: Seq<bool>, pos: nat, v: Seq<u32>, prev: nat, first: bool)
    requires
        strictly_ascending(v),
        forall|i: int| 0 <= i < v.len() ==> v[i] < u32::MAX,
        v.len() > 0 ==> (if first { v[0] >= prev } else { v[0] > prev }),
        holds_at(s, pos, gaps_bits(v, prev)),
        pos + gaps_bits(v, prev).len() < s.len(),
    ensures
        parse_gaps(s, pos, v.len(), prev, first) == Ok::<(Seq<u32>, nat), CodecError>(
            (v, pos + gaps_bits(v, prev).len()),
        ),
    decreases v.len(),
{
    if v.len() > 0 {
        let gap = (v[0] - prev) as nat;
        let g = gamma_bits(gap);
        let rest = v.drop_first();
        lemma_holds_at_split(s, pos, g, gaps_bits(rest, v[0] as nat));
        lemma_gamma_roundtrip(s, pos, gap);
        assert(strictly_ascending(rest)) by {
            assert forall|i: int, j: int| 0 <= i < j < rest.len() implies rest[i] < rest[j] by {
                assert(rest[i] == v[i + 1] && rest[j] == v[j + 1]);
            }
        }
        if rest.len() > 0 {
            assert(rest[0] == v[1]);
        }
        lemma_gaps_roundtrip(s, pos + g.len(), rest, v[0] as nat, false);
        assert(seq![v[0]] + rest =~= v);
        assert((prev + (gap as u32)) as u32 == v[0]);
    } else {
        assert(v =~= Seq::<u32>::empty());
    }
}

/// A gap-coded vector reads back as itself.
pub proof fn lemma_gap_vector_roundtrip(s: Seq<bool>, pos: nat, v: Seq<u32>)
    requires
        gap_codable(v),
        holds_at(s, pos, gap_vector_bits(v)),
        pos + gap_vector_bits(v).len() < s.len(),
    ensures
        parse_gap_vector(s, pos) == Ok::<(Seq<u32>, nat), CodecError>(
            (v, pos + gap_vector_bits(v).len()),
        ),
{
    let c = vbyte_bits(v.len());
    lemma_holds_at_split(s, pos, c, gaps_bits(v, 0));
    lemma_vbyte_roundtrip(s, pos, v.len());
    lemma_gaps_roundtrip(s, pos + c.len(), v, 0, true);
}

/// Whatever the stream holds, gaps that decode at all decode to an
/// ascending run of the length asked for, which starts at or above `acc`.
pub proof fn lemma_parse_gaps_ascending(s: Seq<bool>, pos: nat, k: nat, acc: nat, first: bool)
    requires
        parse_gaps(s, pos, k, acc, first) is Ok,
    ensures
        ({
            let v = parse_gaps(s, pos, k, acc, first)->Ok_0.0;
            &&& v.len() == k
            &&& strictly_ascending(v)
            &&& k > 0 ==> (if first { v[0] >= acc } else { v[0] > acc })
        }),
    decreases k,
{
    if k > 0 {
        let (gap, p) = parse_gamma(s, pos)->Ok_0;
        lemma_parse_gaps_ascending(s, p, (k - 1) as nat, acc + (gap as nat), false);
        let rest = parse_gaps(s, p, (k - 1) as nat, acc + (gap as nat), false)->Ok_0.0;
        let v = parse_gaps(s, pos, k, acc, first)->Ok_0.0;
        assert(v =~= seq![(acc + gap) as u32] + rest);
        assert forall|i: int, j: int| 0 <= i < j < v.len() implies v[i] < v[j] by {
            if i > 0 {
                assert(v[i] == rest[i - 1] && v[j] == rest[j - 1]);
            } else {
                assert(v[j] == rest[j - 1]);
                if j > 1 {
                    assert(rest[0] < rest[j - 1]);
                }
            }
        }
    }
}


// ---------------------------------------------------------------------------
// Streams as the writer seals them, and what a reader sees of them.
// ---------------------------------------------------------------------------

/// `bytes` is the stream `content` as a writer leaves it after its final
/// flush: padded with zeros to a whole register, then one register of zeros.
pub open spec fn sealed(content: Seq<bool>, bytes: Seq<u8>) -> bool {
    let total = 8 * bytes.len();
    &&& total % 128 == 0
    &&& 128 <= total - content.len() < 256
    &&& bits_of_bytes(bytes) == content + zeros((total - content.len()) as nat)
}

/// A run that stands in a stream stands in every longer stream that starts
/// with it.
pub proof fn lemma_holds_at_prefix(s: Seq<bool>, t: Seq<bool>, pos: nat, c: Seq<bool>)
    requires
        holds_at(s, pos, c),
        s.len() <= t.len(),
        t.subrange(0, s.len() as int) == s,
    ensures
        holds_at(t, pos, c),
{
    assert forall|i: int| 0 <= i < c.len() implies t.subrange(pos as int, (pos + c.len()) as int)[i]
        == c[i] by {
        assert(t.subrange(0, s.len() as int)[pos + i] == s[pos + i]);
        assert(s.subrange(pos as int, (pos + c.len()) as int)[i] == c[i]);
    }
    assert(t.subrange(pos as int, (pos + c.len()) as int) =~= c);
}

/// Seek equivalence, at the level of streams: wherever within the content
/// of a sealed stream a reader is framed, by reading on from the start or by
/// a seek to bit `offset`, it sees all of the content and at least one bit
/// more, so every code written at or after `offset` decodes in both views to
/// what the round-trip laws say.
pub proof fn lemma_sealed_views(content: Seq<bool>, bytes: Seq<u8>, offset: nat, c: Seq<bool>)
    requires
        sealed(content, bytes),
        holds_at(content, offset, c),
    ensures
        holds_at(visible(bytes, 0), offset, c),
        holds_at(visible(bytes, (offset / 8) % 16), offset, c),
        offset + c.len() < visible(bytes, 0).len(),
        offset + c.len() < visible(bytes, (offset / 8) % 16).len(),
{
    let all = bits_of_bytes(bytes);
    let n = bytes.len() as int;
    assert(n % 16 == 0) by (nonlinear_arith)
        requires
            (8 * n) % 128 == 0,
    ;
    assert(all.subrange(0, content.len() as int) =~= content);
    lemma_holds_at_prefix(content, all, offset, c);
    let ph = ((offset / 8) % 16) as int;
    let cut0 = n - (n - 0) % 16;
    let cut = n - (n - ph) % 16;
    assert(cut0 == n);
    assert(bytes.subrange(0, n) =~= bytes);
    assert(n - 16 < cut <= n);
    let seen = visible(bytes, ph as nat);
    assert(seen =~= all.subrange(0, 8 * cut));
    assert forall|i: int| 0 <= i < c.len() implies seen.subrange(
        offset as int,
        (offset + c.len()) as int,
    )[i] == c[i] by {
        assert(all.subrange(offset as int, (offset + c.len()) as int)[i] == c[i]);
    }
    assert(seen.subrange(offset as int, (offset + c.len()) as int) =~= c);
}


// ---------------------------------------------------------------------------
// Sequences of values.
// ---------------------------------------------------------------------------

/// A value that a writer can write and a reader can read.
pub enum Item {
    Gamma(u32),
    VByte(u32),
    Str(Seq<char>),
    GapVector(Seq<u32>),
}

/// The codes can store the value.
pub open spec fn item_storable(item: Item) -> bool {
    match item {
        Item::Gamma(n) => n < u32::MAX,
        Item::VByte(n) => n < u32::MAX,
        Item::Str(chars) => encode_utf8(chars).len() < u32::MAX,
        Item::GapVector(v) => gap_codable(v),
    }
}

/// The value as it is written.
pub open spec fn item_bits(item: Item) -> Seq<bool> {
    match item {
        Item::Gamma(n) => gamma_bits(n as nat),
        Item::VByte(n) => vbyte_bits(n as nat),
        Item::Str(chars) => str_bits(chars),
        Item::GapVector(v) => gap_vector_bits(v),
    }
}

/// The values as they are written one after the other.
pub open spec fn items_bits(items: Seq<Item>) -> Seq<bool>
    decreases items.len(),
{
    if items.len() == 0 {
        Seq::empty()
    } else {
        item_bits(items[0]) + items_bits(items.drop_first())
    }
}

/// Reading at `pos` a value of the kind of `like`.
pub open spec fn parse_item(s: Seq<bool>, pos: nat, like: Item) -> Result<(Item, nat), CodecError> {
    match like {
        Item::Gamma(_) => match parse_gamma(s, pos) {
            Ok((n, p)) => Ok((Item::Gamma(n), p)),
            Err(e) => Err(e),
        },
        Item::VByte(_) => match parse_vbyte(s, pos) {
            Ok((n, p)) => Ok((Item::VByte(n), p)),
            Err(e) => Err(e),
        },
        Item::Str(_) => match parse_str(s, pos) {
            Ok((c, p)) => Ok((Item::Str(c), p)),
            Err(e) => Err(e),
        },
        Item::GapVector(_) => match parse_gap_vector(s, pos) {
            Ok((v, p)) => Ok((Item::GapVector(v), p)),
            Err(e) => Err(e),
        },
    }
}

/// Reading from `pos` on, one after the other, values of the kinds of
/// `like`.
pub open spec fn parse_items(s: Seq<bool>, pos: nat, like: Seq<Item>) -> Result<
    Seq<Item>,
    CodecError,
>
    decreases like.len(),
{
    if like.len() == 0 {
        Ok(Seq::empty())
    } else {
        match parse_item(s, pos, like[0]) {
            Err(e) => Err(e),
            Ok((item, p)) => match parse_items(s, p, like.drop_first()) {
                Err(e) => Err(e),
                Ok(rest) => Ok(seq![item] + rest),
            },
        }
    }
}

/// Whatever is written reads back as itself.
pub proof fn lemma_item_roundtrip(s: Seq<bool>, pos: nat, item: Item)
    requires
        item_storable(item),
        holds_at(s, pos, item_bits(item)),
        pos + item_bits(item).len() < s.len(),
    ensures
        parse_item(s, pos, item) == Ok::<(Item, nat), CodecError>(
            (item, pos + item_bits(item).len()),
        ),
{
    match item {
        Item::Gamma(n) => lemma_gamma_roundtrip(s, pos, n as nat),
        Item::VByte(n) => lemma_vbyte_roundtrip(s, pos, n as nat),
        Item::Str(chars) => lemma_str_roundtrip(s, pos, chars),
        Item::GapVector(v) => lemma_gap_vector_roundtrip(s, pos, v),
    }
}

/// Values written one after the other read back, in order, as themselves,
/// wherever in a stream they stand.
pub proof fn lemma_items_roundtrip(s: Seq<bool>, pos: nat, items: Seq<Item>)
    requires
        forall|i: int| 0 <= i < items.len() ==> item_storable(#[trigger] items[i]),
        holds_at(s, pos, items_bits(items)),
        pos + items_bits(items).len() < s.len(),
    ensures
        parse_items(s, pos, items) == Ok::<Seq<Item>, CodecError>(items),
    decreases items.len(),
{
    if items.len() == 0 {
        assert(items =~= Seq::empty());
    } else {
        let rest = items.drop_first();
        lemma_holds_at_split(s, pos, item_bits(items[0]), items_bits(rest));
        lemma_item_roundtrip(s, pos, items[0]);
        assert forall|i: int| 0 <= i < rest.len() implies item_storable(#[trigger] rest[i]) by {
            assert(rest[i] == items[i + 1]);
        }
        lemma_items_roundtrip(s, pos + item_bits(items[0]).len(), rest);
        assert(seq![items[0]] + rest =~= items);
    }
}

/// What is written is what its first `k` values and the others are written
/// as, laid end to end.
pub proof fn lemma_items_bits_split(items: Seq<Item>, k: int)
    requires
        0 <= k <= items.len(),
    ensures
        items_bits(items) == items_bits(items.take(k)) + items_bits(items.skip(k)),
    decreases k,
{
    if k == 0 {
        assert(items.take(0) =~= Seq::empty());
        assert(items.skip(0) =~= items);
        assert(items_bits(items) =~= items_bits(items.take(k)) + items_bits(items.skip(k)));
    } else {
        let rest = items.drop_first();
        lemma_items_bits_split(rest, k - 1);
        assert(items.take(k).drop_first() =~= rest.take(k - 1));
        assert(items.skip(k) =~= rest.skip(k - 1));
        assert(items.take(k)[0] == items[0]);
        assert(items_bits(items) =~= items_bits(items.take(k)) + items_bits(items.skip(k)));
    }
}

/// Codec round trip: a reader of the bytes that a writer leaves for any
/// sequence of values returns, from the start, exactly those values.
pub proof fn lemma_codec_roundtrip(items: Seq<Item>, bytes: Seq<u8>)
    requires
        forall|i: int| 0 <= i < items.len() ==> item_storable(#[trigger] items[i]),
        sealed(items_bits(items), bytes),
    ensures
        parse_items(visible(bytes, 0), 0, items) == Ok::<Seq<Item>, CodecError>(items),
{
    let content = items_bits(items);
    assert(content.subrange(0, content.len() as int) =~= content);
    lemma_sealed_views(content, bytes, 0, content);
    lemma_items_roundtrip(visible(bytes, 0), 0, items);
}

/// Seek equivalence: a reader that seeks to the bit offset behind the
/// `k`-th value reads the same values as one that has read on from the
/// start up to there: those written behind the `k`-th.
pub proof fn lemma_seek_equivalence(items: Seq<Item>, bytes: Seq<u8>, k: int)
    requires
        forall|i: int| 0 <= i < items.len() ==> item_storable(#[trigger] items[i]),
        sealed(items_bits(items), bytes),
        0 <= k <= items.len(),
    ensures
        ({
            let offset = items_bits(items.take(k)).len();
            let tail = Ok::<Seq<Item>, CodecError>(items.skip(k));
            &&& parse_items(visible(bytes, 0), offset, items.skip(k)) == tail
            &&& parse_items(visible(bytes, (offset / 8) % 16), offset, items.skip(k)) == tail
        }),
{
    let content = items_bits(items);
    let head = items_bits(items.take(k));
    let rest = items.skip(k);
    lemma_items_bits_split(items, k);
    assert(holds_at(content, head.len(), items_bits(rest))) by {
        assert(content.subrange(head.len() as int, (head.len() + items_bits(rest).len()) as int)
            =~= items_bits(rest));
    }
    lemma_sealed_views(content, bytes, head.len(), items_bits(rest));
    assert forall|i: int| 0 <= i < rest.len() implies item_storable(#[trigger] rest[i]) by {
        assert(rest[i] == items[k + i]);
    }
    lemma_items_roundtrip(visible(bytes, 0), head.len(), rest);
    lemma_items_roundtrip(visible(bytes, (head.len() / 8) % 16), head.len(), rest);
}


/// Bytes with the same bits are the same bytes.
pub proof fn lemma_bits_determine_bytes(a: Seq<u8>, b: Seq<u8>)
    requires
        bits_of_bytes(a) == bits_of_bytes(b),
    ensures
        a == b,
{
    assert(bits_of_bytes(a).len() == 8 * a.len());
    assert(bits_of_bytes(b).len() == 8 * b.len());
    assert(a.len() == b.len());
    assert forall|i: int| 0 <= i < a.len() implies a[i] == b[i] by {
        let x = Seq::new(8, |j: int| byte_bit(a[i], j));
        let y = Seq::new(8, |j: int| byte_bit(b[i], j));
        assert forall|j: int| 0 <= j < 8 implies x[j] == y[j] by {
            assert((8 * i + j) / 8 == i && (8 * i + j) % 8 == j);
            assert(bits_of_bytes(a)[8 * i + j] == byte_bit(a[i], j));
            assert(bits_of_bytes(b)[8 * i + j] == byte_bit(b[i], j));
        }
        assert(x =~= y);
        lemma_byte_value(a[i]);
        lemma_byte_value(b[i]);
    }
    assert(a =~= b);
}

/// A stream is sealed in one way only: what a writer leaves is a function
/// of what was written.
pub proof fn lemma_sealed_unique(content: Seq<bool>, a: Seq<u8>, b: Seq<u8>)
    requires
        sealed(content, a),
        sealed(content, b),
    ensures
        a == b,
{
    let n = content.len() as int;
    let ta = 8 * a.len();
    let tb = 8 * b.len();
    assert(ta == tb) by (nonlinear_arith)
        requires
            ta % 128 == 0,
            tb % 128 == 0,
            128 <= ta - n < 256,
            128 <= tb - n < 256,
    ;
    lemma_bits_determine_bytes(a, b);
}

} // verus!
