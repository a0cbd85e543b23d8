//! Writing the terms: one file holds them one after the other, another the
//! γ-coded length in bytes of each.
use vstd::prelude::*;
use vstd::string::StringSliceAdditionalSpecFns;
use vstd::utf8::{encode_utf8, encode_utf8_decode_utf8, encode_utf8_valid_utf8};
use crate::disk::bits::CodecError;
use crate::disk::bits_writer::BitsWriter;
use crate::disk::laws::sealed;
use crate::engine::terms::{sorted_terms, terms_view};
use crate::index::documents::{gamma_list_bits, lemma_gamma_list_bits_push};
use crate::index::loader::cut_terms;

verus! {

/// The bytes of the terms, one after the other.
pub open spec fn joined_terms(terms: Seq<Seq<char>>) -> Seq<u8>
    decreases terms.len(),
{
    if terms.len() == 0 {
        Seq::empty()
    } else {
        joined_terms(terms.drop_last()) + encode_utf8(terms.last())
    }
}

/// The length in bytes of each term.
pub open spec fn term_lengths(terms: Seq<Seq<char>>) -> Seq<u32> {
    Seq::new(terms.len(), |i: int| encode_utf8(terms[i]).len() as u32)
}

/// No term is as long as the largest `u32`.
pub open spec fn terms_storable(terms: Seq<Seq<char>>) -> bool {
    forall|i: int| 0 <= i < terms.len() ==> encode_utf8(#[trigger] terms[i]).len() < u32::MAX
}

/// The bytes of the file of terms and of the file of their lengths.
pub fn write_vocabulary(terms: &Vec<String>) -> (r: (Vec<u8>, Vec<u8>))
    requires
        terms_storable(terms_view(terms@)),
    ensures
        r.0@ == joined_terms(terms_view(terms@)),
        sealed(gamma_list_bits(term_lengths(terms_view(terms@))), r.1@),
{
    let ghost tv = terms_view(terms@);
    let ghost lens = term_lengths(tv);
    let mut names: Vec<u8> = Vec::new();
    let mut writer = BitsWriter::new();
    let mut i: usize = 0;
    proof {
        assert(tv.take(0) =~= Seq::empty());
        assert(lens.take(0) =~= Seq::empty());
        assert(writer.bits() =~= gamma_list_bits(lens.take(0)));
        assert(names@ =~= joined_terms(tv.take(0)));
    }
    while i < terms.len()
        invariant
            i <= terms.len(),
            tv == terms_view(terms@),
            lens == term_lengths(tv),
            terms_storable(tv),
            writer.wf(),
            writer.bits() == gamma_list_bits(lens.take(i as int)),
            names@ == joined_terms(tv.take(i as int)),
        decreases terms.len() - i,
    {
        let term = terms[i].as_str();
        let bytes = term.as_bytes();
        proof {
            assert(tv[i as int] == term@);
            assert(encode_utf8(tv[i as int]).len() < u32::MAX);
            assert(lens[i as int] == bytes@.len());
            lemma_gamma_list_bits_push(lens.take(i as int), lens[i as int]);
            assert(lens.take(i as int).push(lens[i as int]) =~= lens.take(i + 1));
            assert(tv.take(i + 1).drop_last() =~= tv.take(i as int));
            assert(tv.take(i + 1).last() == tv[i as int]);
        }
        writer.write_gamma(bytes.len() as u32);
        names.extend_from_slice(bytes);
        i += 1;
    }
    proof {
        assert(tv.take(i as int) =~= tv);
        assert(lens.take(i as int) =~= lens);
    }
    (names, writer.finish())
}

/// The terms as a writer joins them are cut apart again by their lengths.
pub proof fn lemma_cut_joined_terms(terms: Seq<Seq<char>>)
    requires
        sorted_terms(terms),
        terms_storable(terms),
    ensures
        cut_terms(joined_terms(terms), 0, term_lengths(terms), None) == Ok::<
            Seq<Seq<char>>,
            CodecError,
        >(terms),
{
    lemma_cut_from(terms, 0);
    assert(terms.skip(0) =~= terms);
    assert(term_lengths(terms).skip(0) =~= term_lengths(terms));
    assert(terms.take(0) =~= Seq::empty());
}

/// The joined bytes of the first `k` terms are the start of those of all.
proof fn lemma_joined_prefix(terms: Seq<Seq<char>>, k: int)
    requires
        0 <= k <= terms.len(),
    ensures
        joined_terms(terms.take(k)).len() <= joined_terms(terms).len(),
        joined_terms(terms).subrange(0, joined_terms(terms.take(k)).len() as int) == joined_terms(
            terms.take(k),
        ),
        k < terms.len() ==> joined_terms(terms.take(k + 1)) == joined_terms(terms.take(k))
            + encode_utf8(terms[k]),
    decreases terms.len() - k,
{
    if k == terms.len() {
        assert(terms.take(k) =~= terms);
        assert(joined_terms(terms).subrange(0, joined_terms(terms).len() as int) =~= joined_terms(
            terms,
        ));
    } else {
        lemma_joined_prefix(terms, k + 1);
        assert(terms.take(k + 1).drop_last() =~= terms.take(k));
        assert(terms.take(k + 1).last() == terms[k]);
        let a = joined_terms(terms.take(k));
        let b = joined_terms(terms.take(k + 1));
        let all = joined_terms(terms);
        assert(b =~= a + encode_utf8(terms[k]));
        assert(all.subrange(0, a.len() as int) =~= all.subrange(0, b.len() as int).subrange(
            0,
            a.len() as int,
        ));
        assert(b.subrange(0, a.len() as int) =~= a);
    }
}

proof fn lemma_cut_from(terms: Seq<Seq<char>>, k: int)
    requires
        0 <= k <= terms.len(),
        sorted_terms(terms),
        terms_storable(terms),
    ensures
        cut_terms(
            joined_terms(terms),
            joined_terms(terms.take(k)).len(),
            term_lengths(terms).skip(k),
            if k == 0 {
                None
            } else {
                Some(terms[k - 1])
            },
        ) == Ok::<Seq<Seq<char>>, CodecError>(terms.skip(k)),
    decreases terms.len() - k,
{
    let all = joined_terms(terms);
    let lens = term_lengths(terms).skip(k);
    if k == terms.len() {
        assert(lens =~= Seq::empty());
        assert(terms.skip(k) =~= Seq::empty());
    } else {
        let start = joined_terms(terms.take(k)).len();
        let t = terms[k];
        let e = encode_utf8(t);
        lemma_joined_prefix(terms, k);
        lemma_joined_prefix(terms, k + 1);
        assert(lens[0] == e.len());
        let next = joined_terms(terms.take(k + 1));
        assert(next.len() == start + e.len());
        assert(all.subrange(start as int, (start + e.len()) as int) =~= e) by {
            assert forall|x: int| 0 <= x < e.len() implies all[start + x] == e[x] by {
                assert(all.subrange(0, next.len() as int)[start + x] == next[start + x]);
            }
        }
        encode_utf8_valid_utf8(t);
        encode_utf8_decode_utf8(t);
        lemma_cut_from(terms, k + 1);
        assert(lens.drop_first() =~= term_lengths(terms).skip(k + 1));
        assert(seq![t] + terms.skip(k + 1) =~= terms.skip(k));
    }
}

} // verus!
