//! The lengths of the documents, by document id: a variable-byte count,
//! then each length as a γ code.
use vstd::prelude::*;
use crate::disk::bits::CodecError;
use crate::disk::bits_reader::BitsReader;
use crate::disk::bits_writer::BitsWriter;
use crate::disk::codes::{visible, gamma_bits, vbyte_bits, holds_at, parse_gamma, parse_vbyte};
use crate::disk::laws::{
    sealed, lemma_holds_at_split, lemma_gamma_roundtrip, lemma_vbyte_roundtrip,
    lemma_sealed_views,
};

verus! {

/// The values in order, each as a γ code.
pub open spec fn gamma_list_bits(v: Seq<u32>) -> Seq<bool>
    decreases v.len(),
{
    if v.len() == 0 {
        Seq::empty()
    } else {
        gamma_bits(v[0] as nat) + gamma_list_bits(v.drop_first())
    }
}

/// The lengths as stored: count, then values.
pub open spec fn lengths_bits(v: Seq<u32>) -> Seq<bool> {
    vbyte_bits(v.len()) + gamma_list_bits(v)
}

/// What the format can hold: fewer lengths than the largest `u32`, each
/// below it.
pub open spec fn lengths_storable(v: Seq<u32>) -> bool {
    v.len() < u32::MAX && forall|i: int| 0 <= i < v.len() ==> #[trigger] v[i] < u32::MAX
}

/// Reading `k` γ-coded values at `pos`.
pub open spec fn parse_gamma_list(s: Seq<bool>, pos: nat, k: nat) -> Result<
    (Seq<u32>, nat),
    CodecError,
>
    decreases k,
{
    if k == 0 {
        Ok((Seq::empty(), pos))
    } else {
        match parse_gamma(s, pos) {
            Err(e) => Err(e),
            Ok((x, p)) => match parse_gamma_list(s, p, (k - 1) as nat) {
                Err(e) => Err(e),
                Ok((tail, q)) => Ok((seq![x] + tail, q)),
            },
        }
    }
}

/// Reading the lengths at `pos`.
pub open spec fn parse_lengths(s: Seq<bool>, pos: nat) -> Result<(Seq<u32>, nat), CodecError> {
    match parse_vbyte(s, pos) {
        Err(e) => Err(e),
        Ok((k, p)) => parse_gamma_list(s, p, k as nat),
    }
}

pub proof fn lemma_gamma_list_bits_push(v: Seq<u32>, x: u32)
    ensures
        gamma_list_bits(v.push(x)) == gamma_list_bits(v) + gamma_bits(x as nat),
    decreases v.len(),
{
    if v.len() == 0 {
        assert(v.push(x).drop_first() =~= Seq::empty());
        assert(gamma_list_bits(v.push(x).drop_first()) =~= Seq::empty());
        assert(gamma_list_bits(v.push(x)) =~= gamma_bits(x as nat));
        assert(gamma_list_bits(v) + gamma_bits(x as nat) =~= gamma_bits(x as nat));
    } else {
        let tail = v.drop_first();
        lemma_gamma_list_bits_push(tail, x);
        assert(v.push(x).drop_first() =~= tail.push(x));
        assert(gamma_list_bits(v.push(x)) =~= gamma_list_bits(v) + gamma_bits(x as nat));
    }
}

/// Stored values read back as themselves.
pub proof fn lemma_gamma_list_roundtrip(s: Seq<bool>, pos: nat, v: Seq<u32>)
    requires
        forall|i: int| 0 <= i < v.len() ==> #[trigger] v[i] < u32::MAX,
        holds_at(s, pos, gamma_list_bits(v)),
        pos + gamma_list_bits(v).len() < s.len(),
    ensures
        parse_gamma_list(s, pos, v.len()) == Ok::<(Seq<u32>, nat), CodecError>(
            (v, pos + gamma_list_bits(v).len()),
        ),
    decreases v.len(),
{
    if v.len() == 0 {
        assert(v =~= Seq::empty());
    } else {
        let tail = v.drop_first();
        let a = gamma_bits(v[0] as nat);
        lemma_holds_at_split(s, pos, a, gamma_list_bits(tail));
        lemma_gamma_roundtrip(s, pos, v[0] as nat);
        assert forall|i: int| 0 <= i < tail.len() implies #[trigger] tail[i] < u32::MAX by {
            assert(tail[i] == v[i + 1]);
        }
        lemma_gamma_list_roundtrip(s, pos + a.len(), tail);
        assert(seq![v[0]] + tail =~= v);
    }
}

/// Lengths that were written read back as themselves.
pub proof fn lemma_lengths_roundtrip(v: Seq<u32>, bytes: Seq<u8>)
    requires
        lengths_storable(v),
        sealed(lengths_bits(v), bytes),
    ensures
        parse_lengths(visible(bytes, 0), 0) is Ok,
        parse_lengths(visible(bytes, 0), 0)->Ok_0.0 == v,
{
    let content = lengths_bits(v);
    let s = visible(bytes, 0);
    assert(content.subrange(0, content.len() as int) =~= content);
    lemma_sealed_views(content, bytes, 0, content);
    let head = vbyte_bits(v.len());
    lemma_holds_at_split(s, 0, head, gamma_list_bits(v));
    lemma_vbyte_roundtrip(s, 0, v.len());
    lemma_gamma_list_roundtrip(s, head.len(), v);
}

/// Values that decode are as many as asked for.
pub proof fn lemma_parsed_gamma_list_len(s: Seq<bool>, pos: nat, k: nat)
    requires
        parse_gamma_list(s, pos, k) is Ok,
    ensures
        parse_gamma_list(s, pos, k)->Ok_0.0.len() == k,
    decreases k,
{
    if k > 0 {
        let (x, p) = parse_gamma(s, pos)->Ok_0;
        lemma_parsed_gamma_list_len(s, p, (k - 1) as nat);
    }
}

/// Reads `n` γ-coded values.
pub fn read_gamma_list(reader: &mut BitsReader, n: u32) -> (r: Result<Vec<u32>, CodecError>)
    requires
        old(reader).wf(),
    ensures
        match parse_gamma_list(old(reader).stream(), old(reader).position(), n as nat) {
            Ok((v, p)) => r is Ok && r->Ok_0@ == v && final(reader).advanced(*old(reader), p),
            Err(e) => r is Err && r->Err_0 == e && final(reader).kept(*old(reader)),
        },
{
    let ghost s = reader.stream();
    let ghost at0 = reader.position();
    let mut out: Vec<u32> = Vec::new();
    let mut i: u32 = 0;
    proof {
        match parse_gamma_list(s, at0, n as nat) {
            Ok((tail, q)) => {
                assert(out@ + tail =~= tail);
            },
            Err(e) => {},
        }
    }
    while i < n
        invariant
            i <= n,
            reader.kept(*old(reader)),
            s == old(reader).stream(),
            at0 == old(reader).position(),
            out@.len() == i,
            parse_gamma_list(s, at0, n as nat) == (match parse_gamma_list(
                s,
                reader.position(),
                (n - i) as nat,
            ) {
                Ok((tail, q)) => Ok((out@ + tail, q)),
                Err(e) => Err(e),
            }),
        decreases n - i,
    {
        let x: u32 = match reader.read_gamma() {
            Ok(v) => v,
            Err(e) => {
                return Err(e);
            },
        };
        proof {
            match parse_gamma_list(s, reader.position(), (n - i - 1) as nat) {
                Ok((tail, q)) => {
                    assert(out@ + (seq![x] + tail) =~= out@.push(x) + tail);
                },
                Err(e) => {},
            }
        }
        out.push(x);
        i += 1;
    }
    proof {
        assert(out@ + Seq::<u32>::empty() =~= out@);
    }
    Ok(out)
}

/// The bytes of a file of document lengths.
pub fn write_doc_lentghts(document_lenghts: &Vec<u32>) -> (bytes: Vec<u8>)
    requires
        lengths_storable(document_lenghts@),
    ensures
        sealed(lengths_bits(document_lenghts@), bytes@),
{
    let ghost v = document_lenghts@;
    let mut writer = BitsWriter::new();
    writer.write_vbyte(document_lenghts.len() as u32);
    let mut i: usize = 0;
    proof {
        assert(v.take(0) =~= Seq::empty());
        assert(writer.bits() =~= vbyte_bits(v.len()) + gamma_list_bits(v.take(0)));
    }
    while i < document_lenghts.len()
        invariant
            i <= document_lenghts.len(),
            v == document_lenghts@,
            lengths_storable(v),
            writer.wf(),
            writer.bits() == vbyte_bits(v.len()) + gamma_list_bits(v.take(i as int)),
        decreases document_lenghts.len() - i,
    {
        proof {
            lemma_gamma_list_bits_push(v.take(i as int), v[i as int]);
            assert(v.take(i as int).push(v[i as int]) =~= v.take(i + 1));
        }
        let ghost before = writer.bits();
        writer.write_gamma(document_lenghts[i]);
        proof {
            assert(writer.bits() =~= vbyte_bits(v.len()) + gamma_list_bits(v.take(i + 1)));
        }
        i += 1;
    }
    proof {
        assert(v.take(i as int) =~= v);
    }
    writer.finish()
}

/// Reads the document lengths from the bytes of their file.
pub fn load_document_lenghts(data: Vec<u8>) -> (r: Result<Vec<u32>, CodecError>)
    ensures
        match parse_lengths(visible(data@, 0), 0) {
            Ok((v, _)) => r is Ok && r->Ok_0@ == v,
            Err(e) => r is Err && r->Err_0 == e,
        },
{
    let mut reader = match BitsReader::new(data) {
        Ok(r) => r,
        Err(e) => {
            return Err(e);
        },
    };
    let n: u32 = match reader.read_vbyte() {
        Ok(n) => n,
        Err(e) => {
            return Err(e);
        },
    };
    read_gamma_list(&mut reader, n)
}

} // verus!
