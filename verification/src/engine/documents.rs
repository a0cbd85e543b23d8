//! The documents table: path and length of every document, by document id.
//!
//! Stored as a variable-byte count, then per document the γ-coded number of
//! leading characters shared with the previous path, the rest of the path as
//! a string, and the variable-byte length.
use vstd::prelude::*;
use vstd::string::{StrSliceExecFns, StringExecFns, StringSliceAdditionalSpecFns};
use vstd::utf8::encode_utf8;
use crate::disk::bits::CodecError;
use crate::disk::bits_reader::BitsReader;
use crate::disk::bits_writer::BitsWriter;
use crate::disk::codes::{
    visible, gamma_bits, vbyte_bits, str_bits, holds_at, parse_gamma, parse_vbyte, parse_str,
};
use crate::disk::laws::{
    sealed, lemma_holds_at_split, lemma_gamma_roundtrip, lemma_vbyte_roundtrip,
    lemma_str_roundtrip, lemma_sealed_views,
};
use crate::engine::utils::{matching_prefix_len, lemma_matching_prefix_len, get_matching_prefix_len};

verus! {

/// A document of the corpus.
#[derive(Clone)]
pub struct Document {
    pub path: String,
    /// Number of tokens.
    pub length: u32,
}

impl View for Document {
    type V = (Seq<char>, u32);

    open spec fn view(&self) -> (Seq<char>, u32) {
        (self.path@, self.length)
    }
}

/// The table of all documents.
pub struct Documents {
    docs: Vec<Document>,
    length_sum: u64,
}

/// Path and length of each document.
pub open spec fn documents_view(docs: Seq<Document>) -> Seq<(Seq<char>, u32)> {
    docs.map_values(|d: Document| d@)
}

/// The sum of the documents' lengths.
pub open spec fn total_length(docs: Seq<(Seq<char>, u32)>) -> nat
    decreases docs.len(),
{
    if docs.len() == 0 {
        0
    } else {
        total_length(docs.drop_last()) + docs.last().1 as nat
    }
}

/// What the format can hold of one document.
pub open spec fn document_storable(d: (Seq<char>, u32)) -> bool {
    encode_utf8(d.0).len() < u32::MAX && d.1 < u32::MAX
}

/// What the format can hold of a table.
pub open spec fn documents_storable(docs: Seq<(Seq<char>, u32)>) -> bool {
    &&& docs.len() < u32::MAX
    &&& forall|i: int| 0 <= i < docs.len() ==> document_storable(#[trigger] docs[i])
}

/// One document, compressed against the previous path.
pub open spec fn document_bits(prev: Seq<char>, d: (Seq<char>, u32)) -> Seq<bool> {
    let p = matching_prefix_len(prev, d.0);
    gamma_bits(p) + str_bits(d.0.skip(p as int)) + vbyte_bits(d.1 as nat)
}

/// The documents in order, the first compressed against `prev`.
pub open spec fn document_list_bits(docs: Seq<(Seq<char>, u32)>, prev: Seq<char>) -> Seq<bool>
    decreases docs.len(),
{
    if docs.len() == 0 {
        Seq::empty()
    } else {
        document_bits(prev, docs[0]) + document_list_bits(docs.drop_first(), docs[0].0)
    }
}

/// The whole table.
pub open spec fn documents_bits(docs: Seq<(Seq<char>, u32)>) -> Seq<bool> {
    vbyte_bits(docs.len()) + document_list_bits(docs, Seq::empty())
}

/// Reading one document at `pos`, compressed against `prev`. A
/// shared-prefix length beyond the previous path is malformed.
pub open spec fn parse_document(s: Seq<bool>, pos: nat, prev: Seq<char>) -> Result<
    ((Seq<char>, u32), nat),
    CodecError,
> {
    match parse_gamma(s, pos) {
        Err(e) => Err(e),
        Ok((p_len, at1)) => if p_len > prev.len() {
            Err(CodecError::Malformed)
        } else {
            match parse_str(s, at1) {
                Err(e) => Err(e),
                Ok((rest, at2)) => match parse_vbyte(s, at2) {
                    Err(e) => Err(e),
                    Ok((length, at3)) => Ok(((prev.take(p_len as int) + rest, length), at3)),
                },
            }
        },
    }
}

/// Reading `k` documents at `pos`, the first one compressed against `prev`.
pub open spec fn parse_document_list(s: Seq<bool>, pos: nat, k: nat, prev: Seq<char>) -> Result<
    (Seq<(Seq<char>, u32)>, nat),
    CodecError,
>
    decreases k,
{
    if k == 0 {
        Ok((Seq::empty(), pos))
    } else {
        match parse_document(s, pos, prev) {
            Err(e) => Err(e),
            Ok((d, p)) => match parse_document_list(s, p, (k - 1) as nat, d.0) {
                Err(e) => Err(e),
                Ok((tail, q)) => Ok((seq![d] + tail, q)),
            },
        }
    }
}

/// Reading a whole table at `pos`.
pub open spec fn parse_documents(s: Seq<bool>, pos: nat) -> Result<
    (Seq<(Seq<char>, u32)>, nat),
    CodecError,
> {
    match parse_vbyte(s, pos) {
        Err(e) => Err(e),
        Ok((k, p)) => parse_document_list(s, p, k as nat, Seq::empty()),
    }
}

/// The path that document `i` is compressed against.
pub open spec fn previous_path(docs: Seq<(Seq<char>, u32)>, i: int) -> Seq<char> {
    if i > 0 {
        docs[i - 1].0
    } else {
        Seq::empty()
    }
}

pub proof fn lemma_document_list_bits_push(
    docs: Seq<(Seq<char>, u32)>,
    prev: Seq<char>,
    d: (Seq<char>, u32),
)
    ensures
        document_list_bits(docs.push(d), prev) == document_list_bits(docs, prev) + document_bits(
            if docs.len() > 0 {
                docs.last().0
            } else {
                prev
            },
            d,
        ),
    decreases docs.len(),
{
    if docs.len() == 0 {
        assert(docs.push(d).drop_first() =~= Seq::empty());
        assert(document_list_bits(docs.push(d).drop_first(), d.0) =~= Seq::empty());
        assert(document_list_bits(docs.push(d), prev) =~= document_bits(prev, d));
        assert(document_list_bits(docs, prev) + document_bits(prev, d) =~= document_bits(prev, d));
    } else {
        let tail = docs.drop_first();
        lemma_document_list_bits_push(tail, docs[0].0, d);
        assert(docs.push(d).drop_first() =~= tail.push(d));
        if tail.len() > 0 {
            assert(tail.last() == docs.last());
        }
        assert(document_list_bits(docs.push(d), prev) =~= document_list_bits(docs, prev)
            + document_bits(docs.last().0, d));
    }
}

/// The UTF-8 encoding of the tail of a string is no longer than that of the
/// whole string.
pub proof fn lemma_encoded_skip_len(chars: Seq<char>, n: nat)
    requires
        n <= chars.len(),
    ensures
        encode_utf8(chars.skip(n as int)).len() <= encode_utf8(chars).len(),
    decreases n,
{
    if n == 0 {
        assert(chars.skip(0) =~= chars);
    } else {
        lemma_encoded_skip_len(chars.drop_first(), (n - 1) as nat);
        assert(chars.drop_first().skip(n - 1) =~= chars.skip(n as int));
    }
}

/// A stored list of documents reads back as itself.
pub proof fn lemma_document_list_roundtrip(
    s: Seq<bool>,
    pos: nat,
    docs: Seq<(Seq<char>, u32)>,
    prev: Seq<char>,
)
    requires
        forall|i: int| 0 <= i < docs.len() ==> document_storable(#[trigger] docs[i]),
        encode_utf8(prev).len() < u32::MAX,
        holds_at(s, pos, document_list_bits(docs, prev)),
        pos + document_list_bits(docs, prev).len() < s.len(),
    ensures
        parse_document_list(s, pos, docs.len(), prev) == Ok::<
            (Seq<(Seq<char>, u32)>, nat),
            CodecError,
        >((docs, pos + document_list_bits(docs, prev).len())),
    decreases docs.len(),
{
    if docs.len() == 0 {
        assert(docs =~= Seq::empty());
    } else {
        let d = docs[0];
        let tail = docs.drop_first();
        let p = matching_prefix_len(prev, d.0);
        let rest = d.0.skip(p as int);
        lemma_matching_prefix_len(prev, d.0);
        let a = gamma_bits(p);
        let b = str_bits(rest);
        let c = vbyte_bits(d.1 as nat);
        let t = document_list_bits(tail, d.0);
        assert(document_storable(d));
        lemma_holds_at_split(s, pos, a + b + c, t);
        lemma_holds_at_split(s, pos, a + b, c);
        lemma_holds_at_split(s, pos, a, b);
        lemma_chars_le_bytes(prev);
        lemma_gamma_roundtrip(s, pos, p);
        lemma_encoded_skip_len(d.0, p);
        lemma_str_roundtrip(s, pos + a.len(), rest);
        lemma_vbyte_roundtrip(s, pos + a.len() + b.len(), d.1 as nat);
        assert(prev.take(p as int) + rest =~= d.0) by {
            assert(prev.take(p as int) == d.0.take(p as int));
        }
        assert forall|i: int| 0 <= i < tail.len() implies document_storable(#[trigger] tail[i]) by {
            assert(tail[i] == docs[i + 1]);
        }
        lemma_document_list_roundtrip(s, pos + a.len() + b.len() + c.len(), tail, d.0);
        assert(seq![d] + tail =~= docs);
    }
}

/// A string has at most as many characters as bytes.
pub proof fn lemma_chars_le_bytes(chars: Seq<char>)
    ensures
        chars.len() <= encode_utf8(chars).len(),
    decreases chars.len(),
{
    if chars.len() > 0 {
        lemma_chars_le_bytes(chars.drop_first());
        assert(vstd::utf8::encode_scalar(chars[0] as u32).len() >= 1);
    }
}

/// A table that was written reads back as itself.
pub proof fn lemma_documents_roundtrip(docs: Seq<(Seq<char>, u32)>, bytes: Seq<u8>)
    requires
        documents_storable(docs),
        sealed(documents_bits(docs), bytes),
    ensures
        parse_documents(visible(bytes, 0), 0) is Ok,
        parse_documents(visible(bytes, 0), 0)->Ok_0.0 == docs,
{
    let content = documents_bits(docs);
    let s = visible(bytes, 0);
    assert(content.subrange(0, content.len() as int) =~= content);
    lemma_sealed_views(content, bytes, 0, content);
    let head = vbyte_bits(docs.len());
    lemma_holds_at_split(s, 0, head, document_list_bits(docs, Seq::empty()));
    lemma_vbyte_roundtrip(s, 0, docs.len());
    lemma_document_list_roundtrip(s, head.len(), docs, Seq::empty());
}

/// Reads one document, compressed against the path `prev`.
fn read_document(reader: &mut BitsReader, prev: &str) -> (r: Result<Document, CodecError>)
    requires
        old(reader).wf(),
    ensures
        match parse_document(old(reader).stream(), old(reader).position(), prev@) {
            Ok((d, p)) => r is Ok && r->Ok_0@ == d && final(reader).advanced(*old(reader), p),
            Err(e) => r is Err && r->Err_0 == e && final(reader).kept(*old(reader)),
        },
{
    let p_len: u32 = match reader.read_gamma() {
        Ok(v) => v,
        Err(e) => {
            return Err(e);
        },
    };
    if p_len as usize > prev.unicode_len() {
        return Err(CodecError::Malformed);
    }
    let rest: String = match reader.read_str() {
        Ok(v) => v,
        Err(e) => {
            return Err(e);
        },
    };
    let length: u32 = match reader.read_vbyte() {
        Ok(v) => v,
        Err(e) => {
            return Err(e);
        },
    };
    let prefix = prev.substring_char(0, p_len as usize);
    let mut path: String = String::from_str(prefix);
    path.append(rest.as_str());
    proof {
        assert(prev@.subrange(0, p_len as int) =~= prev@.take(p_len as int));
    }
    Ok(Document { path, length })
}

/// Reads `n` documents, the first one compressed against the empty path.
fn read_document_list(reader: &mut BitsReader, n: u32) -> (r: Result<Vec<Document>, CodecError>)
    requires
        old(reader).wf(),
    ensures
        match parse_document_list(
            old(reader).stream(),
            old(reader).position(),
            n as nat,
            Seq::empty(),
        ) {
            Ok((docs, p)) => r is Ok && documents_view(r->Ok_0@) == docs && r->Ok_0@.len() == n
                && final(reader).advanced(*old(reader), p),
            Err(e) => r is Err && r->Err_0 == e && final(reader).kept(*old(reader)),
        },
{
    let ghost s = reader.stream();
    let ghost at0 = reader.position();
    let mut prev: String = String::new();
    let mut docs: Vec<Document> = Vec::new();
    let mut i: u32 = 0;
    proof {
        assert(documents_view(docs@) =~= Seq::empty());
        match parse_document_list(s, at0, n as nat, Seq::empty()) {
            Ok((tail, q)) => {
                assert(documents_view(docs@) + tail =~= tail);
            },
            Err(e) => {},
        }
    }
    while i < n
        invariant
            i <= n,
            reader.kept(*old(reader)),
            s == old(reader).stream(),
            at0 == old(reader).position(),
            docs@.len() == i,
            prev@ == previous_path(documents_view(docs@), i as int),
            parse_document_list(s, at0, n as nat, Seq::empty()) == (match parse_document_list(
                s,
                reader.position(),
                (n - i) as nat,
                prev@,
            ) {
                Ok((tail, q)) => Ok((documents_view(docs@) + tail, q)),
                Err(e) => Err(e),
            }),
        decreases n - i,
    {
        let doc = match read_document(reader, prev.as_str()) {
            Ok(d) => d,
            Err(e) => {
                return Err(e);
            },
        };
        proof {
            let v = documents_view(docs@);
            let d = doc@;
            match parse_document_list(s, reader.position(), (n - i - 1) as nat, d.0) {
                Ok((tail, q)) => {
                    assert(v + (seq![d] + tail) =~= v.push(d) + tail);
                },
                Err(e) => {},
            }
        }
        prev = doc.path.clone();
        let ghost before = docs@;
        let ghost d = doc@;
        docs.push(doc);
        proof {
            assert(documents_view(docs@) =~= documents_view(before).push(d));
        }
        i += 1;
    }
    proof {
        assert(documents_view(docs@) + Seq::empty() =~= documents_view(docs@));
    }
    Ok(docs)
}

impl Documents {
    /// Ids are dense `u32` values, and the sum of the lengths is cached.
    #[verifier::type_invariant]
    spec fn inv(self) -> bool {
        &&& self.docs@.len() <= u32::MAX
        &&& self.length_sum == total_length(documents_view(self.docs@))
    }

    /// Path and length of each document, by id.
    pub closed spec fn view(&self) -> Seq<(Seq<char>, u32)> {
        documents_view(self.docs@)
    }

    /// A table of the given documents, or `None` if they are too many for
    /// their ids to be `u32` values.
    pub fn from_documents(docs: Vec<Document>) -> (r: Option<Documents>)
        ensures
            r is Some <==> docs@.len() <= u32::MAX,
            r matches Some(t) ==> t.view() == documents_view(docs@),
    {
        if docs.len() > u32::MAX as usize {
            return None;
        }
        let mut sum: u64 = 0;
        let mut i: usize = 0;
        while i < docs.len()
            invariant
                i <= docs.len(),
                docs@.len() <= u32::MAX,
                sum == total_length(documents_view(docs@).take(i as int)),
                sum <= i * u32::MAX,
            decreases docs.len() - i,
        {
            proof {
                let v = documents_view(docs@);
                assert(v.take(i + 1).drop_last() =~= v.take(i as int));
                assert(i * u32::MAX + u32::MAX <= u32::MAX * u32::MAX) by (nonlinear_arith)
                    requires
                        i < u32::MAX,
                ;
            }
            sum = sum + docs[i].length as u64;
            i += 1;
        }
        proof {
            let v = documents_view(docs@);
            assert(v.take(i as int) =~= v);
        }
        Some(Documents { docs, length_sum: sum })
    }

    /// Reads a table from the bytes of a documents file.
    pub fn load_documents(data: Vec<u8>) -> (r: Result<Documents, CodecError>)
        ensures
            match parse_documents(visible(data@, 0), 0) {
                Ok((docs, _)) => r is Ok && r->Ok_0.view() == docs,
                Err(e) => r is Err && r->Err_0 == e,
            },
    {
        let ghost s = visible(data@, 0);
        let mut reader = match BitsReader::new(data) {
            Ok(r) => r,
            Err(e) => {
                return Err(e);
            },
        };
        let n: u32 = match reader.read_vbyte() {
            Ok(n) => n,
            Err(e) => {
                return Err(e);
            },
        };
        let docs = match read_document_list(&mut reader, n) {
            Ok(d) => d,
            Err(e) => {
                return Err(e);
            },
        };
        match Documents::from_documents(docs) {
            Some(t) => Ok(t),
            None => Err(CodecError::Malformed),
        }
    }

    /// The bytes of a documents file for the given documents, in order.
    pub fn write_documents(documents: &Vec<Document>) -> (bytes: Vec<u8>)
        requires
            documents_storable(documents_view(documents@)),
        ensures
            sealed(documents_bits(documents_view(documents@)), bytes@),
    {
        let ghost v = documents_view(documents@);
        let mut writer = BitsWriter::new();
        writer.write_vbyte(documents.len() as u32);
        let mut i: usize = 0;
        proof {
            assert(v.take(0) =~= Seq::empty());
            assert(writer.bits() =~= vbyte_bits(v.len()) + document_list_bits(
                v.take(0),
                Seq::empty(),
            ));
        }
        while i < documents.len()
            invariant
                i <= documents.len(),
                v == documents_view(documents@),
                documents_storable(v),
                writer.wf(),
                writer.bits() == vbyte_bits(v.len()) + document_list_bits(
                    v.take(i as int),
                    Seq::empty(),
                ),
            decreases documents.len() - i,
        {
            let l = &documents[i];
            let ghost d = v[i as int];
            let ghost prev = previous_path(v, i as int);
            proof {
                assert(d == l@);
                assert(document_storable(d));
                lemma_matching_prefix_len(prev, d.0);
                lemma_chars_le_bytes(d.0);
                lemma_encoded_skip_len(d.0, matching_prefix_len(prev, d.0));
                lemma_document_list_bits_push(v.take(i as int), Seq::empty(), d);
                assert(v.take(i as int).push(d) =~= v.take(i + 1));
                if i > 0 {
                    assert(v.take(i as int).last() == v[i - 1]);
                }
            }
            let p_len: usize = if i > 0 {
                get_matching_prefix_len(documents[i - 1].path.as_str(), l.path.as_str())
            } else {
                get_matching_prefix_len("", l.path.as_str())
            };
            proof {
                if i == 0 {
                    reveal_strlit("");
                    assert(""@ =~= Seq::<char>::empty());
                }
            }
            let ghost before = writer.bits();
            writer.write_gamma(p_len as u32);
            let remaining = l.path.as_str().substring_char(p_len, l.path.as_str().unicode_len());
            proof {
                assert(remaining@ =~= d.0.skip(p_len as int));
            }
            writer.write_str(remaining);
            writer.write_vbyte(l.length);
            proof {
                assert(writer.bits() =~= before + document_bits(prev, d));
            }
            i += 1;
        }
        proof {
            assert(v.take(i as int) =~= v);
        }
        writer.finish()
    }

    /// The number of documents.
    pub fn get_num_documents(&self) -> (n: u32)
        ensures
            n == self.view().len(),
    {
        proof {
            use_type_invariant(self);
        }
        self.docs.len() as u32
    }

    /// The length, in tokens, of a document.
    pub fn get_doc_len(&self, doc_id: u32) -> (length: u32)
        requires
            doc_id < self.view().len(),
        ensures
            length == self.view()[doc_id as int].1,
    {
        self.docs[doc_id as usize].length
    }

    /// The sum of the lengths of all documents; divided by their number it
    /// is the average length.
    pub fn get_total_doc_len(&self) -> (sum: u64)
        ensures
            sum == total_length(self.view()),
    {
        proof {
            use_type_invariant(self);
        }
        self.length_sum
    }

    /// The path of a document.
    pub fn get_doc_path(&self, doc_id: u32) -> (path: String)
        requires
            doc_id < self.view().len(),
        ensures
            path@ == self.view()[doc_id as int].0,
    {
        self.docs[doc_id as usize].path.clone()
    }
}

} // verus!
