//! Posting lists and the boolean operators on lists of document ids.
use vstd::prelude::*;
use crate::disk::bits::CodecError;
use crate::disk::bits_reader::BitsReader;
use crate::disk::bits_writer::BitsWriter;
use crate::disk::codes::{
    strictly_ascending, gap_codable, visible, gamma_bits, vbyte_bits, gaps_bits,
    gap_vector_bits, holds_at, parse_gamma, parse_vbyte, parse_gap_vector,
};
use crate::engine::InMemory;
use crate::disk::laws::{
    sealed, lemma_holds_at_split, lemma_gamma_roundtrip, lemma_vbyte_roundtrip,
    lemma_gap_vector_roundtrip, lemma_sealed_views, lemma_holds_at_prefix,
};

verus! {

/// The occurrences of a term in one document.
#[derive(Default)]
pub struct Posting {
    pub document_id: u32,
    /// How often the term occurs in the document.
    pub document_frequency: u32,
    /// The token offsets at which it occurs, ascending.
    pub positions: Vec<u32>,
}

/// The postings of a term, ascending by document id.
pub type PostingsList = Vec<Posting>;

/// A list of document ids.
pub type DocumentIdsList = Vec<u32>;

impl View for Posting {
    type V = (u32, u32, Seq<u32>);

    open spec fn view(&self) -> (u32, u32, Seq<u32>) {
        (self.document_id, self.document_frequency, self.positions@)
    }
}

/// Document id, frequency and positions of each posting.
pub open spec fn postings_view(list: Seq<Posting>) -> Seq<(u32, u32, Seq<u32>)> {
    list.map_values(|p: Posting| p@)
}

/// The document ids of a list of postings.
pub open spec fn document_ids(list: Seq<(u32, u32, Seq<u32>)>) -> Seq<u32> {
    list.map_values(|p: (u32, u32, Seq<u32>)| p.0)
}

/// What holds of every posting list that was read: ascending document ids,
/// and in each posting ascending positions below the largest `u32`.
pub open spec fn ascending_postings(list: Seq<(u32, u32, Seq<u32>)>) -> bool {
    &&& strictly_ascending(document_ids(list))
    &&& forall|i: int| 0 <= i < list.len() ==> strictly_ascending((#[trigger] list[i]).2)
    &&& forall|i: int, x: int|
        0 <= i < list.len() && 0 <= x < list[i].2.len() ==> (#[trigger] list[i].2[x]) < u32::MAX
}

/// What the format can hold of a list: ascending document ids, ascending
/// positions, and no value or count as large as the largest `u32`.
pub open spec fn postings_storable(list: Seq<(u32, u32, Seq<u32>)>) -> bool {
    &&& gap_codable(document_ids(list))
    &&& forall|i: int|
        0 <= i < list.len() ==> (#[trigger] list[i]).1 < u32::MAX && gap_codable(list[i].2)
}

/// One posting: γ-coded gap to the previous document id, γ-coded
/// frequency, gap-coded positions.
pub open spec fn posting_bits(prev: nat, p: (u32, u32, Seq<u32>)) -> Seq<bool> {
    gamma_bits((p.0 - prev) as nat) + gamma_bits(p.1 as nat) + gap_vector_bits(p.2)
}

/// Postings in order, the first against document id `prev`.
pub open spec fn posting_entries_bits(list: Seq<(u32, u32, Seq<u32>)>, prev: nat) -> Seq<bool>
    decreases list.len(),
{
    if list.len() == 0 {
        Seq::empty()
    } else {
        posting_bits(prev, list[0]) + posting_entries_bits(list.drop_first(), list[0].0 as nat)
    }
}

/// A posting list: variable-byte count, then the postings.
pub open spec fn posting_list_bits(list: Seq<(u32, u32, Seq<u32>)>) -> Seq<bool> {
    vbyte_bits(list.len()) + posting_entries_bits(list, 0)
}

/// Reading one posting at `pos`. Its document id must lie above `prev`
/// (or at it, for the first posting of a list) and within `u32`. Its
/// positions are offsets of tokens in a document whose length is a `u32`,
/// so the largest `u32` is none.
pub open spec fn parse_posting(s: Seq<bool>, pos: nat, prev: nat, first: bool) -> Result<
    ((u32, u32, Seq<u32>), nat),
    CodecError,
> {
    match parse_gamma(s, pos) {
        Err(e) => Err(e),
        Ok((gap, at1)) => if (!first && gap == 0) || prev + gap > u32::MAX {
            Err(CodecError::Malformed)
        } else {
            match parse_gamma(s, at1) {
                Err(e) => Err(e),
                Ok((freq, at2)) => match parse_gap_vector(s, at2) {
                    Err(e) => Err(e),
                    Ok((positions, at3)) => if positions.len() > 0 && positions.last()
                        == u32::MAX {
                        Err(CodecError::Malformed)
                    } else {
                        Ok((((prev + gap) as u32, freq, positions), at3))
                    },
                },
            }
        },
    }
}

/// Reading `k` postings at `pos`.
pub open spec fn parse_posting_entries(
    s: Seq<bool>,
    pos: nat,
    k: nat,
    prev: nat,
    first: bool,
) -> Result<(Seq<(u32, u32, Seq<u32>)>, nat), CodecError>
    decreases k,
{
    if k == 0 {
        Ok((Seq::empty(), pos))
    } else {
        match parse_posting(s, pos, prev, first) {
            Err(e) => Err(e),
            Ok((p, at1)) => match parse_posting_entries(
                s,
                at1,
                (k - 1) as nat,
                p.0 as nat,
                false,
            ) {
                Err(e) => Err(e),
                Ok((tail, q)) => Ok((seq![p] + tail, q)),
            },
        }
    }
}

/// Reading a posting list at `pos`.
pub open spec fn parse_posting_list(s: Seq<bool>, pos: nat) -> Result<
    (Seq<(u32, u32, Seq<u32>)>, nat),
    CodecError,
> {
    match parse_vbyte(s, pos) {
        Err(e) => Err(e),
        Ok((k, p)) => parse_posting_entries(s, p, k as nat, 0, true),
    }
}

/// Postings that decode at all have ascending document ids and ascending
/// positions.
pub proof fn lemma_parsed_postings_ascend(s: Seq<bool>, pos: nat, k: nat, prev: nat, first: bool)
    requires
        parse_posting_entries(s, pos, k, prev, first) is Ok,
    ensures
        ({
            let list = parse_posting_entries(s, pos, k, prev, first)->Ok_0.0;
            &&& list.len() == k
            &&& strictly_ascending(document_ids(list))
            &&& forall|i: int| 0 <= i < list.len() ==> strictly_ascending((#[trigger] list[i]).2)
            &&& forall|i: int, x: int|
                0 <= i < list.len() && 0 <= x < list[i].2.len() ==> (#[trigger] list[i].2[x])
                    < u32::MAX
            &&& k > 0 ==> (if first {
                list[0].0 >= prev
            } else {
                list[0].0 > prev
            })
        }),
    decreases k,
{
    if k > 0 {
        let (p, at1) = parse_posting(s, pos, prev, first)->Ok_0;
        let (gap, g1) = parse_gamma(s, pos)->Ok_0;
        let (freq, g2) = parse_gamma(s, g1)->Ok_0;
        let (cnt, g3) = parse_vbyte(s, g2)->Ok_0;
        crate::disk::laws::lemma_parse_gaps_ascending(s, g3, cnt as nat, 0, true);
        lemma_parsed_postings_ascend(s, at1, (k - 1) as nat, p.0 as nat, false);
        let tail = parse_posting_entries(s, at1, (k - 1) as nat, p.0 as nat, false)->Ok_0.0;
        let list = parse_posting_entries(s, pos, k, prev, first)->Ok_0.0;
        assert(list =~= seq![p] + tail);
        let ids = document_ids(list);
        let tids = document_ids(tail);
        assert forall|i: int, j: int| 0 <= i < j < ids.len() implies ids[i] < ids[j] by {
            if i > 0 {
                assert(ids[i] == tids[i - 1] && ids[j] == tids[j - 1]);
            } else {
                assert(ids[j] == tids[j - 1]);
                if j > 1 {
                    assert(tids[0] < tids[j - 1]);
                }
            }
        }
        assert forall|i: int| 0 <= i < list.len() implies strictly_ascending(
            (#[trigger] list[i]).2,
        ) by {
            if i > 0 {
                assert(list[i] == tail[i - 1]);
            }
        }
        assert forall|i: int, x: int|
            0 <= i < list.len() && 0 <= x < list[i].2.len() implies (#[trigger] list[i].2[x])
            < u32::MAX by {
            if i > 0 {
                assert(list[i] == tail[i - 1]);
                assert(tail[i - 1].2[x] < u32::MAX);
            } else {
                let v = p.2;
                assert(list[0] == p);
                assert(v[v.len() - 1] != u32::MAX);
                if x < v.len() - 1 {
                    assert(v[x] < v[v.len() - 1]);
                }
            }
        }
    }
}

/// A stored run of postings reads back as itself.
pub proof fn lemma_posting_entries_roundtrip(
    s: Seq<bool>,
    pos: nat,
    list: Seq<(u32, u32, Seq<u32>)>,
    prev: nat,
    first: bool,
)
    requires
        postings_storable(list),
        list.len() > 0 ==> (if first {
            list[0].0 >= prev
        } else {
            list[0].0 > prev
        }),
        holds_at(s, pos, posting_entries_bits(list, prev)),
        pos + posting_entries_bits(list, prev).len() < s.len(),
    ensures
        parse_posting_entries(s, pos, list.len(), prev, first) == Ok::<
            (Seq<(u32, u32, Seq<u32>)>, nat),
            CodecError,
        >((list, pos + posting_entries_bits(list, prev).len())),
    decreases list.len(),
{
    if list.len() == 0 {
        assert(list =~= Seq::empty());
    } else {
        let p = list[0];
        let tail = list.drop_first();
        let a = gamma_bits((p.0 - prev) as nat);
        let b = gamma_bits(p.1 as nat);
        let c = gap_vector_bits(p.2);
        let t = posting_entries_bits(tail, p.0 as nat);
        let ids = document_ids(list);
        assert(ids[0] == p.0);
        lemma_holds_at_split(s, pos, a + b + c, t);
        lemma_holds_at_split(s, pos, a + b, c);
        lemma_holds_at_split(s, pos, a, b);
        lemma_gamma_roundtrip(s, pos, (p.0 - prev) as nat);
        lemma_gamma_roundtrip(s, pos + a.len(), p.1 as nat);
        lemma_gap_vector_roundtrip(s, pos + a.len() + b.len(), p.2);
        assert(postings_storable(tail)) by {
            let tids = document_ids(tail);
            assert forall|i: int, j: int| 0 <= i < j < tids.len() implies tids[i] < tids[j] by {
                assert(tids[i] == ids[i + 1] && tids[j] == ids[j + 1]);
            }
            assert forall|i: int| 0 <= i < tids.len() implies tids[i] < u32::MAX by {
                assert(tids[i] == ids[i + 1]);
            }
            assert forall|i: int| 0 <= i < tail.len() implies (#[trigger] tail[i]).1 < u32::MAX
                && gap_codable(tail[i].2) by {
                assert(tail[i] == list[i + 1]);
            }
        }
        if tail.len() > 0 {
            assert(ids[1] == tail[0].0);
        }
        lemma_posting_entries_roundtrip(s, pos + a.len() + b.len() + c.len(), tail, p.0 as nat, false);
        assert(seq![p] + tail =~= list);
    }
}

/// A stored posting list reads back as itself.
pub proof fn lemma_posting_list_roundtrip(s: Seq<bool>, pos: nat, list: Seq<(u32, u32, Seq<u32>)>)
    requires
        postings_storable(list),
        holds_at(s, pos, posting_list_bits(list)),
        pos + posting_list_bits(list).len() < s.len(),
    ensures
        parse_posting_list(s, pos) == Ok::<(Seq<(u32, u32, Seq<u32>)>, nat), CodecError>(
            (list, pos + posting_list_bits(list).len()),
        ),
{
    let head = vbyte_bits(list.len());
    assert(document_ids(list).len() == list.len());
    lemma_holds_at_split(s, pos, head, posting_entries_bits(list, 0));
    lemma_vbyte_roundtrip(s, pos, list.len());
    lemma_posting_entries_roundtrip(s, pos + head.len(), list, 0, true);
}

pub proof fn lemma_posting_entries_bits_push(
    list: Seq<(u32, u32, Seq<u32>)>,
    prev: nat,
    p: (u32, u32, Seq<u32>),
)
    ensures
        posting_entries_bits(list.push(p), prev) == posting_entries_bits(list, prev) + posting_bits(
            if list.len() > 0 {
                list.last().0 as nat
            } else {
                prev
            },
            p,
        ),
    decreases list.len(),
{
    if list.len() == 0 {
        assert(list.push(p).drop_first() =~= Seq::empty());
        assert(posting_entries_bits(list.push(p).drop_first(), p.0 as nat) =~= Seq::empty());
        assert(posting_entries_bits(list.push(p), prev) =~= posting_bits(prev, p));
        assert(posting_entries_bits(list, prev) + posting_bits(prev, p) =~= posting_bits(prev, p));
    } else {
        let tail = list.drop_first();
        lemma_posting_entries_bits_push(tail, list[0].0 as nat, p);
        assert(list.push(p).drop_first() =~= tail.push(p));
        if tail.len() > 0 {
            assert(tail.last() == list.last());
        }
        assert(posting_entries_bits(list.push(p), prev) =~= posting_entries_bits(list, prev)
            + posting_bits(list.last().0 as nat, p));
    }
}

pub proof fn lemma_gaps_bits_push(v: Seq<u32>, prev: nat, x: u32)
    ensures
        gaps_bits(v.push(x), prev) == gaps_bits(v, prev) + gamma_bits(
            (x - (if v.len() > 0 {
                v.last() as nat
            } else {
                prev
            })) as nat,
        ),
    decreases v.len(),
{
    if v.len() == 0 {
        assert(v.push(x).drop_first() =~= Seq::empty());
        assert(gaps_bits(v.push(x).drop_first(), x as nat) =~= Seq::empty());
        assert(gaps_bits(v.push(x), prev) =~= gamma_bits((x - prev) as nat));
        assert(gaps_bits(v, prev) + gamma_bits((x - prev) as nat) =~= gamma_bits(
            (x - prev) as nat,
        ));
    } else {
        let tail = v.drop_first();
        lemma_gaps_bits_push(tail, v[0] as nat, x);
        assert(v.push(x).drop_first() =~= tail.push(x));
        if tail.len() > 0 {
            assert(tail.last() == v.last());
        }
        assert(gaps_bits(v.push(x), prev) =~= gaps_bits(v, prev) + gamma_bits(
            (x - v.last()) as nat,
        ));
    }
}

/// Appends a gap-coded vector; returns the number of bits written.
pub fn write_gap_vector(writer: &mut BitsWriter, v: &Vec<u32>) -> (len: u64)
    requires
        old(writer).wf(),
        gap_codable(v@),
    ensures
        final(writer).wf(),
        final(writer).bits() == old(writer).bits() + gap_vector_bits(v@),
        len == gap_vector_bits(v@).len(),
        len <= 40 + 63 * v@.len(),
{
    let ghost base = writer.bits();
    let mut total: u64 = writer.write_vbyte(v.len() as u32);
    let mut prev: u32 = 0;
    let mut i: usize = 0;
    proof {
        assert(v@.take(0) =~= Seq::empty());
        assert(writer.bits() =~= base + vbyte_bits(v@.len()) + gaps_bits(v@.take(0), 0));
    }
    while i < v.len()
        invariant
            i <= v.len(),
            gap_codable(v@),
            writer.wf(),
            prev == (if i > 0 {
                v@[i - 1]
            } else {
                0
            }),
            writer.bits() == base + vbyte_bits(v@.len()) + gaps_bits(v@.take(i as int), 0),
            total == vbyte_bits(v@.len()).len() + gaps_bits(v@.take(i as int), 0).len(),
            total <= 40 + 63 * i,
        decreases v.len() - i,
    {
        let x: u32 = v[i];
        proof {
            lemma_gaps_bits_push(v@.take(i as int), 0, x);
            assert(v@.take(i as int).push(x) =~= v@.take(i + 1));
            if i > 0 {
                assert(v@.take(i as int).last() == v@[i - 1]);
                assert(v@[i - 1] < v@[i as int]);
            }
        }
        let ghost before = writer.bits();
        let l: u64 = writer.write_gamma(x - prev);
        proof {
            assert(writer.bits() =~= base + vbyte_bits(v@.len()) + gaps_bits(v@.take(i + 1), 0));
        }
        total = total + l;
        prev = x;
        i += 1;
    }
    proof {
        assert(v@.take(i as int) =~= v@);
        assert(base + vbyte_bits(v@.len()) + gaps_bits(v@, 0) =~= base + gap_vector_bits(v@));
    }
    total
}

/// Appends a posting list; returns the number of bits written, or `None`
/// (with the writer in an unspecified state) if they are too many to count.
pub fn write_posting_list(writer: &mut BitsWriter, list: &Vec<Posting>) -> (len: Option<u64>)
    requires
        old(writer).wf(),
        postings_storable(postings_view(list@)),
    ensures
        final(writer).wf(),
        len is Some <==> posting_list_bits(postings_view(list@)).len() <= u64::MAX,
        len matches Some(n) ==> n == posting_list_bits(postings_view(list@)).len()
            && final(writer).bits() == old(writer).bits() + posting_list_bits(
            postings_view(list@),
        ),
{
    let ghost base = writer.bits();
    let ghost v = postings_view(list@);
    let mut total: u64 = writer.write_vbyte(list.len() as u32);
    let mut prev_doc_id: u32 = 0;
    let mut i: usize = 0;
    proof {
        assert(document_ids(v).len() == v.len());
        assert(v.take(0) =~= Seq::empty());
        assert(writer.bits() =~= base + vbyte_bits(v.len()) + posting_entries_bits(v.take(0), 0));
    }
    while i < list.len()
        invariant
            i <= list.len(),
            v == postings_view(list@),
            postings_storable(v),
            writer.wf(),
            prev_doc_id == (if i > 0 {
                v[i - 1].0
            } else {
                0
            }),
            writer.bits() == base + vbyte_bits(v.len()) + posting_entries_bits(v.take(i as int), 0),
            total == vbyte_bits(v.len()).len() + posting_entries_bits(v.take(i as int), 0).len(),
        decreases list.len() - i,
    {
        let entry = &list[i];
        let ghost p = v[i as int];
        proof {
            assert(p == entry@);
            lemma_posting_entries_bits_push(v.take(i as int), 0, p);
            assert(v.take(i as int).push(p) =~= v.take(i + 1));
            let ids = document_ids(v);
            assert(ids[i as int] == p.0);
            if i > 0 {
                assert(v.take(i as int).last() == v[i - 1]);
                assert(ids[i - 1] == v[i - 1].0);
                assert(ids[i - 1] < ids[i as int]);
            }
            lemma_posting_bits_grow(v, i as int);
        }
        let ghost before = writer.bits();
        let a: u64 = writer.write_gamma(entry.document_id - prev_doc_id);
        let b: u64 = writer.write_gamma(entry.document_frequency);
        let c: u64 = write_gap_vector(writer, &entry.positions);
        proof {
            assert(writer.bits() =~= before + posting_bits(prev_doc_id as nat, p));
        }
        let added: u64 = a + b + c;
        if added > u64::MAX - total {
            return None;
        }
        total = total + added;
        prev_doc_id = entry.document_id;
        i += 1;
    }
    proof {
        assert(v.take(i as int) =~= v);
        assert(base + vbyte_bits(v.len()) + posting_entries_bits(v, 0) =~= base + posting_list_bits(
            v,
        ));
    }
    Some(total)
}

/// The stored size of a list grows with every posting.
pub proof fn lemma_posting_bits_grow(v: Seq<(u32, u32, Seq<u32>)>, i: int)
    requires
        0 <= i < v.len(),
    ensures
        posting_entries_bits(v.take(i + 1), 0).len() <= posting_entries_bits(v, 0).len(),
    decreases v.len() - i,
{
    if i + 1 < v.len() {
        lemma_posting_bits_grow(v, i + 1);
        lemma_posting_entries_bits_push(v.take(i + 1), 0, v[i + 1]);
        assert(v.take(i + 1).push(v[i + 1]) =~= v.take(i + 2));
    } else {
        assert(v.take(i + 1) =~= v);
    }
}

/// Reads one posting.
fn read_posting(reader: &mut BitsReader, prev: u32, first: bool) -> (r: Result<Posting, CodecError>)
    requires
        old(reader).wf(),
    ensures
        match parse_posting(old(reader).stream(), old(reader).position(), prev as nat, first) {
            Ok((p, q)) => r is Ok && r->Ok_0@ == p && final(reader).advanced(*old(reader), q),
            Err(e) => r is Err && r->Err_0 == e && final(reader).kept(*old(reader)),
        },
{
    let doc_id_delta: u32 = match reader.read_gamma() {
        Ok(v) => v,
        Err(e) => {
            return Err(e);
        },
    };
    if (!first && doc_id_delta == 0) || doc_id_delta > u32::MAX - prev {
        return Err(CodecError::Malformed);
    }
    let document_frequency: u32 = match reader.read_gamma() {
        Ok(v) => v,
        Err(e) => {
            return Err(e);
        },
    };
    let positions = match reader.read_vbyte_gamma_gap_vector() {
        Ok(v) => v,
        Err(e) => {
            return Err(e);
        },
    };
    if positions.len() > 0 && positions[positions.len() - 1] == u32::MAX {
        return Err(CodecError::Malformed);
    }
    Ok(Posting { document_id: prev + doc_id_delta, document_frequency, positions })
}

/// Reads a posting list at the cursor.
pub fn read_posting_list(reader: &mut BitsReader) -> (r: Result<PostingsList, CodecError>)
    requires
        old(reader).wf(),
    ensures
        match parse_posting_list(old(reader).stream(), old(reader).position()) {
            Ok((list, q)) => r is Ok && postings_view(r->Ok_0@) == list && final(reader).advanced(
                *old(reader),
                q,
            ),
            Err(e) => r is Err && r->Err_0 == e && final(reader).kept(*old(reader)),
        },
{
    let ghost s = reader.stream();
    let n: u32 = match reader.read_vbyte() {
        Ok(v) => v,
        Err(e) => {
            return Err(e);
        },
    };
    let ghost at0 = reader.position();
    let mut list: Vec<Posting> = Vec::new();
    let mut document_id: u32 = 0;
    let mut i: u32 = 0;
    proof {
        assert(postings_view(list@) =~= Seq::empty());
        match parse_posting_entries(s, at0, n as nat, 0, true) {
            Ok((tail, q)) => {
                assert(postings_view(list@) + tail =~= tail);
            },
            Err(e) => {},
        }
    }
    while i < n
        invariant
            i <= n,
            reader.kept(*old(reader)),
            s == old(reader).stream(),
            parse_vbyte(s, old(reader).position()) == Ok::<(u32, nat), CodecError>((n, at0)),
            list@.len() == i,
            parse_posting_entries(s, at0, n as nat, 0, true) == (match parse_posting_entries(
                s,
                reader.position(),
                (n - i) as nat,
                document_id as nat,
                i == 0,
            ) {
                Ok((tail, q)) => Ok((postings_view(list@) + tail, q)),
                Err(e) => Err(e),
            }),
        decreases n - i,
    {
        let posting = match read_posting(reader, document_id, i == 0) {
            Ok(p) => p,
            Err(e) => {
                return Err(e);
            },
        };
        proof {
            let v = postings_view(list@);
            let p = posting@;
            match parse_posting_entries(s, reader.position(), (n - i - 1) as nat, p.0 as nat, false) {
                Ok((tail, q)) => {
                    assert(v + (seq![p] + tail) =~= v.push(p) + tail);
                },
                Err(e) => {},
            }
        }
        document_id = posting.document_id;
        let ghost before = list@;
        let ghost p = posting@;
        list.push(posting);
        proof {
            assert(postings_view(list@) =~= postings_view(before).push(p));
        }
        i += 1;
    }
    proof {
        assert(postings_view(list@) + Seq::empty() =~= postings_view(list@));
    }
    Ok(list)
}

// ---------------------------------------------------------------------------
// The postings of a whole index: the stream of lists and its offset table.
// ---------------------------------------------------------------------------

/// The posting list of retained term `k` of an index, as stored.
#[verifier::opaque]
pub open spec fn stored_list(index: InMemory, k: int) -> Seq<bool> {
    posting_list_bits(index.term_postings(k))
}

/// The posting lists of the first `n` retained terms, one after the other.
pub open spec fn postings_stream(index: InMemory, n: nat) -> Seq<bool>
    decreases n,
{
    if n == 0 {
        Seq::empty()
    } else {
        postings_stream(index, (n - 1) as nat) + stored_list(index, n - 1)
    }
}

/// The bit offset of the posting list of term `i`.
pub open spec fn list_offset(index: InMemory, i: nat) -> nat {
    postings_stream(index, i).len()
}

/// The γ-coded gaps between the offsets of the first `n` lists.
pub open spec fn offset_gaps_bits(index: InMemory, n: nat) -> Seq<bool>
    decreases n,
{
    if n == 0 {
        Seq::empty()
    } else if n == 1 {
        gamma_bits(0)
    } else {
        offset_gaps_bits(index, (n - 1) as nat) + gamma_bits(stored_list(index, n - 2).len())
    }
}

/// The offset table: variable-byte count, then the gaps.
pub open spec fn offsets_stream(index: InMemory) -> Seq<bool> {
    vbyte_bits(index.terms@.len()) + offset_gaps_bits(index, index.terms@.len())
}

/// The offset table can hold the index: every gap between the offsets of
/// two lists is below the largest `u32`, and the size of every list can be
/// counted.
pub open spec fn offsets_storable(index: InMemory) -> bool {
    forall|i: int|
        0 <= i < index.terms@.len() ==> (#[trigger] stored_list(index, i)).len() <= u64::MAX && (i
            + 1 < index.terms@.len() ==> stored_list(index, i).len() < u32::MAX)
}

/// Reading `k` γ-coded gaps at `pos` and summing them up from `acc`.
pub open spec fn parse_offset_list(s: Seq<bool>, pos: nat, k: nat, acc: nat) -> Result<
    (Seq<u64>, nat),
    CodecError,
>
    decreases k,
{
    if k == 0 {
        Ok((Seq::empty(), pos))
    } else {
        match parse_gamma(s, pos) {
            Err(e) => Err(e),
            Ok((gap, p)) => match parse_offset_list(s, p, (k - 1) as nat, acc + (gap as nat)) {
                Err(e) => Err(e),
                Ok((tail, q)) => Ok((seq![(acc + gap) as u64] + tail, q)),
            },
        }
    }
}

/// Reading an offset table at `pos`.
pub open spec fn parse_offsets(s: Seq<bool>, pos: nat) -> Result<(Seq<u64>, nat), CodecError> {
    match parse_vbyte(s, pos) {
        Err(e) => Err(e),
        Ok((k, p)) => parse_offset_list(s, p, k as nat, 0),
    }
}

/// What reading the posting list at bit `offset` of `source` gives: the
/// reader is framed anew at the byte that holds the offset.
pub open spec fn parse_posting_list_at(source: Seq<u8>, offset: u64) -> Result<
    Seq<(u32, u32, Seq<u32>)>,
    CodecError,
> {
    if offset / 8 + 16 > source.len() {
        Err(CodecError::UnexpectedEof)
    } else {
        match parse_posting_list(visible(source, ((offset / 8) % 16) as nat), offset as nat) {
            Err(e) => Err(e),
            Ok((list, _)) => Ok(list),
        }
    }
}

/// The offset of each of the first `n` posting lists.
pub open spec fn offset_table(index: InMemory, n: nat) -> Seq<u64> {
    Seq::new(n, |i: int| list_offset(index, i as nat) as u64)
}

/// The γ-coded gaps between the offsets of the lists from `k` up to `n`.
pub open spec fn offset_gaps_from(index: InMemory, k: nat, n: nat) -> Seq<bool>
    decreases n - k,
{
    if k >= n {
        Seq::empty()
    } else {
        gamma_bits(
            if k == 0 {
                0
            } else {
                stored_list(index, k - 1).len()
            },
        ) + offset_gaps_from(index, k + 1, n)
    }
}

proof fn lemma_offset_gaps_from(index: InMemory, k: nat, n: nat)
    requires
        k <= n,
    ensures
        offset_gaps_bits(index, n) == offset_gaps_bits(index, k) + offset_gaps_from(index, k, n),
    decreases n - k,
{
    if k == n {
        assert(offset_gaps_bits(index, n) + offset_gaps_from(index, k, n) =~= offset_gaps_bits(
            index,
            n,
        ));
    } else {
        lemma_offset_gaps_from(index, k + 1, n);
        assert(offset_gaps_bits(index, k + 1) =~= offset_gaps_bits(index, k) + gamma_bits(
            if k == 0 {
                0
            } else {
                stored_list(index, k - 1).len()
            },
        ));
        assert(offset_gaps_bits(index, n) =~= offset_gaps_bits(index, k) + offset_gaps_from(
            index,
            k,
            n,
        ));
    }
}

/// The offsets of the lists are below the product of their number and the
/// largest `u32`.
pub proof fn lemma_list_offset_bound(index: InMemory, i: nat)
    requires
        offsets_storable(index),
        i < index.terms@.len(),
        index.terms@.len() < u32::MAX,
    ensures
        list_offset(index, i) <= i * (u32::MAX - 1),
        list_offset(index, i) < u64::MAX,
        i + 1 < index.terms@.len() ==> list_offset(index, i + 1) == list_offset(index, i)
            + stored_list(index, i as int).len() && stored_list(index, i as int).len() < u32::MAX,
    decreases i,
{
    if i > 0 {
        lemma_list_offset_bound(index, (i - 1) as nat);
        assert(stored_list(index, i - 1).len() < u32::MAX);
    }
    assert(i * (u32::MAX - 1) < u64::MAX) by (nonlinear_arith)
        requires
            i < u32::MAX,
    ;
    if i + 1 < index.terms@.len() {
        assert(stored_list(index, i as int).len() < u32::MAX);
    }
}

/// Stored gaps read back as the offsets of the lists.
proof fn lemma_offset_list_roundtrip(s: Seq<bool>, pos: nat, index: InMemory, k: nat, n: nat)
    requires
        offsets_storable(index),
        n == index.terms@.len(),
        n < u32::MAX,
        k <= n,
        holds_at(s, pos, offset_gaps_from(index, k, n)),
        pos + offset_gaps_from(index, k, n).len() < s.len(),
    ensures
        parse_offset_list(
            s,
            pos,
            (n - k) as nat,
            if k == 0 {
                0
            } else {
                list_offset(index, (k - 1) as nat)
            },
        ) == Ok::<(Seq<u64>, nat), CodecError>(
            (offset_table(index, n).skip(k as int), pos + offset_gaps_from(index, k, n).len()),
        ),
    decreases n - k,
{
    if k >= n {
        assert(offset_table(index, n).skip(k as int) =~= Seq::empty());
    } else {
        let gap: nat = if k == 0 {
            0
        } else {
            stored_list(index, k - 1).len()
        };
        let acc: nat = if k == 0 {
            0
        } else {
            list_offset(index, (k - 1) as nat)
        };
        lemma_list_offset_bound(index, k);
        if k > 0 {
            lemma_list_offset_bound(index, (k - 1) as nat);
        }
        assert(acc + gap == list_offset(index, k));
        let g = gamma_bits(gap);
        lemma_holds_at_split(s, pos, g, offset_gaps_from(index, k + 1, n));
        lemma_gamma_roundtrip(s, pos, gap);
        lemma_offset_list_roundtrip(s, pos + g.len(), index, k + 1, n);
        let all = offset_table(index, n);
        assert(seq![all[k as int]] + all.skip((k + 1) as int) =~= all.skip(k as int));
    }
}

/// An offset table that was written reads back as the offsets of the lists.
pub proof fn lemma_offsets_roundtrip(index: InMemory, bytes: Seq<u8>)
    requires
        offsets_storable(index),
        index.terms@.len() < u32::MAX,
        sealed(offsets_stream(index), bytes),
    ensures
        parse_offsets(visible(bytes, 0), 0) is Ok,
        parse_offsets(visible(bytes, 0), 0)->Ok_0.0 == offset_table(index, index.terms@.len()),
{
    let n = index.terms@.len();
    let content = offsets_stream(index);
    let s = visible(bytes, 0);
    assert(content.subrange(0, content.len() as int) =~= content);
    lemma_sealed_views(content, bytes, 0, content);
    let head = vbyte_bits(n);
    lemma_offset_gaps_from(index, 0, n);
    assert(offset_gaps_bits(index, 0) + offset_gaps_from(index, 0, n) =~= offset_gaps_from(
        index,
        0,
        n,
    ));
    lemma_holds_at_split(s, 0, head, offset_gaps_from(index, 0, n));
    lemma_vbyte_roundtrip(s, 0, n);
    lemma_offset_list_roundtrip(s, head.len(), index, 0, n);
    assert(offset_table(index, n).skip(0) =~= offset_table(index, n));
}

/// The list of term `i` stands in the stream at its offset.
pub proof fn lemma_list_in_stream(index: InMemory, i: nat, n: nat)
    requires
        i < n,
    ensures
        holds_at(postings_stream(index, n), list_offset(index, i), stored_list(index, i as int)),
    decreases n - i,
{
    let head = postings_stream(index, i);
    let list = stored_list(index, i as int);
    if n == i + 1 {
        assert(postings_stream(index, n).subrange(head.len() as int, (head.len() + list.len()) as int)
            =~= list);
    } else {
        lemma_list_in_stream(index, i, (n - 1) as nat);
        let before = postings_stream(index, (n - 1) as nat);
        let whole = postings_stream(index, n);
        assert(whole.subrange(0, before.len() as int) =~= before);
        lemma_holds_at_prefix(before, whole, head.len(), list);
    }
}

/// Postings that were written read back as themselves: the list of each
/// term is found at its offset.
pub proof fn lemma_postings_roundtrip(index: InMemory, bytes: Seq<u8>, i: nat)
    requires
        i < index.terms@.len(),
        index.terms@.len() < u32::MAX,
        offsets_storable(index),
        postings_storable(index.term_postings(i as int)),
        sealed(postings_stream(index, index.terms@.len()), bytes),
    ensures
        parse_posting_list_at(bytes, list_offset(index, i) as u64) == Ok::<
            Seq<(u32, u32, Seq<u32>)>,
            CodecError,
        >(index.term_postings(i as int)),
{
    let n = index.terms@.len();
    let content = postings_stream(index, n);
    let offset = list_offset(index, i);
    let list = stored_list(index, i as int);
    lemma_list_offset_bound(index, i);
    lemma_list_in_stream(index, i, n);
    lemma_sealed_views(content, bytes, offset, list);
    let view = visible(bytes, (offset / 8) % 16);
    reveal(stored_list);
    lemma_posting_list_roundtrip(view, offset, index.term_postings(i as int));
    assert(offset / 8 + 16 <= bytes.len()) by {
        assert(offset <= content.len());
        assert(content.len() + 128 <= 8 * bytes.len());
    }
}

/// An offset table that decodes holds as many offsets as its count says,
/// which is a `u32`.
pub proof fn lemma_parsed_offsets_len(s: Seq<bool>, pos: nat)
    requires
        parse_offsets(s, pos) is Ok,
    ensures
        parse_offsets(s, pos)->Ok_0.0.len() <= u32::MAX,
{
    let (k, p) = parse_vbyte(s, pos)->Ok_0;
    lemma_parsed_offset_list_len(s, p, k as nat, 0);
}

pub proof fn lemma_parsed_offset_list_len(s: Seq<bool>, pos: nat, k: nat, acc: nat)
    requires
        parse_offset_list(s, pos, k, acc) is Ok,
    ensures
        parse_offset_list(s, pos, k, acc)->Ok_0.0.len() == k,
    decreases k,
{
    if k > 0 {
        let (gap, p) = parse_gamma(s, pos)->Ok_0;
        lemma_parsed_offset_list_len(s, p, (k - 1) as nat, acc + (gap as nat));
    }
}

/// Reads `n` offsets.
fn read_offset_list(reader: &mut BitsReader, n: u32) -> (r: Result<Vec<u64>, CodecError>)
    requires
        old(reader).wf(),
    ensures
        match parse_offset_list(old(reader).stream(), old(reader).position(), n as nat, 0) {
            Ok((offsets, p)) => r is Ok && r->Ok_0@ == offsets && final(reader).advanced(
                *old(reader),
                p,
            ),
            Err(e) => r is Err && r->Err_0 == e && final(reader).kept(*old(reader)),
        },
{
    let ghost s = reader.stream();
    let ghost at0 = reader.position();
    let mut offsets: Vec<u64> = Vec::new();
    let mut offset: u64 = 0;
    let mut i: u32 = 0;
    proof {
        match parse_offset_list(s, at0, n as nat, 0) {
            Ok((tail, q)) => {
                assert(offsets@ + tail =~= tail);
            },
            Err(e) => {},
        }
    }
    while i < n
        invariant
            i <= n,
            reader.kept(*old(reader)),
            s == old(reader).stream(),
            at0 == old(reader).position(),
            offsets@.len() == i,
            offset <= i * u32::MAX,
            parse_offset_list(s, at0, n as nat, 0) == (match parse_offset_list(
                s,
                reader.position(),
                (n - i) as nat,
                offset as nat,
            ) {
                Ok((tail, q)) => Ok((offsets@ + tail, q)),
                Err(e) => Err(e),
            }),
        decreases n - i,
    {
        let gap: u32 = match reader.read_gamma() {
            Ok(v) => v,
            Err(e) => {
                return Err(e);
            },
        };
        proof {
            assert(i * u32::MAX + u32::MAX <= u32::MAX * u32::MAX) by (nonlinear_arith)
                requires
                    i < u32::MAX,
            ;
            match parse_offset_list(s, reader.position(), (n - i - 1) as nat, (offset + gap) as nat) {
                Ok((tail, q)) => {
                    assert(offsets@ + (seq![(offset + gap) as u64] + tail) =~= offsets@.push(
                        (offset + gap) as u64,
                    ) + tail);
                },
                Err(e) => {},
            }
        }
        offset = offset + gap as u64;
        offsets.push(offset);
        i += 1;
    }
    proof {
        assert(offsets@ + Seq::<u64>::empty() =~= offsets@);
    }
    Ok(offsets)
}

/// Reads the offset table from the bytes of an offsets file.
pub fn load_offsets(data: Vec<u8>) -> (r: Result<Vec<u64>, CodecError>)
    ensures
        match parse_offsets(visible(data@, 0), 0) {
            Ok((table, _)) => r is Ok && r->Ok_0@ == table,
            Err(e) => r is Err && r->Err_0 == e,
        },
{
    let mut reader = match BitsReader::new(data) {
        Ok(r) => r,
        Err(e) => {
            return Err(e);
        },
    };
    let n: u32 = match reader.read_vbyte() {
        Ok(n) => n,
        Err(e) => {
            return Err(e);
        },
    };
    read_offset_list(&mut reader, n)
}

/// The postings of an index: the stream of posting lists, open for reading
/// at any offset, and the offset of the list of every term.
pub struct Postings {
    reader: BitsReader,
    offsets: Vec<u64>,
}

impl Postings {
    /// The stream is open for reading.
    pub closed spec fn wf(&self) -> bool {
        self.reader.wf()
    }

    /// The bytes of the stream of posting lists.
    pub closed spec fn source(&self) -> Seq<u8> {
        self.reader.source()
    }

    /// The bit offset of the posting list of each term, by term index.
    pub closed spec fn offsets(&self) -> Seq<u64> {
        self.offsets@
    }

    /// Opens the postings of an index, given the bytes of its postings
    /// file and of its offsets file.
    pub fn load_postings_reader(postings: Vec<u8>, offsets: Vec<u8>) -> (r: Result<
        Postings,
        CodecError,
    >)
        ensures
            match parse_offsets(visible(offsets@, 0), 0) {
                Err(e) => r is Err && r->Err_0 == e,
                Ok((table, _)) => if postings@.len() < 16 {
                    r is Err && r->Err_0 == CodecError::UnexpectedEof
                } else {
                    r is Ok && r->Ok_0.wf() && r->Ok_0.offsets() == table && r->Ok_0.source()
                        == postings@
                },
            },
    {
        let table = match load_offsets(offsets) {
            Ok(t) => t,
            Err(e) => {
                return Err(e);
            },
        };
        let reader = match BitsReader::new(postings) {
            Ok(r) => r,
            Err(e) => {
                return Err(e);
            },
        };
        Ok(Postings { reader, offsets: table })
    }

    /// The bytes of the postings file and of the offsets file of an index,
    /// or `None` if the offset table cannot hold it.
    pub fn write_postings(index: &InMemory) -> (r: Option<(Vec<u8>, Vec<u8>)>)
        requires
            index.wf(),
        ensures
            r is Some <==> offsets_storable(*index),
            r matches Some((postings, offsets)) ==> sealed(
                postings_stream(*index, index.terms@.len()),
                postings@,
            ) && sealed(offsets_stream(*index), offsets@),
    {
        let mut postings_writer = BitsWriter::new();
        let mut offsets_writer = BitsWriter::new();
        let n: usize = index.terms.len();
        offsets_writer.write_vbyte(n as u32);
        let mut gap: u64 = 0;
        let mut i: usize = 0;
        proof {
            assert(offsets_writer.bits() =~= vbyte_bits(n as nat) + offset_gaps_bits(*index, 0));
        }
        while i < n
            invariant
                i <= n,
                n == index.terms@.len(),
                n == index.term_indices@.len(),
                n < u32::MAX,
                forall|k: int|
                    0 <= k < n ==> (#[trigger] index.term_indices@[k]) < index.postings@.len(),
                forall|k: int| 0 <= k < n ==> postings_storable(#[trigger] index.term_postings(k)),
                postings_writer.wf(),
                offsets_writer.wf(),
                postings_writer.bits() == postings_stream(*index, i as nat),
                offsets_writer.bits() == vbyte_bits(n as nat) + offset_gaps_bits(*index, i as nat),
                i == 0 ==> gap == 0,
                0 < i < n ==> gap == stored_list(*index, i - 1).len(),
                gap < u32::MAX,
                forall|k: int|
                    0 <= k < i ==> (#[trigger] stored_list(*index, k)).len() <= u64::MAX && (k + 1
                        < n ==> stored_list(*index, k).len() < u32::MAX),
            decreases n - i,
        {
            let ghost before = offsets_writer.bits();
            offsets_writer.write_gamma(gap as u32);
            proof {
                assert(offset_gaps_bits(*index, (i + 1) as nat) =~= offset_gaps_bits(
                    *index,
                    i as nat,
                ) + gamma_bits(gap as nat));
                assert(offsets_writer.bits() =~= vbyte_bits(n as nat) + offset_gaps_bits(
                    *index,
                    (i + 1) as nat,
                ));
            }
            let list = &index.postings[index.term_indices[i]];
            proof {
                assert(postings_storable(index.term_postings(i as int)));
                assert(stored_list(*index, i as int) == posting_list_bits(postings_view(list@)))
                    by {
                    reveal(stored_list);
                }
            }
            let len: u64 = match write_posting_list(&mut postings_writer, list) {
                Some(len) => len,
                None => {
                    return None;
                },
            };
            if i + 1 < n && len >= u32::MAX as u64 {
                return None;
            }
            gap = if i + 1 < n {
                len
            } else {
                0
            };
            i += 1;
        }
        let postings = postings_writer.finish();
        let offsets = offsets_writer.finish();
        Some((postings, offsets))
    }

    /// The number of posting lists.
    pub fn get_num_lists(&self) -> (n: usize)
        ensures
            n == self.offsets().len(),
    {
        self.offsets.len()
    }

    /// The posting list of the term with the given index.
    pub fn load_postings_list(&mut self, index: usize) -> (r: Result<PostingsList, CodecError>)
        requires
            old(self).wf(),
            index < old(self).offsets().len(),
        ensures
            final(self).wf(),
            final(self).source() == old(self).source(),
            final(self).offsets() == old(self).offsets(),
            match parse_posting_list_at(old(self).source(), old(self).offsets()[index as int]) {
                Ok(list) => r is Ok && postings_view(r->Ok_0@) == list,
                Err(e) => r is Err && r->Err_0 == e,
            },
            r matches Ok(list) ==> ascending_postings(postings_view(list@)),
            r matches Ok(list) ==> strictly_ascending(document_ids(postings_view(list@)))
                && (forall|i: int|
                0 <= i < list@.len() ==> strictly_ascending((#[trigger] list@[i]).positions@))
                && (forall|i: int, x: int|
                0 <= i < list@.len() && 0 <= x < list@[i].positions@.len() ==> (
                #[trigger] list@[i].positions@[x]) < u32::MAX),
    {
        let offset: u64 = self.offsets[index];
        match self.reader.seek(offset) {
            Ok(()) => {},
            Err(e) => {
                return Err(e);
            },
        }
        let ghost s = self.reader.stream();
        let r = read_posting_list(&mut self.reader);
        proof {
            if r is Ok {
                let (k, p) = parse_vbyte(s, offset as nat)->Ok_0;
                lemma_parsed_postings_ascend(s, p, k as nat, 0, true);
                let list = r->Ok_0;
                let v = postings_view(list@);
                assert forall|i: int| 0 <= i < list@.len() implies strictly_ascending(
                    (#[trigger] list@[i]).positions@,
                ) by {
                    assert(v[i].2 == list@[i].positions@);
                }
                assert forall|i: int, x: int|
                    0 <= i < list@.len() && 0 <= x < list@[i].positions@.len() implies (
                #[trigger] list@[i].positions@[x]) < u32::MAX by {
                    assert(v[i].2 == list@[i].positions@);
                    assert(v[i].2[x] < u32::MAX);
                }
            }
        }
        r
    }

    /// The ids of the documents that hold the term with the given index,
    /// ascending.
    pub fn load_doc_ids_list(&mut self, index: usize) -> (r: Result<DocumentIdsList, CodecError>)
        requires
            old(self).wf(),
            index < old(self).offsets().len(),
        ensures
            final(self).wf(),
            final(self).source() == old(self).source(),
            final(self).offsets() == old(self).offsets(),
            match parse_posting_list_at(old(self).source(), old(self).offsets()[index as int]) {
                Ok(list) => r is Ok && r->Ok_0@ == document_ids(list),
                Err(e) => r is Err && r->Err_0 == e,
            },
            r matches Ok(ids) ==> strictly_ascending(ids@),
    {
        let list = match self.load_postings_list(index) {
            Ok(l) => l,
            Err(e) => {
                return Err(e);
            },
        };
        let mut ids: Vec<u32> = Vec::new();
        let mut i: usize = 0;
        while i < list.len()
            invariant
                i <= list.len(),
                ids@ == document_ids(postings_view(list@)).take(i as int),
            decreases list.len() - i,
        {
            proof {
                let all = document_ids(postings_view(list@));
                assert(all.take(i + 1) =~= all.take(i as int).push(list@[i as int].document_id));
            }
            ids.push(list[i].document_id);
            i += 1;
        }
        proof {
            let all = document_ids(postings_view(list@));
            assert(all.take(i as int) =~= all);
        }
        Ok(ids)
    }
}

/// `r` is the ascending list of the ids found in both `a` and `b`.
pub open spec fn is_intersection(a: Seq<u32>, b: Seq<u32>, r: Seq<u32>) -> bool {
    &&& strictly_ascending(r)
    &&& forall|x: u32| r.contains(x) <==> (a.contains(x) && b.contains(x))
}

/// `r` is the ascending list of the ids found in `a` or in `b`.
pub open spec fn is_union(a: Seq<u32>, b: Seq<u32>, r: Seq<u32>) -> bool {
    &&& strictly_ascending(r)
    &&& forall|x: u32| r.contains(x) <==> (a.contains(x) || b.contains(x))
}

/// `r` is the ascending list of the ids below `n` that `a` lacks.
pub open spec fn is_complement(a: Seq<u32>, n: u32, r: Seq<u32>) -> bool {
    &&& strictly_ascending(r)
    &&& forall|x: u32| r.contains(x) <==> (x < n && !a.contains(x))
}

/// Ascending lists with the same elements are the same list.
pub proof fn lemma_ascending_unique(a: Seq<u32>, b: Seq<u32>)
    requires
        strictly_ascending(a),
        strictly_ascending(b),
        forall|x: u32| a.contains(x) <==> b.contains(x),
    ensures
        a == b,
    decreases a.len(),
{
    if a.len() == 0 {
        if b.len() > 0 {
            assert(b.contains(b[0]));
        }
        assert(a =~= b);
    } else {
        assert(a.contains(a[0]));
        let k = choose|k: int| 0 <= k < b.len() && b[k] == a[0];
        assert(b.contains(b[0]));
        let m = choose|m: int| 0 <= m < a.len() && a[m] == b[0];
        assert(k == 0);
        let ta = a.drop_first();
        let tb = b.drop_first();
        assert forall|x: u32| ta.contains(x) <==> tb.contains(x) by {
            if ta.contains(x) {
                let i = choose|i: int| 0 <= i < ta.len() && ta[i] == x;
                assert(a[i + 1] == x);
                assert(a.contains(x));
                let j = choose|j: int| 0 <= j < b.len() && b[j] == x;
                assert(j != 0);
                assert(tb[j - 1] == x);
            }
            if tb.contains(x) {
                let i = choose|i: int| 0 <= i < tb.len() && tb[i] == x;
                assert(b[i + 1] == x);
                assert(b.contains(x));
                let j = choose|j: int| 0 <= j < a.len() && a[j] == x;
                assert(j != 0);
                assert(ta[j - 1] == x);
            }
        }
        assert(strictly_ascending(ta)) by {
            assert forall|i: int, j: int| 0 <= i < j < ta.len() implies ta[i] < ta[j] by {
                assert(ta[i] == a[i + 1] && ta[j] == a[j + 1]);
            }
        }
        assert(strictly_ascending(tb)) by {
            assert forall|i: int, j: int| 0 <= i < j < tb.len() implies tb[i] < tb[j] by {
                assert(tb[i] == b[i + 1] && tb[j] == b[j + 1]);
            }
        }
        lemma_ascending_unique(ta, tb);
        assert(a =~= seq![a[0]] + ta);
        assert(b =~= seq![b[0]] + tb);
    }
}

impl Postings {
    /// The ids found in both lists: a linear merge that keeps what is equal.
    pub fn and_operator(at1: DocumentIdsList, at2: DocumentIdsList) -> (result: DocumentIdsList)
        requires
            strictly_ascending(at1@),
            strictly_ascending(at2@),
        ensures
            is_intersection(at1@, at2@, result@),
    {
        let mut result: Vec<u32> = Vec::new();
        let mut i: usize = 0;
        let mut j: usize = 0;
        while i < at1.len() && j < at2.len()
            invariant
                i <= at1.len(),
                j <= at2.len(),
                strictly_ascending(at1@),
                strictly_ascending(at2@),
                strictly_ascending(result@),
                forall|k: int| 0 <= k < result@.len() ==> at1@.contains(#[trigger] result@[k])
                    && at2@.contains(result@[k]),
                forall|k: int|
                    0 <= k < result@.len() ==> (i < at1@.len() ==> #[trigger] result@[k] < at1@[i as int])
                        && (j < at2@.len() ==> result@[k] < at2@[j as int]),
                forall|a: int, b: int|
                    0 <= a < i && 0 <= b < at2@.len() && #[trigger] at1@[a] == #[trigger] at2@[b]
                        ==> result@.contains(at1@[a]),
                forall|a: int, b: int|
                    0 <= a < at1@.len() && 0 <= b < j && #[trigger] at1@[a] == #[trigger] at2@[b]
                        ==> result@.contains(at1@[a]),
            decreases at1.len() - i + at2.len() - j,
        {
            let v1: u32 = at1[i];
            let v2: u32 = at2[j];
            if v1 == v2 {
                let ghost before = result@;
                result.push(v1);
                proof {
                    assert(result@[before.len() as int] == v1);
                    assert forall|x: u32| before.contains(x) implies result@.contains(x) by {
                        let k = choose|k: int| 0 <= k < before.len() && before[k] == x;
                        assert(result@[k] == x);
                    }
                    assert(at1@.contains(v1));
                    assert(at2@.contains(v2));
                }
                i += 1;
                j += 1;
            } else if v1 < v2 {
                i += 1;
            } else {
                j += 1;
            }
        }
        proof {
            assert forall|x: u32| result@.contains(x) <==> (at1@.contains(x) && at2@.contains(x)) by {
                if at1@.contains(x) && at2@.contains(x) {
                    let a = choose|a: int| 0 <= a < at1@.len() && at1@[a] == x;
                    let b = choose|b: int| 0 <= b < at2@.len() && at2@[b] == x;
                    assert(at1@[a] == at2@[b]);
                }
            }
        }
        result
    }

    /// The ids found in either list: a merge that emits equal ids once.
    pub fn or_operator(at1: DocumentIdsList, at2: DocumentIdsList) -> (result: DocumentIdsList)
        requires
            strictly_ascending(at1@),
            strictly_ascending(at2@),
        ensures
            is_union(at1@, at2@, result@),
    {
        let mut result: Vec<u32> = Vec::new();
        let mut i: usize = 0;
        let mut j: usize = 0;
        while i < at1.len() || j < at2.len()
            invariant
                i <= at1.len(),
                j <= at2.len(),
                strictly_ascending(at1@),
                strictly_ascending(at2@),
                strictly_ascending(result@),
                forall|k: int|
                    0 <= k < result@.len() ==> (i < at1@.len() ==> #[trigger] result@[k] < at1@[i as int])
                        && (j < at2@.len() ==> result@[k] < at2@[j as int]),
                forall|x: u32|
                    result@.contains(x) <==> ((exists|a: int| 0 <= a < i && at1@[a] == x) || (exists|
                        b: int,
                    | 0 <= b < j && at2@[b] == x)),
            decreases at1.len() - i + at2.len() - j,
        {
            let ghost before = result@;
            let ghost i0 = i;
            let ghost j0 = j;
            let v: u32;
            if j >= at2.len() || (i < at1.len() && at1[i] < at2[j]) {
                v = at1[i];
                i += 1;
            } else if i >= at1.len() || at2[j] < at1[i] {
                v = at2[j];
                j += 1;
            } else {
                v = at1[i];
                i += 1;
                j += 1;
            }
            result.push(v);
            proof {
                assert(result@ =~= before.push(v));
                assert forall|x: u32|
                    result@.contains(x) <==> ((exists|a: int| 0 <= a < i && at1@[a] == x) || (exists|
                        b: int,
                    | 0 <= b < j && at2@[b] == x)) by {
                    if result@.contains(x) {
                        let k = choose|k: int| 0 <= k < result@.len() && result@[k] == x;
                        if k < before.len() {
                            assert(before[k] == x);
                            assert(before.contains(x));
                        } else {
                            assert(x == v);
                            if i > i0 {
                                assert(at1@[i0 as int] == x);
                            } else {
                                assert(at2@[j0 as int] == x);
                            }
                        }
                    }
                    if (exists|a: int| 0 <= a < i && at1@[a] == x) {
                        let a = choose|a: int| 0 <= a < i && at1@[a] == x;
                        if a < i0 {
                            assert(before.contains(x));
                            let k = choose|k: int| 0 <= k < before.len() && before[k] == x;
                            assert(result@[k] == x);
                        } else {
                            assert(result@[before.len() as int] == x);
                        }
                    }
                    if (exists|b: int| 0 <= b < j && at2@[b] == x) {
                        let b = choose|b: int| 0 <= b < j && at2@[b] == x;
                        if b < j0 {
                            assert(before.contains(x));
                            let k = choose|k: int| 0 <= k < before.len() && before[k] == x;
                            assert(result@[k] == x);
                        } else {
                            assert(result@[before.len() as int] == x);
                        }
                    }
                }
            }
        }
        proof {
            assert forall|x: u32| result@.contains(x) <==> (at1@.contains(x) || at2@.contains(x)) by {
                if at1@.contains(x) {
                    let a = choose|a: int| 0 <= a < at1@.len() && at1@[a] == x;
                    assert(0 <= a < i && at1@[a] == x);
                }
                if at2@.contains(x) {
                    let b = choose|b: int| 0 <= b < at2@.len() && at2@[b] == x;
                    assert(0 <= b < j && at2@[b] == x);
                }
            }
        }
        result
    }

    /// The ids below `n` that the list lacks.
    pub fn not_operator(p: DocumentIdsList, n: u32) -> (result: DocumentIdsList)
        requires
            strictly_ascending(p@),
        ensures
            is_complement(p@, n, result@),
    {
        let mut result: Vec<u32> = Vec::new();
        let mut i: usize = 0;
        let mut val: u32 = 0;
        while val < n
            invariant
                val <= n,
                i <= p.len(),
                strictly_ascending(p@),
                strictly_ascending(result@),
                forall|k: int| 0 <= k < i ==> p@[k] < val,
                i < p@.len() ==> p@[i as int] >= val,
                forall|k: int| 0 <= k < result@.len() ==> #[trigger] result@[k] < val,
                forall|x: u32| result@.contains(x) <==> (x < val && !p@.contains(x)),
            decreases n - val,
        {
            let ghost before = result@;
            if i < p.len() && p[i] == val {
                proof {
                    assert(p@.contains(val));
                }
                i += 1;
            } else {
                result.push(val);
                proof {
                    assert(result@ =~= before.push(val));
                    assert(result@[before.len() as int] == val);
                    assert(!p@.contains(val)) by {
                        if p@.contains(val) {
                            let k = choose|k: int| 0 <= k < p@.len() && p@[k] == val;
                            if k < i {
                            } else if k > i {
                                assert(p@[i as int] < p@[k]);
                            }
                        }
                    }
                }
            }
            proof {
                assert forall|x: u32| result@.contains(x) <==> (x < val + 1 && !p@.contains(x)) by {
                    if result@.contains(x) {
                        let k = choose|k: int| 0 <= k < result@.len() && result@[k] == x;
                        if k < before.len() {
                            assert(before[k] == x);
                            assert(before.contains(x));
                        }
                    }
                    if x < val && !p@.contains(x) {
                        assert(before.contains(x));
                        let k = choose|k: int| 0 <= k < before.len() && before[k] == x;
                        assert(result@[k] == x);
                    }
                }
            }
            val += 1;
        }
        result
    }
}

// ---------------------------------------------------------------------------
// The algebra of the operators.
// ---------------------------------------------------------------------------

/// Each operator has one result: its contract leaves nothing open.
pub proof fn lemma_operators_are_functions(
    a: Seq<u32>,
    b: Seq<u32>,
    n: u32,
    r1: Seq<u32>,
    r2: Seq<u32>,
)
    ensures
        is_intersection(a, b, r1) && is_intersection(a, b, r2) ==> r1 == r2,
        is_union(a, b, r1) && is_union(a, b, r2) ==> r1 == r2,
        is_complement(a, n, r1) && is_complement(a, n, r2) ==> r1 == r2,
{
    if is_intersection(a, b, r1) && is_intersection(a, b, r2) {
        lemma_ascending_unique(r1, r2);
    }
    if is_union(a, b, r1) && is_union(a, b, r2) {
        lemma_ascending_unique(r1, r2);
    }
    if is_complement(a, n, r1) && is_complement(a, n, r2) {
        lemma_ascending_unique(r1, r2);
    }
}

/// AND is commutative.
pub proof fn lemma_and_commutative(a: Seq<u32>, b: Seq<u32>, ab: Seq<u32>, ba: Seq<u32>)
    requires
        is_intersection(a, b, ab),
        is_intersection(b, a, ba),
    ensures
        ab == ba,
{
    lemma_ascending_unique(ab, ba);
}

/// AND is idempotent.
pub proof fn lemma_and_idempotent(a: Seq<u32>, aa: Seq<u32>)
    requires
        strictly_ascending(a),
        is_intersection(a, a, aa),
    ensures
        aa == a,
{
    lemma_ascending_unique(aa, a);
}

/// OR is commutative.
pub proof fn lemma_or_commutative(a: Seq<u32>, b: Seq<u32>, ab: Seq<u32>, ba: Seq<u32>)
    requires
        is_union(a, b, ab),
        is_union(b, a, ba),
    ensures
        ab == ba,
{
    lemma_ascending_unique(ab, ba);
}

/// OR is idempotent.
pub proof fn lemma_or_idempotent(a: Seq<u32>, aa: Seq<u32>)
    requires
        strictly_ascending(a),
        is_union(a, a, aa),
    ensures
        aa == a,
{
    lemma_ascending_unique(aa, a);
}

/// OR returns the sorted merge of its arguments without duplicates.
pub proof fn lemma_or_is_sorted_merge(a: Seq<u32>, b: Seq<u32>, ab: Seq<u32>)
    requires
        is_union(a, b, ab),
    ensures
        ab.no_duplicates(),
        forall|i: int, j: int| 0 <= i < j < ab.len() ==> ab[i] < ab[j],
        ab.to_set() == a.to_set().union(b.to_set()),
{
    assert forall|x: u32| ab.to_set().contains(x) <==> a.to_set().union(b.to_set()).contains(
        x,
    ) by {}
    assert(ab.to_set() =~= a.to_set().union(b.to_set()));
}

/// The complement of the complement is the list itself, cut at `n`.
pub proof fn lemma_not_not(a: Seq<u32>, n: u32, na: Seq<u32>, nna: Seq<u32>)
    requires
        is_complement(a, n, na),
        is_complement(na, n, nna),
    ensures
        forall|x: u32| nna.contains(x) <==> (a.contains(x) && x < n),
        strictly_ascending(a) && (forall|i: int| 0 <= i < a.len() ==> a[i] < n) ==> nna == a,
{
    if strictly_ascending(a) && (forall|i: int| 0 <= i < a.len() ==> a[i] < n) {
        lemma_ascending_unique(nna, a);
    }
}

/// Within `[0, n)`, AND with a complement is the difference.
pub proof fn lemma_and_not(a: Seq<u32>, b: Seq<u32>, n: u32, nb: Seq<u32>, r: Seq<u32>)
    requires
        forall|i: int| 0 <= i < a.len() ==> a[i] < n,
        forall|i: int| 0 <= i < b.len() ==> b[i] < n,
        is_complement(b, n, nb),
        is_intersection(a, nb, r),
    ensures
        strictly_ascending(r),
        forall|x: u32| r.contains(x) <==> (a.contains(x) && !b.contains(x)),
{
}


/// The result of AND, as a function of its arguments.
pub open spec fn intersection_of(a: Seq<u32>, b: Seq<u32>) -> Seq<u32> {
    choose|r: Seq<u32>| is_intersection(a, b, r)
}

/// The result of OR, as a function of its arguments.
pub open spec fn union_of(a: Seq<u32>, b: Seq<u32>) -> Seq<u32> {
    choose|r: Seq<u32>| is_union(a, b, r)
}

/// The result of NOT, as a function of its arguments.
pub open spec fn complement_of(a: Seq<u32>, n: u32) -> Seq<u32> {
    choose|r: Seq<u32>| is_complement(a, n, r)
}

/// What the operators return is what these functions name.
pub proof fn lemma_operator_results(a: Seq<u32>, b: Seq<u32>, n: u32, r: Seq<u32>)
    ensures
        is_intersection(a, b, r) ==> r == intersection_of(a, b),
        is_union(a, b, r) ==> r == union_of(a, b),
        is_complement(a, n, r) ==> r == complement_of(a, n),
{
    lemma_operators_are_functions(a, b, n, r, intersection_of(a, b));
    lemma_operators_are_functions(a, b, n, r, union_of(a, b));
    lemma_operators_are_functions(a, b, n, r, complement_of(a, n));
}

} // verus!
