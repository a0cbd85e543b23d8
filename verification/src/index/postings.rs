//! Posting lists that carry their collection frequency.
use vstd::prelude::*;
use crate::disk::bits::CodecError;
use crate::disk::bits_reader::BitsReader;
use crate::disk::bits_writer::BitsWriter;
use crate::disk::codes::{parse_vbyte, gamma_bits, vbyte_bits};
use crate::disk::laws::sealed;
use crate::engine::postings::{
    Posting, PostingsList, parse_posting_list_at, postings_view, read_posting_list,
    lemma_parsed_postings_ascend,
};

verus! {

/// The occurrences of a term in one document.
#[derive(Debug, Default)]
pub struct PostingEntry {
    pub document_id: u32,
    pub document_frequency: u32,
    pub positions: Vec<u32>,
}

/// The postings of a term, and the number of documents that hold it.
#[derive(Debug, Default)]
pub struct PostingList {
    pub documents: Vec<PostingEntry>,
    pub collection_frequency: u32,
}

impl View for PostingEntry {
    type V = (u32, u32, Seq<u32>);

    open spec fn view(&self) -> (u32, u32, Seq<u32>) {
        (self.document_id, self.document_frequency, self.positions@)
    }
}

impl View for PostingList {
    type V = Seq<(u32, u32, Seq<u32>)>;

    open spec fn view(&self) -> Seq<(u32, u32, Seq<u32>)> {
        self.documents@.map_values(|e: PostingEntry| e@)
    }
}

/// Reads the posting list at bit `offset` of the stream of posting lists.
pub fn load_postings_list(postings_reader: &mut BitsReader, offset: u64) -> (r: Result<
    PostingList,
    CodecError,
>)
    requires
        old(postings_reader).wf(),
    ensures
        final(postings_reader).wf(),
        final(postings_reader).source() == old(postings_reader).source(),
        match parse_posting_list_at(old(postings_reader).source(), offset) {
            Ok(list) => r is Ok && r->Ok_0@ == list && r->Ok_0.collection_frequency == list.len(),
            Err(e) => r is Err && r->Err_0 == e,
        },
{
    match postings_reader.seek(offset) {
        Ok(()) => {},
        Err(e) => {
            return Err(e);
        },
    }
    let ghost s = postings_reader.stream();
    let list: PostingsList = match read_posting_list(postings_reader) {
        Ok(l) => l,
        Err(e) => {
            return Err(e);
        },
    };
    proof {
        // the list holds as many postings as its count says, which is a `u32`
        let (k, p) = parse_vbyte(s, offset as nat)->Ok_0;
        lemma_parsed_postings_ascend(s, p, k as nat, 0, true);
    }
    let ghost view = postings_view(list@);
    let mut documents: Vec<PostingEntry> = Vec::new();
    let mut list = list;
    let n: usize = list.len();
    let mut i: usize = 0;
    while i < n
        invariant
            i <= n,
            n == view.len(),
            n <= u32::MAX,
            list@.len() == n,
            forall|k: int| i <= k < n ==> (#[trigger] list@[k])@ == view[k],
            documents@.len() == i,
            forall|k: int| 0 <= k < i ==> (#[trigger] documents@[k])@ == view[k],
        decreases n - i,
    {
        let entry = take_entry(&mut list, i);
        documents.push(entry);
        i += 1;
    }
    proof {
        assert(documents@.map_values(|e: PostingEntry| e@) =~= view);
    }
    Ok(PostingList { documents, collection_frequency: n as u32 })
}

/// Moves the posting at place `i` out of the list.
fn take_entry(list: &mut Vec<Posting>, i: usize) -> (entry: PostingEntry)
    requires
        i < old(list)@.len(),
    ensures
        entry@ == old(list)@[i as int]@,
        final(list)@.len() == old(list)@.len(),
        forall|k: int| 0 <= k < old(list)@.len() && k != i ==> final(list)@[k] == old(list)@[k],
{
    let posting = &mut list[i];
    let mut positions: Vec<u32> = Vec::new();
    std::mem::swap(&mut positions, &mut posting.positions);
    PostingEntry {
        document_id: posting.document_id,
        document_frequency: posting.document_frequency,
        positions,
    }
}


// ---------------------------------------------------------------------------
// Postings without positions: for each document that holds a term, its id
// and how often it holds the term.
// ---------------------------------------------------------------------------

/// Document id and frequency of each entry, each pair as the γ-coded gap
/// to the previous id (the first from `prev`) and the γ-coded frequency.
pub open spec fn counts_bits(list: Seq<(u32, u32)>, prev: nat) -> Seq<bool>
    decreases list.len(),
{
    if list.len() == 0 {
        Seq::empty()
    } else {
        gamma_bits((list[0].0 - prev) as nat) + gamma_bits(list[0].1 as nat) + counts_bits(
            list.drop_first(),
            list[0].0 as nat,
        )
    }
}

/// A list as stored: variable-byte count, then the entries.
#[verifier::opaque]
pub open spec fn count_list_bits(list: Seq<(u32, u32)>) -> Seq<bool> {
    vbyte_bits(list.len()) + counts_bits(list, 0)
}

/// What the format can hold of a list: ascending document ids, and no id,
/// frequency or count as large as the largest `u32`.
pub open spec fn counts_storable(list: Seq<(u32, u32)>) -> bool {
    &&& list.len() < u32::MAX
    &&& forall|i: int, j: int| 0 <= i < j < list.len() ==> list[i].0 < list[j].0
    &&& forall|i: int| 0 <= i < list.len() ==> (#[trigger] list[i]).0 < u32::MAX && list[i].1
        < u32::MAX
}

/// The lists of the first `n` terms, one after the other.
pub open spec fn counts_stream(postings: Seq<Vec<(u32, u32)>>, n: nat) -> Seq<bool>
    decreases n,
{
    if n == 0 {
        Seq::empty()
    } else {
        counts_stream(postings, (n - 1) as nat) + count_list_bits(postings[n - 1]@)
    }
}

/// The γ-coded gaps between the offsets of the first `n` lists.
pub open spec fn count_gaps_bits(postings: Seq<Vec<(u32, u32)>>, n: nat) -> Seq<bool>
    decreases n,
{
    if n == 0 {
        Seq::empty()
    } else if n == 1 {
        gamma_bits(0)
    } else {
        count_gaps_bits(postings, (n - 1) as nat) + gamma_bits(
            count_list_bits(postings[n - 2]@).len(),
        )
    }
}

/// The offset table: variable-byte count, then the gaps.
pub open spec fn count_offsets_stream(postings: Seq<Vec<(u32, u32)>>) -> Seq<bool> {
    vbyte_bits(postings.len()) + count_gaps_bits(postings, postings.len())
}

/// The offset table can hold the lists: every gap between the offsets of
/// two lists is below the largest `u32`, and the size of every list can be
/// counted.
pub open spec fn count_offsets_storable(postings: Seq<Vec<(u32, u32)>>) -> bool {
    forall|i: int|
        0 <= i < postings.len() ==> count_list_bits((#[trigger] postings[i])@).len() <= u64::MAX
            && (i + 1 < postings.len() ==> count_list_bits(postings[i]@).len() < u32::MAX)
}

proof fn lemma_counts_bits_push(list: Seq<(u32, u32)>, prev: nat, e: (u32, u32))
    ensures
        counts_bits(list.push(e), prev) == counts_bits(list, prev) + (gamma_bits(
            (e.0 - (if list.len() > 0 {
                list.last().0 as nat
            } else {
                prev
            })) as nat,
        ) + gamma_bits(e.1 as nat)),
    decreases list.len(),
{
    if list.len() == 0 {
        assert(list.push(e).drop_first() =~= Seq::empty());
        assert(counts_bits(list.push(e).drop_first(), e.0 as nat) =~= Seq::empty());
        assert(counts_bits(list.push(e), prev) =~= gamma_bits((e.0 - prev) as nat) + gamma_bits(
            e.1 as nat,
        ));
        assert(counts_bits(list, prev) + (gamma_bits((e.0 - prev) as nat) + gamma_bits(e.1 as nat))
            =~= gamma_bits((e.0 - prev) as nat) + gamma_bits(e.1 as nat));
    } else {
        let tail = list.drop_first();
        lemma_counts_bits_push(tail, list[0].0 as nat, e);
        assert(list.push(e).drop_first() =~= tail.push(e));
        if tail.len() > 0 {
            assert(tail.last() == list.last());
        }
        assert(counts_bits(list.push(e), prev) =~= counts_bits(list, prev) + (gamma_bits(
            (e.0 - list.last().0) as nat,
        ) + gamma_bits(e.1 as nat)));
    }
}

/// Appends a list; returns the number of bits written, or `None` (with the
/// writer in an unspecified state) if they are too many to count.
fn write_count_list(writer: &mut BitsWriter, list: &Vec<(u32, u32)>) -> (len: Option<u64>)
    requires
        old(writer).wf(),
        counts_storable(list@),
    ensures
        final(writer).wf(),
        len is Some <==> count_list_bits(list@).len() <= u64::MAX,
        len matches Some(n) ==> n == count_list_bits(list@).len() && final(writer).bits() == old(
            writer,
        ).bits() + count_list_bits(list@),
{
    reveal(count_list_bits);
    let ghost base = writer.bits();
    let ghost v = list@;
    let mut total: u64 = writer.write_vbyte(list.len() as u32);
    let mut prev: u32 = 0;
    let mut i: usize = 0;
    proof {
        assert(v.take(0) =~= Seq::empty());
        assert(writer.bits() =~= base + vbyte_bits(v.len()) + counts_bits(v.take(0), 0));
    }
    while i < list.len()
        invariant
            i <= list.len(),
            v == list@,
            forall|k: int| 0 <= k < v.len() ==> (#[trigger] v[k]).0 < u32::MAX && v[k].1 < u32::MAX,
            forall|k: int| 0 < k < v.len() ==> v[k - 1].0 < (#[trigger] v[k]).0,
            writer.wf(),
            prev == (if i > 0 {
                v[i - 1].0
            } else {
                0
            }),
            writer.bits() == base + vbyte_bits(v.len()) + counts_bits(v.take(i as int), 0),
            total == vbyte_bits(v.len()).len() + counts_bits(v.take(i as int), 0).len(),
        decreases list.len() - i,
    {
        let e: (u32, u32) = list[i];
        proof {
            lemma_counts_bits_push(v.take(i as int), 0, e);
            assert(v.take(i as int).push(e) =~= v.take(i + 1));
            if i > 0 {
                assert(v.take(i as int).last() == v[i - 1]);
            }
            assert(v[i as int].0 < u32::MAX);
            lemma_counts_bits_grow(v, i as int);
        }
        let ghost before = writer.bits();
        let a: u64 = writer.write_gamma(e.0 - prev);
        let b: u64 = writer.write_gamma(e.1);
        proof {
            assert(writer.bits() =~= base + vbyte_bits(v.len()) + counts_bits(v.take(i + 1), 0));
        }
        let added: u64 = a + b;
        if added > u64::MAX - total {
            proof {
                reveal(count_list_bits);
            }
            return None;
        }
        total = total + added;
        prev = e.0;
        i += 1;
    }
    proof {
        assert(v.take(i as int) =~= v);
        assert(base + vbyte_bits(v.len()) + counts_bits(v, 0) =~= base + count_list_bits(v));
    }
    Some(total)
}

/// The stored size of a list grows with every entry.
proof fn lemma_counts_bits_grow(v: Seq<(u32, u32)>, i: int)
    requires
        0 <= i < v.len(),
    ensures
        counts_bits(v.take(i + 1), 0).len() <= counts_bits(v, 0).len(),
    decreases v.len() - i,
{
    if i + 1 < v.len() {
        lemma_counts_bits_grow(v, i + 1);
        lemma_counts_bits_push(v.take(i + 1), 0, v[i + 1]);
        assert(v.take(i + 1).push(v[i + 1]) =~= v.take(i + 2));
    } else {
        assert(v.take(i + 1) =~= v);
    }
}

/// The bytes of the postings file and of the offsets file for the lists of
/// the terms, `postings[i]` being the list of `terms[i]`; `None` if the
/// offset table cannot hold them.
pub fn write_postings(terms: &Vec<String>, postings: &Vec<Vec<(u32, u32)>>) -> (r: Option<
    (Vec<u8>, Vec<u8>),
>)
    requires
        terms@.len() == postings@.len(),
        postings@.len() < u32::MAX,
        forall|i: int| 0 <= i < postings@.len() ==> counts_storable((#[trigger] postings@[i])@),
    ensures
        r is Some <==> count_offsets_storable(postings@),
        r matches Some((lists, offsets)) ==> sealed(
            counts_stream(postings@, postings@.len()),
            lists@,
        ) && sealed(count_offsets_stream(postings@), offsets@),
{
    let mut postings_writer = BitsWriter::new();
    let mut offsets_writer = BitsWriter::new();
    let n: usize = terms.len();
    offsets_writer.write_vbyte(n as u32);
    let mut gap: u64 = 0;
    let mut i: usize = 0;
    proof {
        assert(offsets_writer.bits() =~= vbyte_bits(n as nat) + count_gaps_bits(postings@, 0));
    }
    while i < n
        invariant
            i <= n,
            n == postings@.len(),
            n < u32::MAX,
            forall|k: int| 0 <= k < n ==> counts_storable((#[trigger] postings@[k])@),
            postings_writer.wf(),
            offsets_writer.wf(),
            postings_writer.bits() == counts_stream(postings@, i as nat),
            offsets_writer.bits() == vbyte_bits(n as nat) + count_gaps_bits(postings@, i as nat),
            i == 0 ==> gap == 0,
            0 < i < n ==> gap == count_list_bits(postings@[i - 1]@).len(),
            gap < u32::MAX,
            forall|k: int|
                0 <= k < i ==> count_list_bits((#[trigger] postings@[k])@).len() <= u64::MAX && (k
                    + 1 < n ==> count_list_bits(postings@[k]@).len() < u32::MAX),
        decreases n - i,
    {
        offsets_writer.write_gamma(gap as u32);
        proof {
            assert(count_gaps_bits(postings@, (i + 1) as nat) =~= count_gaps_bits(
                postings@,
                i as nat,
            ) + gamma_bits(gap as nat));
            assert(offsets_writer.bits() =~= vbyte_bits(n as nat) + count_gaps_bits(
                postings@,
                (i + 1) as nat,
            ));
        }
        let list = &postings[i];
        let len: u64 = match write_count_list(&mut postings_writer, list) {
            Some(len) => len,
            None => {
                return None;
            },
        };
        if i + 1 < n && len >= u32::MAX as u64 {
            return None;
        }
        gap = if i + 1 < n {
            len
        } else {
            0
        };
        i += 1;
    }
    let lists = postings_writer.finish();
    let offsets = offsets_writer.finish();
    Some((lists, offsets))
}

} // verus!
