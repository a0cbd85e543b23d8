//! Loading the terms with the offsets of their posting lists, from three
//! files: the terms one after the other, the γ-coded length in bytes of
//! each, and the offset table.
use vstd::prelude::*;
use vstd::utf8::{decode_utf8, valid_utf8};
use crate::disk::bits::CodecError;
use crate::disk::bits_reader::{BitsReader, string_from_utf8};
use crate::disk::codes::visible;
use crate::engine::postings::{load_offsets, parse_offsets};
use crate::engine::terms::{term_less, term_lt};
use crate::index::documents::{parse_gamma_list, read_gamma_list};

verus! {

/// Cutting `bytes` from `start` on into terms of the given lengths. A term
/// must be UTF-8 and come after the term before it (`prev`, if any).
pub open spec fn cut_terms(
    bytes: Seq<u8>,
    start: nat,
    lens: Seq<u32>,
    prev: Option<Seq<char>>,
) -> Result<Seq<Seq<char>>, CodecError>
    decreases lens.len(),
{
    if lens.len() == 0 {
        Ok(Seq::empty())
    } else if start + lens[0] > bytes.len() {
        Err(CodecError::UnexpectedEof)
    } else {
        let b = bytes.subrange(start as int, start + lens[0]);
        if !valid_utf8(b) {
            Err(CodecError::Malformed)
        } else if prev is Some && !term_lt(prev->Some_0, decode_utf8(b)) {
            Err(CodecError::Malformed)
        } else {
            match cut_terms(bytes, start + lens[0] as nat, lens.drop_first(), Some(decode_utf8(b))) {
                Err(e) => Err(e),
                Ok(rest) => Ok(seq![decode_utf8(b)] + rest),
            }
        }
    }
}

/// What the three files hold: each term with the offset of its list.
pub open spec fn parse_terms_to_offsets(terms: Seq<u8>, lengths: Seq<u8>, offsets: Seq<u8>) -> Result<
    Seq<(Seq<char>, u64)>,
    CodecError,
> {
    match parse_offsets(visible(offsets, 0), 0) {
        Err(e) => Err(e),
        Ok((table, _)) => if lengths.len() < 16 {
            Err(CodecError::UnexpectedEof)
        } else {
            match parse_gamma_list(visible(lengths, 0), 0, table.len()) {
                Err(e) => Err(e),
                Ok((lens, _)) => match cut_terms(terms, 0, lens, None) {
                    Err(e) => Err(e),
                    Ok(names) => Ok(Seq::new(table.len(), |i: int| (names[i], table[i]))),
                },
            }
        },
    }
}

/// Term and offset of each entry.
pub open spec fn entries_view(entries: Seq<(String, u64)>) -> Seq<(Seq<char>, u64)> {
    entries.map_values(|e: (String, u64)| (e.0@, e.1))
}

/// Cut terms are as many as the lengths.
pub proof fn lemma_cut_terms_len(
    bytes: Seq<u8>,
    start: nat,
    lens: Seq<u32>,
    prev: Option<Seq<char>>,
)
    requires
        cut_terms(bytes, start, lens, prev) is Ok,
    ensures
        cut_terms(bytes, start, lens, prev)->Ok_0.len() == lens.len(),
    decreases lens.len(),
{
    if lens.len() > 0 {
        let b = bytes.subrange(start as int, start + lens[0]);
        lemma_cut_terms_len(bytes, start + lens[0] as nat, lens.drop_first(), Some(decode_utf8(b)));
    }
}

/// The bytes from `from` up to `to`.
fn copy_bytes(bytes: &Vec<u8>, from: usize, to: usize) -> (out: Vec<u8>)
    requires
        from <= to <= bytes@.len(),
    ensures
        out@ == bytes@.subrange(from as int, to as int),
{
    let mut out: Vec<u8> = Vec::new();
    let mut i: usize = from;
    while i < to
        invariant
            from <= i <= to,
            to <= bytes@.len(),
            out@ == bytes@.subrange(from as int, i as int),
        decreases to - i,
    {
        out.push(bytes[i]);
        proof {
            assert(bytes@.subrange(from as int, i + 1) =~= bytes@.subrange(
                from as int,
                i as int,
            ).push(bytes@[i as int]));
        }
        i += 1;
    }
    out
}

/// Cuts the terms out of the bytes that hold them one after the other.
fn read_terms(bytes: &Vec<u8>, lens: &Vec<u32>) -> (r: Result<Vec<String>, CodecError>)
    ensures
        match cut_terms(bytes@, 0, lens@, None) {
            Ok(names) => r is Ok && crate::engine::terms::terms_view(r->Ok_0@) == names,
            Err(e) => r is Err && r->Err_0 == e,
        },
{
    let mut names: Vec<String> = Vec::new();
    let mut start: usize = 0;
    let mut i: usize = 0;
    proof {
        assert(lens@.skip(0) =~= lens@);
        match cut_terms(bytes@, 0, lens@, None) {
            Ok(rest) => {
                assert(crate::engine::terms::terms_view(names@) + rest =~= rest);
            },
            Err(e) => {},
        }
    }
    while i < lens.len()
        invariant
            i <= lens.len(),
            start <= bytes@.len(),
            names@.len() == i,
            cut_terms(bytes@, 0, lens@, None) == (match cut_terms(
                bytes@,
                start as nat,
                lens@.skip(i as int),
                if i == 0 {
                    None
                } else {
                    Some(names@[i - 1]@)
                },
            ) {
                Ok(rest) => Ok(crate::engine::terms::terms_view(names@) + rest),
                Err(e) => Err(e),
            }),
        decreases lens.len() - i,
    {
        let len: usize = lens[i] as usize;
        proof {
            assert(lens@.skip(i as int)[0] == lens@[i as int]);
            assert(lens@.skip(i as int).drop_first() =~= lens@.skip(i + 1));
        }
        if len > bytes.len() - start {
            return Err(CodecError::UnexpectedEof);
        }
        let raw = copy_bytes(bytes, start, start + len);
        let name: String = match string_from_utf8(raw) {
            Some(s) => s,
            None => {
                return Err(CodecError::Malformed);
            },
        };
        if i > 0 && !term_less(names[i - 1].as_str(), name.as_str()) {
            return Err(CodecError::Malformed);
        }
        proof {
            let done = crate::engine::terms::terms_view(names@);
            match cut_terms(bytes@, (start + len) as nat, lens@.skip(i + 1), Some(name@)) {
                Ok(rest) => {
                    assert(done + (seq![name@] + rest) =~= done.push(name@) + rest);
                },
                Err(e) => {},
            }
        }
        let ghost before = names@;
        let ghost view = name@;
        names.push(name);
        proof {
            assert(crate::engine::terms::terms_view(names@) =~= crate::engine::terms::terms_view(
                before,
            ).push(view));
        }
        start = start + len;
        i += 1;
    }
    proof {
        assert(lens@.skip(i as int) =~= Seq::empty());
        assert(crate::engine::terms::terms_view(names@) + Seq::empty()
            =~= crate::engine::terms::terms_view(names@));
    }
    Ok(names)
}

/// Loads the terms and the offsets of their posting lists, given the bytes
/// of the file of terms, of the file of their lengths and of the offsets
/// file. The entries are in the order of the terms.
pub fn load_terms_to_offsets_map(terms: Vec<u8>, lengths: Vec<u8>, offsets: Vec<u8>) -> (r: Result<
    Vec<(String, u64)>,
    CodecError,
>)
    ensures
        match parse_terms_to_offsets(terms@, lengths@, offsets@) {
            Ok(entries) => r is Ok && entries_view(r->Ok_0@) == entries,
            Err(e) => r is Err && r->Err_0 == e,
        },
{
    let table: Vec<u64> = match load_offsets(offsets) {
        Ok(t) => t,
        Err(e) => {
            return Err(e);
        },
    };
    proof {
        // an offset table holds as many offsets as its count says
        crate::engine::postings::lemma_parsed_offsets_len(visible(offsets@, 0), 0);
    }
    let mut reader = match BitsReader::new(lengths) {
        Ok(r) => r,
        Err(e) => {
            return Err(e);
        },
    };
    let lens: Vec<u32> = match read_gamma_list(&mut reader, table.len() as u32) {
        Ok(l) => l,
        Err(e) => {
            return Err(e);
        },
    };
    let names: Vec<String> = match read_terms(&terms, &lens) {
        Ok(n) => n,
        Err(e) => {
            return Err(e);
        },
    };
    proof {
        lemma_cut_terms_len(terms@, 0, lens@, None);
        crate::index::documents::lemma_parsed_gamma_list_len(visible(lengths@, 0), 0, table@.len());
    }
    let mut entries: Vec<(String, u64)> = Vec::new();
    let mut names = names;
    let n: usize = table.len();
    let ghost name_views = crate::engine::terms::terms_view(names@);
    let mut i: usize = 0;
    while i < n
        invariant
            i <= n,
            n == table@.len(),
            names@.len() == n,
            forall|k: int| i <= k < n ==> (#[trigger] names@[k])@ == name_views[k],
            entries@.len() == i,
            forall|k: int|
                0 <= k < i ==> (#[trigger] entries@[k]).0@ == name_views[k] && entries@[k].1
                    == table@[k],
        decreases n - i,
    {
        let name: String = take_name(&mut names, i);
        entries.push((name, table[i]));
        i += 1;
    }
    proof {
        assert(entries_view(entries@) =~= Seq::new(
            table@.len(),
            |i: int| (name_views[i], table@[i]),
        ));
    }
    Ok(entries)
}

/// Moves the string at place `i` out of the list.
fn take_name(names: &mut Vec<String>, i: usize) -> (name: String)
    requires
        i < old(names)@.len(),
    ensures
        name@ == old(names)@[i as int]@,
        final(names)@.len() == old(names)@.len(),
        forall|k: int| 0 <= k < old(names)@.len() && k != i ==> final(names)@[k] == old(names)@[k],
{
    let slot = &mut names[i];
    let mut name: String = String::new();
    std::mem::swap(&mut name, slot);
    name
}

} // verus!
