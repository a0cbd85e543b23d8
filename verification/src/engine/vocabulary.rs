//! The vocabulary: the sorted terms, their collection frequencies, and a
//! trigram index for the correction of misspelled query terms.
use vstd::prelude::*;
use fxhash::FxHashMap;
use crate::engine::term_map::{
    term_map_entries, new_term_map, term_map_insert, term_map_get, trigram_map_entries,
    new_trigram_map, trigram_map_insert, trigram_map_remove, trigram_map_get,
};
use vstd::string::{StrSliceExecFns, StringExecFns, StringSliceAdditionalSpecFns};
use vstd::utf8::encode_utf8;
use crate::disk::bits::CodecError;
use crate::disk::bits_reader::BitsReader;
use crate::disk::bits_writer::BitsWriter;
use crate::disk::codes::{
    visible, gamma_bits, vbyte_bits, str_bits, holds_at, parse_gamma, parse_vbyte, parse_str,
};
use crate::disk::laws::{
    sealed, lemma_holds_at_split, lemma_gamma_roundtrip, lemma_vbyte_roundtrip,
    lemma_str_roundtrip, lemma_sealed_views,
};
use crate::engine::InMemory;
use crate::engine::documents::{lemma_chars_le_bytes, lemma_encoded_skip_len};
use crate::engine::utils::{push_char, 
    chars_of, matching_prefix_len, lemma_matching_prefix_len, get_matching_prefix_len,
};
use crate::engine::terms::{
    index_of, sorted_terms, terms_view, term_lt, term_less, lemma_sorted_terms_distinct,
    lemma_term_order,
};

verus! {


/// The least number of single-character insertions, deletions and
/// substitutions that turn `a` into `b`.
pub open spec fn edit_distance(a: Seq<char>, b: Seq<char>) -> nat
    decreases a.len() + b.len(),
{
    if a.len() == 0 {
        b.len()
    } else if b.len() == 0 {
        a.len()
    } else if a.last() == b.last() {
        edit_distance(a.drop_last(), b.drop_last())
    } else {
        1 + min3(
            edit_distance(a.drop_last(), b.drop_last()),
            edit_distance(a, b.drop_last()),
            edit_distance(a.drop_last(), b),
        )
    }
}

pub open spec fn min3(x: nat, y: nat, z: nat) -> nat {
    if x <= y && x <= z {
        x
    } else if y <= z {
        y
    } else {
        z
    }
}

/// The distance is at most the length of the longer string.
pub proof fn lemma_edit_distance_bound(a: Seq<char>, b: Seq<char>)
    ensures
        edit_distance(a, b) <= (if a.len() >= b.len() {
            a.len()
        } else {
            b.len()
        }),
    decreases a.len() + b.len(),
{
    if a.len() > 0 && b.len() > 0 {
        lemma_edit_distance_bound(a.drop_last(), b.drop_last());
    }
}

/// The trigram of `t` that starts at `j`: three characters.
pub open spec fn window_key(t: Seq<char>, j: int) -> Seq<char> {
    t.subrange(j, j + 3)
}

/// One of the first `upto` windows of `t` is the trigram `key`.
pub open spec fn has_trigram(t: Seq<char>, key: Seq<char>, upto: int) -> bool {
    exists|j: int| 0 <= j < upto && j + 2 < t.len() && window_key(t, j) == key
}

/// The term holds the trigram somewhere.
pub open spec fn contains_trigram(t: Seq<char>, key: Seq<char>) -> bool {
    has_trigram(t, key, t.len() - 2)
}

/// The indices, ascending, of those among the first `n` terms that hold
/// the trigram.
pub open spec fn trigram_list(terms: Seq<Seq<char>>, key: Seq<char>, n: nat) -> Seq<usize>
    decreases n,
{
    if n == 0 {
        Seq::empty()
    } else {
        let rest = trigram_list(terms, key, (n - 1) as nat);
        if contains_trigram(terms[n - 1], key) {
            rest.push((n - 1) as usize)
        } else {
            rest
        }
    }
}

/// The list while term `i` is being indexed, with `j` of its windows done.
pub open spec fn partial_list(terms: Seq<Seq<char>>, key: Seq<char>, i: nat, j: int) -> Seq<usize> {
    let rest = trigram_list(terms, key, i);
    if has_trigram(terms[i as int], key, j) {
        rest.push(i as usize)
    } else {
        rest
    }
}

/// The map holds, for every trigram, its list as of `(i, j)`, and no empty
/// lists.
pub open spec fn index_as_of(
    map: Map<Seq<char>, Seq<usize>>,
    terms: Seq<Seq<char>>,
    i: nat,
    j: int,
) -> bool {
    forall|k: Seq<char>|
        (#[trigger] map.contains_key(k) <==> partial_list(terms, k, i, j).len() > 0) && (
        map.contains_key(k) ==> map[k] == partial_list(terms, k, i, j))
}

/// The map holds, for every trigram, the list of all terms that hold it.
pub open spec fn index_of_all(map: Map<Seq<char>, Seq<usize>>, terms: Seq<Seq<char>>) -> bool {
    forall|k: Seq<char>|
        (#[trigger] map.contains_key(k) <==> trigram_list(terms, k, terms.len()).len() > 0) && (
        map.contains_key(k) ==> map[k] == trigram_list(terms, k, terms.len()))
}

pub proof fn lemma_trigram_list_bound(terms: Seq<Seq<char>>, key: Seq<char>, n: nat)
    ensures
        trigram_list(terms, key, n).len() <= n,
        forall|x: int|
            0 <= x < trigram_list(terms, key, n).len() ==> #[trigger] trigram_list(terms, key, n)[x]
                < n,
    decreases n,
{
    if n > 0 {
        lemma_trigram_list_bound(terms, key, (n - 1) as nat);
    }
}

/// The trigram of three characters.
pub fn trigram_of(a: char, b: char, c: char) -> (key: String)
    ensures
        key@ == seq![a, b, c],
{
    let mut key: String = String::new();
    push_char(&mut key, a);
    push_char(&mut key, b);
    push_char(&mut key, c);
    proof {
        assert(key@ =~= seq![a, b, c]);
    }
    key
}

/// Adds term `i` to the list of the trigram `key`, unless it is there.
fn index_window(map: &mut FxHashMap<String, Vec<usize>>, key: String, i: usize)
    ensures
        trigram_map_entries(*final(map)).dom() == trigram_map_entries(*old(map)).dom().insert(key@),
        forall|k: Seq<char>|
            k != key@ && trigram_map_entries(*old(map)).contains_key(k) ==> trigram_map_entries(
                *final(map),
            )[k] == trigram_map_entries(*old(map))[k],
        trigram_map_entries(*final(map))[key@] == ({
            let held = trigram_map_entries(*old(map));
            if held.contains_key(key@) && held[key@].len() > 0 && held[key@].last() == i {
                held[key@]
            } else if held.contains_key(key@) {
                held[key@].push(i)
            } else {
                seq![i]
            }
        }),
{
    let bucket = trigram_map_remove(map, key.as_str());
    let mut list: Vec<usize> = match bucket {
        Some(l) => l,
        None => Vec::new(),
    };
    if list.len() == 0 || list[list.len() - 1] != i {
        list.push(i);
    }
    trigram_map_insert(map, key, list);
    proof {
        assert(trigram_map_entries(*final(map)).dom() =~= trigram_map_entries(
            *old(map),
        ).dom().insert(key@));
    }
}

/// The trigram index of a list of terms.
pub fn build_trigram_index(terms: &Vec<String>) -> (map: FxHashMap<String, Vec<usize>>)
    ensures
        index_of_all(trigram_map_entries(map), terms_view(terms@)),
{
    let ghost tv = terms_view(terms@);
    let mut map: FxHashMap<String, Vec<usize>> = new_trigram_map();
    let mut i: usize = 0;
    while i < terms.len()
        invariant
            i <= terms.len(),
            tv == terms_view(terms@),
            forall|k: Seq<char>|
                (#[trigger] trigram_map_entries(map).contains_key(k) <==> trigram_list(tv, k, i as nat).len() > 0) && (
                trigram_map_entries(map).contains_key(k) ==> trigram_map_entries(map)[k] == trigram_list(tv, k, i as nat)),
        decreases terms.len() - i,
    {
        let chars = chars_of(terms[i].as_str());
        let ghost t = tv[i as int];
        assert(chars@ == t);
        let mut j: usize = 0;
        let windows: usize = if chars.len() >= 3 {
            chars.len() - 2
        } else {
            0
        };
        proof {
            assert forall|k: Seq<char>| !has_trigram(t, k, 0) by {}
        }
        while j < windows
            invariant
                i < terms.len(),
                windows == (if chars.len() >= 3 {
                    chars.len() - 2
                } else {
                    0
                }),
                j <= windows,
                tv == terms_view(terms@),
                t == tv[i as int],
                chars@ == t,
                j <= chars.len(),
                index_as_of(trigram_map_entries(map), tv, i as nat, j as int),
            decreases chars.len() - j,
        {
            let text: String = trigram_of(chars[j], chars[j + 1], chars[j + 2]);
            let ghost key = text@;
            let ghost before = trigram_map_entries(map);
            proof {
                assert(window_key(t, j as int) =~= key);
            }
            index_window(&mut map, text, i);
            proof {
                assert(window_key(t, j as int) == key);
                assert forall|k: Seq<char>|
                    (#[trigger] trigram_map_entries(map).contains_key(k) <==> partial_list(tv, k, i as nat, j + 1).len()
                        > 0) && (trigram_map_entries(map).contains_key(k) ==> trigram_map_entries(map)[k] == partial_list(
                        tv,
                        k,
                        i as nat,
                        j + 1,
                    )) by {
                    lemma_trigram_list_bound(tv, k, i as nat);
                    assert(before.contains_key(k) <==> partial_list(tv, k, i as nat, j as int).len()
                        > 0);
                    if k == key {
                        assert(has_trigram(t, k, j + 1));
                        if before.contains_key(k) && before[k].len() > 0 && before[k].last()
                            == i {
                            let base = trigram_list(tv, k, i as nat);
                            if !has_trigram(t, k, j as int) {
                                assert(base[base.len() - 1] < i);
                            }
                        } else if before.contains_key(k) {
                            if has_trigram(t, k, j as int) {
                                let base = trigram_list(tv, k, i as nat);
                                assert(base.push(i).last() == i);
                            }
                        } else {
                            assert(trigram_list(tv, k, i as nat) =~= Seq::empty());
                        }
                    } else {
                        if has_trigram(t, k, j + 1) {
                            let w = choose|w: int|
                                0 <= w < j + 1 && w + 2 < t.len() && window_key(t, w) == k;
                            assert(w < j);
                        }
                        if has_trigram(t, k, j as int) {
                            let w = choose|w: int|
                                0 <= w < j && w + 2 < t.len() && window_key(t, w) == k;
                            assert(0 <= w < j + 1 && w + 2 < t.len() && window_key(t, w) == k);
                        }
                    }
                }
            }
            j += 1;
        }
        proof {
            assert forall|k: Seq<char>|
                (#[trigger] trigram_map_entries(map).contains_key(k) <==> trigram_list(tv, k, (i + 1) as nat).len() > 0)
                    && (trigram_map_entries(map).contains_key(k) ==> trigram_map_entries(map)[k] == trigram_list(
                    tv,
                    k,
                    (i + 1) as nat,
                )) by {
                assert(trigram_map_entries(map).contains_key(k) <==> partial_list(tv, k, i as nat, j as int).len() > 0);
                if has_trigram(t, k, j as int) {
                    let w = choose|w: int| 0 <= w < j && w + 2 < t.len() && window_key(t, w) == k;
                    assert(0 <= w < t.len() - 2 && w + 2 < t.len() && window_key(t, w) == k);
                }
                if contains_trigram(t, k) {
                    let w = choose|w: int|
                        0 <= w < t.len() - 2 && w + 2 < t.len() && window_key(t, w) == k;
                    assert(0 <= w < j && w + 2 < t.len() && window_key(t, w) == k);
                }
            }
        }
        i += 1;
    }
    map
}

// ---------------------------------------------------------------------------
// The stored form.
// ---------------------------------------------------------------------------

/// One term, compressed against the previous one: the γ-coded number of
/// leading characters they share, then the rest as a string.
pub open spec fn term_bits(prev: Seq<char>, t: Seq<char>) -> Seq<bool> {
    let p = matching_prefix_len(prev, t);
    gamma_bits(p) + str_bits(t.skip(p as int))
}

/// The terms in order, the first compressed against `prev`.
pub open spec fn term_list_bits(terms: Seq<Seq<char>>, prev: Seq<char>) -> Seq<bool>
    decreases terms.len(),
{
    if terms.len() == 0 {
        Seq::empty()
    } else {
        term_bits(prev, terms[0]) + term_list_bits(terms.drop_first(), terms[0])
    }
}

/// The frequencies in order, each as a variable-byte value.
pub open spec fn frequency_list_bits(freqs: Seq<u32>) -> Seq<bool>
    decreases freqs.len(),
{
    if freqs.len() == 0 {
        Seq::empty()
    } else {
        vbyte_bits(freqs[0] as nat) + frequency_list_bits(freqs.drop_first())
    }
}

/// The whole vocabulary: count, terms, frequencies.
pub open spec fn vocabulary_bits(terms: Seq<Seq<char>>, freqs: Seq<u32>) -> Seq<bool> {
    vbyte_bits(terms.len()) + term_list_bits(terms, Seq::empty()) + frequency_list_bits(freqs)
}

/// The collection frequency of each retained term of an index, in order.
pub open spec fn collection_frequencies(index: InMemory) -> Seq<u32> {
    Seq::new(index.terms@.len(), |i: int| index.collection_frequency(i) as u32)
}

/// Reading one term at `pos`, compressed against `prev`.
pub open spec fn parse_term(s: Seq<bool>, pos: nat, prev: Seq<char>) -> Result<
    (Seq<char>, nat),
    CodecError,
> {
    match parse_gamma(s, pos) {
        Err(e) => Err(e),
        Ok((p_len, at1)) => if p_len > prev.len() {
            Err(CodecError::Malformed)
        } else {
            match parse_str(s, at1) {
                Err(e) => Err(e),
                Ok((rest, at2)) => Ok((prev.take(p_len as int) + rest, at2)),
            }
        },
    }
}

/// Reading `k` terms at `pos`. Each must come after the one before it.
pub open spec fn parse_term_list(
    s: Seq<bool>,
    pos: nat,
    k: nat,
    prev: Seq<char>,
    first: bool,
) -> Result<(Seq<Seq<char>>, nat), CodecError>
    decreases k,
{
    if k == 0 {
        Ok((Seq::empty(), pos))
    } else {
        match parse_term(s, pos, prev) {
            Err(e) => Err(e),
            Ok((t, p)) => if !first && !term_lt(prev, t) {
                Err(CodecError::Malformed)
            } else {
                match parse_term_list(s, p, (k - 1) as nat, t, false) {
                    Err(e) => Err(e),
                    Ok((tail, q)) => Ok((seq![t] + tail, q)),
                }
            },
        }
    }
}

/// Reading `k` frequencies at `pos`.
pub open spec fn parse_frequency_list(s: Seq<bool>, pos: nat, k: nat) -> Result<
    (Seq<u32>, nat),
    CodecError,
>
    decreases k,
{
    if k == 0 {
        Ok((Seq::empty(), pos))
    } else {
        match parse_vbyte(s, pos) {
            Err(e) => Err(e),
            Ok((f, p)) => match parse_frequency_list(s, p, (k - 1) as nat) {
                Err(e) => Err(e),
                Ok((tail, q)) => Ok((seq![f] + tail, q)),
            },
        }
    }
}

/// Reading a whole vocabulary at `pos`: its terms and their frequencies.
pub open spec fn parse_vocabulary(s: Seq<bool>, pos: nat) -> Result<
    (Seq<Seq<char>>, Seq<u32>),
    CodecError,
> {
    match parse_vbyte(s, pos) {
        Err(e) => Err(e),
        Ok((k, p)) => match parse_term_list(s, p, k as nat, Seq::empty(), true) {
            Err(e) => Err(e),
            Ok((terms, at2)) => match parse_frequency_list(s, at2, k as nat) {
                Err(e) => Err(e),
                Ok((freqs, at3)) => Ok((terms, freqs)),
            },
        },
    }
}

/// Terms that decode at all are as many as asked for, and sorted.
pub proof fn lemma_parsed_terms_sorted(s: Seq<bool>, pos: nat, k: nat, prev: Seq<char>, first: bool)
    requires
        parse_term_list(s, pos, k, prev, first) is Ok,
    ensures
        ({
            let terms = parse_term_list(s, pos, k, prev, first)->Ok_0.0;
            &&& terms.len() == k
            &&& sorted_terms(terms)
            &&& k > 0 && !first ==> term_lt(prev, terms[0])
        }),
    decreases k,
{
    if k > 0 {
        let (t, p) = parse_term(s, pos, prev)->Ok_0;
        lemma_parsed_terms_sorted(s, p, (k - 1) as nat, t, false);
        let tail = parse_term_list(s, p, (k - 1) as nat, t, false)->Ok_0.0;
        let terms = parse_term_list(s, pos, k, prev, first)->Ok_0.0;
        assert(terms =~= seq![t] + tail);
        assert forall|i: int, j: int| 0 <= i < j < terms.len() implies term_lt(
            terms[i],
            terms[j],
        ) by {
            if i > 0 {
                assert(terms[i] == tail[i - 1] && terms[j] == tail[j - 1]);
            } else {
                assert(terms[j] == tail[j - 1]);
                if j > 1 {
                    lemma_term_order(t, tail[0], tail[j - 1]);
                }
            }
        }
    }
}

pub proof fn lemma_parsed_frequencies_len(s: Seq<bool>, pos: nat, k: nat)
    requires
        parse_frequency_list(s, pos, k) is Ok,
    ensures
        parse_frequency_list(s, pos, k)->Ok_0.0.len() == k,
    decreases k,
{
    if k > 0 {
        let (f, p) = parse_vbyte(s, pos)->Ok_0;
        lemma_parsed_frequencies_len(s, p, (k - 1) as nat);
    }
}

pub proof fn lemma_term_list_bits_push(terms: Seq<Seq<char>>, prev: Seq<char>, t: Seq<char>)
    ensures
        term_list_bits(terms.push(t), prev) == term_list_bits(terms, prev) + term_bits(
            if terms.len() > 0 {
                terms.last()
            } else {
                prev
            },
            t,
        ),
    decreases terms.len(),
{
    if terms.len() == 0 {
        assert(terms.push(t).drop_first() =~= Seq::empty());
        assert(term_list_bits(terms.push(t).drop_first(), t) =~= Seq::empty());
        assert(term_list_bits(terms.push(t), prev) =~= term_bits(prev, t));
        assert(term_list_bits(terms, prev) + term_bits(prev, t) =~= term_bits(prev, t));
    } else {
        let tail = terms.drop_first();
        lemma_term_list_bits_push(tail, terms[0], t);
        assert(terms.push(t).drop_first() =~= tail.push(t));
        if tail.len() > 0 {
            assert(tail.last() == terms.last());
        }
        assert(term_list_bits(terms.push(t), prev) =~= term_list_bits(terms, prev) + term_bits(
            terms.last(),
            t,
        ));
    }
}

pub proof fn lemma_frequency_list_bits_push(freqs: Seq<u32>, f: u32)
    ensures
        frequency_list_bits(freqs.push(f)) == frequency_list_bits(freqs) + vbyte_bits(f as nat),
    decreases freqs.len(),
{
    if freqs.len() == 0 {
        assert(freqs.push(f).drop_first() =~= Seq::empty());
        assert(frequency_list_bits(freqs.push(f).drop_first()) =~= Seq::empty());
        assert(frequency_list_bits(freqs.push(f)) =~= vbyte_bits(f as nat));
        assert(frequency_list_bits(freqs) + vbyte_bits(f as nat) =~= vbyte_bits(f as nat));
    } else {
        let tail = freqs.drop_first();
        lemma_frequency_list_bits_push(tail, f);
        assert(freqs.push(f).drop_first() =~= tail.push(f));
        assert(frequency_list_bits(freqs.push(f)) =~= frequency_list_bits(freqs) + vbyte_bits(
            f as nat,
        ));
    }
}

/// What the format can hold of a vocabulary: sorted terms, as many as
/// frequencies, and no count, length or frequency as large as the largest
/// `u32`.
pub open spec fn vocabulary_storable(terms: Seq<Seq<char>>, freqs: Seq<u32>) -> bool {
    &&& sorted_terms(terms)
    &&& terms.len() == freqs.len()
    &&& terms.len() < u32::MAX
    &&& forall|i: int| 0 <= i < terms.len() ==> encode_utf8(#[trigger] terms[i]).len() < u32::MAX
    &&& forall|i: int| 0 <= i < freqs.len() ==> #[trigger] freqs[i] < u32::MAX
}

/// A stored list of terms reads back as itself.
pub proof fn lemma_term_list_roundtrip(
    s: Seq<bool>,
    pos: nat,
    terms: Seq<Seq<char>>,
    prev: Seq<char>,
    first: bool,
)
    requires
        sorted_terms(terms),
        forall|i: int| 0 <= i < terms.len() ==> encode_utf8(#[trigger] terms[i]).len() < u32::MAX,
        encode_utf8(prev).len() < u32::MAX,
        terms.len() > 0 && !first ==> term_lt(prev, terms[0]),
        holds_at(s, pos, term_list_bits(terms, prev)),
        pos + term_list_bits(terms, prev).len() < s.len(),
    ensures
        parse_term_list(s, pos, terms.len(), prev, first) == Ok::<(Seq<Seq<char>>, nat), CodecError>(
            (terms, pos + term_list_bits(terms, prev).len()),
        ),
    decreases terms.len(),
{
    if terms.len() == 0 {
        assert(terms =~= Seq::empty());
    } else {
        let t = terms[0];
        let tail = terms.drop_first();
        let p = matching_prefix_len(prev, t);
        let rest = t.skip(p as int);
        lemma_matching_prefix_len(prev, t);
        let a = gamma_bits(p);
        let b = str_bits(rest);
        lemma_holds_at_split(s, pos, a + b, term_list_bits(tail, t));
        lemma_holds_at_split(s, pos, a, b);
        lemma_chars_le_bytes(prev);
        lemma_gamma_roundtrip(s, pos, p);
        lemma_encoded_skip_len(t, p);
        lemma_str_roundtrip(s, pos + a.len(), rest);
        assert(prev.take(p as int) + rest =~= t) by {
            assert(prev.take(p as int) == t.take(p as int));
        }
        assert(parse_term(s, pos, prev) == Ok::<(Seq<char>, nat), CodecError>(
            (t, pos + a.len() + b.len()),
        ));
        assert(sorted_terms(tail)) by {
            assert forall|i: int, j: int| 0 <= i < j < tail.len() implies term_lt(
                tail[i],
                tail[j],
            ) by {
                assert(tail[i] == terms[i + 1] && tail[j] == terms[j + 1]);
            }
        }
        assert forall|i: int| 0 <= i < tail.len() implies encode_utf8(#[trigger] tail[i]).len()
            < u32::MAX by {
            assert(tail[i] == terms[i + 1]);
        }
        if tail.len() > 0 {
            assert(tail[0] == terms[1]);
        }
        lemma_term_list_roundtrip(s, pos + a.len() + b.len(), tail, t, false);
        assert(seq![t] + tail =~= terms);
    }
}

/// A stored list of frequencies reads back as itself.
pub proof fn lemma_frequency_list_roundtrip(s: Seq<bool>, pos: nat, freqs: Seq<u32>)
    requires
        forall|i: int| 0 <= i < freqs.len() ==> #[trigger] freqs[i] < u32::MAX,
        holds_at(s, pos, frequency_list_bits(freqs)),
        pos + frequency_list_bits(freqs).len() < s.len(),
    ensures
        parse_frequency_list(s, pos, freqs.len()) == Ok::<(Seq<u32>, nat), CodecError>(
            (freqs, pos + frequency_list_bits(freqs).len()),
        ),
    decreases freqs.len(),
{
    if freqs.len() == 0 {
        assert(freqs =~= Seq::empty());
    } else {
        let tail = freqs.drop_first();
        let a = vbyte_bits(freqs[0] as nat);
        lemma_holds_at_split(s, pos, a, frequency_list_bits(tail));
        lemma_vbyte_roundtrip(s, pos, freqs[0] as nat);
        assert forall|i: int| 0 <= i < tail.len() implies #[trigger] tail[i] < u32::MAX by {
            assert(tail[i] == freqs[i + 1]);
        }
        lemma_frequency_list_roundtrip(s, pos + a.len(), tail);
        assert(seq![freqs[0]] + tail =~= freqs);
    }
}

/// A vocabulary that was written reads back as itself.
pub proof fn lemma_vocabulary_roundtrip(terms: Seq<Seq<char>>, freqs: Seq<u32>, bytes: Seq<u8>)
    requires
        vocabulary_storable(terms, freqs),
        sealed(vocabulary_bits(terms, freqs), bytes),
    ensures
        parse_vocabulary(visible(bytes, 0), 0) == Ok::<(Seq<Seq<char>>, Seq<u32>), CodecError>(
            (terms, freqs),
        ),
{
    let content = vocabulary_bits(terms, freqs);
    let s = visible(bytes, 0);
    assert(content.subrange(0, content.len() as int) =~= content);
    lemma_sealed_views(content, bytes, 0, content);
    let head = vbyte_bits(terms.len());
    let body = term_list_bits(terms, Seq::empty());
    let tail = frequency_list_bits(freqs);
    lemma_holds_at_split(s, 0, head + body, tail);
    lemma_holds_at_split(s, 0, head, body);
    lemma_vbyte_roundtrip(s, 0, terms.len());
    assert(encode_utf8(Seq::<char>::empty()).len() == 0);
    lemma_term_list_roundtrip(s, head.len(), terms, Seq::empty(), true);
    lemma_frequency_list_roundtrip(s, head.len() + body.len(), freqs);
}

/// Reads one term, compressed against `prev`.
fn read_term(reader: &mut BitsReader, prev: &str) -> (r: Result<String, CodecError>)
    requires
        old(reader).wf(),
    ensures
        match parse_term(old(reader).stream(), old(reader).position(), prev@) {
            Ok((t, p)) => r is Ok && r->Ok_0@ == t && final(reader).advanced(*old(reader), p),
            Err(e) => r is Err && r->Err_0 == e && final(reader).kept(*old(reader)),
        },
{
    let p_len: u32 = match reader.read_gamma() {
        Ok(v) => v,
        Err(e) => {
            return Err(e);
        },
    };
    if p_len as usize > prev.unicode_len() {
        return Err(CodecError::Malformed);
    }
    let rest: String = match reader.read_str() {
        Ok(v) => v,
        Err(e) => {
            return Err(e);
        },
    };
    let prefix = prev.substring_char(0, p_len as usize);
    let mut term: String = String::from_str(prefix);
    term.append(rest.as_str());
    proof {
        assert(prev@.subrange(0, p_len as int) =~= prev@.take(p_len as int));
    }
    Ok(term)
}

/// Reads `n` terms, the first one compressed against the empty term.
fn read_term_list(reader: &mut BitsReader, n: u32) -> (r: Result<Vec<String>, CodecError>)
    requires
        old(reader).wf(),
    ensures
        match parse_term_list(
            old(reader).stream(),
            old(reader).position(),
            n as nat,
            Seq::empty(),
            true,
        ) {
            Ok((terms, p)) => r is Ok && terms_view(r->Ok_0@) == terms && final(reader).advanced(
                *old(reader),
                p,
            ),
            Err(e) => r is Err && r->Err_0 == e && final(reader).kept(*old(reader)),
        },
{
    let ghost s = reader.stream();
    let ghost at0 = reader.position();
    let mut prev: String = String::new();
    let mut terms: Vec<String> = Vec::new();
    let mut i: u32 = 0;
    proof {
        assert(terms_view(terms@) =~= Seq::empty());
        match parse_term_list(s, at0, n as nat, Seq::empty(), true) {
            Ok((tail, q)) => {
                assert(terms_view(terms@) + tail =~= tail);
            },
            Err(e) => {},
        }
    }
    while i < n
        invariant
            i <= n,
            reader.kept(*old(reader)),
            s == old(reader).stream(),
            at0 == old(reader).position(),
            terms@.len() == i,
            i == 0 ==> prev@ == Seq::<char>::empty(),
            parse_term_list(s, at0, n as nat, Seq::empty(), true) == (match parse_term_list(
                s,
                reader.position(),
                (n - i) as nat,
                prev@,
                i == 0,
            ) {
                Ok((tail, q)) => Ok((terms_view(terms@) + tail, q)),
                Err(e) => Err(e),
            }),
        decreases n - i,
    {
        let term = match read_term(reader, prev.as_str()) {
            Ok(t) => t,
            Err(e) => {
                return Err(e);
            },
        };
        if i > 0 && !term_less(prev.as_str(), term.as_str()) {
            return Err(CodecError::Malformed);
        }
        proof {
            let v = terms_view(terms@);
            let t = term@;
            match parse_term_list(s, reader.position(), (n - i - 1) as nat, t, false) {
                Ok((tail, q)) => {
                    assert(v + (seq![t] + tail) =~= v.push(t) + tail);
                },
                Err(e) => {},
            }
        }
        prev = term.clone();
        let ghost before = terms@;
        let ghost t = term@;
        terms.push(term);
        proof {
            assert(terms_view(terms@) =~= terms_view(before).push(t));
        }
        i += 1;
    }
    proof {
        assert(terms_view(terms@) + Seq::empty() =~= terms_view(terms@));
    }
    Ok(terms)
}

/// Reads `n` frequencies.
fn read_frequency_list(reader: &mut BitsReader, n: u32) -> (r: Result<Vec<u32>, CodecError>)
    requires
        old(reader).wf(),
    ensures
        match parse_frequency_list(old(reader).stream(), old(reader).position(), n as nat) {
            Ok((freqs, p)) => r is Ok && r->Ok_0@ == freqs && final(reader).advanced(
                *old(reader),
                p,
            ),
            Err(e) => r is Err && r->Err_0 == e && final(reader).kept(*old(reader)),
        },
{
    let ghost s = reader.stream();
    let ghost at0 = reader.position();
    let mut freqs: Vec<u32> = Vec::new();
    let mut i: u32 = 0;
    proof {
        match parse_frequency_list(s, at0, n as nat) {
            Ok((tail, q)) => {
                assert(freqs@ + tail =~= tail);
            },
            Err(e) => {},
        }
    }
    while i < n
        invariant
            i <= n,
            reader.kept(*old(reader)),
            s == old(reader).stream(),
            at0 == old(reader).position(),
            freqs@.len() == i,
            parse_frequency_list(s, at0, n as nat) == (match parse_frequency_list(
                s,
                reader.position(),
                (n - i) as nat,
            ) {
                Ok((tail, q)) => Ok((freqs@ + tail, q)),
                Err(e) => Err(e),
            }),
        decreases n - i,
    {
        let f: u32 = match reader.read_vbyte() {
            Ok(v) => v,
            Err(e) => {
                return Err(e);
            },
        };
        proof {
            match parse_frequency_list(s, reader.position(), (n - i - 1) as nat) {
                Ok((tail, q)) => {
                    assert(freqs@ + (seq![f] + tail) =~= freqs@.push(f) + tail);
                },
                Err(e) => {},
            }
        }
        freqs.push(f);
        i += 1;
    }
    proof {
        assert(freqs@ + Seq::<u32>::empty() =~= freqs@);
    }
    Ok(freqs)
}

// ---------------------------------------------------------------------------
// Spelling correction.
// ---------------------------------------------------------------------------

/// Candidate `x` is a strictly better correction of `q` than `y`: nearer
/// by edit distance or, at the same distance, more frequent.
pub open spec fn closer(
    terms: Seq<Seq<char>>,
    freqs: Seq<u32>,
    q: Seq<char>,
    x: usize,
    y: usize,
) -> bool {
    let dx = edit_distance(q, terms[x as int]);
    let dy = edit_distance(q, terms[y as int]);
    dx < dy || (dx == dy && freqs[x as int] > freqs[y as int])
}

/// The candidates for the first `w` windows of `q`: the lists of their
/// trigrams, one after the other.
pub open spec fn candidates(terms: Seq<Seq<char>>, q: Seq<char>, w: nat) -> Seq<usize>
    decreases w,
{
    if w == 0 {
        Seq::empty()
    } else {
        candidates(terms, q, (w - 1) as nat) + trigram_list(
            terms,
            window_key(q, w - 1),
            terms.len(),
        )
    }
}

/// The best of the candidates; of several that are equally good, the
/// earliest.
pub open spec fn first_best(
    terms: Seq<Seq<char>>,
    freqs: Seq<u32>,
    q: Seq<char>,
    cands: Seq<usize>,
) -> Option<usize>
    decreases cands.len(),
{
    if cands.len() == 0 {
        None
    } else {
        match first_best(terms, freqs, q, cands.drop_last()) {
            None => Some(cands.last()),
            Some(b) => if closer(terms, freqs, q, cands.last(), b) {
                Some(cands.last())
            } else {
                Some(b)
            },
        }
    }
}

/// The index of the term that best corrects `q`, if `q` has three
/// characters or more and shares a trigram with any term.
pub open spec fn closest_index(terms: Seq<Seq<char>>, freqs: Seq<u32>, q: Seq<char>) -> Option<
    usize,
> {
    if q.len() < 3 {
        None
    } else {
        first_best(terms, freqs, q, candidates(terms, q, (q.len() - 2) as nat))
    }
}

/// What a query term is replaced with: itself if the vocabulary has it,
/// else the term that best corrects it, if any.
pub open spec fn spellchecked(terms: Seq<Seq<char>>, freqs: Seq<u32>, q: Seq<char>) -> Option<
    Seq<char>,
> {
    if terms.contains(q) {
        Some(q)
    } else {
        match closest_index(terms, freqs, q) {
            Some(i) => Some(terms[i as int]),
            None => None,
        }
    }
}

/// The map that holds, for each of the first `n` terms, its index.
pub open spec fn term_index_map(terms: Seq<Seq<char>>, n: nat) -> Map<Seq<char>, usize>
    decreases n,
{
    if n == 0 {
        Map::empty()
    } else {
        term_index_map(terms, (n - 1) as nat).insert(terms[n - 1], (n - 1) as usize)
    }
}

/// In the map of sorted terms, every term has its own index, and nothing
/// else has one.
pub proof fn lemma_term_index_map(terms: Seq<Seq<char>>, n: nat)
    requires
        sorted_terms(terms),
        n <= terms.len(),
        terms.len() <= usize::MAX,
    ensures
        forall|t: Seq<char>|
            #[trigger] term_index_map(terms, n).contains_key(t) <==> exists|i: int|
                0 <= i < n && terms[i] == t,
        forall|i: int| 0 <= i < n ==> term_index_map(terms, n)[#[trigger] terms[i]] == i,
    decreases n,
{
    if n > 0 {
        lemma_term_index_map(terms, (n - 1) as nat);
        let before = term_index_map(terms, (n - 1) as nat);
        let last = terms[n - 1];
        assert forall|t: Seq<char>|
            #[trigger] term_index_map(terms, n).contains_key(t) <==> exists|i: int|
                0 <= i < n && terms[i] == t by {
            if before.contains_key(t) {
                let i = choose|i: int| 0 <= i < n - 1 && terms[i] == t;
                assert(0 <= i < n && terms[i] == t);
            }
            if exists|i: int| 0 <= i < n && terms[i] == t {
                let i = choose|i: int| 0 <= i < n && terms[i] == t;
                if i < n - 1 {
                    assert(0 <= i < n - 1 && terms[i] == t);
                }
            }
        }
        assert forall|i: int| 0 <= i < n implies term_index_map(terms, n)[#[trigger] terms[i]]
            == i by {
            if i < n - 1 && terms[i] == last {
                lemma_sorted_terms_distinct(terms, i, n - 1);
            }
        }
    }
}

/// The map from each term to its index.
fn build_term_map(terms: &Vec<String>) -> (m: FxHashMap<String, usize>)
    ensures
        term_map_entries(m) == term_index_map(terms_view(terms@), terms@.len()),
{
    let mut m = new_term_map();
    let mut i: usize = 0;
    while i < terms.len()
        invariant
            i <= terms.len(),
            term_map_entries(m) == term_index_map(terms_view(terms@), i as nat),
        decreases terms.len() - i,
    {
        let term: String = terms[i].clone();
        proof {
            assert(terms_view(terms@)[i as int] == term@);
        }
        term_map_insert(&mut m, term, i);
        i += 1;
    }
    m
}

/// The vocabulary of an index.
pub struct Vocabulary {
    term_to_index: FxHashMap<String, usize>,
    index_to_term: Vec<String>,
    frequencies: Vec<u32>,
    trigram_index: FxHashMap<String, Vec<usize>>,
}

impl Vocabulary {
    /// The terms are sorted, each has a frequency and its index in the
    /// map, and the trigram index is that of the terms.
    #[verifier::type_invariant]
    spec fn inv(self) -> bool {
        &&& self.frequencies@.len() == self.index_to_term@.len()
        &&& sorted_terms(terms_view(self.index_to_term@))
        &&& term_map_entries(self.term_to_index) == term_index_map(
            terms_view(self.index_to_term@),
            self.index_to_term@.len(),
        )
        &&& index_of_all(trigram_map_entries(self.trigram_index), terms_view(self.index_to_term@))
    }

    /// The terms, by index.
    pub closed spec fn terms(&self) -> Seq<Seq<char>> {
        terms_view(self.index_to_term@)
    }

    /// The collection frequency of each term, by index.
    pub closed spec fn frequencies(&self) -> Seq<u32> {
        self.frequencies@
    }

    /// A vocabulary of the given terms, or `None` unless they are sorted
    /// and as many as the frequencies.
    pub fn from_terms(terms: Vec<String>, frequencies: Vec<u32>) -> (r: Option<Vocabulary>)
        ensures
            r is Some <==> sorted_terms(terms_view(terms@)) && terms@.len() == frequencies@.len(),
            r matches Some(v) ==> v.terms() == terms_view(terms@) && v.frequencies()
                == frequencies@,
    {
        if terms.len() != frequencies.len() {
            return None;
        }
        let ghost tv = terms_view(terms@);
        let mut i: usize = 1;
        while i < terms.len()
            invariant
                1 <= i,
                tv == terms_view(terms@),
                forall|a: int, b: int| 0 <= a < b < i && b < tv.len() ==> term_lt(tv[a], tv[b]),
            decreases terms.len() - i,
        {
            if !term_less(terms[i - 1].as_str(), terms[i].as_str()) {
                proof {
                    assert(tv[i - 1] == terms@[i - 1]@ && tv[i as int] == terms@[i as int]@);
                }
                return None;
            }
            proof {
                assert(tv[i - 1] == terms@[i - 1]@ && tv[i as int] == terms@[i as int]@);
                assert forall|a: int, b: int| 0 <= a < b < i + 1 && b < tv.len() implies term_lt(
                    tv[a],
                    tv[b],
                ) by {
                    if b == i && a < i - 1 {
                        lemma_term_order(tv[a], tv[i - 1], tv[i as int]);
                    }
                }
            }
            i += 1;
        }
        let trigram_index = build_trigram_index(&terms);
        let term_to_index = build_term_map(&terms);
        Some(Vocabulary { term_to_index, index_to_term: terms, frequencies, trigram_index })
    }

    /// The bytes of a vocabulary file for the retained terms of an index.
    pub fn write_vocabulary(index: &InMemory) -> (bytes: Vec<u8>)
        requires
            index.wf(),
        ensures
            sealed(
                vocabulary_bits(terms_view(index.terms@), collection_frequencies(*index)),
                bytes@,
            ),
    {
        let ghost tv = terms_view(index.terms@);
        let ghost fv = collection_frequencies(*index);
        let mut writer = BitsWriter::new();
        writer.write_vbyte(index.terms.len() as u32);
        let mut i: usize = 0;
        proof {
            assert(tv.take(0) =~= Seq::empty());
            assert(writer.bits() =~= vbyte_bits(tv.len()) + term_list_bits(
                tv.take(0),
                Seq::empty(),
            ));
        }
        while i < index.terms.len()
            invariant
                i <= index.terms.len(),
                index.wf(),
                tv == terms_view(index.terms@),
                writer.wf(),
                writer.bits() == vbyte_bits(tv.len()) + term_list_bits(
                    tv.take(i as int),
                    Seq::empty(),
                ),
            decreases index.terms.len() - i,
        {
            let s = index.terms[i].as_str();
            let ghost t = tv[i as int];
            let ghost prev = if i > 0 {
                tv[i - 1]
            } else {
                Seq::empty()
            };
            proof {
                assert(t == s@);
                assert(encode_utf8(index.terms@[i as int]@).len() < u32::MAX);
                lemma_matching_prefix_len(prev, t);
                lemma_chars_le_bytes(t);
                lemma_encoded_skip_len(t, matching_prefix_len(prev, t));
                lemma_term_list_bits_push(tv.take(i as int), Seq::empty(), t);
                assert(tv.take(i as int).push(t) =~= tv.take(i + 1));
                if i > 0 {
                    assert(tv.take(i as int).last() == tv[i - 1]);
                    assert(tv[i - 1] == index.terms@[i - 1]@);
                }
            }
            let p_len: usize = if i > 0 {
                get_matching_prefix_len(index.terms[i - 1].as_str(), s)
            } else {
                get_matching_prefix_len("", s)
            };
            proof {
                if i == 0 {
                    reveal_strlit("");
                    assert(""@ =~= Seq::<char>::empty());
                }
            }
            let ghost before = writer.bits();
            writer.write_gamma(p_len as u32);
            let remaining = s.substring_char(p_len, s.unicode_len());
            proof {
                assert(remaining@ =~= t.skip(p_len as int));
            }
            writer.write_str(remaining);
            proof {
                assert(writer.bits() =~= before + term_bits(prev, t));
            }
            i += 1;
        }
        proof {
            assert(tv.take(i as int) =~= tv);
            assert(fv.take(0) =~= Seq::empty());
            assert(writer.bits() =~= vbyte_bits(tv.len()) + term_list_bits(tv, Seq::empty())
                + frequency_list_bits(fv.take(0)));
        }
        let mut k: usize = 0;
        while k < index.terms.len()
            invariant
                k <= index.terms.len(),
                index.wf(),
                tv == terms_view(index.terms@),
                fv == collection_frequencies(*index),
                writer.wf(),
                writer.bits() == vbyte_bits(tv.len()) + term_list_bits(tv, Seq::empty())
                    + frequency_list_bits(fv.take(k as int)),
            decreases index.terms.len() - k,
        {
            let list = &index.postings[index.term_indices[k]];
            proof {
                let view = index.term_postings(k as int);
                assert(crate::engine::postings::postings_storable(view));
                assert(crate::engine::postings::document_ids(view).len() == list@.len());
                lemma_frequency_list_bits_push(fv.take(k as int), fv[k as int]);
                assert(fv.take(k as int).push(fv[k as int]) =~= fv.take(k + 1));
            }
            let ghost before = writer.bits();
            writer.write_vbyte(list.len() as u32);
            proof {
                assert(writer.bits() =~= vbyte_bits(tv.len()) + term_list_bits(tv, Seq::empty())
                    + frequency_list_bits(fv.take(k + 1)));
            }
            k += 1;
        }
        proof {
            assert(fv.take(k as int) =~= fv);
        }
        writer.finish()
    }

    /// Reads a vocabulary from the bytes of a vocabulary file and builds
    /// its trigram index.
    pub fn load_vocabulary(data: Vec<u8>) -> (r: Result<Vocabulary, CodecError>)
        ensures
            match parse_vocabulary(visible(data@, 0), 0) {
                Ok((terms, freqs)) => r is Ok && r->Ok_0.terms() == terms && r->Ok_0.frequencies()
                    == freqs,
                Err(e) => r is Err && r->Err_0 == e,
            },
    {
        let ghost s = visible(data@, 0);
        let mut reader = match BitsReader::new(data) {
            Ok(r) => r,
            Err(e) => {
                return Err(e);
            },
        };
        let n: u32 = match reader.read_vbyte() {
            Ok(n) => n,
            Err(e) => {
                return Err(e);
            },
        };
        let ghost at1 = reader.position();
        let index_to_term = match read_term_list(&mut reader, n) {
            Ok(t) => t,
            Err(e) => {
                return Err(e);
            },
        };
        let ghost at2 = reader.position();
        let frequencies = match read_frequency_list(&mut reader, n) {
            Ok(f) => f,
            Err(e) => {
                return Err(e);
            },
        };
        proof {
            lemma_parsed_terms_sorted(s, at1, n as nat, Seq::empty(), true);
            lemma_parsed_frequencies_len(s, at2, n as nat);
        }
        let trigram_index = build_trigram_index(&index_to_term);
        let term_to_index = build_term_map(&index_to_term);
        Ok(Vocabulary { term_to_index, index_to_term, frequencies, trigram_index })
    }

    /// The index of a term, if the vocabulary has it.
    pub fn get_term_index(&self, term: &str) -> (r: Option<usize>)
        ensures
            match r {
                Some(i) => i < self.terms().len() && self.terms()[i as int] == term@,
                None => !self.terms().contains(term@),
            },
            sorted_terms(self.terms()),
            self.frequencies().len() == self.terms().len(),
    {
        proof {
            use_type_invariant(self);
            assert(self.index_to_term.len() == self.terms().len());
            lemma_term_index_map(self.terms(), self.terms().len());
        }
        let r = term_map_get(&self.term_to_index, term);
        proof {
            let terms = self.terms();
            let map = term_index_map(terms, terms.len());
            if map.contains_key(term@) {
                let i = choose|i: int| 0 <= i < terms.len() && terms[i] == term@;
                assert(map[terms[i]] == i);
            } else {
                if terms.contains(term@) {
                    let i = choose|i: int| 0 <= i < terms.len() && terms[i] == term@;
                    assert(0 <= i < terms.len() && terms[i] == term@);
                }
            }
        }
        r
    }

    /// The number of documents that hold a term, if the vocabulary has it.
    pub fn get_term_frequency(&self, term: &str) -> (r: Option<u32>)
        ensures
            match r {
                Some(f) => self.terms().contains(term@) && f == self.frequencies()[index_of(
                    self.terms(),
                    term@,
                )],
                None => !self.terms().contains(term@),
            },
    {
        proof {
            use_type_invariant(self);
        }
        match self.get_term_index(term) {
            Some(i) => {
                proof {
                    lemma_sorted_terms_distinct(
                        self.terms(),
                        index_of(self.terms(), term@),
                        i as int,
                    );
                }
                Some(self.frequencies[i])
            },
            None => None,
        }
    }

    /// The term with the given index.
    pub fn get_term(&self, index: usize) -> (term: String)
        requires
            index < self.terms().len(),
        ensures
            term@ == self.terms()[index as int],
    {
        self.index_to_term[index].clone()
    }

    /// The number of terms.
    pub fn get_num_terms(&self) -> (n: usize)
        ensures
            n == self.terms().len(),
            n == self.frequencies().len(),
            sorted_terms(self.terms()),
    {
        proof {
            use_type_invariant(self);
        }
        self.index_to_term.len()
    }

    /// The indices of the terms that hold the trigram made of the three
    /// characters of `trigram`; `None` if no term does, or if `trigram` is
    /// not three characters long.
    pub fn get_trigram_indices(&self, trigram: &str) -> (r: Option<Vec<usize>>)
        ensures
            match r {
                Some(list) => trigram@.len() == 3 && list@.len() > 0 && list@ == trigram_list(
                    self.terms(),
                    window_key(trigram@, 0),
                    self.terms().len(),
                ),
                None => trigram@.len() != 3 || trigram_list(
                    self.terms(),
                    window_key(trigram@, 0),
                    self.terms().len(),
                ).len() == 0,
            },
    {
        proof {
            use_type_invariant(self);
        }
        let chars = chars_of(trigram);
        if chars.len() != 3 {
            return None;
        }
        proof {
            assert(window_key(trigram@, 0) =~= trigram@);
        }
        match trigram_map_get(&self.trigram_index, trigram) {
            Some(list) => Some(list.clone()),
            None => None,
        }
    }

    /// The term that a query term is replaced with.
    pub fn spellcheck_term(&self, term: &str) -> (r: Option<String>)
        ensures
            match spellchecked(self.terms(), self.frequencies(), term@) {
                Some(t) => r is Some && r->Some_0@ == t,
                None => r is None,
            },
            self.terms().contains(term@) ==> r is Some && r->Some_0@ == term@,
            r matches Some(t) ==> self.terms().contains(t@),
    {
        proof {
            use_type_invariant(self);
        }
        match self.get_term_index(term) {
            Some(i) => {
                proof {
                    assert(terms_view(self.index_to_term@)[i as int] == term@);
                }
                Some(String::from_str(term))
            },
            None => match self.get_closest_index(term) {
                Some(i) => {
                    proof {
                        assert(self.terms()[i as int] == self.index_to_term@[i as int]@);
                    }
                    Some(self.index_to_term[i].clone())
                },
                None => None,
            },
        }
    }

    /// The edit distance of two strings, by characters.
    pub fn levenshtein_distance(s1: &str, s2: &str) -> (d: usize)
        ensures
            d == edit_distance(s1@, s2@),
    {
        let a = chars_of(s1);
        let b = chars_of(s2);
        let n: usize = a.len();
        let m: usize = b.len();
        let mut prev: Vec<usize> = Vec::new();
        prev.push(0);
        let mut j: usize = 0;
        proof {
            assert(b@.take(0) =~= Seq::empty());
            assert(a@.take(0) =~= Seq::empty());
        }
        while j < m
            invariant
                j <= m,
                m == b@.len(),
                prev@.len() == j + 1,
                forall|k: int| 0 <= k <= j ==> prev@[k] == edit_distance(a@.take(0), b@.take(k)),
            decreases m - j,
        {
            proof {
                assert(a@.take(0) =~= Seq::empty());
            }
            prev.push(j + 1);
            j += 1;
        }
        let mut i: usize = 0;
        while i < n
            invariant
                i <= n,
                n == a@.len(),
                m == b@.len(),
                prev@.len() == m + 1,
                forall|k: int|
                    0 <= k <= m ==> prev@[k] == edit_distance(a@.take(i as int), b@.take(k)),
            decreases n - i,
        {
            let mut cur: Vec<usize> = Vec::new();
            proof {
                assert(b@.take(0) =~= Seq::empty());
                assert(a@.take(i + 1).len() == i + 1);
            }
            cur.push(i + 1);
            let mut j: usize = 0;
            while j < m
                invariant
                    j <= m,
                    i < n,
                    n == a@.len(),
                    m == b@.len(),
                    prev@.len() == m + 1,
                    cur@.len() == j + 1,
                    forall|k: int|
                        0 <= k <= m ==> prev@[k] == edit_distance(a@.take(i as int), b@.take(k)),
                    forall|k: int|
                        0 <= k <= j ==> cur@[k] == edit_distance(a@.take(i + 1), b@.take(k)),
                decreases m - j,
            {
                proof {
                    let x = a@.take(i + 1);
                    let y = b@.take(j + 1);
                    assert(x.drop_last() =~= a@.take(i as int));
                    assert(y.drop_last() =~= b@.take(j as int));
                    assert(x.last() == a@[i as int]);
                    assert(y.last() == b@[j as int]);
                    lemma_edit_distance_bound(a@.take(i as int), b@.take(j as int));
                }
                let value: usize = if a[i] == b[j] {
                    prev[j]
                } else {
                    let diagonal: usize = prev[j];
                    let left: usize = cur[j];
                    let up: usize = prev[j + 1];
                    let least: usize = if diagonal <= left && diagonal <= up {
                        diagonal
                    } else if left <= up {
                        left
                    } else {
                        up
                    };
                    1 + least
                };
                cur.push(value);
                j += 1;
            }
            prev = cur;
            i += 1;
        }
        proof {
            assert(a@.take(n as int) =~= a@);
            assert(b@.take(m as int) =~= b@);
        }
        prev[m]
    }

    /// The index of the term that best corrects a query term.
    pub fn get_closest_index(&self, term: &str) -> (r: Option<usize>)
        ensures
            r == closest_index(self.terms(), self.frequencies(), term@),
            r matches Some(i) ==> i < self.terms().len(),
    {
        proof {
            use_type_invariant(self);
        }
        let ghost tv = self.terms();
        let ghost fv = self.frequencies();
        let q = chars_of(term);
        if q.len() < 3 {
            return None;
        }
        let windows: usize = q.len() - 2;
        let mut best: Option<usize> = None;
        let mut best_distance: usize = 0;
        let mut w: usize = 0;
        while w < windows
            invariant
                w <= windows,
                windows == q@.len() - 2,
                q@.len() <= usize::MAX,
                q@ == term@,
                tv == terms_view(self.index_to_term@),
                fv == self.frequencies@,
                fv.len() == tv.len(),
                index_of_all(trigram_map_entries(self.trigram_index), tv),
                best == first_best(tv, fv, q@, candidates(tv, q@, w as nat)),
                best matches Some(b) ==> b < tv.len() && best_distance == edit_distance(
                    q@,
                    tv[b as int],
                ),
            decreases windows - w,
        {
            let text: String = trigram_of(q[w], q[w + 1], q[w + 2]);
            let ghost key = text@;
            let ghost done = candidates(tv, q@, w as nat);
            let ghost list = trigram_list(tv, key, tv.len());
            proof {
                assert(window_key(q@, w as int) =~= key);
                lemma_trigram_list_bound(tv, key, tv.len());
                assert(done + list.take(0) =~= done);
            }
            match trigram_map_get(&self.trigram_index, text.as_str()) {
                Some(bucket) => {
                    let mut c: usize = 0;
                    while c < bucket.len()
                        invariant
                            c <= bucket.len(),
                            bucket@ == list,
                            q@ == term@,
                            tv == terms_view(self.index_to_term@),
                            fv == self.frequencies@,
                            fv.len() == tv.len(),
                            forall|x: int| 0 <= x < list.len() ==> #[trigger] list[x] < tv.len(),
                            best == first_best(tv, fv, q@, done + list.take(c as int)),
                            best matches Some(b) ==> b < tv.len() && best_distance
                                == edit_distance(q@, tv[b as int]),
                        decreases bucket.len() - c,
                    {
                        let candidate: usize = bucket[c];
                        proof {
                            let grown = done + list.take(c + 1);
                            assert(grown.drop_last() =~= done + list.take(c as int));
                            assert(grown.last() == candidate);
                            assert(tv[candidate as int] == self.index_to_term@[candidate as int]@);
                        }
                        let distance: usize = Self::levenshtein_distance(
                            term,
                            self.index_to_term[candidate].as_str(),
                        );
                        let better: bool = match best {
                            None => true,
                            Some(b) => distance < best_distance || (distance == best_distance
                                && self.frequencies[candidate] > self.frequencies[b]),
                        };
                        if better {
                            best = Some(candidate);
                            best_distance = distance;
                        }
                        c += 1;
                    }
                    proof {
                        assert(list.take(c as int) =~= list);
                    }
                },
                None => {
                    proof {
                        assert(list =~= Seq::empty());
                        assert(done + list =~= done);
                    }
                },
            }
            w += 1;
        }
        best
    }
}

} // verus!
