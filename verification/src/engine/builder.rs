//! The build: from the preprocessed documents of a corpus to the index in
//! memory, with positional postings and the frequency band applied.
use vstd::prelude::*;
use vstd::utf8::encode_utf8;
use vstd::string::StringExecFns;
use crate::disk::codes::{strictly_ascending, gap_codable};
use crate::engine::{Engine, IndexFiles, InMemory, files_of};
use crate::engine::postings::offsets_storable;
use crate::engine::documents::{Document, documents_view, document_storable};
use crate::engine::postings::{
    Posting, PostingsList, postings_view, postings_storable, document_ids,
};
use fxhash::FxHashMap;
use crate::engine::term_map::{
    term_map_entries, new_term_map, term_map_insert, term_map_get, doc_map_entries, new_doc_map,
    doc_map_insert, doc_map_get,
};
use crate::engine::sorting::{places_of, sort_places, lemma_term_le};
use crate::engine::terms::{sorted_terms, terms_view, term_lt, lemma_term_order};

verus! {

/// Path and tokens of each document.
pub open spec fn corpus_view(corpus: Seq<(String, Vec<String>)>) -> Seq<
    (Seq<char>, Seq<Seq<char>>),
> {
    corpus.map_values(|d: (String, Vec<String>)| (d.0@, terms_view(d.1@)))
}

/// The positions below `n` at which `t` stands among the tokens.
pub open spec fn occurrences(tokens: Seq<Seq<char>>, t: Seq<char>, n: nat) -> Seq<u32>
    decreases n,
{
    if n == 0 {
        Seq::empty()
    } else {
        let rest = occurrences(tokens, t, (n - 1) as nat);
        if tokens[n - 1] == t {
            rest.push((n - 1) as u32)
        } else {
            rest
        }
    }
}

/// The posting of `t` in document `d`, from its first `n` tokens: none if
/// `t` is not among them.
pub open spec fn doc_posting(tokens: Seq<Seq<char>>, t: Seq<char>, d: nat, n: nat) -> Seq<
    (u32, u32, Seq<u32>),
> {
    let occ = occurrences(tokens, t, n);
    if occ.len() > 0 {
        seq![(d as u32, occ.len() as u32, occ)]
    } else {
        Seq::empty()
    }
}

/// The postings of `t` in the first `d` documents.
pub open spec fn postings_upto(docs: Seq<(Seq<char>, Seq<Seq<char>>)>, t: Seq<char>, d: nat) -> Seq<
    (u32, u32, Seq<u32>),
>
    decreases d,
{
    if d == 0 {
        Seq::empty()
    } else {
        postings_upto(docs, t, (d - 1) as nat) + doc_posting(
            docs[d - 1].1,
            t,
            (d - 1) as nat,
            docs[d - 1].1.len(),
        )
    }
}

/// The postings of `t` in the corpus.
pub open spec fn postings_of(docs: Seq<(Seq<char>, Seq<Seq<char>>)>, t: Seq<char>) -> Seq<
    (u32, u32, Seq<u32>),
> {
    postings_upto(docs, t, docs.len())
}

/// The number of documents that hold `t`.
pub open spec fn collection_frequency(docs: Seq<(Seq<char>, Seq<Seq<char>>)>, t: Seq<char>) -> nat {
    postings_of(docs, t).len()
}

/// The frequency band: a term is retained if more than `min` documents and
/// at most `max` documents hold it.
pub open spec fn in_band(frequency: nat, min: u32, max: u32) -> bool {
    min < frequency <= max
}

/// Path and length of each document of a corpus.
pub open spec fn corpus_documents(docs: Seq<(Seq<char>, Seq<Seq<char>>)>) -> Seq<(Seq<char>, u32)> {
    docs.map_values(|d: (Seq<char>, Seq<Seq<char>>)| (d.0, d.1.len() as u32))
}

/// The formats can hold the corpus: fewer documents, fewer tokens in a
/// document and fewer bytes in a path or a token than the largest `u32`.
pub open spec fn corpus_fits(docs: Seq<(Seq<char>, Seq<Seq<char>>)>) -> bool {
    &&& docs.len() < u32::MAX
    &&& forall|d: int|
        0 <= d < docs.len() ==> encode_utf8((#[trigger] docs[d]).0).len() < u32::MAX
            && docs[d].1.len() < u32::MAX
    &&& forall|d: int, p: int|
        0 <= d < docs.len() && 0 <= p < docs[d].1.len() ==> encode_utf8(
            #[trigger] docs[d].1[p],
        ).len() < u32::MAX
}

/// What a posting list becomes when one more occurrence, in document `d`
/// at position `p`, is recorded.
pub open spec fn extended(list: Seq<(u32, u32, Seq<u32>)>, d: u32, p: u32) -> Seq<
    (u32, u32, Seq<u32>),
> {
    if list.len() > 0 && list.last().0 == d {
        list.drop_last().push((d, (list.last().1 + 1) as u32, list.last().2.push(p)))
    } else {
        list.push((d, 1u32, seq![p]))
    }
}

pub proof fn lemma_occurrences(tokens: Seq<Seq<char>>, t: Seq<char>, n: nat)
    requires
        n <= tokens.len(),
        n <= u32::MAX,
    ensures
        occurrences(tokens, t, n).len() <= n,
        strictly_ascending(occurrences(tokens, t, n)),
        forall|i: int|
            0 <= i < occurrences(tokens, t, n).len() ==> #[trigger] occurrences(tokens, t, n)[i]
                < n,
        occurrences(tokens, t, n).len() > 0 <==> exists|p: int| 0 <= p < n && tokens[p] == t,
    decreases n,
{
    if n > 0 {
        lemma_occurrences(tokens, t, (n - 1) as nat);
        let rest = occurrences(tokens, t, (n - 1) as nat);
        if tokens[n - 1] == t {
            assert(occurrences(tokens, t, n).len() > 0);
        } else {
            if exists|p: int| 0 <= p < n && tokens[p] == t {
                let p = choose|p: int| 0 <= p < n && tokens[p] == t;
                assert(0 <= p < n - 1 && tokens[p] == t);
            }
        }
        if rest.len() > 0 {
            let p = choose|p: int| 0 <= p < n - 1 && tokens[p] == t;
            assert(0 <= p < n && tokens[p] == t);
        }
    }
}

/// The postings of a term in the first `d` documents have ascending
/// document ids below `d`, ascending positions, and values small enough to
/// be stored.
pub proof fn lemma_postings_upto(docs: Seq<(Seq<char>, Seq<Seq<char>>)>, t: Seq<char>, d: nat)
    requires
        d <= docs.len(),
        corpus_fits(docs),
    ensures
        postings_upto(docs, t, d).len() <= d,
        forall|i: int|
            0 <= i < postings_upto(docs, t, d).len() ==> (#[trigger] postings_upto(docs, t, d)[i]).0
                < d,
        postings_storable(postings_upto(docs, t, d)),
    decreases d,
{
    let list = postings_upto(docs, t, d);
    if d > 0 {
        let rest = postings_upto(docs, t, (d - 1) as nat);
        lemma_postings_upto(docs, t, (d - 1) as nat);
        let tokens = docs[d - 1].1;
        lemma_occurrences(tokens, t, tokens.len());
        let here = doc_posting(tokens, t, (d - 1) as nat, tokens.len());
        assert(list =~= rest + here);
        let ids = document_ids(list);
        let rids = document_ids(rest);
        assert forall|i: int, j: int| 0 <= i < j < ids.len() implies ids[i] < ids[j] by {
            assert(ids[i] == list[i].0 && ids[j] == list[j].0);
            if j < rest.len() {
                assert(rids[i] == rest[i].0 && rids[j] == rest[j].0);
            } else {
                assert(list[i] == rest[i]);
            }
        }
        assert forall|i: int| 0 <= i < ids.len() implies ids[i] < u32::MAX by {
            assert(ids[i] == list[i].0);
        }
        assert forall|i: int| 0 <= i < list.len() implies (#[trigger] list[i]).1 < u32::MAX
            && gap_codable(list[i].2) by {
            if i < rest.len() {
                assert(list[i] == rest[i]);
            }
        }
    } else {
        assert(document_ids(list) =~= Seq::empty());
    }
}

/// Recording the occurrence at position `p` of document `d` turns the
/// postings as of `p` into the postings as of `p + 1`, for the token that
/// stands there, and leaves those of all other terms as they are.
pub proof fn lemma_extended(
    docs: Seq<(Seq<char>, Seq<Seq<char>>)>,
    t: Seq<char>,
    d: nat,
    p: nat,
)
    requires
        d < docs.len(),
        p < docs[d as int].1.len(),
        corpus_fits(docs),
    ensures
        ({
            let tokens = docs[d as int].1;
            let before = postings_upto(docs, t, d) + doc_posting(tokens, t, d, p);
            let after = postings_upto(docs, t, d) + doc_posting(tokens, t, d, p + 1);
            if tokens[p as int] == t {
                after == extended(before, d as u32, p as u32)
            } else {
                after == before
            }
        }),
{
    let tokens = docs[d as int].1;
    let base = postings_upto(docs, t, d);
    let occ = occurrences(tokens, t, p);
    let before = base + doc_posting(tokens, t, d, p);
    let after = base + doc_posting(tokens, t, d, p + 1);
    lemma_postings_upto(docs, t, d);
    lemma_occurrences(tokens, t, p);
    if tokens[p as int] == t {
        if occ.len() > 0 {
            assert(before.last() == (d as u32, occ.len() as u32, occ));
            assert(before.drop_last() =~= base);
            assert(after =~= extended(before, d as u32, p as u32));
        } else {
            assert(before =~= base);
            if base.len() > 0 {
                assert(base[base.len() - 1].0 < d);
            }
            assert(occurrences(tokens, t, p + 1) =~= seq![p as u32]);
            assert(after =~= extended(before, d as u32, p as u32));
        }
    }
}

/// The state of the accumulation: the terms in the order in which they
/// were first seen, in `postings` the list of each at the place of the
/// term, which is the list that `lists` gives for it, and a map that finds
/// the place of a term. Every term with a list that is not empty is among
/// the terms.
pub open spec fn accumulated(
    entries: Map<Seq<char>, usize>,
    terms: Seq<String>,
    postings: Seq<PostingsList>,
    lists: spec_fn(Seq<char>) -> Seq<(u32, u32, Seq<u32>)>,
) -> bool {
    &&& postings.len() == terms.len()
    &&& forall|j: int|
        0 <= j < terms.len() ==> entries.contains_key(#[trigger] terms[j]@) && entries[terms[j]@]
            == j
    &&& forall|t: Seq<char>| #[trigger]
        entries.contains_key(t) ==> entries[t] < terms.len() && terms[entries[t] as int]@ == t
    &&& forall|j: int|
        0 <= j < terms.len() ==> postings_view(#[trigger] postings[j]@) == lists(terms[j]@)
    &&& forall|t: Seq<char>| (#[trigger] lists(t)).len() > 0 ==> entries.contains_key(t)
}

/// The map finds each posting of the list by its document id, and holds
/// no other id.
pub open spec fn places_agree(places: Map<u32, usize>, list: Seq<(u32, u32, Seq<u32>)>) -> bool {
    &&& forall|i: int|
        0 <= i < list.len() ==> places.contains_key((#[trigger] list[i]).0) && places[list[i].0]
            == i
    &&& forall|d: u32| #[trigger]
        places.contains_key(d) ==> places[d] < list.len() && list[places[d] as int].0 == d
}

/// Each term has a map from document ids to places that agrees with its
/// list.
pub open spec fn all_places_agree(
    doc_maps: Seq<FxHashMap<u32, usize>>,
    postings: Seq<PostingsList>,
) -> bool {
    &&& doc_maps.len() == postings.len()
    &&& forall|j: int|
        0 <= j < doc_maps.len() ==> places_agree(
            doc_map_entries(#[trigger] doc_maps[j]),
            postings_view(postings[j]@),
        )
}

/// Makes sure that `token` is among the terms; returns its place.
fn slot_of(
    map: &mut FxHashMap<String, usize>,
    terms: &mut Vec<String>,
    postings: &mut Vec<PostingsList>,
    doc_maps: &mut Vec<FxHashMap<u32, usize>>,
    token: &str,
    Ghost(lists): Ghost<spec_fn(Seq<char>) -> Seq<(u32, u32, Seq<u32>)>>,
) -> (slot: usize)
    requires
        accumulated(term_map_entries(*old(map)), old(terms)@, old(postings)@, lists),
        all_places_agree(old(doc_maps)@, old(postings)@),
    ensures
        accumulated(term_map_entries(*final(map)), final(terms)@, final(postings)@, lists),
        all_places_agree(final(doc_maps)@, final(postings)@),
        slot < final(postings)@.len(),
        final(terms)@[slot as int]@ == token@,
{
    let found: Option<usize> = term_map_get(map, token);
    if found.is_some() {
        found.unwrap()
    } else {
        let ghost entries0 = term_map_entries(*map);
        let ghost terms0 = terms@;
        let ghost postings0 = postings@;
        let ghost doc_maps0 = doc_maps@;
        let slot: usize = terms.len();
        term_map_insert(map, String::from_str(token), slot);
        terms.push(String::from_str(token));
        postings.push(Vec::new());
        doc_maps.push(new_doc_map());
        proof {
            let entries = term_map_entries(*map);
            assert(lists(token@).len() == 0) by {
                if lists(token@).len() > 0 {
                    assert(entries0.contains_key(token@));
                }
            }
            assert(postings_view(postings@[slot as int]@) =~= lists(token@));
            assert forall|j: int| 0 <= j < terms@.len() implies entries.contains_key(
                #[trigger] terms@[j]@,
            ) && entries[terms@[j]@] == j by {
                if j < slot {
                    assert(terms@[j] == terms0[j]);
                    assert(entries0.contains_key(terms0[j]@));
                }
            }
            assert forall|t: Seq<char>| #[trigger] entries.contains_key(t) implies entries[t]
                < terms@.len() && terms@[entries[t] as int]@ == t by {
                if t != token@ {
                    assert(entries0.contains_key(t));
                    assert(terms@[entries0[t] as int] == terms0[entries0[t] as int]);
                }
            }
            assert forall|j: int| 0 <= j < terms@.len() implies postings_view(
                #[trigger] postings@[j]@,
            ) == lists(terms@[j]@) by {
                if j < slot {
                    assert(terms@[j] == terms0[j] && postings@[j] == postings0[j]);
                }
            }
            assert forall|j: int| 0 <= j < doc_maps@.len() implies places_agree(
                doc_map_entries(#[trigger] doc_maps@[j]),
                postings_view(postings@[j]@),
            ) by {
                if j < slot {
                    assert(doc_maps@[j] == doc_maps0[j] && postings@[j] == postings0[j]);
                }
            }
        }
        slot
    }
}

/// Makes sure that the list has a posting for the document, a new one
/// recording no occurrence yet; returns its place.
fn entry_of(places: &mut FxHashMap<u32, usize>, list: &mut PostingsList, doc_id: u32) -> (at: usize)
    requires
        places_agree(doc_map_entries(*old(places)), postings_view(old(list)@)),
    ensures
        places_agree(doc_map_entries(*final(places)), postings_view(final(list)@)),
        at < final(list)@.len(),
        postings_view(final(list)@)[at as int].0 == doc_id,
        doc_map_entries(*old(places)).contains_key(doc_id) ==> postings_view(final(list)@)
            == postings_view(old(list)@),
        !doc_map_entries(*old(places)).contains_key(doc_id) ==> at == old(list)@.len()
            && postings_view(final(list)@) == postings_view(old(list)@).push(
            (doc_id, 0u32, Seq::<u32>::empty()),
        ),
{
    let found: Option<usize> = doc_map_get(places, doc_id);
    if found.is_some() {
        found.unwrap()
    } else {
        let ghost list0 = postings_view(list@);
        let ghost places0 = doc_map_entries(*places);
        let at: usize = list.len();
        doc_map_insert(places, doc_id, at);
        list.push(Posting { document_id: doc_id, document_frequency: 0, positions: Vec::new() });
        proof {
            let now = postings_view(list@);
            let entries = doc_map_entries(*places);
            assert(now =~= list0.push((doc_id, 0u32, Seq::<u32>::empty())));
            assert forall|i: int| 0 <= i < now.len() implies entries.contains_key(
                (#[trigger] now[i]).0,
            ) && entries[now[i].0] == i by {
                if i < at {
                    assert(now[i] == list0[i]);
                    assert(places0.contains_key(list0[i].0));
                }
            }
            assert forall|d: u32| #[trigger] entries.contains_key(d) implies entries[d] < now.len()
                && now[entries[d] as int].0 == d by {
                if d != doc_id {
                    assert(places0.contains_key(d));
                    assert(now[places0[d] as int] == list0[places0[d] as int]);
                }
            }
        }
        at
    }
}

/// Records one occurrence of `token`, in document `doc_id` at position
/// `pos`.
fn add_occurrence(
    map: &mut FxHashMap<String, usize>,
    terms: &mut Vec<String>,
    postings: &mut Vec<PostingsList>,
    doc_maps: &mut Vec<FxHashMap<u32, usize>>,
    token: &str,
    doc_id: u32,
    pos: u32,
    Ghost(lists): Ghost<spec_fn(Seq<char>) -> Seq<(u32, u32, Seq<u32>)>>,
)
    requires
        accumulated(term_map_entries(*old(map)), old(terms)@, old(postings)@, lists),
        all_places_agree(old(doc_maps)@, old(postings)@),
        forall|i: int|
            0 <= i < lists(token@).len() && (#[trigger] lists(token@)[i]).0 == doc_id ==> i
                == lists(token@).len() - 1 && lists(token@)[i].1 < u32::MAX,
    ensures
        accumulated(
            term_map_entries(*final(map)),
            final(terms)@,
            final(postings)@,
            |t: Seq<char>|
                if t == token@ {
                    extended(lists(t), doc_id, pos)
                } else {
                    lists(t)
                },
        ),
        all_places_agree(final(doc_maps)@, final(postings)@),
{
    let slot: usize = slot_of(map, terms, postings, doc_maps, token, Ghost(lists));
    let ghost postings0 = postings@;
    let ghost doc_maps0 = doc_maps@;
    let ghost list0 = postings_view(postings@[slot as int]@);
    let ghost places0 = doc_map_entries(doc_maps@[slot as int]);
    proof {
        assert(list0 == lists(token@));
        assert(places_agree(places0, list0));
    }
    let list = &mut postings[slot];
    let at: usize = entry_of(&mut doc_maps[slot], list, doc_id);
    let ghost list1 = postings_view(list@);
    proof {
        if places0.contains_key(doc_id) {
            assert(list0[places0[doc_id] as int].0 == doc_id);
            assert(list0[at as int].0 == doc_id);
            assert(places0.contains_key(list0[at as int].0));
            assert(at == list0.len() - 1);
        } else {
            if list0.len() > 0 {
                assert(places0.contains_key(list0[list0.len() - 1].0));
            }
        }
        assert(list1[at as int] == list@[at as int]@);
    }
    let entry = &mut list[at];
    entry.document_frequency += 1;
    entry.positions.push(pos);
    proof {
        let entries = term_map_entries(*map);
        let after = |t: Seq<char>|
            if t == token@ {
                extended(lists(t), doc_id, pos)
            } else {
                lists(t)
            };
        let new_list = postings_view(postings@[slot as int]@);
        assert(new_list.len() == list1.len());
        assert(new_list[at as int] == (
            doc_id,
            (list1[at as int].1 + 1) as u32,
            list1[at as int].2.push(pos),
        ));
        assert forall|i: int| 0 <= i < new_list.len() && i != at implies new_list[i]
            == list1[i] by {}
        if places0.contains_key(doc_id) {
            assert(list1 == list0);
            assert(list0.last().0 == doc_id);
            assert(new_list =~= list0.drop_last().push(
                (doc_id, (list0.last().1 + 1) as u32, list0.last().2.push(pos)),
            ));
        } else {
            assert(list1 == list0.push((doc_id, 0u32, Seq::<u32>::empty())));
            assert(Seq::<u32>::empty().push(pos) =~= seq![pos]);
            assert(new_list =~= list0.push((doc_id, 1u32, seq![pos])));
        }
        assert(new_list =~= extended(list0, doc_id, pos));
        assert forall|j: int| 0 <= j < terms@.len() implies postings_view(
            #[trigger] postings@[j]@,
        ) == after(terms@[j]@) by {
            assert(entries.contains_key(terms@[j]@) && entries[terms@[j]@] == j);
            assert(entries.contains_key(terms@[slot as int]@) && entries[terms@[slot as int]@]
                == slot);
            if j != slot {
                assert(postings@[j] == postings0[j]);
            }
        }
        assert forall|t: Seq<char>| (#[trigger] after(t)).len() > 0 implies entries.contains_key(
            t,
        ) by {
            if t == token@ {
                assert(entries.contains_key(terms@[slot as int]@));
            } else {
                assert(lists(t).len() > 0);
            }
        }
        let places = doc_map_entries(doc_maps@[slot as int]);
        assert(places_agree(places, list1));
        assert forall|i: int| 0 <= i < new_list.len() implies places.contains_key(
            (#[trigger] new_list[i]).0,
        ) && places[new_list[i].0] == i by {
            assert(new_list[i].0 == list1[i].0);
            assert(places.contains_key(list1[i].0));
        }
        assert forall|d: u32| #[trigger] places.contains_key(d) implies places[d] < new_list.len()
            && new_list[places[d] as int].0 == d by {
            assert(new_list[places[d] as int].0 == list1[places[d] as int].0);
        }
        assert forall|j: int| 0 <= j < doc_maps@.len() implies places_agree(
            doc_map_entries(#[trigger] doc_maps@[j]),
            postings_view(postings@[j]@),
        ) by {
            if j != slot {
                assert(doc_maps@[j] == doc_maps0[j] && postings@[j] == postings0[j]);
            }
        }
    }
}

/// The lists as of document `d`, position `p`.
pub open spec fn lists_at(docs: Seq<(Seq<char>, Seq<Seq<char>>)>, d: nat, p: nat) -> spec_fn(
    Seq<char>,
) -> Seq<(u32, u32, Seq<u32>)> {
    |t: Seq<char>| postings_upto(docs, t, d) + doc_posting(docs[d as int].1, t, d, p)
}

/// The lists as of the first `d` documents.
pub open spec fn lists_upto(docs: Seq<(Seq<char>, Seq<Seq<char>>)>, d: nat) -> spec_fn(
    Seq<char>,
) -> Seq<(u32, u32, Seq<u32>)> {
    |t: Seq<char>| postings_upto(docs, t, d)
}

proof fn lemma_accumulated_same(
    entries: Map<Seq<char>, usize>,
    terms: Seq<String>,
    postings: Seq<PostingsList>,
    f: spec_fn(Seq<char>) -> Seq<(u32, u32, Seq<u32>)>,
    g: spec_fn(Seq<char>) -> Seq<(u32, u32, Seq<u32>)>,
)
    requires
        accumulated(entries, terms, postings, f),
        forall|t: Seq<char>| #[trigger] g(t) == f(t),
    ensures
        accumulated(entries, terms, postings, g),
{
    assert forall|j: int| 0 <= j < terms.len() implies postings_view(#[trigger] postings[j]@) == g(
        terms[j]@,
    ) by {
        assert(g(terms[j]@) == f(terms[j]@));
    }
}

/// `index` is the index of the corpus `docs` for the frequency band from
/// `min` (exclusive) to `max` (inclusive): its terms are those in the
/// band, sorted, each with its postings, and its documents are those of
/// the corpus, in order.
pub open spec fn built(
    docs: Seq<(Seq<char>, Seq<Seq<char>>)>,
    min: u32,
    max: u32,
    index: InMemory,
) -> bool {
    let tv = terms_view(index.terms@);
    &&& sorted_terms(tv)
    &&& index.term_indices@.len() == index.terms@.len()
    &&& forall|i: int|
        0 <= i < tv.len() ==> (#[trigger] index.term_indices@[i]) < index.postings@.len()
    &&& forall|t: Seq<char>| #[trigger]
        tv.contains(t) <==> in_band(collection_frequency(docs, t), min, max)
    &&& forall|i: int| 0 <= i < tv.len() ==> #[trigger] index.term_postings(i) == postings_of(
        docs,
        tv[i],
    )
    &&& documents_view(index.documents@) == corpus_documents(docs)
}

/// An index that was built of a corpus that fits can be written, unless it
/// has too many terms.
pub proof fn lemma_built_is_well_formed(
    docs: Seq<(Seq<char>, Seq<Seq<char>>)>,
    min: u32,
    max: u32,
    index: InMemory,
)
    requires
        corpus_fits(docs),
        built(docs, min, max, index),
        index.terms@.len() < u32::MAX,
    ensures
        index.wf(),
{
    let tv = terms_view(index.terms@);
    assert forall|i: int| 0 <= i < index.terms@.len() implies encode_utf8(
        #[trigger] index.terms@[i]@,
    ).len() < u32::MAX by {
        let t = tv[i];
        assert(tv.contains(t));
        lemma_term_in_corpus(docs, t, docs.len());
        let (d, p) = choose|d: int, p: int|
            0 <= d < docs.len() && 0 <= p < docs[d].1.len() && docs[d].1[p] == t;
        assert(encode_utf8(docs[d].1[p]).len() < u32::MAX);
    }
    assert forall|i: int| 0 <= i < index.terms@.len() implies postings_storable(
        #[trigger] index.term_postings(i),
    ) by {
        assert(index.term_postings(i) == postings_of(docs, tv[i]));
        lemma_postings_upto(docs, tv[i], docs.len());
    }
    let dv = documents_view(index.documents@);
    assert forall|i: int| 0 <= i < dv.len() implies document_storable(#[trigger] dv[i]) by {
        assert(dv[i] == (docs[i].0, docs[i].1.len() as u32));
    }
}

/// A term with postings stands somewhere in the corpus.
pub proof fn lemma_term_in_corpus(docs: Seq<(Seq<char>, Seq<Seq<char>>)>, t: Seq<char>, n: nat)
    requires
        n <= docs.len(),
        corpus_fits(docs),
        postings_upto(docs, t, n).len() > 0,
    ensures
        exists|d: int, p: int| 0 <= d < n && 0 <= p < docs[d].1.len() && docs[d].1[p] == t,
    decreases n,
{
    if n > 0 {
        let tokens = docs[n - 1].1;
        if doc_posting(tokens, t, (n - 1) as nat, tokens.len()).len() > 0 {
            lemma_occurrences(tokens, t, tokens.len());
            let p = choose|p: int| 0 <= p < tokens.len() && tokens[p] == t;
            assert(0 <= n - 1 < n && 0 <= p < docs[n - 1].1.len() && docs[n - 1].1[p] == t);
        } else {
            lemma_term_in_corpus(docs, t, (n - 1) as nat);
            let (d, p) = choose|d: int, p: int|
                0 <= d < n - 1 && 0 <= p < docs[d].1.len() && docs[d].1[p] == t;
            assert(0 <= d < n && 0 <= p < docs[d].1.len() && docs[d].1[p] == t);
        }
    }
}

/// Two indexes built of the same corpus for the same band have the same
/// terms, postings and documents: the build is a function of its input.
pub proof fn lemma_build_is_deterministic(
    docs: Seq<(Seq<char>, Seq<Seq<char>>)>,
    min: u32,
    max: u32,
    a: InMemory,
    b: InMemory,
)
    requires
        built(docs, min, max, a),
        built(docs, min, max, b),
    ensures
        terms_view(a.terms@) == terms_view(b.terms@),
        forall|i: int| 0 <= i < a.terms@.len() ==> a.term_postings(i) == b.term_postings(i),
        documents_view(a.documents@) == documents_view(b.documents@),
{
    let ta = terms_view(a.terms@);
    let tb = terms_view(b.terms@);
    lemma_sorted_same_terms(ta, tb);
}

/// Sorted lists with the same terms are the same list.
pub proof fn lemma_sorted_same_terms(a: Seq<Seq<char>>, b: Seq<Seq<char>>)
    requires
        sorted_terms(a),
        sorted_terms(b),
        forall|t: Seq<char>| a.contains(t) <==> b.contains(t),
    ensures
        a == b,
    decreases a.len(),
{
    if a.len() == 0 {
        if b.len() > 0 {
            assert(b.contains(b[0]));
        }
        assert(a =~= b);
    } else {
        assert(a.contains(a.last()));
        assert(b.contains(a.last()));
        let k = choose|k: int| 0 <= k < b.len() && b[k] == a.last();
        assert(b.contains(b.last()));
        let m = choose|m: int| 0 <= m < a.len() && a[m] == b.last();
        lemma_term_order(a.last(), b.last(), a.last());
        if k < b.len() - 1 {
            assert(term_lt(b[k], b.last()));
            if m < a.len() - 1 {
                assert(term_lt(a[m], a.last()));
            }
        }
        assert(a.last() == b.last());
        let ta = a.drop_last();
        let tb = b.drop_last();
        assert forall|t: Seq<char>| ta.contains(t) <==> tb.contains(t) by {
            if ta.contains(t) {
                let i = choose|i: int| 0 <= i < ta.len() && ta[i] == t;
                assert(a[i] == t);
                assert(a.contains(t));
                let j = choose|j: int| 0 <= j < b.len() && b[j] == t;
                if j == b.len() - 1 {
                    assert(term_lt(a[i], a.last()));
                    lemma_term_order(t, t, t);
                }
                assert(tb[j] == t);
            }
            if tb.contains(t) {
                let i = choose|i: int| 0 <= i < tb.len() && tb[i] == t;
                assert(b[i] == t);
                assert(b.contains(t));
                let j = choose|j: int| 0 <= j < a.len() && a[j] == t;
                if j == a.len() - 1 {
                    assert(term_lt(b[i], b.last()));
                    lemma_term_order(t, t, t);
                }
                assert(ta[j] == t);
            }
        }
        lemma_sorted_same_terms(ta, tb);
        assert(a =~= ta.push(a.last()));
        assert(b =~= tb.push(b.last()));
    }
}

/// Records the postings of all documents of a corpus.
fn accumulate(processed_documents: &Vec<(String, Vec<String>)>) -> (r: (
    FxHashMap<String, usize>,
    Vec<String>,
    Vec<PostingsList>,
    Vec<Document>,
))
    requires
        corpus_fits(corpus_view(processed_documents@)),
    ensures
        accumulated(
            term_map_entries(r.0),
            r.1@,
            r.2@,
            lists_upto(corpus_view(processed_documents@), processed_documents@.len()),
        ),
        documents_view(r.3@) == corpus_documents(corpus_view(processed_documents@)),
{
    let ghost docs = corpus_view(processed_documents@);
    let mut map: FxHashMap<String, usize> = new_term_map();
    let mut terms: Vec<String> = Vec::new();
    let mut postings: Vec<PostingsList> = Vec::new();
    let mut doc_maps: Vec<FxHashMap<u32, usize>> = Vec::new();
    let mut documents: Vec<Document> = Vec::new();
    let mut doc_id: usize = 0;
    proof {
        assert(documents_view(documents@) =~= corpus_documents(docs).take(0));
    }
    while doc_id < processed_documents.len()
        invariant
            doc_id <= processed_documents.len(),
            docs == corpus_view(processed_documents@),
            corpus_fits(docs),
            accumulated(
                term_map_entries(map),
                terms@,
                postings@,
                lists_upto(docs, doc_id as nat),
            ),
            all_places_agree(doc_maps@, postings@),
            documents_view(documents@) == corpus_documents(docs).take(doc_id as int),
        decreases processed_documents.len() - doc_id,
    {
        let path: &String = &processed_documents[doc_id].0;
        let tokens: &Vec<String> = &processed_documents[doc_id].1;
        let ghost tv = docs[doc_id as int].1;
        proof {
            assert(docs[doc_id as int] == (path@, terms_view(tokens@)));
            assert(tv.len() < u32::MAX);
        }
        let ghost before = documents@;
        documents.push(Document { path: path.clone(), length: tokens.len() as u32 });
        proof {
            let all = corpus_documents(docs);
            assert(documents_view(documents@) =~= documents_view(before).push(
                (path@, tokens@.len() as u32),
            ));
            assert(all.take(doc_id + 1) =~= all.take(doc_id as int).push(all[doc_id as int]));
            lemma_accumulated_same(
                term_map_entries(map),
                terms@,
                postings@,
                lists_upto(docs, doc_id as nat),
                lists_at(docs, doc_id as nat, 0),
            );
        }
        let mut word_pos: usize = 0;
        while word_pos < tokens.len()
            invariant
                word_pos <= tokens.len(),
                doc_id < processed_documents.len(),
                docs == corpus_view(processed_documents@),
                corpus_fits(docs),
                tv == docs[doc_id as int].1,
                tv == terms_view(tokens@),
                tv.len() < u32::MAX,
                accumulated(
                    term_map_entries(map),
                    terms@,
                    postings@,
                    lists_at(docs, doc_id as nat, word_pos as nat),
                ),
                all_places_agree(doc_maps@, postings@),
            decreases tokens.len() - word_pos,
        {
            let token = tokens[word_pos].as_str();
            let ghost lists = lists_at(docs, doc_id as nat, word_pos as nat);
            proof {
                assert(tv[word_pos as int] == token@);
                lemma_postings_upto(docs, token@, doc_id as nat);
                lemma_occurrences(tv, token@, word_pos as nat);
                let base = postings_upto(docs, token@, doc_id as nat);
                assert forall|i: int|
                    0 <= i < lists(token@).len() && (#[trigger] lists(token@)[i]).0
                        == doc_id implies i == lists(token@).len() - 1 && lists(token@)[i].1
                    < u32::MAX by {
                    if i < base.len() {
                        assert(base[i].0 < doc_id);
                    }
                }
            }
            add_occurrence(
                &mut map,
                &mut terms,
                &mut postings,
                &mut doc_maps,
                token,
                doc_id as u32,
                word_pos as u32,
                Ghost(lists),
            );
            proof {
                let after = |t: Seq<char>|
                    if t == token@ {
                        extended(lists(t), doc_id as u32, word_pos as u32)
                    } else {
                        lists(t)
                    };
                let next = lists_at(docs, doc_id as nat, (word_pos + 1) as nat);
                assert forall|t: Seq<char>| #[trigger] next(t) == after(t) by {
                    lemma_extended(docs, t, doc_id as nat, word_pos as nat);
                }
                lemma_accumulated_same(term_map_entries(map), terms@, postings@, after, next);
            }
            word_pos += 1;
        }
        proof {
            lemma_accumulated_same(
                term_map_entries(map),
                terms@,
                postings@,
                lists_at(docs, doc_id as nat, word_pos as nat),
                lists_upto(docs, (doc_id + 1) as nat),
            );
        }
        doc_id += 1;
    }
    proof {
        let all = corpus_documents(docs);
        assert(all.take(doc_id as int) =~= all);
    }
    (map, terms, postings, documents)
}

/// The places of the terms whose lists have a length in the band.
fn places_in_band(postings: &Vec<PostingsList>, min: u32, max: u32) -> (kept: Vec<usize>)
    ensures
        forall|i: int, j: int| 0 <= i < j < kept@.len() ==> kept@[i] < kept@[j],
        forall|i: int| 0 <= i < kept@.len() ==> (#[trigger] kept@[i]) < postings@.len(),
        forall|j: int|
            0 <= j < postings@.len() ==> (kept@.contains(j as usize) <==> in_band(
                (#[trigger] postings@[j])@.len(),
                min,
                max,
            )),
{
    let mut kept: Vec<usize> = Vec::new();
    let mut j: usize = 0;
    while j < postings.len()
        invariant
            j <= postings.len(),
            forall|a: int, b: int| 0 <= a < b < kept@.len() ==> kept@[a] < kept@[b],
            forall|i: int| 0 <= i < kept@.len() ==> (#[trigger] kept@[i]) < j,
            forall|k: int|
                0 <= k < j ==> (kept@.contains(k as usize) <==> in_band(
                    (#[trigger] postings@[k])@.len(),
                    min,
                    max,
                )),
        decreases postings.len() - j,
    {
        let f: usize = postings[j].len();
        let ghost before = kept@;
        if f > min as usize && f <= max as usize {
            kept.push(j);
        }
        proof {
            assert forall|k: int| 0 <= k < j + 1 implies (kept@.contains(k as usize) <==> in_band(
                (#[trigger] postings@[k])@.len(),
                min,
                max,
            )) by {
                if before.contains(k as usize) {
                    let x = choose|x: int| 0 <= x < before.len() && before[x] == k as usize;
                    assert(kept@[x] == k as usize);
                }
                if kept@.contains(k as usize) {
                    let x = choose|x: int| 0 <= x < kept@.len() && kept@[x] == k as usize;
                    if x < before.len() {
                        assert(before[x] == k as usize);
                    }
                }
                if k == j && kept@.len() > before.len() {
                    assert(kept@[before.len() as int] == j);
                }
            }
        }
        j += 1;
    }
    kept
}

/// Builds the index of a corpus, given path and tokens of each document
/// in the order of their ids, and the frequency band: a term is retained
/// if more than `min_freq_threshold` and at most `frequency_threshold`
/// documents hold it.
pub fn build_in_memory(
    processed_documents: Vec<(String, Vec<String>)>,
    frequency_threshold: u32,
    min_freq_threshold: u32,
) -> (index: InMemory)
    requires
        corpus_fits(corpus_view(processed_documents@)),
    ensures
        built(corpus_view(processed_documents@), min_freq_threshold, frequency_threshold, index),
{
    let ghost docs = corpus_view(processed_documents@);
    let (map, all_terms, postings, documents) = accumulate(&processed_documents);
    let ghost entries = term_map_entries(map);
    let ghost tv = terms_view(all_terms@);
    let ghost lists = lists_upto(docs, docs.len());
    let kept = places_in_band(&postings, min_freq_threshold, frequency_threshold);
    proof {
        assert forall|i: int| 0 <= i < kept@.len() implies (#[trigger] kept@[i]) < tv.len() by {}
    }
    let term_indices = sort_places(&all_terms, kept);
    let ghost sorted = term_indices@;
    proof {
        // the sorted places are the places kept, each once
        kept@.to_multiset_ensures();
        sorted.to_multiset_ensures();
        assert(kept@.no_duplicates());
        kept@.lemma_multiset_has_no_duplicates();
        sorted.lemma_multiset_has_no_duplicates_conv();
    }
    let mut terms: Vec<String> = Vec::new();
    let mut i: usize = 0;
    while i < term_indices.len()
        invariant
            i <= term_indices.len(),
            sorted == term_indices@,
            tv == terms_view(all_terms@),
            places_of(tv, sorted),
            terms@.len() == i,
            forall|x: int| 0 <= x < i ==> (#[trigger] terms@[x])@ == tv[sorted[x] as int],
        decreases term_indices.len() - i,
    {
        let ghost before = terms@;
        let term: String = all_terms[term_indices[i]].clone();
        proof {
            assert(tv[sorted[i as int] as int] == all_terms@[sorted[i as int] as int]@);
        }
        terms.push(term);
        proof {
            assert forall|x: int| 0 <= x < i + 1 implies (#[trigger] terms@[x])@ == tv[sorted[x] as int] by {
                if x < i {
                    assert(terms@[x] == before[x]);
                }
            }
        }
        i += 1;
    }
    let index = InMemory { terms, term_indices, postings, documents };
    proof {
        let out = terms_view(index.terms@);
        assert forall|x: int| 0 <= x < out.len() implies out[x] == tv[sorted[x] as int] by {
            assert(out[x] == index.terms@[x]@);
        }
        assert forall|a: int, b: int| 0 <= a < b < out.len() implies term_lt(out[a], out[b]) by {
            let sa = sorted[a] as int;
            let sb = sorted[b] as int;
            assert(sa != sb);
            assert(tv[sa] == all_terms@[sa]@ && tv[sb] == all_terms@[sb]@);
            assert(entries.contains_key(all_terms@[sa]@) && entries[all_terms@[sa]@] == sa);
            assert(entries.contains_key(all_terms@[sb]@) && entries[all_terms@[sb]@] == sb);
            lemma_term_le(tv[sa], tv[sb], tv[sb]);
        }
        assert forall|x: int| 0 <= x < out.len() implies (#[trigger] index.term_indices@[x])
            < index.postings@.len() by {}
        assert forall|t: Seq<char>| #[trigger]
            out.contains(t) <==> in_band(
                collection_frequency(docs, t),
                min_freq_threshold,
                frequency_threshold,
            ) by {
            if out.contains(t) {
                let x = choose|x: int| 0 <= x < out.len() && out[x] == t;
                let s = sorted[x];
                assert(sorted.contains(s));
                assert(sorted.to_multiset().count(s) > 0);
                assert(kept@.contains(s));
                assert(tv[s as int] == all_terms@[s as int]@);
                assert(postings_view(postings@[s as int]@) == lists(all_terms@[s as int]@));
            }
            if in_band(collection_frequency(docs, t), min_freq_threshold, frequency_threshold) {
                assert(lists(t).len() > 0);
                assert(entries.contains_key(t));
                let s = entries[t];
                assert(all_terms@[s as int]@ == t);
                assert(postings_view(postings@[s as int]@) == lists(all_terms@[s as int]@));
                assert(kept@.contains(s));
                assert(kept@.to_multiset().count(s) > 0);
                assert(sorted.contains(s));
                let x = choose|x: int| 0 <= x < sorted.len() && sorted[x] == s;
                assert(tv[s as int] == all_terms@[s as int]@);
                assert(out[x] == t);
            }
        }
        assert forall|x: int| 0 <= x < out.len() implies #[trigger] index.term_postings(x)
            == postings_of(docs, out[x]) by {
            let s = sorted[x] as int;
            assert(postings_view(postings@[s]@) == lists(all_terms@[s]@));
            assert(tv[s] == all_terms@[s]@);
        }
    }
    index
}

/// Builds the index of a corpus and writes its files, given path and
/// tokens of each document in the order of their ids and the frequency
/// band. `None` if the index has too many terms, or posting lists too
/// long, for the formats.
pub fn build_engine(
    processed_documents: Vec<(String, Vec<String>)>,
    frequency_threshold: u32,
    min_freq_threshold: u32,
) -> (r: Option<IndexFiles>)
    requires
        corpus_fits(corpus_view(processed_documents@)),
    ensures
        exists|index: InMemory|
            {
                &&& #[trigger] built(
                    corpus_view(processed_documents@),
                    min_freq_threshold,
                    frequency_threshold,
                    index,
                )
                &&& r is Some <==> index.terms@.len() < u32::MAX && offsets_storable(index)
                &&& r matches Some(files) ==> index.wf() && files_of(index, files)
            },
{
    let ghost docs = corpus_view(processed_documents@);
    let index = build_in_memory(processed_documents, frequency_threshold, min_freq_threshold);
    if index.terms.len() >= u32::MAX as usize {
        return None;
    }
    proof {
        lemma_built_is_well_formed(docs, min_freq_threshold, frequency_threshold, index);
    }
    Engine::write_index(&index)
}

} // verus!
