//! The hash maps of the vocabulary and of the build: `fxhash`'s map from
//! terms to indices, from trigrams to lists of indices, and from document
//! ids to places in a posting list. What a map holds is named, and its
//! methods are trusted to do to it what the methods of a hash map do.
use vstd::prelude::*;
use fxhash::FxHashMap;

verus! {

/// `fxhash::FxHasher`, the hasher of the map from terms to indices.
#[verifier::external_type_specification]
#[verifier::external_body]
pub struct ExFxHasher(fxhash::FxHasher);

/// `std::hash::BuildHasherDefault`, which makes the hashers of that map.
#[verifier::external_type_specification]
#[verifier::external_body]
#[verifier::reject_recursive_types(H)]
pub struct ExBuildHasherDefault<H>(std::hash::BuildHasherDefault<H>);

/// What a map from terms to indices holds.
pub uninterp spec fn term_map_entries(m: FxHashMap<String, usize>) -> Map<Seq<char>, usize>;

/// The entries of a map that holds nothing.
pub open spec fn no_entries() -> Map<Seq<char>, usize> {
    Map::empty()
}

/// `FxHashMap::default`: a map that holds nothing.
#[verifier::external_body]
pub(crate) fn new_term_map() -> (m: FxHashMap<String, usize>)
    ensures
        term_map_entries(m) == no_entries(),
{
    FxHashMap::default()
}

/// `HashMap::insert`: the map holds the index for the term, and for every
/// other term what it held.
#[verifier::external_body]
pub(crate) fn term_map_insert(m: &mut FxHashMap<String, usize>, term: String, index: usize)
    ensures
        term_map_entries(*final(m)) == term_map_entries(*old(m)).insert(term@, index),
{
    m.insert(term, index);
}

/// `HashMap::get`: the index that the map holds for the term, if any.
#[verifier::external_body]
pub(crate) fn term_map_get(m: &FxHashMap<String, usize>, term: &str) -> (r: Option<usize>)
    ensures
        r == (if term_map_entries(*m).contains_key(term@) {
            Some(term_map_entries(*m)[term@])
        } else {
            None
        }),
{
    m.get(term).copied()
}


/// What a map from trigrams to lists of indices holds.
pub uninterp spec fn trigram_map_entries(m: FxHashMap<String, Vec<usize>>) -> Map<
    Seq<char>,
    Seq<usize>,
>;

/// The entries of a map that holds no lists.
pub open spec fn no_lists() -> Map<Seq<char>, Seq<usize>> {
    Map::empty()
}

/// `FxHashMap::default`: a map that holds nothing.
#[verifier::external_body]
pub(crate) fn new_trigram_map() -> (m: FxHashMap<String, Vec<usize>>)
    ensures
        trigram_map_entries(m) == no_lists(),
{
    FxHashMap::default()
}

/// `HashMap::insert`: the map holds the list for the trigram, and for
/// every other trigram what it held.
#[verifier::external_body]
pub(crate) fn trigram_map_insert(
    m: &mut FxHashMap<String, Vec<usize>>,
    trigram: String,
    list: Vec<usize>,
)
    ensures
        trigram_map_entries(*final(m)) == trigram_map_entries(*old(m)).insert(trigram@, list@),
{
    m.insert(trigram, list);
}

/// `HashMap::remove`: the list that the map held for the trigram, if any,
/// which it holds no longer.
#[verifier::external_body]
pub(crate) fn trigram_map_remove(m: &mut FxHashMap<String, Vec<usize>>, trigram: &str) -> (r: Option<
    Vec<usize>,
>)
    ensures
        trigram_map_entries(*final(m)) == trigram_map_entries(*old(m)).remove(trigram@),
        r is Some <==> trigram_map_entries(*old(m)).contains_key(trigram@),
        r matches Some(list) ==> list@ == trigram_map_entries(*old(m))[trigram@],
{
    m.remove(trigram)
}

/// `HashMap::get`: the list that the map holds for the trigram, if any.
#[verifier::external_body]
pub(crate) fn trigram_map_get<'a>(m: &'a FxHashMap<String, Vec<usize>>, trigram: &str) -> (r: Option<
    &'a Vec<usize>,
>)
    ensures
        r is Some <==> trigram_map_entries(*m).contains_key(trigram@),
        r matches Some(list) ==> list@ == trigram_map_entries(*m)[trigram@],
{
    m.get(trigram)
}

/// What a map from document ids to places holds.
pub uninterp spec fn doc_map_entries(m: FxHashMap<u32, usize>) -> Map<u32, usize>;

/// The entries of a map that holds no places.
pub open spec fn no_places() -> Map<u32, usize> {
    Map::empty()
}

/// `FxHashMap::default`: a map that holds nothing.
#[verifier::external_body]
pub(crate) fn new_doc_map() -> (m: FxHashMap<u32, usize>)
    ensures
        doc_map_entries(m) == no_places(),
{
    FxHashMap::default()
}

/// `HashMap::insert`: the map holds the place for the document id, and for
/// every other id what it held.
#[verifier::external_body]
pub(crate) fn doc_map_insert(m: &mut FxHashMap<u32, usize>, doc_id: u32, place: usize)
    ensures
        doc_map_entries(*final(m)) == doc_map_entries(*old(m)).insert(doc_id, place),
{
    m.insert(doc_id, place);
}

/// `HashMap::get`: the place that the map holds for the document id, if
/// any.
#[verifier::external_body]
pub(crate) fn doc_map_get(m: &FxHashMap<u32, usize>, doc_id: u32) -> (r: Option<usize>)
    ensures
        r == (if doc_map_entries(*m).contains_key(doc_id) {
            Some(doc_map_entries(*m)[doc_id])
        } else {
            None
        }),
{
    m.get(&doc_id).copied()
}

} // verus!
