//! The index structures and the query evaluator.
use vstd::prelude::*;
use vstd::utf8::encode_utf8;
use crate::disk::bits::CodecError;
use crate::disk::codes::visible;
use crate::disk::laws::sealed;
use crate::engine::boolean::{
    QueryError, TokenKind, kind_of, lex, postfix_of, tokens_view, classify,
    infix_to_postfix_boolean,
};
use crate::engine::builder::{corpus_view, corpus_fits, built, lemma_built_is_well_formed};
use crate::engine::documents::{
    Document, Documents, documents_view, documents_storable, documents_bits, parse_documents,
};
use crate::engine::ranking::{DocumentMatch, lists_view, are_matches, match_documents};
use crate::engine::postings::{
    ascending_postings, Postings, PostingsList, DocumentIdsList, postings_view,
    postings_storable, document_ids, parse_posting_list_at, parse_offsets, postings_stream,
    offsets_stream, offsets_storable, intersection_of, union_of, complement_of,
    lemma_operator_results,
};
use crate::disk::codes::strictly_ascending;
use crate::engine::preprocessor::{Preprocessor, terms_of};
use crate::engine::terms::{index_of, sorted_terms, terms_view, lemma_sorted_terms_distinct};
use crate::engine::vocabulary::{
    Vocabulary, vocabulary_bits, collection_frequencies, parse_vocabulary, spellchecked,
};

pub mod utils;
pub mod terms;
pub mod term_map;
pub mod sorting;
pub mod postings;
pub mod documents;
pub mod vocabulary;
pub mod boolean;
pub mod builder;
pub mod heap;
pub mod preprocessor;
pub mod proximity;
pub mod ranking;

verus! {

/// An index as the build leaves it in memory, before it is written.
///
/// `terms` holds the retained terms in ascending order, and
/// `term_indices[i]` is the place in `postings` of the postings of
/// `terms[i]`. `postings` may hold lists of terms that were not retained.
pub struct InMemory {
    pub terms: Vec<String>,
    pub term_indices: Vec<usize>,
    pub postings: Vec<PostingsList>,
    pub documents: Vec<Document>,
}

impl InMemory {
    /// The number of documents that hold term `i`.
    pub open spec fn collection_frequency(&self, i: int) -> nat {
        self.postings@[self.term_indices@[i] as int]@.len()
    }

    /// The postings of term `i`.
    pub open spec fn term_postings(&self, i: int) -> Seq<(u32, u32, Seq<u32>)> {
        postings_view(self.postings@[self.term_indices@[i] as int]@)
    }

    /// The index is consistent, and the formats can hold it.
    pub open spec fn wf(&self) -> bool {
        &&& self.terms@.len() == self.term_indices@.len()
        &&& self.terms@.len() < u32::MAX
        &&& sorted_terms(terms_view(self.terms@))
        &&& forall|i: int|
            0 <= i < self.terms@.len() ==> encode_utf8(#[trigger] self.terms@[i]@).len() < u32::MAX
        &&& forall|i: int|
            0 <= i < self.terms@.len() ==> (#[trigger] self.term_indices@[i]) < self.postings@.len()
        &&& forall|i: int|
            0 <= i < self.terms@.len() ==> postings_storable(#[trigger] self.term_postings(i))
        &&& documents_storable(documents_view(self.documents@))
    }
}


/// The four files of an index, as bytes.
pub struct IndexFiles {
    pub postings: Vec<u8>,
    pub offsets: Vec<u8>,
    pub vocabulary: Vec<u8>,
    pub documents: Vec<u8>,
}

/// `files` holds the index `index`.
pub open spec fn files_of(index: InMemory, files: IndexFiles) -> bool {
    &&& sealed(postings_stream(index, index.terms@.len()), files.postings@)
    &&& sealed(offsets_stream(index), files.offsets@)
    &&& sealed(
        vocabulary_bits(terms_view(index.terms@), collection_frequencies(index)),
        files.vocabulary@,
    )
    &&& sealed(documents_bits(documents_view(index.documents@)), files.documents@)
}

/// Build determinism: the files of two indexes that were built of the same
/// corpus for the same frequency band are the same, byte for byte.
pub proof fn lemma_same_corpus_same_files(
    docs: Seq<(Seq<char>, Seq<Seq<char>>)>,
    min: u32,
    max: u32,
    a: InMemory,
    b: InMemory,
    files_a: IndexFiles,
    files_b: IndexFiles,
)
    requires
        built(docs, min, max, a),
        built(docs, min, max, b),
        files_of(a, files_a),
        files_of(b, files_b),
    ensures
        files_a.postings@ == files_b.postings@,
        files_a.offsets@ == files_b.offsets@,
        files_a.vocabulary@ == files_b.vocabulary@,
        files_a.documents@ == files_b.documents@,
{
    crate::engine::builder::lemma_build_is_deterministic(docs, min, max, a, b);
    let n = a.terms@.len();
    assert(terms_view(a.terms@).len() == n && terms_view(b.terms@).len() == b.terms@.len());
    lemma_same_streams(a, b, n);
    assert(collection_frequencies(a) =~= collection_frequencies(b)) by {
        assert forall|i: int| 0 <= i < n implies a.collection_frequency(i)
            == b.collection_frequency(i) by {
            assert(a.term_postings(i).len() == a.collection_frequency(i));
            assert(b.term_postings(i).len() == b.collection_frequency(i));
        }
    }
    crate::disk::laws::lemma_sealed_unique(postings_stream(a, n), files_a.postings@, files_b.postings@);
    crate::disk::laws::lemma_sealed_unique(offsets_stream(a), files_a.offsets@, files_b.offsets@);
    crate::disk::laws::lemma_sealed_unique(
        vocabulary_bits(terms_view(a.terms@), collection_frequencies(a)),
        files_a.vocabulary@,
        files_b.vocabulary@,
    );
    crate::disk::laws::lemma_sealed_unique(
        documents_bits(documents_view(a.documents@)),
        files_a.documents@,
        files_b.documents@,
    );
}

/// An index that was written loads as itself: the files hold its terms,
/// frequencies and documents, and at the offset of each term its postings.
pub proof fn lemma_index_roundtrip(index: InMemory, files: IndexFiles)
    requires
        index.wf(),
        offsets_storable(index),
        files_of(index, files),
    ensures
        Engine::parse_index(files) == Ok::<
            (Seq<Seq<char>>, Seq<u32>, Seq<u64>, Seq<(Seq<char>, u32)>),
            CodecError,
        >(
            (
                terms_view(index.terms@),
                collection_frequencies(index),
                crate::engine::postings::offset_table(index, index.terms@.len()),
                documents_view(index.documents@),
            ),
        ),
        forall|i: int|
            0 <= i < index.terms@.len() ==> parse_posting_list_at(
                files.postings@,
                #[trigger] crate::engine::postings::offset_table(index, index.terms@.len())[i],
            ) == Ok::<Seq<(u32, u32, Seq<u32>)>, CodecError>(index.term_postings(i)),
{
    let n = index.terms@.len();
    let terms = terms_view(index.terms@);
    let freqs = collection_frequencies(index);
    assert(crate::engine::vocabulary::vocabulary_storable(terms, freqs)) by {
        assert forall|i: int| 0 <= i < n implies encode_utf8(#[trigger] terms[i]).len()
            < u32::MAX by {
            assert(terms[i] == index.terms@[i]@);
        }
        assert forall|i: int| 0 <= i < n implies #[trigger] freqs[i] < u32::MAX by {
            assert(postings_storable(index.term_postings(i)));
            assert(document_ids(index.term_postings(i)).len() == index.collection_frequency(i));
        }
    }
    crate::engine::vocabulary::lemma_vocabulary_roundtrip(terms, freqs, files.vocabulary@);
    crate::engine::postings::lemma_offsets_roundtrip(index, files.offsets@);
    crate::engine::documents::lemma_documents_roundtrip(
        documents_view(index.documents@),
        files.documents@,
    );
    assert(files.postings@.len() >= 16);
    assert forall|i: int| 0 <= i < n implies parse_posting_list_at(
        files.postings@,
        #[trigger] crate::engine::postings::offset_table(index, n)[i],
    ) == Ok::<Seq<(u32, u32, Seq<u32>)>, CodecError>(index.term_postings(i)) by {
        assert(postings_storable(index.term_postings(i)));
        crate::engine::postings::lemma_postings_roundtrip(index, files.postings@, i as nat);
    }
}

/// From corpus to answer: an engine that holds the files of the index of a
/// corpus has, for every term in the frequency band, the postings of the
/// term in the corpus, and none for any other term.
pub proof fn lemma_engine_holds_corpus(
    docs: Seq<(Seq<char>, Seq<Seq<char>>)>,
    min: u32,
    max: u32,
    index: InMemory,
    files: IndexFiles,
    engine: Engine,
    t: Seq<char>,
)
    requires
        corpus_fits(docs),
        built(docs, min, max, index),
        index.terms@.len() < u32::MAX,
        offsets_storable(index),
        files_of(index, files),
        Engine::parse_index(files) == Ok::<
            (Seq<Seq<char>>, Seq<u32>, Seq<u64>, Seq<(Seq<char>, u32)>),
            CodecError,
        >((engine.terms(), engine.frequencies(), engine.offsets(), engine.documents())),
        engine.source() == files.postings@,
    ensures
        engine.documents() == crate::engine::builder::corpus_documents(docs),
        engine.term_postings(t) == (if crate::engine::builder::in_band(
            crate::engine::builder::collection_frequency(docs, t),
            min,
            max,
        ) {
            Ok::<Option<Seq<(u32, u32, Seq<u32>)>>, CodecError>(
                Some(crate::engine::builder::postings_of(docs, t)),
            )
        } else {
            Ok::<Option<Seq<(u32, u32, Seq<u32>)>>, CodecError>(None)
        }),
{
    lemma_built_is_well_formed(docs, min, max, index);
    lemma_index_roundtrip(index, files);
    let terms = terms_view(index.terms@);
    if terms.contains(t) {
        let i = index_of(terms, t);
        assert(index.term_postings(i) == crate::engine::builder::postings_of(docs, terms[i]));
    }
}

/// Indexes with the same postings have the same stream of postings and the
/// same offsets.
proof fn lemma_same_streams(a: InMemory, b: InMemory, n: nat)
    requires
        n <= a.terms@.len(),
        a.terms@.len() == b.terms@.len(),
        forall|i: int| 0 <= i < a.terms@.len() ==> a.term_postings(i) == b.term_postings(i),
    ensures
        postings_stream(a, n) == postings_stream(b, n),
        crate::engine::postings::offset_gaps_bits(a, n) == crate::engine::postings::offset_gaps_bits(
            b,
            n,
        ),
    decreases n,
{
    reveal(crate::engine::postings::stored_list);
    if n > 0 {
        lemma_same_streams(a, b, (n - 1) as nat);
        assert(a.term_postings(n - 1) == b.term_postings(n - 1));
        if n > 1 {
            assert(a.term_postings(n - 2) == b.term_postings(n - 2));
        }
    }
}

/// The answer to a ranked query, short of the scores.
pub struct RankedMatches {
    /// The tokens of the query, corrected.
    pub tokens: Vec<String>,
    /// What the query finds in each document that holds one of its tokens,
    /// in ascending order of document id.
    pub matches: Vec<DocumentMatch>,
}

/// The answer to a boolean query.
pub struct BooleanResult {
    /// The query in postfix notation.
    pub postfix_query: Vec<String>,
    /// The ids of the documents that match, ascending.
    pub document_ids: Vec<u32>,
}

/// The terms of a query text, each replaced by its correction, and
/// dropped if it has none.
pub open spec fn corrected(terms: Seq<Seq<char>>, freqs: Seq<u32>, raw: Seq<Seq<char>>) -> Seq<
    Seq<char>,
>
    decreases raw.len(),
{
    if raw.len() == 0 {
        Seq::empty()
    } else {
        let rest = corrected(terms, freqs, raw.drop_last());
        match spellchecked(terms, freqs, raw.last()) {
            Some(t) => rest.push(t),
            None => rest,
        }
    }
}

/// Each of the lists is as lists are that were read.
#[verifier::opaque]
pub open spec fn all_ascending(lists: Seq<Seq<(u32, u32, Seq<u32>)>>) -> bool {
    forall|q: int| 0 <= q < lists.len() ==> ascending_postings(#[trigger] lists[q])
}

proof fn lemma_all_ascending_push(
    lists: Seq<Seq<(u32, u32, Seq<u32>)>>,
    list: Seq<(u32, u32, Seq<u32>)>,
)
    requires
        all_ascending(lists),
        ascending_postings(list),
    ensures
        all_ascending(lists.push(list)),
{
    reveal(all_ascending);
    assert forall|q: int| 0 <= q < lists.push(list).len() implies ascending_postings(
        #[trigger] lists.push(list)[q],
    ) by {
        if q < lists.len() {
            assert(lists.push(list)[q] == lists[q]);
        }
    }
}

/// The error of a query that failed because the index could not be read.
pub open spec fn index_error(e: CodecError) -> QueryError {
    match e {
        CodecError::UnexpectedEof => QueryError::IndexTruncated,
        CodecError::Malformed => QueryError::IndexMalformed,
    }
}

/// A search engine over a loaded index.
pub struct Engine {
    vocabulary: Vocabulary,
    postings: Postings,
    documents: Documents,
    preprocessor: Preprocessor,
}

impl Engine {
    /// The terms of the vocabulary.
    pub closed spec fn terms(&self) -> Seq<Seq<char>> {
        self.vocabulary.terms()
    }

    /// The collection frequency of each term.
    pub closed spec fn frequencies(&self) -> Seq<u32> {
        self.vocabulary.frequencies()
    }

    /// The bit offset of the posting list of each term.
    pub closed spec fn offsets(&self) -> Seq<u64> {
        self.postings.offsets()
    }

    /// The bytes of the stream of posting lists.
    pub closed spec fn source(&self) -> Seq<u8> {
        self.postings.source()
    }

    /// Path and length of each document.
    pub closed spec fn documents(&self) -> Seq<(Seq<char>, u32)> {
        self.documents.view()
    }

    /// The postings are open for reading, and every term has an offset.
    pub closed spec fn wf(&self) -> bool {
        &&& self.postings.wf()
        &&& self.vocabulary.terms().len() == self.postings.offsets().len()
        &&& self.vocabulary.frequencies().len() == self.vocabulary.terms().len()
        &&& sorted_terms(self.vocabulary.terms())
    }

    /// Both engines hold the same index.
    pub open spec fn same_index(&self, other: Self) -> bool {
        &&& self.terms() == other.terms()
        &&& self.frequencies() == other.frequencies()
        &&& self.offsets() == other.offsets()
        &&& self.source() == other.source()
        &&& self.documents() == other.documents()
    }

    /// The ids of the documents that hold the term `t`, if the vocabulary
    /// has it.
    pub open spec fn term_doc_ids(&self, t: Seq<char>) -> Result<Option<Seq<u32>>, CodecError> {
        if !self.terms().contains(t) {
            Ok(None)
        } else {
            match parse_posting_list_at(self.source(), self.offsets()[index_of(self.terms(), t)]) {
                Ok(list) => Ok(Some(document_ids(list))),
                Err(e) => Err(e),
            }
        }
    }

    /// The postings of the term `t`, if the vocabulary has it.
    pub open spec fn term_postings(&self, t: Seq<char>) -> Result<
        Option<Seq<(u32, u32, Seq<u32>)>>,
        CodecError,
    > {
        if !self.terms().contains(t) {
            Ok(None)
        } else {
            match parse_posting_list_at(self.source(), self.offsets()[index_of(self.terms(), t)]) {
                Ok(list) => Ok(Some(list)),
                Err(e) => Err(e),
            }
        }
    }

    /// The ids that an operand of a boolean query stands for: those of the
    /// documents that hold the term, corrected if need be; none if there
    /// is no correction.
    pub open spec fn operand(&self, t: Seq<char>) -> Result<Seq<u32>, CodecError> {
        match spellchecked(self.terms(), self.frequencies(), t) {
            None => Ok(Seq::empty()),
            Some(c) => match self.term_doc_ids(c) {
                Ok(Some(ids)) => Ok(ids),
                Ok(None) => Ok(Seq::empty()),
                Err(e) => Err(e),
            },
        }
    }

    /// The stack of values after one more token of a query in postfix
    /// notation: `AND` and `OR` replace the two lists on top by their
    /// combination, `NOT` replaces the list on top by its complement among
    /// the documents, and the list of an operand is pushed.
    pub open spec fn apply(&self, stack: Seq<Seq<u32>>, t: Seq<char>) -> Result<
        Seq<Seq<u32>>,
        QueryError,
    > {
        match kind_of(t) {
            TokenKind::And => if stack.len() < 2 {
                Err(QueryError::MissingOperand)
            } else {
                Ok(
                    stack.drop_last().drop_last().push(
                        intersection_of(stack.last(), stack[stack.len() - 2]),
                    ),
                )
            },
            TokenKind::Or => if stack.len() < 2 {
                Err(QueryError::MissingOperand)
            } else {
                Ok(
                    stack.drop_last().drop_last().push(
                        union_of(stack.last(), stack[stack.len() - 2]),
                    ),
                )
            },
            TokenKind::Not => if stack.len() < 1 {
                Err(QueryError::MissingOperand)
            } else {
                Ok(
                    stack.drop_last().push(
                        complement_of(stack.last(), self.documents().len() as u32),
                    ),
                )
            },
            _ => match self.operand(t) {
                Err(e) => Err(index_error(e)),
                Ok(ids) => Ok(stack.push(ids)),
            },
        }
    }

    /// The value of a query in postfix notation from token `i` on, given
    /// the stack of the values of what came before: the list that is on
    /// top in the end.
    pub open spec fn evaluate(&self, tokens: Seq<Seq<char>>, i: int, stack: Seq<Seq<u32>>) -> Result<
        Seq<u32>,
        QueryError,
    >
        decreases tokens.len() - i,
    {
        if i >= tokens.len() {
            if stack.len() == 0 {
                Err(QueryError::MissingOperand)
            } else {
                Ok(stack.last())
            }
        } else {
            match self.apply(stack, tokens[i]) {
                Err(e) => Err(e),
                Ok(next) => self.evaluate(tokens, i + 1, next),
            }
        }
    }

    /// The answer to a boolean query.
    pub open spec fn boolean_answer(&self, query: Seq<char>) -> Result<
        (Seq<Seq<char>>, Seq<u32>),
        QueryError,
    > {
        match postfix_of(lex(query)) {
            Err(e) => Err(e),
            Ok(postfix) => match self.evaluate(postfix, 0, Seq::empty()) {
                Err(e) => Err(e),
                Ok(ids) => Ok((postfix, ids)),
            },
        }
    }

    /// Writes the four files of an index, or `None` if the offset table
    /// cannot hold it.
    pub fn write_index(index: &InMemory) -> (r: Option<IndexFiles>)
        requires
            index.wf(),
        ensures
            r is Some <==> offsets_storable(*index),
            r matches Some(files) ==> files_of(*index, files),
    {
        let (postings, offsets) = match Postings::write_postings(index) {
            Some(p) => p,
            None => {
                return None;
            },
        };
        let vocabulary = Vocabulary::write_vocabulary(index);
        let documents = Documents::write_documents(&index.documents);
        Some(IndexFiles { postings, offsets, vocabulary, documents })
    }

    /// Builds the index of a corpus and writes its files, given path and
    /// tokens of each document in the order of their ids and the frequency
    /// band. `None` if the index has too many terms, or posting lists too
    /// long, for the formats.
    pub fn build_engine(
        processed_documents: Vec<(String, Vec<String>)>,
        frequency_threshold: u32,
        min_freq_threshold: u32,
    ) -> (r: Option<IndexFiles>)
        requires
            corpus_fits(corpus_view(processed_documents@)),
        ensures
            exists|index: InMemory|
                {
                    &&& #[trigger] built(
                        corpus_view(processed_documents@),
                        min_freq_threshold,
                        frequency_threshold,
                        index,
                    )
                    &&& r is Some <==> index.terms@.len() < u32::MAX && offsets_storable(index)
                    &&& r matches Some(files) ==> index.wf() && files_of(index, files)
                },
    {
        crate::engine::builder::build_engine(
            processed_documents,
            frequency_threshold,
            min_freq_threshold,
        )
    }

    /// What the files of an index hold: terms, frequencies, offsets and
    /// documents. The postings file must hold a register at least, and
    /// every term must have an offset.
    pub open spec fn parse_index(files: IndexFiles) -> Result<
        (Seq<Seq<char>>, Seq<u32>, Seq<u64>, Seq<(Seq<char>, u32)>),
        CodecError,
    > {
        match parse_vocabulary(visible(files.vocabulary@, 0), 0) {
            Err(e) => Err(e),
            Ok((terms, freqs)) => match parse_offsets(visible(files.offsets@, 0), 0) {
                Err(e) => Err(e),
                Ok((table, _)) => if files.postings@.len() < 16 {
                    Err(CodecError::UnexpectedEof)
                } else {
                    match parse_documents(visible(files.documents@, 0), 0) {
                        Err(e) => Err(e),
                        Ok((docs, _)) => if terms.len() != table.len() {
                            Err(CodecError::Malformed)
                        } else {
                            Ok((terms, freqs, table, docs))
                        },
                    }
                },
            },
        }
    }

    /// Loads an engine from the files of an index.
    pub fn load_index(files: IndexFiles, preprocessor: Preprocessor) -> (r: Result<
        Engine,
        CodecError,
    >)
        ensures
            match Self::parse_index(files) {
                Err(e) => r is Err && r->Err_0 == e,
                Ok((terms, freqs, table, docs)) => r is Ok && r->Ok_0.wf() && r->Ok_0.terms()
                    == terms && r->Ok_0.frequencies() == freqs && r->Ok_0.offsets() == table
                    && r->Ok_0.source() == files.postings@ && r->Ok_0.documents() == docs,
            },
    {
        let vocabulary = match Vocabulary::load_vocabulary(files.vocabulary) {
            Ok(v) => v,
            Err(e) => {
                return Err(e);
            },
        };
        let postings = match Postings::load_postings_reader(files.postings, files.offsets) {
            Ok(p) => p,
            Err(e) => {
                return Err(e);
            },
        };
        let documents = match Documents::load_documents(files.documents) {
            Ok(d) => d,
            Err(e) => {
                return Err(e);
            },
        };
        if vocabulary.get_num_terms() != postings.get_num_lists() {
            return Err(CodecError::Malformed);
        }
        Ok(Engine { vocabulary, postings, documents, preprocessor })
    }

    /// The ids of the documents that hold a term.
    pub fn get_term_doc_ids(&mut self, term: &str) -> (r: Result<Option<DocumentIdsList>, CodecError>)
        requires
            old(self).wf(),
        ensures
            final(self).wf(),
            final(self).same_index(*old(self)),
            match old(self).term_doc_ids(term@) {
                Ok(Some(ids)) => r is Ok && r->Ok_0 is Some && r->Ok_0->Some_0@ == ids,
                Ok(None) => r is Ok && r->Ok_0 is None,
                Err(e) => r is Err && r->Err_0 == e,
            },
            r matches Ok(Some(ids)) ==> strictly_ascending(ids@),
    {
        match self.vocabulary.get_term_index(term) {
            None => Ok(None),
            Some(i) => {
                proof {
                    let k = index_of(self.terms(), term@);
                    lemma_sorted_terms_distinct(self.terms(), k, i as int);
                }
                match self.postings.load_doc_ids_list(i) {
                    Ok(ids) => Ok(Some(ids)),
                    Err(e) => Err(e),
                }
            },
        }
    }

    /// The postings of a term.
    pub fn get_term_postings(&mut self, term: &str) -> (r: Result<Option<PostingsList>, CodecError>)
        requires
            old(self).wf(),
        ensures
            final(self).wf(),
            final(self).same_index(*old(self)),
            match old(self).term_postings(term@) {
                Ok(Some(list)) => r is Ok && r->Ok_0 is Some && postings_view(r->Ok_0->Some_0@)
                    == list,
                Ok(None) => r is Ok && r->Ok_0 is None,
                Err(e) => r is Err && r->Err_0 == e,
            },
            r matches Ok(Some(list)) ==> ascending_postings(postings_view(list@)),
    {
        match self.vocabulary.get_term_index(term) {
            None => Ok(None),
            Some(i) => {
                proof {
                    let k = index_of(self.terms(), term@);
                    lemma_sorted_terms_distinct(self.terms(), k, i as int);
                }
                match self.postings.load_postings_list(i) {
                    Ok(list) => Ok(Some(list)),
                    Err(e) => Err(e),
                }
            },
        }
    }

    /// The ids that an operand of a boolean query stands for.
    fn resolve(&mut self, token: &str) -> (r: Result<DocumentIdsList, QueryError>)
        requires
            old(self).wf(),
        ensures
            final(self).wf(),
            final(self).same_index(*old(self)),
            match old(self).operand(token@) {
                Ok(ids) => r is Ok && r->Ok_0@ == ids,
                Err(e) => r is Err && r->Err_0 == index_error(e),
            },
            r matches Ok(ids) ==> strictly_ascending(ids@),
    {
        match self.vocabulary.spellcheck_term(token) {
            None => Ok(Vec::new()),
            Some(corrected) => match self.get_term_doc_ids(corrected.as_str()) {
                Ok(Some(ids)) => Ok(ids),
                Ok(None) => Ok(Vec::new()),
                Err(CodecError::UnexpectedEof) => Err(QueryError::IndexTruncated),
                Err(CodecError::Malformed) => Err(QueryError::IndexMalformed),
            },
        }
    }

    /// Applies one token of a query in postfix notation to the stack.
    fn apply_token(&mut self, stack: &mut Vec<Vec<u32>>, token: &str) -> (r: Result<(), QueryError>)
        requires
            old(self).wf(),
            forall|k: int| 0 <= k < old(stack)@.len() ==> strictly_ascending(#[trigger] old(stack)@[k]@),
        ensures
            final(self).wf(),
            final(self).same_index(*old(self)),
            forall|k: int|
                0 <= k < final(stack)@.len() ==> strictly_ascending(#[trigger] final(stack)@[k]@),
            match old(self).apply(old(stack)@.map_values(|l: Vec<u32>| l@), token@) {
                Ok(next) => r is Ok && final(stack)@.map_values(|l: Vec<u32>| l@) == next,
                Err(e) => r is Err && r->Err_0 == e,
            },
    {
        let ghost sv = stack@.map_values(|l: Vec<u32>| l@);
        let kind = classify(token);
        match kind {
            TokenKind::And | TokenKind::Or => {
                if stack.len() < 2 {
                    return Err(QueryError::MissingOperand);
                }
                let a: Vec<u32> = stack.pop().unwrap();
                let b: Vec<u32> = stack.pop().unwrap();
                let ghost rest = stack@.map_values(|l: Vec<u32>| l@);
                let ghost av = a@;
                let ghost bv = b@;
                proof {
                    assert(av == sv.last());
                    assert(bv == sv[sv.len() - 2]);
                    assert(rest =~= sv.drop_last().drop_last());
                }
                let merged: Vec<u32> = if kind == TokenKind::And {
                    Postings::and_operator(a, b)
                } else {
                    Postings::or_operator(a, b)
                };
                proof {
                    lemma_operator_results(av, bv, 0, merged@);
                }
                stack.push(merged);
                proof {
                    assert(stack@.map_values(|l: Vec<u32>| l@) =~= rest.push(merged@));
                }
                Ok(())
            },
            TokenKind::Not => {
                if stack.len() < 1 {
                    return Err(QueryError::MissingOperand);
                }
                let num_docs: u32 = self.documents.get_num_documents();
                let a: Vec<u32> = stack.pop().unwrap();
                let ghost rest = stack@.map_values(|l: Vec<u32>| l@);
                let ghost av = a@;
                proof {
                    assert(av == sv.last());
                    assert(rest =~= sv.drop_last());
                }
                let inverted: Vec<u32> = Postings::not_operator(a, num_docs);
                proof {
                    lemma_operator_results(av, av, num_docs, inverted@);
                }
                stack.push(inverted);
                proof {
                    assert(stack@.map_values(|l: Vec<u32>| l@) =~= rest.push(inverted@));
                }
                Ok(())
            },
            _ => {
                let ids: Vec<u32> = match self.resolve(token) {
                    Ok(ids) => ids,
                    Err(e) => {
                        return Err(e);
                    },
                };
                stack.push(ids);
                proof {
                    assert(stack@.map_values(|l: Vec<u32>| l@) =~= sv.push(ids@));
                }
                Ok(())
            },
        }
    }

    /// Answers a boolean query: terms combined with `AND`, `OR`, `NOT` and
    /// parentheses.
    pub fn boolean_query(&mut self, query: &str) -> (r: Result<BooleanResult, QueryError>)
        requires
            old(self).wf(),
        ensures
            final(self).wf(),
            final(self).same_index(*old(self)),
            match old(self).boolean_answer(query@) {
                Ok((postfix, ids)) => r is Ok && tokens_view(r->Ok_0.postfix_query@) == postfix
                    && r->Ok_0.document_ids@ == ids,
                Err(e) => r is Err && r->Err_0 == e,
            },
            r matches Ok(answer) ==> strictly_ascending(answer.document_ids@),
    {
        let postfix = match infix_to_postfix_boolean(query) {
            Ok(p) => p,
            Err(e) => {
                return Err(e);
            },
        };
        let ghost tv = tokens_view(postfix@);
        let mut stack: Vec<Vec<u32>> = Vec::new();
        let mut i: usize = 0;
        proof {
            assert(stack@.map_values(|l: Vec<u32>| l@) =~= Seq::empty());
        }
        while i < postfix.len()
            invariant
                i <= postfix.len(),
                tv == tokens_view(postfix@),
                postfix_of(lex(query@)) == Ok::<Seq<Seq<char>>, QueryError>(tv),
                self.wf(),
                self.same_index(*old(self)),
                forall|k: int| 0 <= k < stack@.len() ==> strictly_ascending(#[trigger] stack@[k]@),
                old(self).evaluate(tv, 0, Seq::empty()) == old(self).evaluate(
                    tv,
                    i as int,
                    stack@.map_values(|l: Vec<u32>| l@),
                ),
            decreases postfix.len() - i,
        {
            let token = postfix[i].as_str();
            let ghost sv = stack@.map_values(|l: Vec<u32>| l@);
            let ghost here = *self;
            proof {
                assert(tv[i as int] == token@);
                Self::lemma_apply_same(here, *old(self), sv, token@);
            }
            match self.apply_token(&mut stack, token) {
                Ok(()) => {},
                Err(e) => {
                    return Err(e);
                },
            }
            i += 1;
        }
        if stack.len() == 0 {
            return Err(QueryError::MissingOperand);
        }
        let ghost sv = stack@.map_values(|l: Vec<u32>| l@);
        let document_ids: Vec<u32> = stack.pop().unwrap();
        proof {
            assert(document_ids@ == sv.last());
        }
        Ok(BooleanResult { postfix_query: postfix, document_ids })
    }

    /// Engines that hold the same index apply a token in the same way.
    pub proof fn lemma_apply_same(a: Self, b: Self, stack: Seq<Seq<u32>>, t: Seq<char>)
        requires
            a.same_index(b),
        ensures
            a.apply(stack, t) == b.apply(stack, t),
    {
    }

    /// The tokens of a ranked query: the terms of the query text, each
    /// replaced by its correction, and dropped if it has none.
    pub open spec fn query_terms(&self, query: Seq<char>) -> Seq<Seq<char>> {
        corrected(self.terms(), self.frequencies(), terms_of(query))
    }

    /// The postings of a token of a query; none if the vocabulary lacks it.
    #[verifier::opaque]
    pub open spec fn list_of(&self, t: Seq<char>) -> Result<Seq<(u32, u32, Seq<u32>)>, CodecError> {
        match self.term_postings(t) {
            Err(e) => Err(e),
            Ok(Some(list)) => Ok(list),
            Ok(None) => Ok(Seq::empty()),
        }
    }

    /// The postings of the first `n` tokens of a query.
    pub open spec fn token_postings(&self, tokens: Seq<Seq<char>>, n: nat) -> Result<
        Seq<Seq<(u32, u32, Seq<u32>)>>,
        CodecError,
    >
        decreases n,
    {
        if n == 0 {
            Ok(Seq::empty())
        } else {
            match self.token_postings(tokens, (n - 1) as nat) {
                Err(e) => Err(e),
                Ok(lists) => match self.list_of(tokens[n - 1]) {
                    Err(e) => Err(e),
                    Ok(list) => Ok(lists.push(list)),
                },
            }
        }
    }

    /// The postings of a token of a query.
    fn load_list(&mut self, token: &str) -> (r: Result<PostingsList, CodecError>)
        requires
            old(self).wf(),
        ensures
            final(self).wf(),
            final(self).same_index(*old(self)),
            match old(self).list_of(token@) {
                Ok(list) => r is Ok && postings_view(r->Ok_0@) == list,
                Err(e) => r is Err && r->Err_0 == e,
            },
            r matches Ok(list) ==> ascending_postings(postings_view(list@)),
    {
        proof {
            reveal(Engine::list_of);
        }
        match self.get_term_postings(token) {
            Ok(Some(list)) => Ok(list),
            Ok(None) => {
                let empty: PostingsList = Vec::new();
                proof {
                    assert(postings_view(empty@) =~= Seq::empty());
                    assert(document_ids(postings_view(empty@)) =~= Seq::empty());
                }
                Ok(empty)
            },
            Err(e) => Err(e),
        }
    }

    /// Once the postings of a token cannot be read, those of the query
    /// cannot.
    pub proof fn lemma_first_error(&self, tokens: Seq<Seq<char>>, m: nat, n: nat)
        requires
            m <= n,
            self.token_postings(tokens, m) is Err,
        ensures
            self.token_postings(tokens, n) == self.token_postings(tokens, m),
        decreases n - m,
    {
        if m < n {
            self.lemma_first_error(tokens, m, (n - 1) as nat);
        }
    }

    /// Engines that hold the same index have the same postings.
    pub proof fn lemma_list_same(a: Self, b: Self, t: Seq<char>)
        requires
            a.same_index(b),
        ensures
            a.list_of(t) == b.list_of(t),
    {
        reveal(Engine::list_of);
    }

    /// The tokens of a ranked query.
    pub fn query_tokens(&self, query: &str) -> (tokens: Vec<String>)
        ensures
            tokens_view(tokens@) == self.query_terms(query@),
    {
        let raw: Vec<String> = self.preprocessor.tokenize_and_stem(query);
        let ghost rv = tokens_view(raw@);
        let mut tokens: Vec<String> = Vec::new();
        let mut i: usize = 0;
        proof {
            assert(rv.take(0) =~= Seq::empty());
            assert(tokens_view(tokens@) =~= Seq::empty());
        }
        while i < raw.len()
            invariant
                i <= raw.len(),
                rv == tokens_view(raw@),
                tokens_view(tokens@) == corrected(
                    self.terms(),
                    self.frequencies(),
                    rv.take(i as int),
                ),
            decreases raw.len() - i,
        {
            proof {
                assert(rv.take(i + 1).drop_last() =~= rv.take(i as int));
                assert(rv.take(i + 1).last() == raw@[i as int]@);
            }
            match self.vocabulary.spellcheck_term(raw[i].as_str()) {
                Some(t) => {
                    let ghost before = tokens@;
                    let ghost tv = t@;
                    tokens.push(t);
                    proof {
                        assert(tokens_view(tokens@) =~= tokens_view(before).push(tv));
                    }
                },
                None => {},
            }
            i += 1;
        }
        proof {
            assert(rv.take(i as int) =~= rv);
        }
        tokens
    }

    /// Loads the postings of one more token of a query.
    fn push_list(&mut self, lists: &mut Vec<PostingsList>, token: &str) -> (r: Result<(), CodecError>)
        requires
            old(self).wf(),
            all_ascending(lists_view(old(lists)@)),
        ensures
            final(self).wf(),
            final(self).same_index(*old(self)),
            all_ascending(lists_view(final(lists)@)),
            match old(self).list_of(token@) {
                Ok(list) => r is Ok && final(lists)@.len() == old(lists)@.len() + 1
                    && lists_view(final(lists)@) == lists_view(old(lists)@).push(list),
                Err(e) => r is Err && r->Err_0 == e,
            },
    {
        let list: PostingsList = match self.load_list(token) {
            Ok(list) => list,
            Err(e) => {
                return Err(e);
            },
        };
        let ghost view = postings_view(list@);
        let ghost before = lists@;
        lists.push(list);
        proof {
            assert(lists_view(lists@) =~= lists_view(before).push(view));
            lemma_all_ascending_push(lists_view(before), view);
        }
        Ok(())
    }

    /// What a ranked query with the given tokens finds: for each document
    /// that holds one of them, which it holds, how often, and the
    /// proximity window; in ascending order of document id.
    pub fn collect_matches(&mut self, tokens: &Vec<String>) -> (r: Result<
        Vec<DocumentMatch>,
        CodecError,
    >)
        requires
            old(self).wf(),
            tokens@.len() <= u32::MAX,
        ensures
            final(self).wf(),
            final(self).same_index(*old(self)),
            match old(self).token_postings(tokens_view(tokens@), tokens@.len()) {
                Err(e) => r is Err && r->Err_0 == e,
                Ok(lists) => r is Ok && are_matches(lists, r->Ok_0@),
            },
    {
        let ghost tv = tokens_view(tokens@);
        let mut lists: Vec<PostingsList> = Vec::new();
        let mut q: usize = 0;
        proof {
            assert(lists_view(lists@) =~= Seq::empty());
            reveal(all_ascending);
        }
        while q < tokens.len()
            invariant
                q <= tokens.len(),
                tv == tokens_view(tokens@),
                self.wf(),
                self.same_index(*old(self)),
                lists@.len() == q,
                all_ascending(lists_view(lists@)),
                old(self).token_postings(tv, q as nat) == Ok::<
                    Seq<Seq<(u32, u32, Seq<u32>)>>,
                    CodecError,
                >(lists_view(lists@)),
            decreases tokens.len() - q,
        {
            let ghost here = *self;
            proof {
                assert(tv[q as int] == tokens@[q as int]@);
                Self::lemma_list_same(here, *old(self), tv[q as int]);
            }
            match self.push_list(&mut lists, tokens[q].as_str()) {
                Ok(()) => {},
                Err(e) => {
                    proof {
                        old(self).lemma_first_error(tv, (q + 1) as nat, tokens@.len());
                    }
                    return Err(e);
                },
            }
            q += 1;
        }
        proof {
            reveal(all_ascending);
        }
        Ok(match_documents(&lists))
    }

    /// What a ranked query finds: its tokens and, for each document that
    /// holds one of them, the match.
    pub open spec fn free_answer(&self, query: Seq<char>) -> Result<
        (Seq<Seq<char>>, Seq<Seq<(u32, u32, Seq<u32>)>>),
        QueryError,
    > {
        let tokens = self.query_terms(query);
        if tokens.len() > u32::MAX {
            Err(QueryError::TooManyTokens)
        } else {
            match self.token_postings(tokens, tokens.len()) {
                Err(e) => Err(index_error(e)),
                Ok(lists) => Ok((tokens, lists)),
            }
        }
    }

    /// Answers a ranked query, short of the scores: the tokens of the
    /// query, and what it finds in each document that holds one of them.
    pub fn free_query(&mut self, query: &str) -> (r: Result<RankedMatches, QueryError>)
        requires
            old(self).wf(),
        ensures
            final(self).wf(),
            final(self).same_index(*old(self)),
            match old(self).free_answer(query@) {
                Err(e) => r is Err && r->Err_0 == e,
                Ok((tokens, lists)) => r is Ok && tokens_view(r->Ok_0.tokens@) == tokens
                    && are_matches(lists, r->Ok_0.matches@),
            },
    {
        let tokens = self.query_tokens(query);
        if tokens.len() > u32::MAX as usize {
            return Err(QueryError::TooManyTokens);
        }
        match self.collect_matches(&tokens) {
            Ok(matches) => Ok(RankedMatches { tokens, matches }),
            Err(CodecError::UnexpectedEof) => Err(QueryError::IndexTruncated),
            Err(CodecError::Malformed) => Err(QueryError::IndexMalformed),
        }
    }

    /// The number of documents.
    pub fn get_num_documents(&self) -> (n: u32)
        ensures
            n == self.documents().len(),
    {
        self.documents.get_num_documents()
    }

    /// The length, in tokens, of a document.
    pub fn get_doc_len(&self, doc_id: u32) -> (length: u32)
        requires
            doc_id < self.documents().len(),
        ensures
            length == self.documents()[doc_id as int].1,
    {
        self.documents.get_doc_len(doc_id)
    }

    /// The sum of the lengths of all documents.
    pub fn get_total_doc_len(&self) -> (sum: u64)
        ensures
            sum == crate::engine::documents::total_length(self.documents()),
    {
        self.documents.get_total_doc_len()
    }

    /// The path of a document.
    pub fn get_doc_path(&self, doc_id: u32) -> (path: String)
        requires
            doc_id < self.documents().len(),
        ensures
            path@ == self.documents()[doc_id as int].0,
    {
        self.documents.get_doc_path(doc_id)
    }

    /// The number of documents that hold a term, if the vocabulary has it.
    pub fn get_term_frequency(&self, term: &str) -> (r: Option<u32>)
        ensures
            match r {
                Some(f) => self.terms().contains(term@) && f == self.frequencies()[index_of(
                    self.terms(),
                    term@,
                )],
                None => !self.terms().contains(term@),
            },
    {
        self.vocabulary.get_term_frequency(term)
    }
}

} // verus!
