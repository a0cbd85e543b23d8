use search::disk::bits::CodecError;
use search::engine::boolean::QueryError;
use search::engine::builder::build_in_memory;
use search::engine::preprocessor::{split_words, Preprocessor};
use search::engine::{Engine, IndexFiles};

fn corpus() -> Vec<(String, Vec<String>)> {
    let preprocessor = Preprocessor::new().unwrap();
    vec![
        ("test_data/docs/1.txt".to_string(), preprocessor.tokenize_and_stem("hello world")),
        ("test_data/docs/2.txt".to_string(), preprocessor.tokenize_and_stem("hello hello man")),
    ]
}

fn engine() -> Engine {
    let files = Engine::build_engine(corpus(), 2, 0).unwrap();
    Engine::load_index(files, Preprocessor::new().unwrap()).unwrap()
}

fn paths(idx: &Engine, ids: &[u32]) -> Vec<String> {
    let mut paths: Vec<String> = ids.iter().map(|i| idx.get_doc_path(*i)).collect();
    paths.sort();
    paths
}

#[test]
fn mod_test_build() {
    let mut idx = engine();

    for ele in ["hello", "man", "world"] {
        assert!(idx.get_term_frequency(ele).is_some());
    }

    let hello = idx.get_term_doc_ids("hello").unwrap().unwrap();
    assert_eq!(paths(&idx, &hello), ["test_data/docs/1.txt", "test_data/docs/2.txt"]);

    let man = idx.get_term_doc_ids("man").unwrap().unwrap();
    assert_eq!(paths(&idx, &man), ["test_data/docs/2.txt"]);

    let pl = idx.get_term_postings("hello").unwrap().unwrap();
    assert_eq!(pl.iter().map(|d| d.document_id).collect::<Vec<u32>>(), [0, 1]);
    assert_eq!(pl.len(), 2);
    assert_eq!(pl[1].document_frequency, 2);
    let pl = idx.get_term_postings("world").unwrap().unwrap();
    assert_eq!(pl[0].positions, [1]);

    let boolean_query = idx.boolean_query("hello AND NOT world").unwrap();
    assert_eq!(boolean_query.postfix_query, ["hello", "world", "NOT", "AND"]);
    assert_eq!(paths(&idx, &boolean_query.document_ids), ["test_data/docs/2.txt"]);
}

#[test]
fn test_tokenize_and_stem() {
    let preprocessor = Preprocessor::new().unwrap();

    let text1 = "The quick brown, fox jumps over the lazy dog!!!";
    let result1 = preprocessor.tokenize_and_stem(text1);
    assert_eq!(
        result1,
        vec!["the", "quick", "brown", "fox", "jump", "over", "the", "lazi", "dog"]
    );
}

#[test]
fn preprocessor_edge_cases() {
    let preprocessor = Preprocessor::new().unwrap();
    assert_eq!(preprocessor.tokenize_and_stem(""), Vec::<String>::new());
    assert_eq!(preprocessor.tokenize_and_stem("  ...  "), Vec::<String>::new());
    assert_eq!(preprocessor.tokenize_and_stem("Run-ning RUNS"), ["run", "ning", "run"]);
    assert_eq!(preprocessor.tokenize_and_stem("a1\tb2\nc3"), ["a1", "b2", "c3"]);
    assert_eq!(split_words(" a  b\r\nc "), ["a", "b", "c"]);
}

#[test]
fn boolean_queries() {
    let mut idx = engine();
    assert_eq!(idx.boolean_query("hello").unwrap().document_ids, [0, 1]);
    assert_eq!(idx.boolean_query("hello OR man").unwrap().document_ids, [0, 1]);
    assert_eq!(idx.boolean_query("world AND man").unwrap().document_ids, Vec::<u32>::new());
    assert_eq!(idx.boolean_query("NOT man").unwrap().document_ids, [0]);
    assert_eq!(idx.boolean_query("NOT (world OR man)").unwrap().document_ids, Vec::<u32>::new());
    // a misspelled operand is corrected, an unknown one matches nothing
    assert_eq!(idx.boolean_query("wrld").unwrap().document_ids, [0]);
    assert_eq!(idx.boolean_query("qqqq").unwrap().document_ids, Vec::<u32>::new());
    assert_eq!(idx.boolean_query("NOT qqqq").unwrap().document_ids, [0, 1]);
}

#[test]
fn malformed_boolean_queries_are_errors() {
    let mut idx = engine();
    assert!(matches!(idx.boolean_query(""), Err(QueryError::MissingOperand)));
    assert!(matches!(idx.boolean_query("AND"), Err(QueryError::MissingOperand)));
    assert!(matches!(idx.boolean_query("hello AND"), Err(QueryError::MissingOperand)));
    assert!(matches!(idx.boolean_query("NOT"), Err(QueryError::MissingOperand)));
    assert!(matches!(idx.boolean_query("(hello"), Err(QueryError::UnbalancedParentheses)));
    assert!(matches!(idx.boolean_query("hello)"), Err(QueryError::UnbalancedParentheses)));
    // the engine still answers
    assert_eq!(idx.boolean_query("man").unwrap().document_ids, [1]);
}

#[test]
fn frequency_band() {
    // "hello" is in 2 documents, "world" and "man" in 1
    let only_rare = build_in_memory(corpus(), 1, 0);
    assert_eq!(only_rare.terms, ["man", "world"]);
    let only_frequent = build_in_memory(corpus(), 2, 1);
    assert_eq!(only_frequent.terms, ["hello"]);
    let none = build_in_memory(corpus(), 2, 2);
    assert_eq!(none.terms, Vec::<String>::new());
    let all = build_in_memory(corpus(), 2, 0);
    assert_eq!(all.terms, ["hello", "man", "world"]);
    assert_eq!(all.documents.len(), 2);
    assert_eq!(all.documents[1].path, "test_data/docs/2.txt");
    assert_eq!(all.documents[1].length, 3);
    let hello = &all.postings[all.term_indices[0]];
    assert_eq!(hello[1].document_id, 1);
    assert_eq!(hello[1].document_frequency, 2);
    assert_eq!(hello[1].positions, [0, 1]);
}

#[test]
fn build_is_deterministic() {
    let a = Engine::build_engine(corpus(), 2, 0).unwrap();
    let b = Engine::build_engine(corpus(), 2, 0).unwrap();
    assert_eq!(a.postings, b.postings);
    assert_eq!(a.offsets, b.offsets);
    assert_eq!(a.vocabulary, b.vocabulary);
    assert_eq!(a.documents, b.documents);
}

#[test]
fn index_with_mismatched_files_is_malformed() {
    let files = Engine::build_engine(corpus(), 2, 0).unwrap();
    let other = Engine::build_engine(corpus(), 1, 0).unwrap();
    let mixed = IndexFiles {
        postings: files.postings,
        offsets: files.offsets,
        vocabulary: other.vocabulary,
        documents: files.documents,
    };
    assert!(matches!(
        Engine::load_index(mixed, Preprocessor::new().unwrap()),
        Err(CodecError::Malformed)
    ));
}

#[test]
fn truncated_postings_fail_the_query() {
    let files = Engine::build_engine(corpus(), 2, 0).unwrap();
    let cut = IndexFiles {
        postings: vec![0; 16],
        offsets: files.offsets,
        vocabulary: files.vocabulary,
        documents: files.documents,
    };
    let mut idx = Engine::load_index(cut, Preprocessor::new().unwrap()).unwrap();
    assert!(matches!(idx.boolean_query("world"), Err(QueryError::IndexTruncated)));
}

#[test]
fn malformed_postings_fail_the_query() {
    let files = Engine::build_engine(corpus(), 2, 0).unwrap();
    // thirty-two zero bytes: a count that never ends
    let broken = IndexFiles {
        postings: vec![0; 32],
        offsets: files.offsets,
        vocabulary: files.vocabulary,
        documents: files.documents,
    };
    let mut idx = Engine::load_index(broken, Preprocessor::new().unwrap()).unwrap();
    assert!(matches!(idx.boolean_query("hello"), Err(QueryError::IndexMalformed)));
    assert!(matches!(idx.get_term_postings("hello"), Err(CodecError::Malformed)));
    let tokens = idx.query_tokens("hello");
    assert!(matches!(idx.collect_matches(&tokens), Err(CodecError::Malformed)));
}

#[test]
fn loaded_index_holds_what_was_built() {
    let index = build_in_memory(corpus(), 2, 0);
    let files = Engine::write_index(&index).unwrap();
    let mut idx = Engine::load_index(files, Preprocessor::new().unwrap()).unwrap();
    assert_eq!(idx.get_num_documents(), 2);
    for (i, term) in index.terms.iter().enumerate() {
        let built = &index.postings[index.term_indices[i]];
        let loaded = idx.get_term_postings(term).unwrap().unwrap();
        assert_eq!(idx.get_term_frequency(term), Some(built.len() as u32));
        assert_eq!(loaded.len(), built.len());
        for (a, b) in loaded.iter().zip(built.iter()) {
            assert_eq!(a.document_id, b.document_id);
            assert_eq!(a.document_frequency, b.document_frequency);
            assert_eq!(a.positions, b.positions);
        }
    }
    assert_eq!(idx.get_term_postings("absent").unwrap().map(|l| l.len()), None);
    assert_eq!(idx.get_term_doc_ids("absent").unwrap(), None);
}

#[test]
fn postings_ascend() {
    let preprocessor = Preprocessor::new().unwrap();
    let texts = ["a b a c", "b b", "c a", "d", "a a a a b"];
    let corpus: Vec<(String, Vec<String>)> = texts
        .iter()
        .enumerate()
        .map(|(i, t)| (format!("{i}.txt"), preprocessor.tokenize_and_stem(t)))
        .collect();
    let files = Engine::build_engine(corpus, 5, 0).unwrap();
    let mut idx = Engine::load_index(files, Preprocessor::new().unwrap()).unwrap();
    for term in ["a", "b", "c", "d"] {
        let list = idx.get_term_postings(term).unwrap().unwrap();
        assert!(list.windows(2).all(|w| w[0].document_id < w[1].document_id));
        for posting in &list {
            assert!(posting.positions.windows(2).all(|w| w[0] < w[1]));
            assert_eq!(posting.document_frequency as usize, posting.positions.len());
        }
    }
    assert_eq!(idx.get_term_doc_ids("a").unwrap().unwrap(), [0, 2, 4]);
    assert_eq!(idx.get_term_postings("a").unwrap().unwrap()[2].positions, [0, 1, 2, 3]);
}

#[test]
fn one_posting_for_each_document_of_a_term() {
    let word = |w: &str| w.to_string();
    let docs = vec![
        (word("a"), vec![word("x"), word("y"), word("x")]),
        (word("b"), vec![word("y")]),
        (word("c"), vec![word("x"), word("x"), word("y"), word("x")]),
    ];
    let index = build_in_memory(docs, 3, 0);
    assert_eq!(index.terms, ["x", "y"]);
    let x = &index.postings[index.term_indices[0]];
    assert_eq!(x.iter().map(|p| p.document_id).collect::<Vec<u32>>(), [0, 2]);
    assert_eq!(x.iter().map(|p| p.document_frequency).collect::<Vec<u32>>(), [2, 3]);
    assert_eq!(x[0].positions, [0, 2]);
    assert_eq!(x[1].positions, [0, 1, 3]);
    let y = &index.postings[index.term_indices[1]];
    assert_eq!(y.iter().map(|p| p.document_id).collect::<Vec<u32>>(), [0, 1, 2]);
    assert_eq!(y.iter().map(|p| p.document_frequency).collect::<Vec<u32>>(), [1, 1, 1]);
    assert_eq!(y[0].positions, [1]);
    assert_eq!(y[1].positions, [0]);
    assert_eq!(y[2].positions, [2]);
}
