use search::disk::bits::CodecError;
use search::disk::bits_writer::BitsWriter;
use search::engine::postings::Posting;
use search::engine::vocabulary::Vocabulary;
use search::engine::InMemory;

fn hello_world() -> InMemory {
    // "hello" is held by one document, "world" by two
    InMemory {
        terms: vec!["hello".to_string(), "world".to_string()],
        term_indices: vec![0, 1],
        postings: vec![
            vec![Posting::default()],
            vec![
                Posting::default(),
                Posting { document_id: 1, document_frequency: 0, positions: Vec::new() },
            ],
        ],
        documents: Vec::new(),
    }
}

#[test]
fn vocabulary_test_write_and_load() {
    let index = hello_world();

    let bytes = Vocabulary::write_vocabulary(&index);
    let loaded_vocabulary = Vocabulary::load_vocabulary(bytes).unwrap();

    assert_eq!(loaded_vocabulary.get_num_terms(), 2);
    assert_eq!(loaded_vocabulary.get_term(0), "hello");
    assert_eq!(loaded_vocabulary.get_term(1), "world");
    assert_eq!(loaded_vocabulary.get_term_frequency("hello"), Some(1));
    assert_eq!(loaded_vocabulary.get_term_frequency("world"), Some(2));

    assert_eq!(loaded_vocabulary.get_trigram_indices("hel").unwrap(), [0]);
    assert_eq!(loaded_vocabulary.get_trigram_indices("ell").unwrap(), [0]);
    assert_eq!(loaded_vocabulary.get_trigram_indices("rld").unwrap(), [1]);

    assert_eq!(loaded_vocabulary.spellcheck_term("hell").unwrap(), "hello");
    assert_eq!(loaded_vocabulary.spellcheck_term("wrld").unwrap(), "world");
    assert_eq!(loaded_vocabulary.spellcheck_term("he"), None);
}

#[test]
fn test_levenshtein_distance() {
    assert_eq!(Vocabulary::levenshtein_distance("hello", "hello"), 0);
    assert_eq!(Vocabulary::levenshtein_distance("hello", ""), 5);
    assert_eq!(Vocabulary::levenshtein_distance("", ""), 0);
    assert_eq!(Vocabulary::levenshtein_distance("cat", "cats"), 1);
    assert_eq!(Vocabulary::levenshtein_distance("abc", "xyz"), 3);
}

#[test]
fn levenshtein_more_cases() {
    assert_eq!(Vocabulary::levenshtein_distance("", "abc"), 3);
    assert_eq!(Vocabulary::levenshtein_distance("kitten", "sitting"), 3);
    assert_eq!(Vocabulary::levenshtein_distance("flaw", "lawn"), 2);
    assert_eq!(Vocabulary::levenshtein_distance("sunday", "saturday"), 3);
    // by characters, not by bytes
    assert_eq!(Vocabulary::levenshtein_distance("été", "ete"), 2);
    assert_eq!(Vocabulary::levenshtein_distance("a", "b"), 1);
}

#[test]
fn vocabulary_lookup() {
    let v = Vocabulary::load_vocabulary(Vocabulary::write_vocabulary(&hello_world())).unwrap();
    assert_eq!(v.get_term_index("hello"), Some(0));
    assert_eq!(v.get_term_index("world"), Some(1));
    assert_eq!(v.get_term_index("hell"), None);
    assert_eq!(v.get_term_index(""), None);
    assert_eq!(v.get_term_frequency("nothing"), None);
    assert_eq!(v.get_trigram_indices("xyz"), None);
    assert_eq!(v.get_trigram_indices("hell"), None);
}

#[test]
fn spellcheck_keeps_known_terms() {
    let v = Vocabulary::load_vocabulary(Vocabulary::write_vocabulary(&hello_world())).unwrap();
    assert_eq!(v.spellcheck_term("hello").unwrap(), "hello");
    assert_eq!(v.spellcheck_term("world").unwrap(), "world");
    // no trigram in common with any term
    assert_eq!(v.spellcheck_term("zzzz"), None);
    assert_eq!(v.get_closest_index("zzzz"), None);
    assert_eq!(v.get_closest_index("worl"), Some(1));
}

#[test]
fn spellcheck_prefers_near_then_frequent_then_first() {
    let terms: Vec<String> =
        ["abcd", "abce", "abcfgh", "xbcd"].iter().map(|s| s.to_string()).collect();
    let v = Vocabulary::from_terms(terms, vec![1, 5, 9, 5]).unwrap();
    // "abcx": distance 1 to "abcd" and "abce", 3 to "abcfgh"; of the two
    // nearest the more frequent wins
    assert_eq!(v.spellcheck_term("abcx").unwrap(), "abce");
    // "bcdd": "abcd" (2) and "xbcd" (2) share "bcd"; "xbcd" is more frequent
    assert_eq!(v.spellcheck_term("bcdd").unwrap(), "xbcd");
    let same: Vec<String> = ["abcd", "abce"].iter().map(|s| s.to_string()).collect();
    let v = Vocabulary::from_terms(same, vec![3, 3]).unwrap();
    // equally near and equally frequent: the first candidate
    assert_eq!(v.spellcheck_term("abcx").unwrap(), "abcd");
}

#[test]
fn vocabulary_needs_sorted_terms() {
    let unsorted: Vec<String> = ["b", "a"].iter().map(|s| s.to_string()).collect();
    assert!(Vocabulary::from_terms(unsorted, vec![1, 1]).is_none());
    let twice: Vec<String> = ["a", "a"].iter().map(|s| s.to_string()).collect();
    assert!(Vocabulary::from_terms(twice, vec![1, 1]).is_none());
    let short: Vec<String> = ["a"].iter().map(|s| s.to_string()).collect();
    assert!(Vocabulary::from_terms(short, vec![]).is_none());

    let mut w = BitsWriter::new();
    w.write_vbyte(2);
    w.write_gamma(0);
    w.write_str("b");
    w.write_gamma(0);
    w.write_str("a");
    w.write_vbyte(1);
    w.write_vbyte(1);
    w.flush();
    assert!(matches!(Vocabulary::load_vocabulary(w.into_bytes()), Err(CodecError::Malformed)));
}

#[test]
fn vocabulary_prefix_beyond_previous_term_is_malformed() {
    let mut w = BitsWriter::new();
    w.write_vbyte(1);
    w.write_gamma(3);
    w.write_str("abc");
    w.write_vbyte(1);
    w.flush();
    assert!(matches!(Vocabulary::load_vocabulary(w.into_bytes()), Err(CodecError::Malformed)));
}

#[test]
fn trigram_index_lists_each_term_once() {
    let terms: Vec<String> = ["aaaa", "baaa", "caab"].iter().map(|s| s.to_string()).collect();
    let v = Vocabulary::from_terms(terms, vec![1, 1, 1]).unwrap();
    assert_eq!(v.get_trigram_indices("aaa").unwrap(), [0, 1]);
    assert_eq!(v.get_trigram_indices("aab").unwrap(), [2]);
    assert_eq!(v.get_trigram_indices("caa").unwrap(), [2]);
}
