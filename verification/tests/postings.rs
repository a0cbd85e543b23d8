use search::disk::bits::CodecError;
use search::disk::bits_writer::BitsWriter;
use search::engine::postings::{Posting, Postings};
use search::engine::InMemory;

#[test]
fn test_or_operator() {
    let left = vec![1, 3, 5, 7, 9];
    let right = vec![2, 4, 6, 8, 10];

    let result = Postings::or_operator(left.clone(), right.clone());
    assert_eq!(result, vec![1, 2, 3, 4, 5, 6, 7, 8, 9, 10]);

    let result_empty = Postings::or_operator(vec![], vec![]);
    assert_eq!(result_empty, vec![]);
}

#[test]
fn test_and_operator() {
    let left = vec![1, 3, 5, 7, 10];
    let right = vec![2, 3, 6, 7, 10];

    let result = Postings::and_operator(left.clone(), right.clone());
    assert_eq!(result, vec![3, 7, 10]);

    let result_empty = Postings::and_operator(vec![1, 2, 3], vec![]);
    assert_eq!(result_empty, vec![]);

    let result_both_empty = Postings::and_operator(vec![], vec![]);
    assert_eq!(result_both_empty, vec![]);
}

#[test]
fn test_not_operator() {
    let p = vec![2, 4, 6, 8];
    let n = 10;

    let result = Postings::not_operator(p.clone(), n);
    assert_eq!(result, vec![0, 1, 3, 5, 7, 9]);

    // the complement of nothing is everything below `n`
    let result_empty = Postings::not_operator(vec![], n);
    assert_eq!(result_empty, (0..n).collect::<Vec<u32>>());

    let result_full = Postings::not_operator(vec![0, 1, 2], 3);
    assert_eq!(result_full, []);
}

#[test]
fn operators_with_overlap_and_leftovers() {
    assert_eq!(Postings::or_operator(vec![1, 2, 3], vec![2, 3, 4, 9]), vec![1, 2, 3, 4, 9]);
    assert_eq!(Postings::or_operator(vec![], vec![5]), vec![5]);
    assert_eq!(Postings::or_operator(vec![5], vec![]), vec![5]);
    assert_eq!(Postings::and_operator(vec![1, 2, 3], vec![4, 5]), Vec::<u32>::new());
    assert_eq!(Postings::not_operator(vec![0, 5, 12], 6), vec![1, 2, 3, 4]);
    assert_eq!(Postings::not_operator(vec![3], 0), Vec::<u32>::new());
}

#[test]
fn boolean_algebra_on_examples() {
    let a = vec![0, 2, 3, 8];
    let b = vec![2, 5, 8, 9];
    let n = 10;
    assert_eq!(Postings::and_operator(a.clone(), b.clone()), Postings::and_operator(b.clone(), a.clone()));
    assert_eq!(Postings::or_operator(a.clone(), b.clone()), Postings::or_operator(b.clone(), a.clone()));
    assert_eq!(Postings::and_operator(a.clone(), a.clone()), a);
    assert_eq!(Postings::or_operator(a.clone(), a.clone()), a);
    assert_eq!(Postings::not_operator(Postings::not_operator(a.clone(), n), n), a);
    assert_eq!(Postings::not_operator(Postings::not_operator(vec![1, 20], n), n), vec![1]);
    assert_eq!(Postings::and_operator(a.clone(), Postings::not_operator(b.clone(), n)), vec![0, 3]);
}

fn posting(document_id: u32, positions: Vec<u32>) -> Posting {
    Posting { document_id, document_frequency: positions.len() as u32, positions }
}

fn small_index() -> InMemory {
    InMemory {
        terms: vec!["hello".to_string(), "man".to_string(), "world".to_string()],
        term_indices: vec![0, 2, 1],
        postings: vec![
            vec![posting(0, vec![0]), posting(1, vec![0, 1])],
            vec![posting(0, vec![1])],
            vec![posting(1, vec![2])],
        ],
        documents: Vec::new(),
    }
}

#[test]
fn postings_write_and_load() {
    let index = small_index();
    let (postings, offsets) = Postings::write_postings(&index).unwrap();
    let mut loaded = Postings::load_postings_reader(postings, offsets).unwrap();
    assert_eq!(loaded.get_num_lists(), 3);

    let hello = loaded.load_postings_list(0).unwrap();
    assert_eq!(hello.len(), 2);
    assert_eq!(hello[0].document_id, 0);
    assert_eq!(hello[0].document_frequency, 1);
    assert_eq!(hello[0].positions, [0]);
    assert_eq!(hello[1].document_id, 1);
    assert_eq!(hello[1].document_frequency, 2);
    assert_eq!(hello[1].positions, [0, 1]);

    // lists are read in any order
    assert_eq!(loaded.load_doc_ids_list(2).unwrap(), [0]);
    assert_eq!(loaded.load_doc_ids_list(1).unwrap(), [1]);
    assert_eq!(loaded.load_doc_ids_list(0).unwrap(), [0, 1]);
    let man = loaded.load_postings_list(1).unwrap();
    assert_eq!(man[0].positions, [2]);
}

#[test]
fn postings_file_layout() {
    let index = small_index();
    let (postings, offsets) = Postings::write_postings(&index).unwrap();
    // hello: count 2 (8 bits), doc 0: gap 0 (1), frequency 1 (3), count 1
    // (8), position gap 0 (1); doc 1: gap 1 (3), frequency 2 (3), count 2
    // (8), gaps 0 and 1 (1 + 3): 39 bits. The offsets are 0, 39, ...
    assert_eq!(postings[0], 0x83);
    assert_eq!(postings.len(), 32);
    assert_eq!(offsets.len(), 32);
    assert_eq!(offsets[0], 0x84);
    // gap 0 is the one bit "1"; gap 39 is 40 = 101000b: five zeros, a one,
    // then 01000 lowest bit first
    assert_eq!(offsets[1] & 0b0111_1111, 0b0100_0001);
}

#[test]
fn postings_descending_ids_are_malformed() {
    let mut w = BitsWriter::new();
    w.write_vbyte(2);
    // document 3, then a gap of zero
    w.write_gamma(3);
    w.write_gamma(1);
    w.write_vbyte(0);
    w.write_gamma(0);
    w.write_gamma(1);
    w.write_vbyte(0);
    w.flush();
    let mut o = BitsWriter::new();
    o.write_vbyte(1);
    o.write_gamma(0);
    o.flush();
    let mut loaded = Postings::load_postings_reader(w.into_bytes(), o.into_bytes()).unwrap();
    assert!(matches!(loaded.load_postings_list(0), Err(CodecError::Malformed)));
}

#[test]
fn postings_offset_beyond_the_file_is_an_error() {
    let mut w = BitsWriter::new();
    w.write_vbyte(0);
    w.flush();
    let mut o = BitsWriter::new();
    o.write_vbyte(1);
    o.write_gamma(100_000);
    o.flush();
    let mut loaded = Postings::load_postings_reader(w.into_bytes(), o.into_bytes()).unwrap();
    assert!(matches!(loaded.load_doc_ids_list(0), Err(CodecError::UnexpectedEof)));
}

#[test]
fn postings_at_the_limits() {
    // a document id may be the largest number; a position may not, as it
    // lies below the length of a document
    let mut w = BitsWriter::new();
    w.write_vbyte(1);
    w.write_gamma(u32::MAX - 1);
    w.write_gamma(1);
    w.write_vbyte(1);
    w.write_gamma(7);
    w.write_vbyte(1);
    w.write_gamma(0);
    w.write_gamma(1);
    w.write_vbyte(2);
    w.write_gamma(u32::MAX - 1);
    w.write_gamma(1);
    let mut o = BitsWriter::new();
    o.write_vbyte(1);
    o.write_gamma(0);
    let mut loaded = Postings::load_postings_reader(w.finish(), o.finish()).unwrap();
    let list = loaded.load_postings_list(0).unwrap();
    assert_eq!(list[0].document_id, u32::MAX - 1);
    assert_eq!(list[0].positions, [7]);

    let mut w = BitsWriter::new();
    w.write_vbyte(1);
    w.write_gamma(0);
    w.write_gamma(2);
    w.write_vbyte(2);
    w.write_gamma(u32::MAX - 1);
    w.write_gamma(1);
    let mut o = BitsWriter::new();
    o.write_vbyte(1);
    o.write_gamma(0);
    let mut loaded = Postings::load_postings_reader(w.finish(), o.finish()).unwrap();
    assert!(matches!(loaded.load_postings_list(0), Err(CodecError::Malformed)));
}
