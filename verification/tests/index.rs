use search::disk::bits::CodecError;
use search::disk::bits_reader::BitsReader;
use search::disk::bits_writer::BitsWriter;
use search::engine::postings::load_offsets;
use search::index::loader::load_terms_to_offsets_map;
use search::index::postings::load_postings_list;

fn terms_file() -> Vec<u8> {
    "applebananacherry".as_bytes().to_vec()
}

fn lengths_file(lengths: &[u32]) -> Vec<u8> {
    let mut w = BitsWriter::new();
    for l in lengths {
        w.write_gamma(*l);
    }
    w.finish()
}

fn offsets_file(gaps: &[u32]) -> Vec<u8> {
    let mut w = BitsWriter::new();
    w.write_vbyte(gaps.len() as u32);
    for g in gaps {
        w.write_gamma(*g);
    }
    w.finish()
}

#[test]
fn terms_and_offsets_are_loaded() {
    let map =
        load_terms_to_offsets_map(terms_file(), lengths_file(&[5, 6, 6]), offsets_file(&[0, 40, 3]))
            .unwrap();
    assert_eq!(
        map,
        [("apple".to_string(), 0), ("banana".to_string(), 40), ("cherry".to_string(), 43)]
    );
    assert_eq!(load_offsets(offsets_file(&[0, 40, 3])).unwrap(), [0, 40, 43]);
    assert_eq!(
        load_terms_to_offsets_map(Vec::new(), lengths_file(&[]), offsets_file(&[])).unwrap(),
        []
    );
}

#[test]
fn terms_that_do_not_fit_are_errors() {
    // the lengths ask for more bytes than there are
    assert!(matches!(
        load_terms_to_offsets_map(terms_file(), lengths_file(&[5, 6, 7]), offsets_file(&[0, 1, 1])),
        Err(CodecError::UnexpectedEof)
    ));
    // terms out of order: "appleb", then "anana"
    assert!(matches!(
        load_terms_to_offsets_map(terms_file(), lengths_file(&[6, 5]), offsets_file(&[0, 1])),
        Err(CodecError::Malformed)
    ));
    // a term cut within a character
    assert!(matches!(
        load_terms_to_offsets_map("aé".as_bytes().to_vec(), lengths_file(&[2]), offsets_file(&[0])),
        Err(CodecError::Malformed)
    ));
    // fewer lengths than offsets
    assert!(matches!(
        load_terms_to_offsets_map(terms_file(), Vec::new(), offsets_file(&[0])),
        Err(CodecError::UnexpectedEof)
    ));
}

#[test]
fn posting_list_with_collection_frequency() {
    let mut w = BitsWriter::new();
    w.write_gamma(77);
    // two postings: document 3 with positions 1 and 4, document 9 with position 0
    w.write_vbyte(2);
    w.write_gamma(3);
    w.write_gamma(2);
    w.write_vbyte(2);
    w.write_gamma(1);
    w.write_gamma(3);
    w.write_gamma(6);
    w.write_gamma(1);
    w.write_vbyte(1);
    w.write_gamma(0);
    let mut reader = BitsReader::new(w.finish()).unwrap();
    let list = load_postings_list(&mut reader, 13).unwrap();
    assert_eq!(list.collection_frequency, 2);
    assert_eq!(list.documents[0].document_id, 3);
    assert_eq!(list.documents[0].document_frequency, 2);
    assert_eq!(list.documents[0].positions, [1, 4]);
    assert_eq!(list.documents[1].document_id, 9);
    assert_eq!(list.documents[1].positions, [0]);
}

#[test]
fn written_terms_are_loaded_again() {
    let terms: Vec<String> = ["apple", "banana", "cherry", "été"].iter().map(|s| s.to_string()).collect();
    let (names, lengths) = search::index::vocabulary::write_vocabulary(&terms);
    assert_eq!(names, "applebananacherryété".as_bytes());
    let postings = vec![vec![(0, 2), (3, 1)], vec![], vec![(1, 1)], vec![(0, 1), (1, 1), (2, 5)]];
    let (lists, offsets) = search::index::postings::write_postings(&terms, &postings).unwrap();
    // a list takes a byte for its count and, for each entry, the codes of
    // the gap and of the frequency
    assert_eq!(load_offsets(offsets.clone()).unwrap(), [0, 20, 28, 42]);
    assert_eq!(lists.len(), 32);
    assert_eq!(lists[0], 0x83);
    let map = load_terms_to_offsets_map(names, lengths, offsets).unwrap();
    assert_eq!(
        map,
        [
            ("apple".to_string(), 0),
            ("banana".to_string(), 20),
            ("cherry".to_string(), 28),
            ("été".to_string(), 42)
        ]
    );
}

#[test]
fn nothing_written_is_nothing_loaded() {
    let (names, lengths) = search::index::vocabulary::write_vocabulary(&Vec::new());
    let (lists, offsets) =
        search::index::postings::write_postings(&Vec::new(), &Vec::new()).unwrap();
    assert_eq!(names.len(), 0);
    assert_eq!(lists.len(), 16);
    assert_eq!(load_terms_to_offsets_map(names, lengths, offsets).unwrap(), []);
}
