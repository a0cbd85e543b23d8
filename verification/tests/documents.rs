use search::disk::bits::CodecError;
use search::engine::documents::{Document, Documents};

fn two_documents() -> Vec<Document> {
    vec![
        Document {
            path: "document1.txt".to_string(),
            length: 100,
        },
        Document {
            path: "document2.txt".to_string(),
            length: 150,
        },
    ]
}

#[test]
fn documents_test_write_and_load() {
    let documents = two_documents();

    let bytes = Documents::write_documents(&documents);
    let loaded_documents = Documents::load_documents(bytes).unwrap();

    assert_eq!(loaded_documents.get_num_documents(), documents.len() as u32);

    for (i, d) in documents.iter().enumerate() {
        assert_eq!(loaded_documents.get_doc_path(i as u32), d.path);
        assert_eq!(loaded_documents.get_doc_len(i as u32), d.length);
    }
}

#[test]
fn documents_test_methods() {
    let documents = two_documents();

    let doc_collection = Documents::from_documents(documents.clone()).unwrap();

    assert_eq!(doc_collection.get_num_documents(), documents.len() as u32);

    for (i, d) in documents.iter().enumerate() {
        assert_eq!(doc_collection.get_doc_path(i as u32), d.path);
        assert_eq!(doc_collection.get_doc_len(i as u32), d.length);
    }
}

#[test]
fn documents_average_length() {
    let bytes = Documents::write_documents(&two_documents());
    let loaded = Documents::load_documents(bytes).unwrap();
    assert_eq!(loaded.get_total_doc_len(), 250);
    let avg = loaded.get_total_doc_len() as f64 / loaded.get_num_documents() as f64;
    assert_eq!(avg, 125.0);
}

#[test]
fn documents_file_layout() {
    // count 2; then prefix 0 + "document1.txt" + length 100; then prefix 8 +
    // "2.txt" + length 150; one register of data and one of padding
    let bytes = Documents::write_documents(&two_documents());
    assert_eq!(bytes.len() % 16, 0);
    assert_eq!(bytes[0], 0x83);
    assert!(bytes[bytes.len() - 16..].iter().all(|b| *b == 0));
}

#[test]
fn documents_paths_without_common_prefix_and_unicode() {
    let documents = vec![
        Document { path: "été/α.txt".to_string(), length: 0 },
        Document { path: "été/β.txt".to_string(), length: 7 },
        Document { path: "".to_string(), length: 1 },
        Document { path: "zzz".to_string(), length: u32::MAX - 1 },
    ];
    let loaded = Documents::load_documents(Documents::write_documents(&documents)).unwrap();
    assert_eq!(loaded.get_num_documents(), 4);
    for (i, d) in documents.iter().enumerate() {
        assert_eq!(loaded.get_doc_path(i as u32), d.path);
        assert_eq!(loaded.get_doc_len(i as u32), d.length);
    }
}

#[test]
fn documents_truncated_file_is_an_error() {
    let bytes = Documents::write_documents(&two_documents());
    assert!(matches!(
        Documents::load_documents(bytes[..16].to_vec()),
        Err(CodecError::UnexpectedEof)
    ));
    assert!(matches!(
        Documents::load_documents(Vec::new()),
        Err(CodecError::UnexpectedEof)
    ));
}

#[test]
fn documents_empty_table() {
    let loaded = Documents::load_documents(Documents::write_documents(&Vec::new())).unwrap();
    assert_eq!(loaded.get_num_documents(), 0);
    assert_eq!(loaded.get_total_doc_len(), 0);
}

#[test]
fn document_lengths_write_and_load() {
    use_lengths(&[100, 150, 0, 7]);
    use_lengths(&[]);
}

fn use_lengths(lengths: &[u32]) {
    let bytes = search::index::documents::write_doc_lentghts(&lengths.to_vec());
    assert_eq!(search::index::documents::load_document_lenghts(bytes).unwrap(), lengths);
}

#[test]
fn document_lengths_truncated() {
    let bytes = search::index::documents::write_doc_lentghts(&vec![5; 200]);
    assert!(matches!(
        search::index::documents::load_document_lenghts(bytes[..16].to_vec()),
        Err(CodecError::UnexpectedEof)
    ));
}
