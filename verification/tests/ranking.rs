use search::engine::postings::Posting;
use search::engine::preprocessor::Preprocessor;
use search::engine::proximity::proximity_window;
use search::engine::ranking::{find_posting, match_documents, sort_pairs, TermHit};
use search::engine::Engine;

#[test]
fn window_of_adjacent_tokens() {
    // token 0 at 3 and 10, token 1 at 4
    assert_eq!(proximity_window(&vec![(3, 0), (4, 1), (10, 0)], 2), 2);
    // the same position for both tokens
    assert_eq!(proximity_window(&vec![(7, 0), (7, 1)], 2), 1);
    assert_eq!(proximity_window(&vec![(0, 0)], 1), 1);
}

#[test]
fn window_is_the_shortest_stretch() {
    let pairs = vec![(0, 0), (5, 1), (6, 2), (20, 0), (21, 2), (22, 1), (40, 1)];
    assert_eq!(proximity_window(&pairs, 3), 3);
    let pairs = vec![(1, 0), (2, 0), (3, 0), (9, 1), (10, 0)];
    assert_eq!(proximity_window(&pairs, 2), 2);
}

#[test]
fn window_without_all_tokens_is_the_largest_number() {
    assert_eq!(proximity_window(&vec![(3, 0), (4, 0)], 2), u32::MAX);
    assert_eq!(proximity_window(&vec![], 1), u32::MAX);
    assert_eq!(proximity_window(&vec![], 0), u32::MAX);
}

#[test]
fn window_can_be_as_wide_as_the_largest_number() {
    assert_eq!(proximity_window(&vec![(0, 0), (u32::MAX - 1, 1)], 2), u32::MAX);
}

#[test]
fn pairs_are_sorted_by_position_then_token() {
    assert_eq!(
        sort_pairs(&vec![(5, 1), (2, 0), (5, 0), (1, 3), (2, 0)]),
        [(1, 3), (2, 0), (2, 0), (5, 0), (5, 1)]
    );
    assert_eq!(sort_pairs(&vec![]), []);
}

fn posting(document_id: u32, positions: Vec<u32>) -> Posting {
    Posting { document_id, document_frequency: positions.len() as u32, positions }
}

#[test]
fn postings_are_found_by_document() {
    let list = vec![posting(1, vec![0]), posting(4, vec![2]), posting(9, vec![1])];
    assert_eq!(find_posting(&list, 4), Some(1));
    assert_eq!(find_posting(&list, 9), Some(2));
    assert_eq!(find_posting(&list, 1), Some(0));
    assert_eq!(find_posting(&list, 5), None);
    assert_eq!(find_posting(&Vec::new(), 5), None);
}

#[test]
fn documents_are_matched() {
    let lists = vec![
        vec![posting(0, vec![0]), posting(1, vec![0, 1]), posting(5, vec![9])],
        vec![posting(1, vec![2]), posting(3, vec![4])],
    ];
    let matches = match_documents(&lists);
    assert_eq!(matches.iter().map(|m| m.document_id).collect::<Vec<u32>>(), [0, 1, 3, 5]);
    assert_eq!(matches[0].hits, [TermHit { token: 0, document_frequency: 1 }]);
    assert_eq!(matches[0].window, u32::MAX);
    assert_eq!(
        matches[1].hits,
        [TermHit { token: 0, document_frequency: 2 }, TermHit { token: 1, document_frequency: 1 }]
    );
    assert_eq!(matches[1].window, 2);
    assert_eq!(matches[2].hits, [TermHit { token: 1, document_frequency: 1 }]);
    assert_eq!(matches[3].window, u32::MAX);
    assert_eq!(match_documents(&Vec::new()).len(), 0);
}

fn engine() -> Engine {
    let preprocessor = Preprocessor::new().unwrap();
    let corpus = vec![
        ("test_data/docs/1.txt".to_string(), preprocessor.tokenize_and_stem("hello world")),
        ("test_data/docs/2.txt".to_string(), preprocessor.tokenize_and_stem("hello hello man")),
    ];
    let files = Engine::build_engine(corpus, 2, 0).unwrap();
    Engine::load_index(files, Preprocessor::new().unwrap()).unwrap()
}

#[test]
fn ranked_query_finds_both_documents() {
    let mut idx = engine();
    let tokens = idx.query_tokens("hello");
    assert_eq!(tokens, ["hello"]);
    let matches = idx.collect_matches(&tokens).unwrap();
    let mut paths: Vec<String> =
        matches.iter().map(|m| idx.get_doc_path(m.document_id)).collect();
    paths.sort();
    assert_eq!(paths, ["test_data/docs/1.txt", "test_data/docs/2.txt"]);
    assert_eq!(matches[1].hits, [TermHit { token: 0, document_frequency: 2 }]);
    assert_eq!(matches[1].window, 1);

    let tokens = idx.query_tokens("man");
    let matches = idx.collect_matches(&tokens).unwrap();
    assert_eq!(matches.len(), 1);
    assert_eq!(idx.get_doc_path(matches[0].document_id), "test_data/docs/2.txt");
}

#[test]
fn query_tokens_are_corrected_or_dropped() {
    let idx = engine();
    assert_eq!(idx.query_tokens("Hello, wrld! qqqq he"), ["hello", "world"]);
    assert_eq!(idx.query_tokens(""), Vec::<String>::new());
}

#[test]
fn ranked_query_with_two_tokens() {
    let mut idx = engine();
    let tokens = idx.query_tokens("hello man");
    let matches = idx.collect_matches(&tokens).unwrap();
    assert_eq!(matches.len(), 2);
    assert_eq!(matches[0].document_id, 0);
    assert_eq!(matches[0].window, u32::MAX);
    assert_eq!(matches[1].document_id, 1);
    // "hello" at 0 and 1, "man" at 2
    assert_eq!(matches[1].window, 2);
    assert_eq!(idx.get_doc_len(1), 3);
    assert_eq!(idx.get_total_doc_len(), 5);
    assert_eq!(idx.get_num_documents(), 2);
}

#[test]
fn free_query_gives_tokens_and_matches() {
    let mut idx = engine();
    let answer = idx.free_query("Hello, mann!").unwrap();
    assert_eq!(answer.tokens, ["hello", "man"]);
    assert_eq!(
        answer.matches.iter().map(|m| m.document_id).collect::<Vec<u32>>(),
        [0, 1]
    );
    assert_eq!(answer.matches[1].window, 2);
    let nothing = idx.free_query("qqqq").unwrap();
    assert_eq!(nothing.tokens, Vec::<String>::new());
    assert_eq!(nothing.matches.len(), 0);
}
