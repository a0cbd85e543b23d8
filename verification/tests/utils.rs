use search::engine::utils::get_matching_prefix_len;

#[test]
fn test_get_matching_prefix_len() {
    assert_eq!(get_matching_prefix_len("hello", "hell"), 4);
    assert_eq!(get_matching_prefix_len("abc", "xyz"), 0);
    assert_eq!(get_matching_prefix_len("", ""), 0);
    assert_eq!(get_matching_prefix_len("apple", "appetizer"), 3);
    assert_eq!(get_matching_prefix_len("rust", "rust"), 4);
}

#[test]
fn matching_prefix_counts_characters_not_bytes() {
    assert_eq!(get_matching_prefix_len("héllo", "hélas"), 3);
    assert_eq!(get_matching_prefix_len("é", "è"), 0);
}
