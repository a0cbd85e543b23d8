use search::engine::boolean::{infix_to_postfix_boolean, tokenize, QueryError};

#[test]
fn test_infix_postfix() {
    assert_eq!(
        infix_to_postfix_boolean("a AND (b OR NOT c)").unwrap(),
        ["a", "b", "c", "NOT", "OR", "AND"]
    );

    assert_eq!(
        infix_to_postfix_boolean("a AND b OR NOT c").unwrap(),
        ["a", "b", "AND", "c", "NOT", "OR"]
    );

    assert_eq!(
        infix_to_postfix_boolean("NOT (a AND b) OR NOT (c OR d)").unwrap(),
        ["a", "b", "AND", "NOT", "c", "d", "OR", "NOT", "OR"]
    );

    // `AND` and `OR` associate to the left
    assert_eq!(
        infix_to_postfix_boolean("a AND b AND c OR d OR e").unwrap(),
        ["a", "b", "AND", "c", "AND", "d", "OR", "e", "OR"]
    );

    assert_eq!(
        infix_to_postfix_boolean("a AND (b OR c)").unwrap(),
        ["a", "b", "c", "OR", "AND"]
    );
}

#[test]
fn postfix_of_nested_negations() {
    assert_eq!(infix_to_postfix_boolean("NOT NOT a").unwrap(), ["a", "NOT", "NOT"]);
    assert_eq!(
        infix_to_postfix_boolean("a OR b AND NOT c").unwrap(),
        ["a", "b", "c", "NOT", "AND", "OR"]
    );
    assert_eq!(infix_to_postfix_boolean("((a))").unwrap(), ["a"]);
    assert_eq!(infix_to_postfix_boolean("").unwrap(), Vec::<String>::new());
}

#[test]
fn unbalanced_parentheses_are_refused() {
    assert_eq!(infix_to_postfix_boolean("a AND b)"), Err(QueryError::UnbalancedParentheses));
    assert_eq!(infix_to_postfix_boolean("(a AND b"), Err(QueryError::UnbalancedParentheses));
    assert_eq!(infix_to_postfix_boolean(")("), Err(QueryError::UnbalancedParentheses));
}

#[test]
fn lexer_splits_at_whitespace_and_parentheses() {
    assert_eq!(tokenize("a AND(b  OR\tc)"), ["a", "AND", "(", "b", "OR", "c", ")"]);
    assert_eq!(tokenize("   "), Vec::<String>::new());
    assert_eq!(tokenize("and Or NOTE"), ["and", "Or", "NOTE"]);
    assert_eq!(tokenize("é(ü)"), ["é", "(", "ü", ")"]);
}
