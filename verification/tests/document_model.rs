use markdown_neuraxis::models::document::split_string_at_position;

#[test]
fn test_split_string_at_position() {
    // Test ASCII
    assert_eq!(
        split_string_at_position("hello", 0),
        ("".to_string(), "hello".to_string())
    );
    assert_eq!(
        split_string_at_position("hello", 3),
        ("hel".to_string(), "lo".to_string())
    );
    assert_eq!(
        split_string_at_position("hello", 5),
        ("hello".to_string(), "".to_string())
    );

    // Test boundary - should not panic
    assert_eq!(
        split_string_at_position("hello", 10),
        ("hello".to_string(), "".to_string())
    );

    // Test Unicode emoji
    assert_eq!(
        split_string_at_position("👋 hello", 1),
        ("👋".to_string(), " hello".to_string())
    );
    assert_eq!(
        split_string_at_position("👋 hello", 2),
        ("👋 ".to_string(), "hello".to_string())
    );

    // Test multi-byte characters
    assert_eq!(
        split_string_at_position("café", 3),
        ("caf".to_string(), "é".to_string())
    );
    assert_eq!(
        split_string_at_position("café", 4),
        ("café".to_string(), "".to_string())
    );
}
