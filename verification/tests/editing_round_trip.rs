use markdown_neuraxis::editing::Document;

// ============ Basic document tests ============

#[test]
fn document_test_document_from_bytes_valid_utf8() {
    let text = "# Hello World\n\nThis is a test document.";
    let bytes = text.as_bytes();

    let doc = Document::from_bytes(bytes).expect("Should create document from valid UTF-8");

    // The document should be created successfully
    assert_eq!(doc.to_bytes(), bytes);
    assert_eq!(doc.version(), 0);
    assert_eq!(doc.selection(), text.len()..text.len());
}

#[test]
fn document_test_document_from_bytes_invalid_utf8() {
    let invalid_bytes = vec![0xFF, 0xFE, 0xFD]; // Invalid UTF-8 sequence

    let result = Document::from_bytes(&invalid_bytes);

    // Should return an error for invalid UTF-8
    assert!(result.is_err());
}

// ============ Round-trip preservation tests ============

#[test]
fn document_test_document_to_bytes_preserves_content() {
    let original =
        "# Markdown Document\n\n- Bullet 1\n- Bullet 2\n\n```rust\nfn main() {}\n```";
    let bytes = original.as_bytes();

    let doc = Document::from_bytes(bytes).expect("Should create document");
    let result_bytes = doc.to_bytes();

    // Should preserve exact byte representation
    assert_eq!(result_bytes, bytes);
    assert_eq!(std::str::from_utf8(&result_bytes).unwrap(), original);
}

#[test]
fn document_test_document_with_unicode() {
    let text = "Hello 世界! 🦀\n\nRust is great! 🎉";
    let bytes = text.as_bytes();

    let doc = Document::from_bytes(bytes).expect("Should handle Unicode");
    let result = doc.to_bytes();

    // Unicode content should be preserved exactly
    assert_eq!(result, bytes);
    assert_eq!(std::str::from_utf8(&result).unwrap(), text);
}

#[test]
fn document_test_document_with_windows_line_endings() {
    let text = "Line 1\r\nLine 2\r\nLine 3";
    let bytes = text.as_bytes();

    let doc = Document::from_bytes(bytes).expect("Should handle Windows line endings");
    let result = doc.to_bytes();

    // Windows line endings should be preserved
    assert_eq!(result, bytes);
}

#[test]
fn document_test_document_with_mixed_line_endings() {
    let text = "Unix line\nWindows line\r\nAnother Unix\n";
    let bytes = text.as_bytes();

    let doc = Document::from_bytes(bytes).expect("Should handle mixed line endings");
    let result = doc.to_bytes();

    // Mixed line endings should be preserved exactly
    assert_eq!(result, bytes);

}
