use markdown_neuraxis::editing::{Cmd, Document, Marker};

#[test]
fn mod_test_document_from_bytes_valid_utf8() {
    let text = "# Hello World\n\nThis is a test document.";
    let bytes = text.as_bytes();

    let doc = Document::from_bytes(bytes).expect("Should create document from valid UTF-8");

    // The document should be created successfully
    assert_eq!(doc.to_bytes(), bytes);
    assert_eq!(doc.version(), 0);
    assert_eq!(doc.selection(), text.len()..text.len());
}

#[test]
fn mod_test_document_from_bytes_invalid_utf8() {
    let invalid_bytes = vec![0xFF, 0xFE, 0xFD]; // Invalid UTF-8 sequence

    let result = Document::from_bytes(&invalid_bytes);

    // Should return an error for invalid UTF-8
    assert!(result.is_err());
}

// ============ InsertText command tests ============

#[test]
fn test_insert_text_at_beginning() {
    let mut doc = Document::from_bytes(b"Hello World").unwrap();
    doc.set_selection(0..0);

    let patch = doc.apply(Cmd::InsertText {
        at: 0,
        text: "Start: ".to_string(),
    });

    assert_eq!(doc.text(), "Start: Hello World");
    assert_eq!(patch.version, 1);
    assert_eq!(patch.changed, vec![0..7]);
    assert_eq!(patch.new_selection, 7..7);
}

#[test]
fn test_insert_text_in_middle() {
    let mut doc = Document::from_bytes(b"Hello World").unwrap();
    doc.set_selection(5..5);

    let patch = doc.apply(Cmd::InsertText {
        at: 5,
        text: " Beautiful".to_string(),
    });

    assert_eq!(doc.text(), "Hello Beautiful World");
    assert_eq!(patch.changed, vec![5..15]);
    assert_eq!(patch.new_selection, 15..15);
}

#[test]
fn test_insert_text_at_end() {
    let mut doc = Document::from_bytes(b"Hello").unwrap();
    doc.set_selection(5..5);

    let patch = doc.apply(Cmd::InsertText {
        at: 5,
        text: " World".to_string(),
    });

    assert_eq!(doc.text(), "Hello World");
    assert_eq!(patch.changed, vec![5..11]);
}

#[test]
fn test_insert_text_with_newlines() {
    let mut doc = Document::from_bytes(b"Line 1").unwrap();

    let patch = doc.apply(Cmd::InsertText {
        at: 6,
        text: "\nLine 2\nLine 3".to_string(),
    });

    assert_eq!(doc.text(), "Line 1\nLine 2\nLine 3");
    assert_eq!(patch.changed, vec![6..20]);
}

// ============ DeleteRange command tests ============

#[test]
fn test_delete_range_single_char() {
    let mut doc = Document::from_bytes(b"Hello World").unwrap();
    doc.set_selection(5..5);

    let patch = doc.apply(Cmd::DeleteRange { range: 5..6 });

    assert_eq!(doc.text(), "HelloWorld");
    assert_eq!(patch.new_selection, 5..5);
    assert_eq!(patch.version, 1);
}

#[test]
fn test_delete_range_multiple_chars() {
    let mut doc = Document::from_bytes(b"Hello World").unwrap();
    doc.set_selection(11..11);

    let patch = doc.apply(Cmd::DeleteRange { range: 5..11 });

    assert_eq!(doc.text(), "Hello");
    assert_eq!(patch.new_selection, 5..5);
}

#[test]
fn test_delete_range_across_lines() {
    let mut doc = Document::from_bytes(b"Line 1\nLine 2\nLine 3").unwrap();

    let patch = doc.apply(Cmd::DeleteRange { range: 6..14 });

    assert_eq!(doc.text(), "Line 1Line 3");
}

// ============ SplitListItem command tests ============

#[test]
fn test_split_list_item_basic() {
    let mut doc = Document::from_bytes(b"- Item 1").unwrap();
    doc.set_selection(8..8);

    let patch = doc.apply(Cmd::SplitListItem { at: 8 });

    assert_eq!(doc.text(), "- Item 1\n- ");
    assert_eq!(patch.changed, vec![8..11]);
}

#[test]
fn test_split_list_item_with_indent() {
    let mut doc = Document::from_bytes(b"  - Indented item").unwrap();

    let patch = doc.apply(Cmd::SplitListItem { at: 17 });

    assert_eq!(doc.text(), "  - Indented item\n  - ");
    assert_eq!(patch.changed, vec![17..22]);
}

#[test]
fn test_split_list_item_numbered() {
    let mut doc = Document::from_bytes(b"1. First item").unwrap();

    let patch = doc.apply(Cmd::SplitListItem { at: 13 });

    assert_eq!(doc.text(), "1. First item\n1. ");
}

#[test]
fn test_split_list_item_asterisk() {
    let mut doc = Document::from_bytes(b"* Star item").unwrap();

    let patch = doc.apply(Cmd::SplitListItem { at: 11 });

    assert_eq!(doc.text(), "* Star item\n* ");
}

#[test]
fn test_split_list_item_plus() {
    let mut doc = Document::from_bytes(b"+ Plus item").unwrap();

    let patch = doc.apply(Cmd::SplitListItem { at: 11 });

    assert_eq!(doc.text(), "+ Plus item\n+ ");
}

#[test]
fn test_split_list_item_non_list() {
    let mut doc = Document::from_bytes(b"Regular text").unwrap();

    let patch = doc.apply(Cmd::SplitListItem { at: 12 });

    // Should just insert newline for non-list items
    assert_eq!(doc.text(), "Regular text\n");
}

// ============ IndentLines command tests ============

#[test]
fn test_indent_single_line() {
    let mut doc = Document::from_bytes(b"- Item 1").unwrap();

    let patch = doc.apply(Cmd::IndentLines { range: 0..8 });

    assert_eq!(doc.text(), "  - Item 1");
}

#[test]
fn test_indent_multiple_lines() {
    let mut doc = Document::from_bytes(b"- Item 1\n- Item 2\n- Item 3").unwrap();

    let patch = doc.apply(Cmd::IndentLines { range: 0..26 });

    assert_eq!(doc.text(), "  - Item 1\n  - Item 2\n  - Item 3");
}

#[test]
fn test_indent_partial_range() {
    let mut doc = Document::from_bytes(b"- Item 1\n- Item 2\n- Item 3").unwrap();

    // Indent only the middle line
    let patch = doc.apply(Cmd::IndentLines { range: 9..17 });

    assert_eq!(doc.text(), "- Item 1\n  - Item 2\n- Item 3");
}

#[test]
fn test_indent_already_indented() {
    let mut doc = Document::from_bytes(b"  - Already indented").unwrap();

    let patch = doc.apply(Cmd::IndentLines { range: 0..20 });

    assert_eq!(doc.text(), "    - Already indented");
}

// ============ OutdentLines command tests ============

#[test]
fn test_outdent_single_line() {
    let mut doc = Document::from_bytes(b"  - Item 1").unwrap();

    let patch = doc.apply(Cmd::OutdentLines { range: 0..10 });

    assert_eq!(doc.text(), "- Item 1");
}

#[test]
fn test_outdent_multiple_lines() {
    let mut doc = Document::from_bytes(b"  - Item 1\n  - Item 2\n  - Item 3").unwrap();

    let patch = doc.apply(Cmd::OutdentLines { range: 0..32 });

    assert_eq!(doc.text(), "- Item 1\n- Item 2\n- Item 3");
}

#[test]
fn test_outdent_partial_indent() {
    let mut doc = Document::from_bytes(b" - Item 1").unwrap(); // Single space

    let patch = doc.apply(Cmd::OutdentLines { range: 0..9 });

    assert_eq!(doc.text(), "- Item 1");
}

#[test]
fn test_outdent_no_indent() {
    let mut doc = Document::from_bytes(b"- Item 1").unwrap();

    let patch = doc.apply(Cmd::OutdentLines { range: 0..8 });

    // Should not change if there's no indentation
    assert_eq!(doc.text(), "- Item 1");
}

#[test]
fn test_outdent_mixed_indentation() {
    let mut doc = Document::from_bytes(b"- Item 1\n  - Item 2\n    - Item 3").unwrap();

    let patch = doc.apply(Cmd::OutdentLines { range: 0..33 });

    assert_eq!(doc.text(), "- Item 1\n- Item 2\n  - Item 3");
}

// ============ ToggleMarker command tests ============

#[test]
fn test_toggle_marker_to_dash() {
    let mut doc = Document::from_bytes(b"* Item 1").unwrap();

    let patch = doc.apply(Cmd::ToggleMarker {
        line_start: 0,
        to: Marker::Dash,
    });

    assert_eq!(doc.text(), "- Item 1");
}

#[test]
fn test_toggle_marker_to_asterisk() {
    let mut doc = Document::from_bytes(b"- Item 1").unwrap();

    let patch = doc.apply(Cmd::ToggleMarker {
        line_start: 0,
        to: Marker::Asterisk,
    });

    assert_eq!(doc.text(), "* Item 1");
}

#[test]
fn test_toggle_marker_to_plus() {
    let mut doc = Document::from_bytes(b"- Item 1").unwrap();

    let patch = doc.apply(Cmd::ToggleMarker {
        line_start: 0,
        to: Marker::Plus,
    });

    assert_eq!(doc.text(), "+ Item 1");
}

#[test]
fn test_toggle_marker_to_numbered() {
    let mut doc = Document::from_bytes(b"- Item 1").unwrap();

    let patch = doc.apply(Cmd::ToggleMarker {
        line_start: 0,
        to: Marker::Numbered,
    });

    assert_eq!(doc.text(), "1. Item 1");
}

#[test]
fn test_toggle_marker_from_numbered() {
    let mut doc = Document::from_bytes(b"1. Item 1").unwrap();

    let patch = doc.apply(Cmd::ToggleMarker {
        line_start: 0,
        to: Marker::Dash,
    });

    assert_eq!(doc.text(), "- Item 1");
}

#[test]
fn test_toggle_marker_with_indent() {
    let mut doc = Document::from_bytes(b"  - Item 1").unwrap();

    let patch = doc.apply(Cmd::ToggleMarker {
        line_start: 0,
        to: Marker::Asterisk,
    });

    assert_eq!(doc.text(), "  * Item 1");
}

#[test]
fn test_toggle_marker_add_to_plain_text() {
    let mut doc = Document::from_bytes(b"Plain text").unwrap();

    let patch = doc.apply(Cmd::ToggleMarker {
        line_start: 0,
        to: Marker::Dash,
    });

    assert_eq!(doc.text(), "- Plain text");
}

#[test]
fn test_toggle_marker_with_indent_on_plain() {
    let mut doc = Document::from_bytes(b"  Plain text").unwrap();

    let patch = doc.apply(Cmd::ToggleMarker {
        line_start: 0,
        to: Marker::Dash,
    });

    assert_eq!(doc.text(), "  - Plain text");
}

// ============ Selection transformation tests ============

#[test]
fn test_selection_transform_after_insert() {
    let mut doc = Document::from_bytes(b"Hello World").unwrap();
    doc.set_selection(8..10); // "or" selected

    doc.apply(Cmd::InsertText {
        at: 5,
        text: " Beautiful".to_string(),
    });

    // Selection should shift by length of insertion
    assert_eq!(doc.selection(), 18..20);
}

#[test]
fn test_selection_transform_after_delete_before() {
    let mut doc = Document::from_bytes(b"Hello World").unwrap();
    doc.set_selection(8..10); // "or" selected

    doc.apply(Cmd::DeleteRange { range: 0..6 }); // Delete "Hello "

    // Selection should shift left
    assert_eq!(doc.selection(), 2..4);
}

#[test]
fn test_selection_transform_after_delete_containing() {
    let mut doc = Document::from_bytes(b"Hello World").unwrap();
    doc.set_selection(8..10); // "or" selected

    doc.apply(Cmd::DeleteRange { range: 6..11 }); // Delete "World"

    // Selection should collapse to deletion point
    assert_eq!(doc.selection(), 6..6);
}

// ============ Multiple command sequence tests ============

#[test]
fn test_multiple_commands_sequence() {
    let mut doc = Document::from_bytes(b"- Item 1").unwrap();

    // Add a new item
    doc.apply(Cmd::SplitListItem { at: 8 });
    assert_eq!(doc.text(), "- Item 1\n- ");

    // Type text
    doc.apply(Cmd::InsertText {
        at: 11,
        text: "Item 2".to_string(),
    });
    assert_eq!(doc.text(), "- Item 1\n- Item 2");

    // Indent the second item
    doc.apply(Cmd::IndentLines { range: 9..17 });
    assert_eq!(doc.text(), "- Item 1\n  - Item 2");

    // Change marker of second item
    doc.apply(Cmd::ToggleMarker {
        line_start: 9,
        to: Marker::Asterisk,
    });
    assert_eq!(doc.text(), "- Item 1\n  * Item 2");

    // Version should be 4 after 4 commands
    assert_eq!(doc.version(), 4);
}

// ============ Round-trip preservation tests ============

#[test]
fn mod_test_document_to_bytes_preserves_content() {
    let original =
        "# Markdown Document\n\n- Bullet 1\n- Bullet 2\n\n```rust\nfn main() {}\n```";
    let bytes = original.as_bytes();

    let doc = Document::from_bytes(bytes).expect("Should create document");
    let result_bytes = doc.to_bytes();

    // Should preserve exact byte representation
    assert_eq!(result_bytes, bytes);
    assert_eq!(std::str::from_utf8(&result_bytes).unwrap(), original);
}

#[test]
fn mod_test_document_with_unicode() {
    let text = "Hello 世界! 🦀\n\nRust is great! 🎉";
    let bytes = text.as_bytes();

    let doc = Document::from_bytes(bytes).expect("Should handle Unicode");
    let result = doc.to_bytes();

    // Unicode content should be preserved exactly
    assert_eq!(result, bytes);
    assert_eq!(std::str::from_utf8(&result).unwrap(), text);
}

#[test]
fn mod_test_document_with_windows_line_endings() {
    let text = "Line 1\r\nLine 2\r\nLine 3";
    let bytes = text.as_bytes();

    let doc = Document::from_bytes(bytes).expect("Should handle Windows line endings");
    let result = doc.to_bytes();

    // Windows line endings should be preserved
    assert_eq!(result, bytes);
}

#[test]
fn mod_test_document_with_mixed_line_endings() {
    let text = "Unix line\nWindows line\r\nAnother Unix\n";
    let bytes = text.as_bytes();

    let doc = Document::from_bytes(bytes).expect("Should handle mixed line endings");
    let result = doc.to_bytes();

    // Mixed line endings should be preserved exactly
    assert_eq!(result, bytes);
}
