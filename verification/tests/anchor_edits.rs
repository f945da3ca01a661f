use markdown_neuraxis::editing::anchors::{Anchor, AnchorId};
use markdown_neuraxis::editing::commands::Cmd;
use markdown_neuraxis::editing::document::Document;
use std::collections::HashSet;

fn copy_anchors(a: &[Anchor]) -> Vec<Anchor> {
    a.iter().map(|x| Anchor { id: x.id, range: x.range.clone(), node_id: x.node_id }).collect()
}

fn ids(doc: &Document) -> HashSet<AnchorId> {
    doc.anchors().iter().map(|a| a.id).collect()
}

#[test]
fn test_anchor_transformation_insert_before() {
    let mut doc = Document::from_bytes(b"# Heading\n\n- Item 1").unwrap();
    doc.create_anchors_from_tree();
    let original_anchors = copy_anchors(doc.anchors());

    doc.apply(Cmd::InsertText { at: 0, text: "Prefix: ".to_string() });

    let insert_len = "Prefix: ".len();
    assert_eq!(doc.anchors().len(), original_anchors.len(), "Should preserve all original anchors");
    for (i, original) in original_anchors.iter().enumerate() {
        let current = &doc.anchors()[i];
        assert_eq!(current.id, original.id, "Anchor ID should be preserved");
        assert_eq!(current.range.start, original.range.start + insert_len);
        assert_eq!(current.range.end, original.range.end + insert_len);
    }
}

#[test]
fn test_anchor_transformation_insert_after() {
    let mut doc = Document::from_bytes(b"# Heading\n\n- Item 1").unwrap();
    doc.create_anchors_from_tree();
    let original_anchors = copy_anchors(doc.anchors());
    let text_len = doc.text().len();

    doc.apply(Cmd::InsertText { at: text_len, text: "\n- Item 2".to_string() });

    for original in &original_anchors {
        let current = doc
            .anchors()
            .iter()
            .find(|a| a.id == original.id)
            .expect("Original anchor ID should still exist");
        assert_eq!(current.range, original.range, "Anchor range should not change for insertion after");
    }
}

#[test]
fn test_anchor_transformation_delete_before() {
    let mut doc = Document::from_bytes(b"Prefix: # Heading\n\n- Item 1").unwrap();
    doc.create_anchors_from_tree();
    let original_anchors = copy_anchors(doc.anchors());

    doc.apply(Cmd::DeleteRange { range: 0..8 });

    let delete_len = 8;
    for original in &original_anchors {
        let current = doc
            .anchors()
            .iter()
            .find(|a| a.id == original.id)
            .expect("Original anchor ID should still exist");
        if original.range.start >= delete_len {
            assert_eq!(current.range.start, original.range.start - delete_len);
            assert_eq!(current.range.end, original.range.end - delete_len);
        }
    }
}

#[test]
fn test_anchor_transformation_delete_overlapping() {
    let mut doc = Document::from_bytes(b"# Heading\n\n- Item 1\n- Item 2").unwrap();
    doc.create_anchors_from_tree();

    doc.apply(Cmd::DeleteRange { range: 5..15 });

    for anchor in doc.anchors() {
        assert!(anchor.range.start <= anchor.range.end, "Anchor range should be valid");
        assert!(anchor.range.end <= doc.text().len(), "Anchor should not extend beyond document");
    }
}

#[test]
fn test_anchor_rebinding_after_parse() {
    let mut doc = Document::from_bytes(b"- Item 1\n- Item 2").unwrap();
    doc.create_anchors_from_tree();
    let original_count = doc.anchors().len();

    doc.apply(Cmd::SplitListItem { at: 8 });

    assert!(doc.anchors().len() >= original_count, "Should have at least the original anchors");
    for anchor in doc.anchors() {
        assert!(anchor.range.start < anchor.range.end, "Anchor should have valid range");
        assert!(anchor.range.end <= doc.text().len(), "Anchor should not extend beyond document");
    }
}

#[test]
fn test_anchor_ids_stable_across_edits() {
    let mut doc = Document::from_bytes(b"# Heading\n\n- Item 1\n- Item 2").unwrap();
    doc.create_anchors_from_tree();
    let original_ids = ids(&doc);

    doc.apply(Cmd::InsertText { at: 0, text: "Prefix: ".to_string() });
    doc.apply(Cmd::SplitListItem { at: 25 });
    doc.apply(Cmd::IndentLines { range: 30..40 });

    let current_ids = ids(&doc);
    for original_id in &original_ids {
        assert!(current_ids.contains(original_id), "Original anchor ID should still exist after edits");
    }
}

#[test]
fn test_anchor_ids_remain_stable_after_edits() {
    let text = "# Heading One\n\nA paragraph here.\n\n- List item 1\n- List item 2";
    let mut doc = Document::from_bytes(text.as_bytes()).unwrap();
    doc.create_anchors_from_tree();

    let original_anchors: Vec<(AnchorId, String)> =
        doc.anchors().iter().map(|a| (a.id, doc.slice_to_cow(a.range.clone()).to_string())).collect();
    assert!(!original_anchors.is_empty(), "Should have initial anchors");

    doc.apply(Cmd::InsertText { at: 0, text: "PREPENDED: ".to_string() });
    for (original_id, original_content) in &original_anchors {
        let anchor = doc
            .anchors()
            .iter()
            .find(|a| a.id == *original_id)
            .unwrap_or_else(|| panic!("Anchor with ID {:?} should still exist after insertion", original_id));
        let current_content = doc.slice_to_cow(anchor.range.clone()).to_string();
        assert_eq!(current_content.trim(), original_content.trim());
    }

    doc.apply(Cmd::DeleteRange { range: 0..5 });
    for (original_id, _) in &original_anchors {
        assert!(doc.anchors().iter().any(|a| a.id == *original_id));
    }

    let middle_pos = doc.text().len() / 2;
    doc.apply(Cmd::InsertText { at: middle_pos, text: "\n\n## New Section\n\nMore content here.\n\n".to_string() });
    for (original_id, _) in &original_anchors {
        assert!(doc.anchors().iter().any(|a| a.id == *original_id));
    }
}

#[test]
fn test_anchor_deletion_overlapping_ranges() {
    let text = "# First Heading\n\nParagraph content.\n\n## Second Heading\n\nMore content.";
    let mut doc = Document::from_bytes(text.as_bytes()).unwrap();
    doc.create_anchors_from_tree();
    let original_ids = ids(&doc);
    assert!(!original_ids.is_empty(), "Should have initial anchors");

    doc.apply(Cmd::DeleteRange { range: 8..25 });

    let current_ids = ids(&doc);
    for original_id in &original_ids {
        if current_ids.contains(original_id) {
            let anchor = doc.anchors().iter().find(|a| a.id == *original_id).unwrap();
            assert!(anchor.range.start <= anchor.range.end);
            assert!(anchor.range.end <= doc.text().len());
        }
    }
}

#[test]
fn test_anchors_created_for_new_blocks() {
    let mut doc = Document::from_bytes(b"").unwrap();
    assert_eq!(doc.anchors().len(), 0, "Empty document should have no anchors");

    doc.apply(Cmd::InsertText { at: 0, text: "- Item 1".to_string() });

    assert!(!doc.anchors().is_empty(), "Apply should create anchors for new blocks");
}

#[test]
fn test_anchor_transform_through_multiple_commands() {
    let mut doc = Document::from_bytes(b"# Heading\n\n- Item 1").unwrap();
    doc.create_anchors_from_tree();
    let original_anchors = copy_anchors(doc.anchors());

    doc.apply(Cmd::InsertText { at: 0, text: "A: ".to_string() });
    let end = doc.text().len();
    doc.apply(Cmd::InsertText { at: end, text: "\n- Item 2".to_string() });
    doc.apply(Cmd::DeleteRange { range: 0..3 });

    assert!(doc.anchors().len() >= original_anchors.len());
    for anchor in doc.anchors() {
        assert!(anchor.range.start <= anchor.range.end);
        assert!(anchor.range.end <= doc.text().len());
    }
    for original in &original_anchors {
        assert!(doc.anchors().iter().any(|a| a.id == original.id), "Original anchor ID should still exist");
    }
    let text = doc.text();
    assert!(text.contains("# Heading"));
    assert!(text.contains("- Item 1"));
}

#[test]
fn test_anchor_creation_for_empty_document_after_edit() {
    let mut doc = Document::from_bytes(b"").unwrap();
    assert_eq!(doc.anchors().len(), 0);
    doc.create_anchors_from_tree();
    assert_eq!(doc.anchors().len(), 0);

    doc.apply(Cmd::InsertText { at: 0, text: "- first item".to_string() });

    assert!(!doc.anchors().is_empty());
    let anchor = &doc.anchors()[0];
    let content = doc.slice_to_cow(anchor.range.clone()).to_string();
    assert!(content.trim().contains("first item"), "Anchor should cover the new list item content");
}

#[test]
fn test_anchor_creation_after_deleting_all_content() {
    let mut doc = Document::from_bytes(b"# Heading\n\n- Item").unwrap();
    doc.create_anchors_from_tree();
    assert!(!doc.anchors().is_empty(), "Should have initial anchors");

    let len = doc.text().len();
    doc.apply(Cmd::DeleteRange { range: 0..len });
    assert_eq!(doc.anchors().len(), 0, "Should have no anchors after deleting all content");

    doc.apply(Cmd::InsertText { at: 0, text: "## New heading\n\n- New item".to_string() });
    assert!(!doc.anchors().is_empty());
    let text = doc.text();
    assert!(text.contains("## New heading"));
    assert!(text.contains("- New item"));
    for anchor in doc.anchors() {
        let content = doc.slice_to_cow(anchor.range.clone()).to_string();
        assert!(content.contains("New heading") || content.contains("New item"));
    }
}

#[test]
fn anchors_keep_their_ids_and_move_with_an_insertion() {
    let mut doc = Document::from_bytes(b"# Title\n\n- item\n").unwrap();
    doc.create_anchors_from_tree();
    let before = copy_anchors(doc.anchors());
    assert!(!before.is_empty());
    doc.apply(Cmd::InsertText { at: 0, text: "x".to_string() });
    assert_eq!(doc.anchors().len(), before.len());
    for (a, b) in doc.anchors().iter().zip(before.iter()) {
        assert_eq!(a.id, b.id);
        assert_eq!(a.range, b.range.start + 1..b.range.end + 1);
    }
}

#[test]
fn anchors_stay_through_an_edit_that_changes_nothing() {
    let mut doc = Document::from_bytes(b"# Title\n\n- one\n- two\n").unwrap();
    doc.create_anchors_from_tree();
    let before = copy_anchors(doc.anchors());
    doc.apply(Cmd::DeleteRange { range: 3..3 });
    assert_eq!(doc.anchors(), &before[..]);
}
