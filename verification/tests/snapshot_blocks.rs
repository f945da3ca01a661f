use markdown_neuraxis::editing::anchors::AnchorId;
use markdown_neuraxis::editing::commands::Cmd;
use markdown_neuraxis::editing::document::Document;
use markdown_neuraxis::editing::snapshot::{BlockKind, ContentGroup};
use markdown_neuraxis::editing::Marker;
use std::collections::HashSet;

fn is_heading(k: &BlockKind, level: u8) -> bool {
    matches!(k, BlockKind::Heading { level: l } if *l == level)
}

fn is_item(k: &BlockKind, marker: Marker, depth: usize) -> bool {
    matches!(k, BlockKind::ListItem { marker: m, depth: d } if *m == marker && *d == depth)
}

#[test]
fn test_snapshot_empty_document() {
    let doc = Document::from_bytes(b"").unwrap();
    let snapshot = doc.snapshot();
    assert_eq!(snapshot.version, 0);
    assert_eq!(snapshot.blocks.len(), 0);
    assert_eq!(snapshot.content_groups.len(), 0);
}

#[test]
fn test_snapshot_simple_heading() {
    let mut doc = Document::from_bytes(b"# Hello World").unwrap();
    doc.create_anchors_from_tree();
    let snapshot = doc.snapshot();
    assert_eq!(snapshot.version, 0);
    assert_eq!(snapshot.blocks.len(), 1);
    let block = &snapshot.blocks[0];
    assert!(is_heading(&block.kind, 1));
    assert_eq!(block.byte_range, 0..13);
    assert_eq!(block.content_range, 2..13);
    assert_eq!(block.depth, 0);
}

#[test]
fn test_snapshot_multiple_headings() {
    let text = "# Heading 1\n\n## Heading 2\n\n### Heading 3";
    let mut doc = Document::from_bytes(text.as_bytes()).unwrap();
    doc.create_anchors_from_tree();
    let snapshot = doc.snapshot();
    assert_eq!(snapshot.blocks.len(), 3);
    assert!(is_heading(&snapshot.blocks[0].kind, 1));
    assert!(is_heading(&snapshot.blocks[1].kind, 2));
    assert!(is_heading(&snapshot.blocks[2].kind, 3));
    assert_eq!(snapshot.blocks[0].content_range, 2..11);
    assert_eq!(snapshot.blocks[1].content_range, 16..25);
    assert_eq!(snapshot.blocks[2].content_range, 31..40);
}

#[test]
fn test_snapshot_simple_list() {
    let text = "- Item 1\n- Item 2\n- Item 3";
    let mut doc = Document::from_bytes(text.as_bytes()).unwrap();
    doc.create_anchors_from_tree();
    let snapshot = doc.snapshot();
    assert_eq!(snapshot.blocks.len(), 3);
    for block in &snapshot.blocks {
        assert!(is_item(&block.kind, Marker::Dash, 0));
        assert_eq!(block.depth, 0);
    }
    assert_eq!(snapshot.blocks[0].content_range, 2..8);
    assert_eq!(snapshot.blocks[1].content_range, 11..17);
    assert_eq!(snapshot.blocks[2].content_range, 20..26);
}

#[test]
fn test_snapshot_nested_list() {
    let text = "- Item 1\n  - Nested 1\n  - Nested 2\n- Item 2";
    let mut doc = Document::from_bytes(text.as_bytes()).unwrap();
    doc.create_anchors_from_tree();
    let snapshot = doc.snapshot();
    assert_eq!(snapshot.blocks.len(), 4);
    for block in &snapshot.blocks {
        assert!(matches!(block.kind, BlockKind::ListItem { marker: Marker::Dash, depth: _ }));
    }
    let parent_item = &snapshot.blocks[0];
    assert_eq!(parent_item.content, "Item 1");
    assert_eq!(parent_item.byte_range, 0..8);
    assert_eq!(doc.slice_to_cow(parent_item.byte_range.clone()), "- Item 1");
    let nested_item1 = &snapshot.blocks[1];
    assert_eq!(nested_item1.content, "Nested 1");
    assert_eq!(nested_item1.byte_range, 11..21);
    assert_eq!(doc.slice_to_cow(nested_item1.byte_range.clone()), "- Nested 1");
    let nested_item2 = &snapshot.blocks[2];
    assert_eq!(nested_item2.content, "Nested 2");
    assert_eq!(nested_item2.byte_range, 24..34);
    assert_eq!(doc.slice_to_cow(nested_item2.byte_range.clone()), "- Nested 2");
}

#[test]
fn test_snapshot_different_list_markers() {
    let text = "- Dash item\n* Star item\n+ Plus item\n1. Numbered item";
    let mut doc = Document::from_bytes(text.as_bytes()).unwrap();
    doc.create_anchors_from_tree();
    let snapshot = doc.snapshot();
    assert_eq!(snapshot.blocks.len(), 4);
    assert!(is_item(&snapshot.blocks[0].kind, Marker::Dash, 0));
    assert!(is_item(&snapshot.blocks[1].kind, Marker::Asterisk, 0));
    assert!(is_item(&snapshot.blocks[2].kind, Marker::Plus, 0));
    assert!(is_item(&snapshot.blocks[3].kind, Marker::Numbered, 0));
}

#[test]
fn test_snapshot_mixed_content() {
    let text = "# Main Heading\n\nThis is a paragraph.\n\n- List item 1\n- List item 2\n\n## Sub Heading";
    let mut doc = Document::from_bytes(text.as_bytes()).unwrap();
    doc.create_anchors_from_tree();
    let snapshot = doc.snapshot();
    assert_eq!(snapshot.blocks.len(), 5);
    assert!(is_heading(&snapshot.blocks[0].kind, 1));
    assert!(matches!(snapshot.blocks[1].kind, BlockKind::Paragraph));
    assert!(is_item(&snapshot.blocks[2].kind, Marker::Dash, 0));
    assert!(is_item(&snapshot.blocks[3].kind, Marker::Dash, 0));
    assert!(is_heading(&snapshot.blocks[4].kind, 2));
}

#[test]
fn test_snapshot_code_fences() {
    let text = "```rust\nfn main() {}\n```\n\n```\nplain code\n```";
    let mut doc = Document::from_bytes(text.as_bytes()).unwrap();
    doc.create_anchors_from_tree();
    let snapshot = doc.snapshot();
    assert_eq!(snapshot.blocks.len(), 2);
    assert!(matches!(snapshot.blocks[0].kind, BlockKind::CodeFence { lang: Some(ref lang) } if lang == "rust"));
    assert!(matches!(snapshot.blocks[1].kind, BlockKind::CodeFence { lang: None }));
}

#[test]
fn test_snapshot_anchor_association() {
    let text = "# Heading\n\n- Item 1\n- Item 2";
    let mut doc = Document::from_bytes(text.as_bytes()).unwrap();
    doc.create_anchors_from_tree();
    let snapshot = doc.snapshot();
    assert!(snapshot.blocks.len() >= 3);
    let mut ids = HashSet::new();
    for block in &snapshot.blocks {
        assert!(ids.insert(block.id), "Each block should have a unique anchor ID");
    }
    let doc_anchor_ids: HashSet<AnchorId> = doc.anchors().iter().map(|a| a.id).collect();
    let block_anchor_ids: HashSet<AnchorId> = snapshot.blocks.iter().map(|b| b.id).collect();
    for doc_anchor_id in &doc_anchor_ids {
        assert!(block_anchor_ids.contains(doc_anchor_id), "Document anchor ID {doc_anchor_id:?} should appear in blocks");
    }
}

#[test]
fn test_snapshot_version_tracking() {
    let mut doc = Document::from_bytes(b"# Test").unwrap();
    doc.create_anchors_from_tree();
    let initial_snapshot = doc.snapshot();
    assert_eq!(initial_snapshot.version, 0);
    doc.apply(Cmd::InsertText { at: 6, text: " Document".to_string() });
    let updated_snapshot = doc.snapshot();
    assert_eq!(updated_snapshot.version, 1);
}

#[test]
fn test_snapshot_after_edits() {
    let mut doc = Document::from_bytes(b"- Item 1").unwrap();
    doc.create_anchors_from_tree();
    let initial_snapshot = doc.snapshot();
    assert_eq!(initial_snapshot.blocks.len(), 1);
    doc.apply(Cmd::SplitListItem { at: 8 });
    doc.apply(Cmd::InsertText { at: 11, text: "Item 2".to_string() });
    let updated_snapshot = doc.snapshot();
    assert_eq!(updated_snapshot.blocks.len(), 2);
    assert_eq!(updated_snapshot.version, 2);
    for block in &updated_snapshot.blocks {
        assert!(is_item(&block.kind, Marker::Dash, 0));
    }
}

#[test]
fn test_snapshot_content_ranges_after_edit() {
    let mut doc = Document::from_bytes(b"# Heading").unwrap();
    doc.create_anchors_from_tree();
    doc.apply(Cmd::InsertText { at: 9, text: " Extended".to_string() });
    let snapshot = doc.snapshot();
    assert_eq!(snapshot.blocks.len(), 1);
    let block = &snapshot.blocks[0];
    assert!(is_heading(&block.kind, 1));
    assert_eq!(block.content_range, 2..18);
    assert_eq!(&doc.text()[block.content_range.clone()], "Heading Extended");
}

#[test]
fn test_end_to_end_bullet_list_grouping() {
    let markdown_text = r#"
- indented 1
    - indented 1.1
    - indented 1.2
- indented 2
    - indented 2.1
    - indented 2.2"#;
    let mut doc = Document::from_bytes(markdown_text.as_bytes()).expect("Should parse markdown");
    doc.create_anchors_from_tree();
    let snapshot = doc.snapshot();
    assert_eq!(snapshot.content_groups.len(), 1, "Should have 1 content group");
    match &snapshot.content_groups[0] {
        ContentGroup::BulletListGroup { items: list_items } => {
            assert_eq!(list_items.len(), 2);
            assert_eq!(list_items[0].block.content, "indented 1");
            assert_eq!(list_items[0].children.len(), 2);
            assert_eq!(list_items[0].children[0].block.content, "indented 1.1");
            assert_eq!(list_items[0].children[1].block.content, "indented 1.2");
            assert_eq!(list_items[1].block.content, "indented 2");
            assert_eq!(list_items[1].children.len(), 2);
            assert_eq!(list_items[1].children[0].block.content, "indented 2.1");
            assert_eq!(list_items[1].children[1].block.content, "indented 2.2");
            assert_eq!(list_items[0].block.depth, 0);
            assert_eq!(list_items[0].children[0].block.depth, 1);
            assert_eq!(list_items[0].children[1].block.depth, 1);
            assert_eq!(list_items[1].block.depth, 0);
            assert_eq!(list_items[1].children[0].block.depth, 1);
            assert_eq!(list_items[1].children[1].block.depth, 1);
        },
        _ => panic!("Expected BulletListGroup, got {:?}", snapshot.content_groups[0]),
    }
}

#[test]
fn test_end_to_end_numbered_list_grouping() {
    let markdown_text = r#"
1. First item
    1. Nested first
    2. Nested second  
2. Second item
    1. Another nested first
    2. Another nested second"#;
    let mut doc = Document::from_bytes(markdown_text.as_bytes()).expect("Should parse markdown");
    doc.create_anchors_from_tree();
    let snapshot = doc.snapshot();
    assert_eq!(snapshot.content_groups.len(), 1, "Should have 1 content group");
    match &snapshot.content_groups[0] {
        ContentGroup::NumberedListGroup { items: list_items } => {
            assert_eq!(list_items.len(), 2);
            assert_eq!(list_items[0].block.content, "First item");
            assert_eq!(list_items[0].children.len(), 2);
            assert_eq!(list_items[0].children[0].block.content, "Nested first");
            assert_eq!(list_items[0].children[1].block.content, "Nested second");
            assert_eq!(list_items[1].block.content, "Second item");
            assert_eq!(list_items[1].children.len(), 2);
            assert_eq!(list_items[1].children[0].block.content, "Another nested first");
            assert_eq!(list_items[1].children[1].block.content, "Another nested second");
        },
        _ => panic!("Expected NumberedListGroup, got {:?}", snapshot.content_groups[0]),
    }
}

#[test]
fn test_snapshot_after_replace_range_stale_tree() {
    let initial_text = "- item 1\n- item 2";
    let mut doc = Document::from_bytes(initial_text.as_bytes()).unwrap();
    doc.create_anchors_from_tree();
    let snapshot1 = doc.snapshot();
    assert!(!snapshot1.blocks.is_empty());
    doc.apply(Cmd::DeleteRange { range: 0..8 });
    doc.apply(Cmd::InsertText { at: 0, text: "- this is a much longer item 1".to_string() });
    let snapshot2 = doc.snapshot();
    assert!(!snapshot2.blocks.is_empty());
}

#[test]
fn snapshot_blocks_carry_their_text_and_anchor_ids() {
    let text = "# Title\n\nSome text.\n\n- one\n  - two\n";
    let mut doc = Document::from_bytes(text.as_bytes()).unwrap();
    doc.create_anchors_from_tree();
    let snapshot = doc.snapshot();
    let contents: Vec<&str> = snapshot.blocks.iter().map(|b| b.content.as_str()).collect();
    assert_eq!(contents, vec!["Title", "Some text.", "one", "two"]);
    assert_eq!(snapshot.blocks[1].byte_range, 9..19);
    assert!(matches!(snapshot.blocks[1].kind, BlockKind::Paragraph));
    assert_eq!(snapshot.blocks[0].id, doc.anchors()[0].id);
    assert_eq!(snapshot.blocks[2].id, doc.anchors()[1].id);
    assert_eq!(snapshot.blocks[3].id, doc.anchors()[2].id);
    assert!(is_item(&snapshot.blocks[3].kind, Marker::Dash, 0));
}

#[test]
fn snapshot_of_an_empty_fence_at_the_end() {
    let mut doc = Document::from_bytes(b"```\n```").unwrap();
    doc.create_anchors_from_tree();
    let snapshot = doc.snapshot();
    assert_eq!(snapshot.blocks.len(), 1);
    assert!(matches!(snapshot.blocks[0].kind, BlockKind::CodeFence { lang: None }));
    assert_eq!(snapshot.blocks[0].content, "");
}

#[test]
fn document_hit_testing_uses_its_snapshot() {
    let mut doc = Document::from_bytes(b"# Hello\n\n- item\n  more").unwrap();
    doc.create_anchors_from_tree();
    let heading_id = doc.anchors()[0].id;
    assert_eq!(doc.locate_in_block(3), Some((heading_id, 1)));
    let item = doc.snapshot().blocks[1].id;
    assert_eq!(doc.locate_in_block(12), Some((item, 1)));
    let d = doc.describe_point(12).unwrap();
    assert_eq!(d.block_id, item);
    assert_eq!(d.local_byte_offset, 1);
    assert_eq!((d.local_line, d.local_col), (0, 1));
}
