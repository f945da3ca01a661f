use markdown_neuraxis::models::document::{
    BlockId, BulletOperation, ContentBlock, Document, ListItem, TextSegment,
};
use markdown_neuraxis::models::state::DocumentState;


#[test]
fn test_heading_to_markdown() {
    let heading = ContentBlock::Heading {
        level: 2,
        text: "Test Heading".to_string(),
    };
    assert_eq!(heading.to_markdown(), "## Test Heading");
}

#[test]
fn test_paragraph_to_markdown() {
    let segments = vec![
        TextSegment::Text("This is a ".to_string()),
        TextSegment::WikiLink {
            target: "test-link".to_string(),
        },
        TextSegment::Text(" paragraph.".to_string()),
    ];
    let paragraph = ContentBlock::Paragraph { segments };
    assert_eq!(
        paragraph.to_markdown(),
        "This is a [[test-link]] paragraph."
    );
}

#[test]
fn test_document_state_block_splitting() {
    let document = Document::with_content(
        "test.md".to_string(),
        vec![ContentBlock::Paragraph {
            segments: vec![TextSegment::Text("Original paragraph".to_string())],
        }],
    );

    let mut doc_state = DocumentState::from_document(document);
    let block_id = doc_state.blocks[0].0;

    // Edit to split the block
    let new_block_ids =
        doc_state.finish_editing(block_id, "First paragraph\n\nSecond paragraph".to_string());

    // Should have created 2 new blocks
    assert_eq!(new_block_ids.len(), 2);
    assert_eq!(doc_state.blocks.len(), 2);
    assert!(matches!(
        doc_state.blocks[0].1,
        ContentBlock::Paragraph { .. }
    ));
    assert!(matches!(
        doc_state.blocks[1].1,
        ContentBlock::Paragraph { .. }
    ));
}

#[test]
fn test_document_state_insert_operations() {
    let document = Document::with_content(
        "test.md".to_string(),
        vec![ContentBlock::Paragraph {
            segments: vec![TextSegment::Text("Middle paragraph".to_string())],
        }],
    );

    let mut doc_state = DocumentState::from_document(document);
    let middle_id = doc_state.blocks[0].0;

    // Insert at start
    let start_id = doc_state.insert_block_at_start(ContentBlock::Paragraph {
        segments: vec![TextSegment::Text("First paragraph".to_string())],
    });

    // Insert at end
    let end_id = doc_state.insert_block_at_end(ContentBlock::Paragraph {
        segments: vec![TextSegment::Text("Last paragraph".to_string())],
    });

    // Should now have 3 blocks in correct order
    assert_eq!(doc_state.blocks.len(), 3);
    assert_eq!(doc_state.blocks[0].0, start_id);
    assert_eq!(doc_state.blocks[1].0, middle_id);
    assert_eq!(doc_state.blocks[2].0, end_id);
}

#[test]
fn test_block_id_uuid_uniqueness() {
    let id1 = BlockId::new();
    let id2 = BlockId::new();
    assert_ne!(id1, id2);
}

#[test]
fn test_block_splitting_creates_correct_blocks() {
    let document = Document::with_content(
        "test.md".to_string(),
        vec![ContentBlock::Paragraph {
            segments: vec![TextSegment::Text("Original paragraph".to_string())],
        }],
    );

    let mut doc_state = DocumentState::from_document(document);
    let original_block_id = doc_state.blocks[0].0;

    // Start editing
    doc_state.start_editing(original_block_id);

    // Split the block
    let new_block_ids = doc_state.finish_editing(
        original_block_id,
        "First paragraph\n\nSecond paragraph".to_string(),
    );

    // Should have created 2 new blocks
    assert_eq!(new_block_ids.len(), 2);
    assert_eq!(doc_state.blocks.len(), 2);

    // Editing state should be cleared after splitting
    assert!(doc_state.editing_block.is_none());
    assert!(doc_state.is_editing(new_block_ids[0]).is_none());
    assert!(doc_state.is_editing(new_block_ids[1]).is_none());

    // First block should contain only the first part
    let first_block_markdown = doc_state.blocks[0].1.to_markdown();
    assert_eq!(first_block_markdown, "First paragraph");

    // Second block should contain only the second part
    let second_block_markdown = doc_state.blocks[1].1.to_markdown();
    assert_eq!(second_block_markdown, "Second paragraph");
}

#[test]
fn test_bug_reproduction_split_while_editing() {
    let document = Document::with_content(
        "test.md".to_string(),
        vec![ContentBlock::Paragraph {
            segments: vec![TextSegment::Text("Hello".to_string())],
        }],
    );

    let mut doc_state = DocumentState::from_document(document);
    let original_block_id = doc_state.blocks[0].0;

    // Start editing "Hello"
    doc_state.start_editing(original_block_id);
    assert_eq!(doc_state.is_editing(original_block_id).unwrap(), "Hello");

    // User types "Hello\n\nWorld" and saves
    let new_block_ids =
        doc_state.finish_editing(original_block_id, "Hello\n\nWorld".to_string());

    // Now we have 2 blocks
    assert_eq!(new_block_ids.len(), 2);

    // BUG CHECK: If user clicks on first block to edit again,
    // what content should be shown in the textarea?
    let first_block_id = new_block_ids[0];
    doc_state.start_editing(first_block_id);

    // This should be "Hello", not "Hello\n\nWorld"
    let editing_content = doc_state.is_editing(first_block_id).unwrap();
    assert_eq!(editing_content, "Hello");
}

#[test]
fn test_no_splitting_clears_edit_state() {
    let document = Document::with_content(
        "test.md".to_string(),
        vec![ContentBlock::Paragraph {
            segments: vec![TextSegment::Text("Original paragraph".to_string())],
        }],
    );

    let mut doc_state = DocumentState::from_document(document);
    let original_block_id = doc_state.blocks[0].0;

    // Start editing
    doc_state.start_editing(original_block_id);

    // Edit without splitting (no double newlines)
    let new_block_ids =
        doc_state.finish_editing(original_block_id, "Modified paragraph".to_string());

    // Should have only one block
    assert_eq!(new_block_ids.len(), 1);
    assert_eq!(doc_state.blocks.len(), 1);

    // Should not be in edit mode anymore
    assert!(doc_state.editing_block.is_none());
    assert!(doc_state.is_editing(new_block_ids[0]).is_none());
}

#[test]
fn test_insert_block_at_end_workflow() {
    let document = Document::with_content(
        "test.md".to_string(),
        vec![ContentBlock::Paragraph {
            segments: vec![TextSegment::Text("Existing paragraph".to_string())],
        }],
    );

    let mut doc_state = DocumentState::from_document(document);
    assert_eq!(doc_state.blocks.len(), 1);

    // Simulate adding a new block at end (like clicking the + button)
    let new_block = ContentBlock::Paragraph {
        segments: vec![TextSegment::Text("".to_string())],
    };
    let new_block_id = doc_state.insert_block_at_end(new_block);

    // Should now have 2 blocks
    assert_eq!(doc_state.blocks.len(), 2);

    // Start editing the new empty block
    doc_state.start_editing(new_block_id);
    assert_eq!(doc_state.is_editing(new_block_id).unwrap(), "");

    // User types content in the new block
    let _new_blocks = doc_state.finish_editing(new_block_id, "New content here".to_string());

    // Should still have 2 blocks with correct content
    assert_eq!(doc_state.blocks.len(), 2);
    assert_eq!(doc_state.blocks[0].1.to_markdown(), "Existing paragraph");
    assert_eq!(doc_state.blocks[1].1.to_markdown(), "New content here");
}

#[test]
fn test_block_navigation() {
    let document = Document::with_content(
        "test.md".to_string(),
        vec![
            ContentBlock::Paragraph {
                segments: vec![TextSegment::Text("First block".to_string())],
            },
            ContentBlock::Paragraph {
                segments: vec![TextSegment::Text("Second block".to_string())],
            },
            ContentBlock::Paragraph {
                segments: vec![TextSegment::Text("Third block".to_string())],
            },
        ],
    );

    let mut doc_state = DocumentState::from_document(document);
    let first_id = doc_state.blocks[0].0;
    let second_id = doc_state.blocks[1].0;
    let third_id = doc_state.blocks[2].0;

    // Initially no selection
    assert_eq!(doc_state.selected_block(), None);

    // Select next block (should select first)
    doc_state.select_next_block();
    assert_eq!(doc_state.selected_block(), Some(first_id));

    // Select next block (should select second)
    doc_state.select_next_block();
    assert_eq!(doc_state.selected_block(), Some(second_id));

    // Select next block (should select third)
    doc_state.select_next_block();
    assert_eq!(doc_state.selected_block(), Some(third_id));

    // Select next block (should stay on third - at end)
    doc_state.select_next_block();
    assert_eq!(doc_state.selected_block(), Some(third_id));

    // Select previous block (should select second)
    doc_state.select_previous_block();
    assert_eq!(doc_state.selected_block(), Some(second_id));

    // Select previous block (should select first)
    doc_state.select_previous_block();
    assert_eq!(doc_state.selected_block(), Some(first_id));

    // Select previous block (should stay on first - at beginning)
    doc_state.select_previous_block();
    assert_eq!(doc_state.selected_block(), Some(first_id));
}

#[test]
fn test_start_editing_selected() {
    let document = Document::with_content(
        "test.md".to_string(),
        vec![ContentBlock::Paragraph {
            segments: vec![TextSegment::Text("Test content".to_string())],
        }],
    );

    let mut doc_state = DocumentState::from_document(document);
    let block_id = doc_state.blocks[0].0;

    // No selection, should not start editing
    assert!(!doc_state.start_editing_selected());
    assert!(doc_state.editing_block.is_none());

    // Select the block
    doc_state.select_block(block_id);
    assert_eq!(doc_state.selected_block(), Some(block_id));

    // Start editing selected block
    assert!(doc_state.start_editing_selected());
    assert!(doc_state.is_editing(block_id).is_some());
}

#[test]
fn test_bullet_operation_update_content() {
    let document = Document::with_content(
        "test.md".to_string(),
        vec![ContentBlock::BulletList {
            items: vec![(
                BlockId::new(),
                ListItem::new("Original content".to_string(), 0),
            )],
        }],
    );

    let mut doc_state = DocumentState::from_document(document);
    let block_id = doc_state.blocks[0].1.items()[0].0;

    // Update bullet content
    let success = doc_state.execute_bullet_operation(BulletOperation::UpdateContent(
        block_id,
        "Updated content".to_string(),
    ));

    assert!(success);
    assert_eq!(
        doc_state.blocks[0].1.items()[0].1.content,
        "Updated content"
    );
}

#[test]
fn test_bullet_operation_split_at_cursor() {
    let document = Document::with_content(
        "test.md".to_string(),
        vec![ContentBlock::BulletList {
            items: vec![(BlockId::new(), ListItem::new("Hello World".to_string(), 0))],
        }],
    );

    let mut doc_state = DocumentState::from_document(document);
    let original_block_id = doc_state.blocks[0].1.items()[0].0;

    // Split at position 6 (after "Hello ")
    let success = doc_state.execute_bullet_operation(BulletOperation::SplitAtCursor(
        original_block_id,
        "Hello World".to_string(),
        6,
    ));

    assert!(success);
    assert_eq!(doc_state.blocks[0].1.items().len(), 2);
    assert_eq!(doc_state.blocks[0].1.items()[0].1.content, "Hello ");
    assert_eq!(doc_state.blocks[0].1.items()[1].1.content, "World");
}

#[test]
fn test_bullet_operation_delete_empty() {
    let document = Document::with_content(
        "test.md".to_string(),
        vec![ContentBlock::BulletList {
            items: vec![
                (BlockId::new(), ListItem::new("First bullet".to_string(), 0)),
                (BlockId::new(), ListItem::new("".to_string(), 0)),
                (BlockId::new(), ListItem::new("Third bullet".to_string(), 0)),
            ],
        }],
    );

    let mut doc_state = DocumentState::from_document(document);
    let empty_block_id = doc_state.blocks[0].1.items()[1].0;

    // Delete empty bullet
    let success =
        doc_state.execute_bullet_operation(BulletOperation::DeleteEmpty(empty_block_id));

    assert!(success);
    assert_eq!(doc_state.blocks[0].1.items().len(), 2);
    assert_eq!(doc_state.blocks[0].1.items()[0].1.content, "First bullet");
    assert_eq!(doc_state.blocks[0].1.items()[1].1.content, "Third bullet");
}

#[test]
fn test_bullet_operation_merge_with_previous() {
    let document = Document::with_content(
        "test.md".to_string(),
        vec![ContentBlock::BulletList {
            items: vec![
                (BlockId::new(), ListItem::new("First".to_string(), 0)),
                (BlockId::new(), ListItem::new(" Second".to_string(), 0)),
                (BlockId::new(), ListItem::new("Third".to_string(), 0)),
            ],
        }],
    );

    let mut doc_state = DocumentState::from_document(document);
    let second_block_id = doc_state.blocks[0].1.items()[1].0;

    // Merge second bullet with previous
    let success =
        doc_state.execute_bullet_operation(BulletOperation::MergeWithPrevious(second_block_id));

    assert!(success);
    assert_eq!(doc_state.blocks[0].1.items().len(), 2);
    assert_eq!(doc_state.blocks[0].1.items()[0].1.content, "First Second");
    assert_eq!(doc_state.blocks[0].1.items()[1].1.content, "Third");
}

#[test]
fn test_bullet_operation_nested_bullets() {
    // Create a nested structure with child bullets
    let mut parent = ListItem::new("Parent bullet".to_string(), 0);
    let child_id = BlockId::new();
    parent
        .children
        .push((child_id, ListItem::new("Child bullet".to_string(), 1)));

    let document = Document::with_content(
        "test.md".to_string(),
        vec![ContentBlock::BulletList {
            items: vec![(BlockId::new(), parent)],
        }],
    );

    let mut doc_state = DocumentState::from_document(document);

    // Update nested bullet content
    let success = doc_state.execute_bullet_operation(BulletOperation::UpdateContent(
        child_id,
        "Updated child".to_string(),
    ));

    assert!(success);
    assert_eq!(
        doc_state.blocks[0].1.items()[0].1.children[0].1.content,
        "Updated child"
    );
}

#[test]
fn list_items_can_be_changed_in_place() {
    let mut block = ContentBlock::BulletList {
        items: vec![(BlockId(1), ListItem::new("one".to_string(), 0))],
    };
    block.items_mut().push((BlockId(2), ListItem::new("two".to_string(), 0)));
    block.items_mut()[0].1.content = "first".to_string();
    assert_eq!(block.items().len(), 2);
    assert_eq!(block.items()[0].1.content, "first");
    assert_eq!(block.to_markdown(), "- first\n- two");
}
