use markdown_neuraxis::editing::anchors::AnchorId;
use markdown_neuraxis::editing::snapshot::{
    build_nested_list_structure, find_focused_block_in_list, group_blocks_for_rendering,
    insert_list_item_at_depth, is_same_list_type, BlockKind, ContentGroup, ListItem, RenderBlock,
};
use markdown_neuraxis::editing::Marker;

fn block(id: u128, kind: BlockKind, depth: usize, content: &str) -> RenderBlock {
    RenderBlock {
        id: AnchorId(id),
        kind,
        byte_range: 0..content.len(),
        content_range: 0..content.len(),
        depth,
        content: content.to_string(),
    }
}

fn item(id: u128, marker: Marker, depth: usize, content: &str) -> RenderBlock {
    block(id, BlockKind::ListItem { marker, depth }, depth, content)
}

#[test]
fn test_group_blocks_simple_bullet_list() {
    // Create mock blocks for a simple bullet list
    let blocks = vec![
        RenderBlock {
            id: AnchorId(1),
            kind: BlockKind::ListItem {
                marker: Marker::Dash,
                depth: 0,
            },
            byte_range: 0..8,
            content_range: 2..8,
            depth: 0,
            content: "Item 1".to_string(),
        },
        RenderBlock {
            id: AnchorId(2),
            kind: BlockKind::ListItem {
                marker: Marker::Dash,
                depth: 0,
            },
            byte_range: 9..17,
            content_range: 11..17,
            depth: 0,
            content: "Item 2".to_string(),
        },
    ];

    let groups = group_blocks_for_rendering(&blocks);

    assert_eq!(groups.len(), 1);
    match &groups[0] {
        ContentGroup::BulletListGroup { items } => {
            assert_eq!(items.len(), 2);
            assert_eq!(items[0].block.content, "Item 1");
            assert_eq!(items[1].block.content, "Item 2");
            assert!(items[0].children.is_empty());
            assert!(items[1].children.is_empty());
        }
        _ => panic!("Expected BulletListGroup"),
    }
}


#[test]
fn test_group_blocks_simple_numbered_list() {
    // Create mock blocks for a simple numbered list
    let blocks = vec![
        RenderBlock {
            id: AnchorId(1),
            kind: BlockKind::ListItem {
                marker: Marker::Numbered,
                depth: 0,
            },
            byte_range: 0..8,
            content_range: 3..8,
            depth: 0,
            content: "Item 1".to_string(),
        },
        RenderBlock {
            id: AnchorId(2),
            kind: BlockKind::ListItem {
                marker: Marker::Numbered,
                depth: 0,
            },
            byte_range: 9..17,
            content_range: 12..17,
            depth: 0,
            content: "Item 2".to_string(),
        },
    ];

    let groups = group_blocks_for_rendering(&blocks);

    assert_eq!(groups.len(), 1);
    match &groups[0] {
        ContentGroup::NumberedListGroup { items } => {
            assert_eq!(items.len(), 2);
            assert_eq!(items[0].block.content, "Item 1");
            assert_eq!(items[1].block.content, "Item 2");
            assert!(items[0].children.is_empty());
            assert!(items[1].children.is_empty());
        }
        _ => panic!("Expected NumberedListGroup"),
    }
}


#[test]
fn test_group_blocks_mixed_list_types() {
    // Create mock blocks with bullet list followed by numbered list
    let blocks = vec![
        RenderBlock {
            id: AnchorId(1),
            kind: BlockKind::ListItem {
                marker: Marker::Dash,
                depth: 0,
            },
            byte_range: 0..8,
            content_range: 2..8,
            depth: 0,
            content: "Bullet 1".to_string(),
        },
        RenderBlock {
            id: AnchorId(2),
            kind: BlockKind::ListItem {
                marker: Marker::Dash,
                depth: 0,
            },
            byte_range: 9..17,
            content_range: 11..17,
            depth: 0,
            content: "Bullet 2".to_string(),
        },
        RenderBlock {
            id: AnchorId(3),
            kind: BlockKind::ListItem {
                marker: Marker::Numbered,
                depth: 0,
            },
            byte_range: 18..26,
            content_range: 21..26,
            depth: 0,
            content: "Number 1".to_string(),
        },
        RenderBlock {
            id: AnchorId(4),
            kind: BlockKind::ListItem {
                marker: Marker::Numbered,
                depth: 0,
            },
            byte_range: 27..35,
            content_range: 30..35,
            depth: 0,
            content: "Number 2".to_string(),
        },
    ];

    let groups = group_blocks_for_rendering(&blocks);

    assert_eq!(groups.len(), 2);

    // First group: Bullet list
    match &groups[0] {
        ContentGroup::BulletListGroup { items } => {
            assert_eq!(items.len(), 2);
            assert_eq!(items[0].block.content, "Bullet 1");
            assert_eq!(items[1].block.content, "Bullet 2");
        }
        _ => panic!("Expected BulletListGroup"),
    }

    // Second group: Numbered list
    match &groups[1] {
        ContentGroup::NumberedListGroup { items } => {
            assert_eq!(items.len(), 2);
            assert_eq!(items[0].block.content, "Number 1");
            assert_eq!(items[1].block.content, "Number 2");
        }
        _ => panic!("Expected NumberedListGroup"),
    }
}


#[test]
fn test_group_blocks_nested_list() {
    // Create mock blocks for nested list
    let blocks = vec![
        RenderBlock {
            id: AnchorId(1),
            kind: BlockKind::ListItem {
                marker: Marker::Dash,
                depth: 0,
            },
            byte_range: 0..8,
            content_range: 2..8,
            depth: 0,
            content: "Item 1".to_string(),
        },
        RenderBlock {
            id: AnchorId(2),
            kind: BlockKind::ListItem {
                marker: Marker::Dash,
                depth: 1,
            },
            byte_range: 9..19,
            content_range: 13..19,
            depth: 1,
            content: "Nested 1".to_string(),
        },
        RenderBlock {
            id: AnchorId(3),
            kind: BlockKind::ListItem {
                marker: Marker::Dash,
                depth: 1,
            },
            byte_range: 20..30,
            content_range: 24..30,
            depth: 1,
            content: "Nested 2".to_string(),
        },
    ];

    let groups = group_blocks_for_rendering(&blocks);

    assert_eq!(groups.len(), 1);
    match &groups[0] {
        ContentGroup::BulletListGroup { items } => {
            assert_eq!(items.len(), 1);
            assert_eq!(items[0].block.content, "Item 1");
            assert_eq!(items[0].children.len(), 2);
            assert_eq!(items[0].children[0].block.content, "Nested 1");
            assert_eq!(items[0].children[1].block.content, "Nested 2");
        }
        _ => panic!("Expected BulletListGroup"),
    }
}


#[test]
fn test_group_blocks_mixed_content() {
    // Create mock blocks with mixed content types
    let blocks = vec![
        RenderBlock {
            id: AnchorId(1),
            kind: BlockKind::Heading { level: 1 },
            byte_range: 0..10,
            content_range: 2..10,
            depth: 0,
            content: "Heading".to_string(),
        },
        RenderBlock {
            id: AnchorId(2),
            kind: BlockKind::ListItem {
                marker: Marker::Dash,
                depth: 0,
            },
            byte_range: 11..19,
            content_range: 13..19,
            depth: 0,
            content: "Item 1".to_string(),
        },
        RenderBlock {
            id: AnchorId(3),
            kind: BlockKind::ListItem {
                marker: Marker::Dash,
                depth: 0,
            },
            byte_range: 20..28,
            content_range: 22..28,
            depth: 0,
            content: "Item 2".to_string(),
        },
        RenderBlock {
            id: AnchorId(4),
            kind: BlockKind::Paragraph,
            byte_range: 29..39,
            content_range: 29..39,
            depth: 0,
            content: "Paragraph".to_string(),
        },
    ];

    let groups = group_blocks_for_rendering(&blocks);

    assert_eq!(groups.len(), 3);

    // First group: Heading
    match &groups[0] {
        ContentGroup::SingleBlock(block) => {
            assert!(matches!(block.kind, BlockKind::Heading { level: 1 }));
            assert_eq!(block.content, "Heading");
        }
        _ => panic!("Expected SingleBlock"),
    }

    // Second group: List with two items
    match &groups[1] {
        ContentGroup::BulletListGroup { items } => {
            assert_eq!(items.len(), 2);
            assert_eq!(items[0].block.content, "Item 1");
            assert_eq!(items[1].block.content, "Item 2");
        }
        _ => panic!("Expected BulletListGroup"),
    }

    // Third group: Paragraph
    match &groups[2] {
        ContentGroup::SingleBlock(block) => {
            assert!(matches!(block.kind, BlockKind::Paragraph));
            assert_eq!(block.content, "Paragraph");
        }
        _ => panic!("Expected SingleBlock"),
    }
}


#[test]
fn test_is_same_list_type() {
    // Test numbered lists
    assert!(is_same_list_type(&Marker::Numbered, &Marker::Numbered));

    // Test bullet lists
    assert!(is_same_list_type(&Marker::Dash, &Marker::Dash));
    assert!(is_same_list_type(&Marker::Dash, &Marker::Asterisk));
    assert!(is_same_list_type(&Marker::Asterisk, &Marker::Plus));
    assert!(is_same_list_type(&Marker::Plus, &Marker::Dash));

    // Test different types
    assert!(!is_same_list_type(&Marker::Numbered, &Marker::Dash));
    assert!(!is_same_list_type(&Marker::Dash, &Marker::Numbered));
    assert!(!is_same_list_type(&Marker::Asterisk, &Marker::Numbered));
    assert!(!is_same_list_type(&Marker::Plus, &Marker::Numbered));
}


#[test]
fn test_find_focused_block_in_list() {
    let list_items = vec![ListItem {
        block: RenderBlock {
            id: AnchorId(1),
            kind: BlockKind::ListItem {
                marker: Marker::Dash,
                depth: 0,
            },
            byte_range: 0..8,
            content_range: 2..8,
            depth: 0,
            content: "Item 1".to_string(),
        },
        children: vec![ListItem {
            block: RenderBlock {
                id: AnchorId(2),
                kind: BlockKind::ListItem {
                    marker: Marker::Dash,
                    depth: 1,
                },
                byte_range: 9..17,
                content_range: 13..17,
                depth: 1,
                content: "Nested".to_string(),
            },
            children: vec![],
        }],
    }];

    // Test finding root item
    let result = find_focused_block_in_list(&list_items, &Some(AnchorId(1)));
    assert!(result.is_some());
    assert_eq!(result.unwrap().content, "Item 1");

    // Test finding nested item
    let result = find_focused_block_in_list(&list_items, &Some(AnchorId(2)));
    assert!(result.is_some());
    assert_eq!(result.unwrap().content, "Nested");

    // Test not finding item
    let result = find_focused_block_in_list(&list_items, &Some(AnchorId(99)));
    assert!(result.is_none());

    // Test with None
    let result = find_focused_block_in_list(&list_items, &None);
    assert!(result.is_none());
}


#[test]
fn grouping_splits_runs_by_list_kind() {
    let blocks = vec![
        item(1, Marker::Dash, 0, "bullet"),
        item(2, Marker::Numbered, 0, "numbered 1"),
        item(3, Marker::Numbered, 0, "numbered 2"),
        block(4, BlockKind::Paragraph, 0, "para"),
        item(5, Marker::Asterisk, 0, "star"),
    ];
    let groups = group_blocks_for_rendering(&blocks);
    assert_eq!(groups.len(), 4);
    assert!(matches!(&groups[0], ContentGroup::BulletListGroup { items } if items.len() == 1));
    assert!(matches!(&groups[1], ContentGroup::NumberedListGroup { items } if items.len() == 2));
    assert!(matches!(&groups[2], ContentGroup::SingleBlock(b) if b.content == "para"));
    assert!(matches!(&groups[3], ContentGroup::BulletListGroup { items } if items.len() == 1));
}

#[test]
fn nesting_follows_depths() {
    let blocks = vec![
        item(1, Marker::Dash, 0, "parent"),
        item(2, Marker::Dash, 1, "child 1"),
        item(3, Marker::Dash, 1, "child 2"),
        item(4, Marker::Dash, 2, "grandchild"),
        item(5, Marker::Dash, 0, "second parent"),
    ];
    let items = build_nested_list_structure(&blocks);
    assert_eq!(items.len(), 2);
    assert_eq!(items[0].children.len(), 2);
    assert_eq!(items[0].children[1].children.len(), 1);
    assert_eq!(items[0].children[1].children[0].block.content, "grandchild");
    assert_eq!(items[1].block.content, "second parent");
}

#[test]
fn insert_at_depth_without_parent_goes_to_top() {
    let mut items: Vec<ListItem> = Vec::new();
    insert_list_item_at_depth(
        &mut items,
        ListItem { block: item(1, Marker::Dash, 3, "deep"), children: vec![] },
        3,
    );
    assert_eq!(items.len(), 1);
    assert!(items[0].children.is_empty());
}

#[test]
fn focus_is_found_below_and_not_without_target() {
    let blocks = vec![
        item(1, Marker::Dash, 0, "a"),
        item(2, Marker::Dash, 1, "b"),
        item(3, Marker::Dash, 0, "c"),
    ];
    let items = build_nested_list_structure(&blocks);
    let found = find_focused_block_in_list(&items, &Some(AnchorId(2)));
    assert_eq!(found.map(|b| b.content.clone()), Some("b".to_string()));
    assert!(find_focused_block_in_list(&items, &Some(AnchorId(9))).is_none());
    assert!(find_focused_block_in_list(&items, &None).is_none());
}

fn flatten_items(items: &[ListItem], out: &mut Vec<u128>) {
    for it in items {
        out.push(it.block.id.0);
        flatten_items(&it.children, out);
    }
}

#[test]
fn grouping_keeps_every_block_in_order() {
    let blocks = vec![
        block(1, BlockKind::Heading { level: 1 }, 0, "T"),
        item(2, Marker::Dash, 0, "a"),
        item(3, Marker::Dash, 1, "b"),
        item(4, Marker::Plus, 3, "c"),
        item(5, Marker::Numbered, 0, "n"),
        item(6, Marker::Numbered, 1, "m"),
        block(7, BlockKind::Paragraph, 0, "p"),
        item(8, Marker::Asterisk, 2, "x"),
    ];
    let groups = group_blocks_for_rendering(&blocks);
    let mut ids = Vec::new();
    for g in &groups {
        match g {
            ContentGroup::SingleBlock(b) => ids.push(b.id.0),
            ContentGroup::BulletListGroup { items } | ContentGroup::NumberedListGroup { items } => {
                flatten_items(items, &mut ids)
            }
        }
    }
    assert_eq!(ids, vec![1, 2, 3, 4, 5, 6, 7, 8]);
    assert_eq!(groups.len(), 5);
}
