use markdown_neuraxis::editing::anchors::{calculate_range_overlap, generate_static_anchor_id, Anchor, AnchorId};
use markdown_neuraxis::editing::document::Document;
use markdown_neuraxis::editing::syntax::{
    add_anchors_for_new_blocks, anchor_data_from_nodes, anchors_from_nodes, create_anchors_for_new_blocks,
    create_anchors_from_tree, syntax_nodes,
};

/// The full ranges of the list items, children included.
fn collect_raw_list_item_ranges(doc: &Document) -> Vec<std::ops::Range<usize>> {
    let nodes = syntax_nodes(&doc.text()).expect("a parse tree");
    nodes
        .iter()
        .filter(|n| n.kind == "list_item")
        .map(|n| n.start..n.end)
        .collect()
}

fn ids_and_ranges(anchors: &[Anchor]) -> Vec<(AnchorId, std::ops::Range<usize>)> {
    anchors.iter().map(|a| (a.id, a.range.clone())).collect()
}

fn assert_no_overlaps(anchors: &[Anchor]) {
    for (i, anchor_a) in anchors.iter().enumerate() {
        for (j, anchor_b) in anchors.iter().enumerate() {
            if i != j {
                let overlap = calculate_range_overlap(&anchor_a.range, &anchor_b.range);
                assert_eq!(
                    overlap, 0,
                    "Anchors must not overlap! Anchor {} {:?} overlaps with anchor {} {:?}",
                    i, anchor_a.range, j, anchor_b.range
                );
            }
        }
    }
}

#[test]
fn test_anchor_creation_from_simple_document() {
    let text = "# Heading\n\n- Item 1\n- Item 2";
    let doc = Document::from_bytes(text.as_bytes()).unwrap();

    // Create anchors from tree-sitter parse tree
    let anchors = create_anchors_from_tree(&doc);

    // Should have anchors for heading and list items
    assert!(anchors.len() >= 2, "Expected at least 2 anchors for heading and list items");

    // Each anchor should have a unique ID
    let mut ids = std::collections::HashSet::new();
    for anchor in &anchors {
        assert!(ids.insert(anchor.id), "Duplicate anchor ID found");
    }
}

#[test]
fn test_anchor_generation_for_nested_lists() {
    let text = "- Item 1\n  - Nested 1\n  - Nested 2\n- Item 2";
    let doc = Document::from_bytes(text.as_bytes()).unwrap();

    let anchors = create_anchors_from_tree(&doc);

    // Should create anchors for all list items
    assert!(anchors.len() >= 4, "Should have anchors for all list items");

    // Verify ranges don't overlap improperly and are within document bounds
    for (i, anchor) in anchors.iter().enumerate() {
        assert!(anchor.range.start < anchor.range.end, "Anchor {i} should have valid range");
        assert!(anchor.range.end <= doc.text().len(), "Anchor {i} should be within document bounds");
    }
}

#[test]
fn test_empty_document_anchors() {
    let doc = Document::from_bytes(b"").unwrap();
    let anchors = create_anchors_from_tree(&doc);

    // Empty document should have no anchors
    assert_eq!(anchors.len(), 0, "Empty document should have no anchors");
}

#[test]
fn test_anchor_generation_with_complex_list_items_no_overlaps() {
    let text = r#"- Simple item
- Multi-line item that has
  a hard wrap in the middle
  - Nested item under multiline parent
  - Another nested item
- Another simple item
- Final item with
  multiple lines and
  even more content
  - Deep nested item"#;

    let doc = Document::from_bytes(text.as_bytes()).unwrap();
    let anchors = create_anchors_from_tree(&doc);

    // REQUIREMENT 1: No two anchors should ever overlap
    assert_no_overlaps(&anchors);

    // REQUIREMENT 2: Each list item should get exactly one anchor covering only its own content
    assert!(
        anchors.len() >= 7,
        "Should have at least 7 anchors for the distinct list items, got {}",
        anchors.len()
    );

    // REQUIREMENT 3: Each anchor should contain content from only one logical block
    for (i, anchor) in anchors.iter().enumerate() {
        let content = doc.slice_to_cow(anchor.range.clone());
        let content_lines: Vec<&str> = content.lines().collect();
        if content.trim_start().starts_with('-') {
            let list_marker_count = content_lines
                .iter()
                .filter(|line| line.trim_start().starts_with('-'))
                .count();
            assert_eq!(
                list_marker_count, 1,
                "Anchor {} should contain exactly one list marker (its own), but found {} in content: {:?}",
                i, list_marker_count, content
            );
        }
    }

    // REQUIREMENT 4: Multiline list items should have anchors covering all their lines
    let multiline_anchors: Vec<_> = anchors
        .iter()
        .filter(|anchor| {
            let content = doc.slice_to_cow(anchor.range.clone());
            content.contains("Multi-line item") || content.contains("Final item with")
        })
        .collect();

    assert!(!multiline_anchors.is_empty(), "Should have anchors for multiline list items");

    for anchor in multiline_anchors {
        let content = doc.slice_to_cow(anchor.range.clone());
        if content.contains("Multi-line item") {
            assert!(content.contains("a hard wrap in the middle"));
            assert!(!content.contains("Nested item under"));
        }
        if content.contains("Final item with") {
            assert!(content.contains("multiple lines"));
            assert!(content.contains("even more content"));
            assert!(!content.contains("Deep nested item"));
        }
    }

    // REQUIREMENT 5: All anchors should be within document bounds and non-empty
    for (i, anchor) in anchors.iter().enumerate() {
        assert!(anchor.range.start < anchor.range.end, "Anchor {} should have valid range", i);
        assert!(anchor.range.end <= doc.text().len(), "Anchor {} should be within document bounds", i);
    }
}

#[test]
fn test_anchor_generation_raw_node_ranges_show_overlap_problem() {
    let text = r#"- Parent item with content
  - Child item
- Another parent"#;

    let doc = Document::from_bytes(text.as_bytes()).unwrap();
    let raw_ranges = collect_raw_list_item_ranges(&doc);

    // Show that raw ranges would overlap
    if raw_ranges.len() >= 2 {
        let parent_range = &raw_ranges[0];
        let child_range = &raw_ranges[1];
        let overlap = calculate_range_overlap(parent_range, child_range);
        assert!(overlap > 0, "Raw node ranges should overlap (this demonstrates the problem we're fixing)");
    }

    // Now test that our actual anchor generation fixes this
    let anchors = create_anchors_from_tree(&doc);
    assert_no_overlaps(&anchors);
}

#[test]
fn test_anchor_generation_edge_cases() {
    let text = r#"- Simple item
- Item with inline `code` and **bold** text
  More content on second line
  
  Even a paragraph break
  - Nested after paragraph
- Item ending with spaces   
- Item with trailing newlines

  - Nested after blank line"#;

    let doc = Document::from_bytes(text.as_bytes()).unwrap();
    let anchors = create_anchors_from_tree(&doc);

    // Verify no overlaps
    assert_no_overlaps(&anchors);

    // Verify that multiline items include all their content up to nested items
    let multiline_anchors: Vec<_> = anchors
        .iter()
        .filter(|anchor| {
            let content = doc.slice_to_cow(anchor.range.clone());
            content.contains("inline `code`") || content.contains("trailing newlines")
        })
        .collect();

    for anchor in multiline_anchors {
        let content = doc.slice_to_cow(anchor.range.clone());
        if content.contains("inline `code`") {
            assert!(content.contains("**bold** text"));
            assert!(content.contains("More content on second line"));
            assert!(content.contains("Even a paragraph break"));
            assert!(!content.contains("Nested after paragraph"));
        }
    }
}

#[test]
fn test_list_item_own_range_calculation_robustness() {
    let text = r#"- Item without nested content
- Item with nested content
  - Child 1
  - Child 2
- Item with multiple nested lists
  - First nested list
    - Deep nest
  - Second item in first list
  
  - Second nested list after gap
    - Another deep nest
- Final simple item"#;

    let doc = Document::from_bytes(text.as_bytes()).unwrap();

    // Test the raw ranges to see the problem space
    let raw_ranges = collect_raw_list_item_ranges(&doc);
    let mut overlap_found = false;
    for (i, range_a) in raw_ranges.iter().enumerate() {
        for (j, range_b) in raw_ranges.iter().enumerate() {
            if i != j && calculate_range_overlap(range_a, range_b) > 0 {
                overlap_found = true;
            }
        }
    }
    assert!(overlap_found, "Raw ranges should show overlap problem");

    // Now test that our anchors fix the overlaps
    let anchors = create_anchors_from_tree(&doc);
    assert_no_overlaps(&anchors);

    // Verify that parent items stop before their first nested list
    let parent_with_nested: Vec<_> = anchors
        .iter()
        .filter(|anchor| doc.slice_to_cow(anchor.range.clone()).contains("Item with nested content"))
        .collect();

    assert_eq!(parent_with_nested.len(), 1, "Should find exactly one anchor for 'Item with nested content'");
    let parent_content = doc.slice_to_cow(parent_with_nested[0].range.clone());
    assert!(!parent_content.contains("Child 1"), "Parent anchor should not contain child content");
    assert!(!parent_content.contains("Child 2"), "Parent anchor should not contain child content");
}

#[test]
fn anchors_take_static_ids_of_their_position_and_range() {
    let doc = Document::from_bytes(b"# Title\n\n- one\n  - two\n\n```\ncode\n```\n").unwrap();
    let nodes = syntax_nodes(&doc.text()).unwrap();
    let anchors = anchors_from_nodes(&nodes);
    assert_eq!(ids_and_ranges(&anchors), ids_and_ranges(&create_anchors_from_tree(&doc)));
    assert_eq!(anchors.len(), 4);
    for (i, a) in anchors.iter().enumerate() {
        assert_eq!(a.id, generate_static_anchor_id(i, a.range.clone()));
        assert!(a.node_id.is_some());
    }
    assert!(doc.slice_to_cow(anchors[0].range.clone()).starts_with("# Title"));
    assert!(doc.slice_to_cow(anchors[1].range.clone()).starts_with("- one"));
    assert!(!doc.slice_to_cow(anchors[1].range.clone()).contains("two"));
    assert!(doc.slice_to_cow(anchors[2].range.clone()).starts_with("- two"));
    assert!(doc.slice_to_cow(anchors[3].range.clone()).starts_with("```"));

    let data = anchor_data_from_nodes(&nodes);
    assert_eq!(data.len(), 4);
    assert_eq!(data[0].2, "atx_heading");
    assert_eq!(data[1].2, "list_item");
    assert_eq!(data[3].2, "fenced_code_block");
    for (d, a) in data.iter().zip(anchors.iter()) {
        assert_eq!(d.0, a.range);
        assert_eq!(d.1, a.node_id);
    }
}

#[test]
fn new_blocks_get_anchors_only_where_none_stands_for_them() {
    let mut anchors = vec![Anchor { id: AnchorId(1), range: 0..5, node_id: None }];
    let new = vec![
        Anchor { id: AnchorId(2), range: 3..8, node_id: None },
        Anchor { id: AnchorId(3), range: 8..10, node_id: Some(4) },
        Anchor { id: AnchorId(4), range: 20..30, node_id: Some(4) },
        Anchor { id: AnchorId(5), range: 9..12, node_id: None },
    ];
    add_anchors_for_new_blocks(&mut anchors, new);
    let ids: Vec<u128> = anchors.iter().map(|a| a.id.0).collect();
    assert_eq!(ids, vec![1, 3]);

    let doc = Document::from_bytes(b"# A\n\n- b").unwrap();
    let mut existing = Vec::new();
    create_anchors_for_new_blocks(&mut existing, &doc);
    assert_eq!(ids_and_ranges(&existing), ids_and_ranges(&create_anchors_from_tree(&doc)));
    let before = existing.len();
    create_anchors_for_new_blocks(&mut existing, &doc);
    assert_eq!(existing.len(), before);
}
