use markdown_neuraxis::editing::anchors::AnchorId;
use markdown_neuraxis::editing::commands::Marker;
use markdown_neuraxis::editing::document::Document;
use markdown_neuraxis::editing::extract::{
    calculate_list_depth, extract_code_fence_content_range, extract_code_fence_language,
    extract_heading_content_range, extract_heading_level, extract_list_item_content_range,
    extract_list_item_own_range, extract_list_marker, extract_paragraph_content_range,
};
use markdown_neuraxis::editing::points::{byte_to_point_in_text, describe_point, locate_in_block};
use markdown_neuraxis::editing::snapshot::{BlockKind, RenderBlock, Snapshot};

fn doc(text: &str) -> Document {
    Document::from_bytes(text.as_bytes()).unwrap()
}

#[test]
fn points_count_rows_and_byte_columns() {
    assert_eq!(byte_to_point_in_text("", 0), (0, 0));
    assert_eq!(byte_to_point_in_text("abc", 2), (0, 2));
    assert_eq!(byte_to_point_in_text("ab\ncd\nef", 4), (1, 1));
    assert_eq!(byte_to_point_in_text("ab\ncd\nef", 6), (2, 0));
    assert_eq!(byte_to_point_in_text("ab\ncd", 100), (1, 2));
    assert_eq!(byte_to_point_in_text("é\nx", 2), (0, 2));
}

fn snapshot() -> Snapshot {
    Snapshot {
        version: 0,
        blocks: vec![
            RenderBlock {
                id: AnchorId(1),
                kind: BlockKind::Heading { level: 1 },
                byte_range: 0..9,
                content_range: 2..9,
                depth: 0,
                content: "Heading".to_string(),
            },
            RenderBlock {
                id: AnchorId(2),
                kind: BlockKind::ListItem { marker: Marker::Dash, depth: 0 },
                byte_range: 11..25,
                content_range: 13..25,
                depth: 0,
                content: "one\ntwo".to_string(),
            },
        ],
        content_groups: Vec::new(),
    }
}

#[test]
fn locate_finds_the_block_and_the_offset_in_its_content() {
    let s = snapshot();
    assert_eq!(locate_in_block(&s, 0), Some((AnchorId(1), 0)));
    assert_eq!(locate_in_block(&s, 5), Some((AnchorId(1), 3)));
    assert_eq!(locate_in_block(&s, 9), None);
    assert_eq!(locate_in_block(&s, 11), Some((AnchorId(2), 0)));
    assert_eq!(locate_in_block(&s, 18), Some((AnchorId(2), 5)));
    assert_eq!(locate_in_block(&s, 25), None);
}

#[test]
fn describe_point_gives_line_and_column_in_the_block_text() {
    let s = snapshot();
    let d = describe_point(&s, 18).unwrap();
    assert_eq!(d.block_id, AnchorId(2));
    assert_eq!(d.local_byte_offset, 5);
    assert_eq!((d.local_line, d.local_col), (1, 1));
    assert_eq!(d.textarea_cursor_pos, 5);
    assert!(describe_point(&s, 10).is_none());
}

#[test]
fn heading_level_and_content() {
    let d = doc("## Title\nrest");
    assert_eq!(extract_heading_level(&d, &(0..9)), 2);
    assert_eq!(extract_heading_content_range(&d, &(0..9)), 3..8);
    let d = doc("#######x");
    assert_eq!(extract_heading_level(&d, &(0..8)), 6);
    assert_eq!(extract_heading_content_range(&d, &(0..8)), 7..8);
    let d = doc("plain");
    assert_eq!(extract_heading_level(&d, &(0..5)), 1);
}

#[test]
fn paragraph_content_drops_the_line_ending() {
    let d = doc("text\r\nmore");
    assert_eq!(extract_paragraph_content_range(&d, &(0..6)), 0..4);
    assert_eq!(extract_paragraph_content_range(&d, &(0..5)), 0..5);
    assert_eq!(extract_paragraph_content_range(&d, &(0..4)), 0..4);
}

#[test]
fn list_item_marker_ranges_and_depth() {
    let text = "- one\n    * two\n        3. three\n+ four\nx";
    let d = doc(text);
    assert_eq!(extract_list_marker(&d, &(0..6)), Marker::Dash);
    assert_eq!(extract_list_marker(&d, &(6..16)), Marker::Asterisk);
    assert_eq!(extract_list_marker(&d, &(16..33)), Marker::Numbered);
    assert_eq!(extract_list_marker(&d, &(33..40)), Marker::Plus);
    assert_eq!(extract_list_marker(&d, &(40..41)), Marker::Dash);

    assert_eq!(extract_list_item_own_range(&d, &(0..16)), 0..5);
    assert_eq!(extract_list_item_own_range(&d, &(33..39)), 33..39);

    assert_eq!(extract_list_item_content_range(&d, &(0..16)), 2..5);
    assert_eq!(extract_list_item_content_range(&d, &(6..16)), 12..15);
    assert_eq!(extract_list_item_content_range(&d, &(16..33)), 27..32);

    assert_eq!(calculate_list_depth(&d, 0), 0);
    assert_eq!(calculate_list_depth(&d, 10), 1);
    assert_eq!(calculate_list_depth(&d, 24), 2);
}

#[test]
fn code_fence_language_and_content() {
    let text = "```rust\nfn main() {}\n```";
    let d = doc(text);
    let all = 0..text.len();
    assert_eq!(extract_code_fence_language(&d, &all), Some("rust".to_string()));
    assert_eq!(extract_code_fence_content_range(&d, &all), 8..20);

    let text = "~~~  py \ncode\n";
    let d = doc(text);
    let all = 0..text.len();
    assert_eq!(extract_code_fence_language(&d, &all), Some("py".to_string()));
    assert_eq!(extract_code_fence_content_range(&d, &all), 9..14);

    let text = "```\nplain code\n```";
    let d = doc(text);
    let all = 0..text.len();
    assert_eq!(extract_code_fence_language(&d, &all), None);
    assert_eq!(extract_code_fence_content_range(&d, &all), 4..14);

    let d = doc("```rust");
    assert_eq!(extract_code_fence_language(&d, &(0..7)), None);
    assert_eq!(extract_code_fence_content_range(&d, &(0..7)), 0..7);
}
