use markdown_neuraxis::editing::anchors::AnchorId;
use markdown_neuraxis::editing::commands::{Cmd, Marker};
use markdown_neuraxis::editing::snapshot::{BlockKind, RenderBlock};
use markdown_neuraxis::interaction::{
    bullet_editor_key, calculate_textarea_rows, composition_command, editable_block_rows, editable_block_saves,
    editor_block_key, first_block_command, focus_for_file, main_panel_key, navigate_focus, resolve_wiki_link,
    tree_view_key, Key, KeyPress,
};
use markdown_neuraxis::models::document::{BlockId, BulletOperation};
use markdown_neuraxis::models::file_tree::{FileTreeItem, FileTreeNode};

fn press(key: Key) -> KeyPress {
    KeyPress { key, ctrl: false, shift: false }
}

fn shifted(key: Key) -> KeyPress {
    KeyPress { key, ctrl: false, shift: true }
}

fn block(id: u128, kind: BlockKind) -> RenderBlock {
    RenderBlock {
        id: AnchorId(id),
        kind,
        byte_range: 10..20,
        content_range: 12..19,
        depth: 0,
        content: "content".to_string(),
    }
}

#[test]
fn test_calculate_textarea_rows() {
    // Test single line content
    assert_eq!(calculate_textarea_rows("Single line"), 1);

    // Test multi-line content
    let multi_line = "Line 1\nLine 2\nLine 3";
    assert_eq!(calculate_textarea_rows(multi_line), 3);

    // Test empty content
    assert_eq!(calculate_textarea_rows(""), 1);

    // Test very long content (should be capped at 20)
    let long_content = "Line\n".repeat(30);
    assert_eq!(calculate_textarea_rows(&long_content), 20);
}

#[test]
fn textarea_rows_count_a_final_line_without_feed() {
    assert_eq!(calculate_textarea_rows("a\nb\n"), 2);
    assert_eq!(calculate_textarea_rows("a\nb"), 2);
    assert_eq!(calculate_textarea_rows("\n\n\n"), 3);
    assert_eq!(calculate_textarea_rows(&"x\n".repeat(20)), 20);
    assert_eq!(calculate_textarea_rows(&"x\n".repeat(19)), 19);
}

#[test]
fn editable_block_rows_at_least_three() {
    assert_eq!(editable_block_rows(""), 3);
    assert_eq!(editable_block_rows("one"), 3);
    assert_eq!(editable_block_rows("1\n2\n3\n4"), 4);
    assert_eq!(editable_block_rows(&"l\n".repeat(50)), 50);
}

#[test]
fn wiki_links_name_markdown_files_below_the_notes() {
    assert_eq!(resolve_wiki_link("Getting-Started", "/notes"), "/notes/Getting-Started.md");
    assert_eq!(resolve_wiki_link("1_Projects/Project-Alpha", "/notes"), "/notes/1_Projects/Project-Alpha.md");
    assert_eq!(resolve_wiki_link("some/page.md", "/notes"), "/notes/some/page.md");
    assert_eq!(resolve_wiki_link("journal/2024-01-15", "notes/"), "notes/journal/2024-01-15.md");
}

#[test]
fn editable_block_saves_on_escape_and_ctrl_enter() {
    assert!(editable_block_saves(press(Key::Escape)));
    assert!(editable_block_saves(KeyPress { key: Key::Enter, ctrl: true, shift: false }));
    assert!(!editable_block_saves(press(Key::Enter)));
    assert!(!editable_block_saves(press(Key::Tab)));
}

#[test]
fn bullet_editor_enter_saves_and_splits_at_the_end() {
    let id = BlockId(7);
    let content = "héllo".to_string();
    let r = bullet_editor_key(id, &content, content.len(), press(Key::Enter));
    assert!(r.prevent_default);
    assert_eq!(r.operations.len(), 2);
    assert!(matches!(&r.operations[0], BulletOperation::UpdateContent(i, c) if *i == id && c == "héllo"));
    assert!(matches!(&r.operations[1], BulletOperation::SplitAtCursor(i, c, 6) if *i == id && c == "héllo"));
}

#[test]
fn bullet_editor_enter_splits_at_the_caret() {
    let id = BlockId(8);
    let content = "hello world".to_string();
    let r = bullet_editor_key(id, &content, 5, press(Key::Enter));
    assert!(matches!(&r.operations[1], BulletOperation::SplitAtCursor(i, c, 5) if *i == id && c == "hello world"));
}

#[test]
fn bullet_editor_other_keys() {
    let id = BlockId(3);
    let content = "text".to_string();
    let r = bullet_editor_key(id, &content, 4, shifted(Key::Enter));
    assert!(!r.prevent_default && r.operations.is_empty());
    let r = bullet_editor_key(id, &content, 4, KeyPress { key: Key::Enter, ctrl: true, shift: false });
    assert!(!r.prevent_default && r.operations.len() == 1);
    let r = bullet_editor_key(id, &content, 4, press(Key::Escape));
    assert!(matches!(&r.operations[..], [BulletOperation::UpdateContent(_, c)] if c == "text"));
    let r = bullet_editor_key(id, &content, 4, press(Key::Tab));
    assert!(r.prevent_default);
    assert!(matches!(r.operations[1], BulletOperation::Indent(i) if i == id));
    let r = bullet_editor_key(id, &content, 4, shifted(Key::Tab));
    assert!(matches!(r.operations[1], BulletOperation::Outdent(i) if i == id));
    let r = bullet_editor_key(id, &content, 4, press(Key::Backspace));
    assert!(!r.prevent_default && r.operations.is_empty());
    let r = bullet_editor_key(id, &content, 0, press(Key::Backspace));
    assert!(r.prevent_default);
    assert!(matches!(&r.operations[..], [BulletOperation::UpdateContent(i, c), BulletOperation::MergeWithPrevious(j)] if *i == id && c == "text" && *j == id));
    let r = bullet_editor_key(id, &String::new(), 0, press(Key::Backspace));
    assert!(r.prevent_default);
    assert!(matches!(&r.operations[..], [BulletOperation::DeleteEmpty(i)] if *i == id));
    let r = bullet_editor_key(id, &content, 4, press(Key::ArrowUp));
    assert!(!r.prevent_default && r.operations.is_empty());
}

#[test]
fn editor_block_keys() {
    let item = block(1, BlockKind::ListItem { marker: Marker::Dash, depth: 0 });
    let para = block(2, BlockKind::Paragraph);

    let r = editor_block_key(&item, press(Key::Tab));
    assert!(r.prevent_default && r.commit && !r.cancel);
    assert!(matches!(r.command, Some(Cmd::IndentLines { range }) if range == (10..20)));
    let r = editor_block_key(&item, shifted(Key::Tab));
    assert!(matches!(r.command, Some(Cmd::OutdentLines { range }) if range == (10..20)));

    let r = editor_block_key(&item, press(Key::Enter));
    assert!(r.prevent_default && r.commit);
    assert!(matches!(r.command, Some(Cmd::SplitListItem { at: 19 })));
    let r = editor_block_key(&para, press(Key::Enter));
    assert!(matches!(r.command, Some(Cmd::InsertText { at: 19, ref text }) if text == "\n"));
    let r = editor_block_key(&para, shifted(Key::Enter));
    assert!(!r.prevent_default && !r.commit && r.command.is_none());

    let r = editor_block_key(&para, press(Key::Escape));
    assert!(!r.prevent_default && r.commit && r.cancel && r.command.is_none());
    let r = editor_block_key(&para, press(Key::Other));
    assert!(!r.prevent_default && !r.commit && !r.cancel && r.command.is_none());
}

#[test]
fn composed_text_is_inserted_at_the_end_of_the_content() {
    let para = block(2, BlockKind::Paragraph);
    assert!(composition_command(&para, String::new()).is_none());
    assert!(matches!(composition_command(&para, "日本".to_string()), Some(Cmd::InsertText { at: 19, ref text }) if text == "日本"));
    assert!(matches!(first_block_command(), Cmd::InsertText { at: 0, ref text } if text == "- "));
}

#[test]
fn focus_moves_between_blocks() {
    let blocks = vec![
        block(1, BlockKind::Paragraph),
        block(2, BlockKind::Paragraph),
        block(3, BlockKind::Paragraph),
    ];
    assert_eq!(navigate_focus(&blocks, None, true), Some(AnchorId(1)));
    assert_eq!(navigate_focus(&blocks, None, false), Some(AnchorId(3)));
    assert_eq!(navigate_focus(&blocks, Some(AnchorId(2)), true), Some(AnchorId(3)));
    assert_eq!(navigate_focus(&blocks, Some(AnchorId(3)), true), Some(AnchorId(3)));
    assert_eq!(navigate_focus(&blocks, Some(AnchorId(1)), false), Some(AnchorId(1)));
    assert_eq!(navigate_focus(&blocks, Some(AnchorId(2)), false), Some(AnchorId(1)));
    assert_eq!(navigate_focus(&blocks, Some(AnchorId(9)), true), Some(AnchorId(9)));
    assert_eq!(navigate_focus(&Vec::new(), None, true), None);
}

#[test]
fn main_panel_keys_only_without_an_editor() {
    let blocks = vec![block(1, BlockKind::Paragraph), block(2, BlockKind::Paragraph)];
    let r = main_panel_key(&blocks, None, press(Key::Tab));
    assert!(r.prevent_default && r.focus == Some(AnchorId(1)));
    let r = main_panel_key(&blocks, None, shifted(Key::Tab));
    assert!(r.prevent_default && r.focus == Some(AnchorId(2)));
    let r = main_panel_key(&blocks, None, press(Key::Enter));
    assert!(!r.prevent_default && r.focus == Some(AnchorId(1)));
    let r = main_panel_key(&blocks, None, press(Key::ArrowUp));
    assert!(r.prevent_default && r.focus == Some(AnchorId(2)));
    let r = main_panel_key(&blocks, Some(AnchorId(1)), press(Key::ArrowDown));
    assert!(!r.prevent_default && r.focus == Some(AnchorId(1)));
    let r = main_panel_key(&Vec::new(), None, press(Key::Enter));
    assert!(r.focus.is_none());
}

fn rows() -> Vec<FileTreeItem> {
    let mut folder = FileTreeNode::new_folder("notes".to_string(), "/n/notes".to_string());
    folder.is_expanded = true;
    vec![
        FileTreeItem { node: folder, depth: 0 },
        FileTreeItem { node: FileTreeNode::new_file("a.md".to_string(), "/n/notes/a.md".to_string()), depth: 1 },
        FileTreeItem { node: FileTreeNode::new_folder("sub".to_string(), "/n/notes/sub".to_string()), depth: 1 },
    ]
}

#[test]
fn tree_view_arrows() {
    let items = rows();
    let r = tree_view_key(&items, true, 0, Key::ArrowDown);
    assert!(r.prevent_default && r.focused_index == 1 && r.open == Some(1) && r.toggle.is_none());
    let r = tree_view_key(&items, true, 2, Key::ArrowDown);
    assert!(r.focused_index == 2 && r.open.is_none());
    let r = tree_view_key(&items, true, 2, Key::ArrowUp);
    assert!(r.focused_index == 1 && r.open == Some(1));
    let r = tree_view_key(&items, true, 0, Key::ArrowUp);
    assert!(r.focused_index == 0 && r.open.is_none());
    let r = tree_view_key(&items, true, 2, Key::ArrowRight);
    assert!(r.toggle == Some(2) && r.focused_index == 2);
    let r = tree_view_key(&items, true, 0, Key::ArrowRight);
    assert!(r.prevent_default && r.toggle.is_none());
    let r = tree_view_key(&items, true, 0, Key::ArrowLeft);
    assert!(r.toggle == Some(0));
    let r = tree_view_key(&items, true, 7, Key::ArrowLeft);
    assert!(r.prevent_default && r.toggle.is_none() && r.focused_index == 7);
    let r = tree_view_key(&items, false, 0, Key::ArrowDown);
    assert!(!r.prevent_default && r.focused_index == 0);
    let r = tree_view_key(&Vec::new(), true, 0, Key::ArrowDown);
    assert!(!r.prevent_default && r.focused_index == 0);
    let r = tree_view_key(&items, true, 1, Key::Enter);
    assert!(!r.prevent_default && r.focused_index == 1 && r.open.is_none());
}

#[test]
fn tree_view_focuses_the_opened_file() {
    let items = rows();
    assert_eq!(focus_for_file(&items, "/n/notes/a.md"), Some(1));
    assert_eq!(focus_for_file(&items, "/n/notes//a.md"), Some(1));
    assert_eq!(focus_for_file(&items, "/n/notes/sub"), None);
    assert_eq!(focus_for_file(&items, "/n/notes/b.md"), None);
}

#[test]
fn focus_on_then_back_returns_to_the_block() {
    let blocks = vec![
        block(1, BlockKind::Paragraph),
        block(2, BlockKind::Paragraph),
        block(3, BlockKind::Paragraph),
    ];
    for i in 0..2 {
        let start = Some(AnchorId(i + 1));
        let on = navigate_focus(&blocks, start, true);
        assert_eq!(navigate_focus(&blocks, on, false), start);
    }
    for i in 1..3 {
        let start = Some(AnchorId(i + 1));
        let back = navigate_focus(&blocks, start, false);
        assert_eq!(navigate_focus(&blocks, back, true), start);
    }
}
