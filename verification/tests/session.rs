use markdown_neuraxis::models::document::{BlockId, ContentBlock, TextSegment};
use markdown_neuraxis::models::state::DocumentState;
use markdown_neuraxis::session::{blank_document_state, document_markdown, open_document};

#[test]
fn saved_text_puts_a_blank_line_between_blocks() {
    let mut st = open_document("# Title\n\nSome text\n\n- a\n- b\n", "notes/a.md".to_string());
    assert_eq!(st.path, "notes/a.md");
    assert_eq!(st.blocks.len(), 3);
    assert_eq!(document_markdown(&st), "# Title\n\nSome text\n\n- a\n- b");
    st.blocks.truncate(1);
    assert_eq!(document_markdown(&st), "# Title");
    st.blocks.clear();
    assert_eq!(document_markdown(&st), "");
}

#[test]
fn opened_note_has_nothing_selected_or_edited() {
    let st = open_document("Para one\n\nPara two", "p.md".to_string());
    assert!(st.editing_block.is_none());
    assert!(st.selected_block.is_none());
    assert_eq!(st.blocks.len(), 2);
    assert!(matches!(&st.blocks[1].1, ContentBlock::Paragraph { segments } if segments == &vec![TextSegment::Text("Para two".to_string())]));
}

#[test]
fn a_new_note_starts_with_one_empty_paragraph_being_edited() {
    let st: DocumentState = blank_document_state("journal/2024-01-15.md".to_string());
    assert_eq!(st.path, "journal/2024-01-15.md");
    assert_eq!(st.blocks.len(), 1);
    assert!(matches!(&st.blocks[0].1, ContentBlock::Paragraph { segments } if segments == &vec![TextSegment::Text(String::new())]));
    let id: BlockId = st.blocks[0].0;
    assert_eq!(st.editing_block, Some((id, String::new())));
    assert!(st.selected_block.is_none());
    assert_eq!(document_markdown(&st), "");
}
