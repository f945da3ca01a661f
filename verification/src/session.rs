//! What the application does with the text of a note when it opens one, when
//! it opens a note that does not exist yet, and when it saves one.
use crate::models::chars::{chars_to_string, push_all, str_to_chars};
use crate::models::document::{
    block_md, block_view, blocks_view, BlockView, ContentBlock,
    erase_blocks, Document, SegmentView, TextSegment, segments_view};
use crate::models::state::{entries_view, entry_pos, DocumentState};
use crate::parsing::events::markdown_events;
use crate::parsing::processor::{md_blocks, parse_markdown};
use vstd::prelude::*;

verus! {

/// The markdown of the blocks, with a blank line between each two.
pub open spec fn joined_markdown(bs: Seq<BlockView>) -> Seq<char>
    decreases bs.len(),
{
    if bs.len() == 0 {
        Seq::empty()
    } else if bs.len() == 1 {
        block_md(bs[0])
    } else {
        joined_markdown(bs.drop_last()) + seq!['\n', '\n'] + block_md(bs.last())
    }
}

/// The blocks of an editing state, in order.
pub open spec fn state_blocks(st: DocumentState) -> Seq<BlockView> {
    entries_view(st.blocks@).map_values(|e: (u128, BlockView)| e.1)
}

/// The text that a note is saved as: the markdown of its blocks, with a
/// blank line between each two.
pub fn document_markdown(state: &DocumentState) -> (r: String)
    ensures
        r@ == joined_markdown(state_blocks(*state)),
{
    let ghost bs = state_blocks(*state);
    let mut out: Vec<char> = Vec::new();
    let mut i: usize = 0;
    while i < state.blocks.len()
        invariant
            0 <= i <= state.blocks@.len(),
            bs == state_blocks(*state),
            bs.len() == state.blocks@.len(),
            out@ == joined_markdown(bs.take(i as int)),
        decreases state.blocks@.len() - i,
    {
        assert(bs[i as int] == block_view(state.blocks@[i as int].1));
        let md = state.blocks[i].1.to_markdown();
        if i > 0 {
            out.push('\n');
            out.push('\n');
        }
        let cs = str_to_chars(md.as_str());
        push_all(&mut out, cs.as_slice());
        proof {
            let t = bs.take(i + 1);
            assert(t.drop_last() =~= bs.take(i as int));
            assert(t.last() == bs[i as int]);
            if i == 0 {
                assert(t.len() == 1);
            }
        }
        i = i + 1;
    }
    assert(bs.take(i as int) =~= bs);
    chars_to_string(out.as_slice())
}

/// The editing state of a note that is opened: the blocks that its text is
/// read as, nothing being edited or selected.
pub fn open_document(content: &str, relative_path: String) -> (st: DocumentState)
    ensures
        st.path == relative_path,
        st.editing_block is None,
        st.selected_block is None,
        erase_blocks(blocks_view(st.blocks@.map_values(|e: (crate::models::document::BlockId, ContentBlock)| e.1)))
            == md_blocks(markdown_events(content@)),
{
    let document = parse_markdown(content, relative_path);
    let ghost content_blocks = document.content@;
    let st = DocumentState::from_document(document);
    assert(st.blocks@.map_values(|e: (crate::models::document::BlockId, ContentBlock)| e.1) =~= content_blocks);
    st
}

/// The block that a note which does not exist yet starts with: a paragraph
/// of one empty text.
pub open spec fn blank_block() -> BlockView {
    BlockView::Paragraph(seq![SegmentView::Text(Seq::empty())])
}

/// The editing state of a note that does not exist yet: one empty paragraph,
/// which is being edited.
pub fn blank_document_state(relative_path: String) -> (st: DocumentState)
    ensures
        st.path == relative_path,
        st.blocks@.len() == 1,
        block_view(st.blocks@[0].1) == blank_block(),
        st.editing_block matches Some((id, raw)) && id == st.blocks@[0].0 && raw@ == block_md(blank_block()),
        st.selected_block is None,
{
    let mut document = Document::new(relative_path);
    let mut segments: Vec<TextSegment> = Vec::new();
    segments.push(TextSegment::Text(String::new()));
    document.content.push(ContentBlock::Paragraph { segments });
    let mut st = DocumentState::from_document(document);
    let id = st.blocks[0].0;
    proof {
        let b = st.blocks@[0].1;
        assert(b matches ContentBlock::Paragraph { segments: sg } && segments_view(sg@) =~= seq![SegmentView::Text(Seq::empty())]);
        assert(block_view(b) == blank_block());
        assert(entries_view(st.blocks@)[0] == (id.0, blank_block()));
        assert(entry_pos(entries_view(st.blocks@), id.0) == Some(0int));
    }
    st.start_editing(id);
    st
}

} // verus!
