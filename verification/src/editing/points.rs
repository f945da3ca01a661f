//! Hit-testing in a rendered document: which block holds a byte position,
//! and where that position falls in the block's text.
use super::anchors::AnchorId;
use super::snapshot::{RenderBlock, Snapshot};
use vstd::prelude::*;
use vstd::utf8::encode_utf8;

verus! {

/// The number of line feeds among the bytes.
pub open spec fn newline_bytes(b: Seq<u8>) -> nat
    decreases b.len(),
{
    if b.len() == 0 {
        0
    } else {
        newline_bytes(b.drop_last()) + if b.last() == 10u8 { 1nat } else { 0nat }
    }
}

/// Where the last line of the bytes starts: just after their last line
/// feed, or at 0.
pub open spec fn last_line_start(b: Seq<u8>) -> int
    decreases b.len(),
{
    if b.len() == 0 {
        0
    } else if b.last() == 10u8 {
        b.len() as int
    } else {
        last_line_start(b.drop_last())
    }
}

proof fn lemma_last_line_start(b: Seq<u8>)
    ensures
        0 <= last_line_start(b) <= b.len(),
        newline_bytes(b) <= b.len(),
    decreases b.len(),
{
    if b.len() > 0 {
        lemma_last_line_start(b.drop_last());
    }
}

/// The row and column, both counted from 0 in bytes, of the byte offset in
/// the text; an offset past the end counts as the end.
pub open spec fn point_in(b: Seq<u8>, offset: int) -> (int, int) {
    let k = if offset < b.len() { offset } else { b.len() as int };
    (newline_bytes(b.take(k)) as int, k - last_line_start(b.take(k)))
}

/// Convert byte offset to (row, column) position in given text
pub fn byte_to_point_in_text(text: &str, byte_offset: usize) -> (r: (usize, usize))
    ensures
        (r.0 as int, r.1 as int) == point_in(encode_utf8(text@), byte_offset as int),
{
    let text_bytes = text.as_bytes();
    let ghost b = encode_utf8(text@);
    let offset = if byte_offset < text_bytes.len() {
        byte_offset
    } else {
        text_bytes.len()
    };
    let mut row: usize = 0;
    let mut last_newline: usize = 0;
    let mut i: usize = 0;
    while i < offset
        invariant
            text_bytes@ == b,
            offset <= b.len(),
            0 <= i <= offset,
            row == newline_bytes(b.take(i as int)),
            last_newline == last_line_start(b.take(i as int)),
            last_newline <= i,
        decreases offset - i,
    {
        assert(b.take(i + 1).drop_last() =~= b.take(i as int));
        proof {
            lemma_last_line_start(b.take(i as int));
        }
        if text_bytes[i] == 10u8 {
            row = row + 1;
            last_newline = i + 1;
        }
        i = i + 1;
    }
    (row, offset - last_newline)
}

/// The first block whose byte range holds the position, with the position's
/// offset from the start of that block's content (0 before it).
pub open spec fn located(blocks: Seq<RenderBlock>, pos: int) -> Option<(AnchorId, int)>
    decreases blocks.len(),
{
    if blocks.len() == 0 {
        None
    } else if blocks[0].byte_range.start <= pos < blocks[0].byte_range.end {
        let s = blocks[0].content_range.start;
        Some((blocks[0].id, if pos > s { pos - s } else { 0 }))
    } else {
        located(blocks.drop_first(), pos)
    }
}

/// Hit-testing helper: Find which block contains the given byte position
/// Returns the block ID and the local offset within that block's content
pub fn locate_in_block(snapshot: &Snapshot, byte_position: usize) -> (r: Option<(AnchorId, usize)>)
    ensures
        match located(snapshot.blocks@, byte_position as int) {
            Some((id, off)) => r matches Some((rid, roff)) && rid == id && roff == off,
            None => r is None,
        },
{
    let blocks = &snapshot.blocks;
    let mut i: usize = 0;
    assert(blocks@.skip(0) =~= blocks@);
    while i < blocks.len()
        invariant
            0 <= i <= blocks@.len(),
            blocks@ == snapshot.blocks@,
            located(blocks@, byte_position as int) == located(blocks@.skip(i as int), byte_position as int),
        decreases blocks@.len() - i,
    {
        assert(blocks@.skip(i as int).drop_first() =~= blocks@.skip(i + 1));
        assert(blocks@.skip(i as int)[0] == blocks@[i as int]);
        let b = &blocks[i];
        if b.byte_range.start <= byte_position && byte_position < b.byte_range.end {
            let local = if byte_position > b.content_range.start {
                byte_position - b.content_range.start
            } else {
                0
            };
            return Some((b.id, local));
        }
        i = i + 1;
    }
    None
}

/// Where a byte position falls in the rendered document, for placing the
/// cursor of a block's text area.
#[derive(Debug)]
pub struct PointDescription {
    pub block_id: AnchorId,
    pub local_byte_offset: usize,
    pub local_line: usize,
    pub local_col: usize,
    pub textarea_cursor_pos: usize,
}

/// The first block with the identifier.
pub open spec fn block_with_id(blocks: Seq<RenderBlock>, id: AnchorId) -> Option<RenderBlock>
    decreases blocks.len(),
{
    if blocks.len() == 0 {
        None
    } else if blocks[0].id == id {
        Some(blocks[0])
    } else {
        block_with_id(blocks.drop_first(), id)
    }
}

/// Hit-testing helper: Convert global byte position to textarea-local
/// description: the block that holds the position, the position's offset in
/// the block's content, and the row and column of that offset in the text
/// of the first block with the block's identifier.
pub fn describe_point(snapshot: &Snapshot, byte_position: usize) -> (r: Option<PointDescription>)
    ensures
        match located(snapshot.blocks@, byte_position as int) {
            Some((id, off)) => match block_with_id(snapshot.blocks@, id) {
                Some(b) => r matches Some(d) && d.block_id == id && d.local_byte_offset == off
                    && d.textarea_cursor_pos == off
                    && (d.local_line as int, d.local_col as int) == point_in(encode_utf8(b.content@), off),
                None => r is None,
            },
            None => r is None,
        },
{
    match locate_in_block(snapshot, byte_position) {
        Some((block_id, local_offset)) => {
            let blocks = &snapshot.blocks;
            let mut i: usize = 0;
            assert(blocks@.skip(0) =~= blocks@);
            while i < blocks.len()
                invariant
                    0 <= i <= blocks@.len(),
                    blocks@ == snapshot.blocks@,
                    located(blocks@, byte_position as int) matches Some((id, off)) && id == block_id
                        && off == local_offset,
                    block_with_id(blocks@, block_id) == block_with_id(blocks@.skip(i as int), block_id),
                decreases blocks@.len() - i,
            {
                assert(blocks@.skip(i as int).drop_first() =~= blocks@.skip(i + 1));
                assert(blocks@.skip(i as int)[0] == blocks@[i as int]);
                if blocks[i].id == block_id {
                    let (local_line, local_col) = byte_to_point_in_text(blocks[i].content.as_str(), local_offset);
                    return Some(
                        PointDescription {
                            block_id,
                            local_byte_offset: local_offset,
                            local_line,
                            local_col,
                            textarea_cursor_pos: local_offset,
                        },
                    );
                }
                i = i + 1;
            }
            None
        },
        None => None,
    }
}

} // verus!
