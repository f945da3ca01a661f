//! What the editor's views decide: for a key press, a focus change or an
//! edit, the new view state and the actions to take, as plain values. The
//! views themselves carry the actions out.
use crate::editing::anchors::AnchorId;
use crate::editing::commands::Cmd;
use crate::editing::snapshot::{BlockKind, RenderBlock};
use crate::models::chars::str_to_chars;
use crate::models::document::{BlockId, BulletOperation};
use crate::models::file_tree::FileTreeItem;
use crate::paths::{join_spec, path_join, same_path, same_path_spec};
use vstd::prelude::*;

verus! {

/// The keys that the views react to.
#[derive(Clone, Copy, Debug, PartialEq, Eq, Structural)]
pub enum Key {
    Enter,
    Tab,
    Escape,
    Backspace,
    ArrowUp,
    ArrowDown,
    ArrowLeft,
    ArrowRight,
    Other,
}

/// A key press with the modifiers that the views look at.
#[derive(Clone, Copy, Debug, PartialEq, Eq, Structural)]
pub struct KeyPress {
    pub key: Key,
    pub ctrl: bool,
    pub shift: bool,
}

/// The number of line feeds in a text.
pub open spec fn newlines(s: Seq<char>) -> nat
    decreases s.len(),
{
    if s.len() == 0 {
        0
    } else {
        newlines(s.drop_last()) + if s.last() == '\n' { 1nat } else { 0nat }
    }
}

proof fn lemma_newlines_bound(s: Seq<char>)
    ensures
        newlines(s) <= s.len(),
    decreases s.len(),
{
    if s.len() > 0 {
        lemma_newlines_bound(s.drop_last());
    }
}

/// The number of lines of a text, as `str::lines` counts them: each line
/// ends with a line feed or with the end of a text that does not end with
/// one.
pub open spec fn line_count(s: Seq<char>) -> nat {
    newlines(s) + if s.len() > 0 && s.last() != '\n' { 1nat } else { 0nat }
}

/// The number of lines of a text.
fn count_lines(content: &str) -> (n: usize)
    ensures
        n == line_count(content@),
{
    let cs = str_to_chars(content);
    let mut n: usize = 0;
    let mut i: usize = 0;
    while i < cs.len()
        invariant
            cs@ == content@,
            0 <= i <= cs@.len(),
            n == newlines(cs@.take(i as int)),
            n <= i,
        decreases cs@.len() - i,
    {
        assert(cs@.take(i + 1).drop_last() =~= cs@.take(i as int));
        if cs[i] == '\n' {
            n = n + 1;
        }
        i = i + 1;
    }
    assert(cs@.take(i as int) =~= cs@);
    if cs.len() > 0 && cs[cs.len() - 1] != '\n' {
        proof {
            lemma_newlines_bound(cs@.drop_last());
        }
        n = n + 1;
    }
    n
}

/// The height in rows of the text area that edits a rendered block: one row
/// per line, at least one and at most twenty.
pub fn calculate_textarea_rows(content: &str) -> (r: u32)
    ensures
        r == if line_count(content@) < 1 {
            1
        } else if line_count(content@) > 20 {
            20
        } else {
            line_count(content@)
        },
{
    let n = count_lines(content);
    if n < 1 {
        1
    } else if n > 20 {
        20
    } else {
        n as u32
    }
}

/// The height in rows of the text area that edits a whole block: one row
/// per line, at least three.
pub fn editable_block_rows(content: &str) -> (r: usize)
    ensures
        r == if line_count(content@) < 3 {
            3
        } else {
            line_count(content@)
        },
{
    let n = count_lines(content);
    if n < 3 {
        3
    } else {
        n
    }
}

/// Whether the text ends with `.md`.
pub open spec fn ends_with_md(t: Seq<char>) -> bool {
    t.len() >= 3 && t.subrange(t.len() - 3, t.len() as int) == seq!['.', 'm', 'd']
}

/// The file that a wiki link names below the notes folder.
pub open spec fn wiki_link_path(target: Seq<char>, notes_path: Seq<char>) -> Seq<char> {
    if ends_with_md(target) {
        join_spec(notes_path, target)
    } else {
        join_spec(notes_path, target + seq!['.', 'm', 'd'])
    }
}

/// The file that a wiki link names: the target below the notes folder, with
/// `.md` added where it does not end so.
pub fn resolve_wiki_link(target: &str, notes_path: &str) -> (r: String)
    ensures
        r@ == wiki_link_path(target@, notes_path@),
{
    let cs = str_to_chars(target);
    let n = cs.len();
    let has_md = n >= 3 && cs[n - 3] == '.' && cs[n - 2] == 'm' && cs[n - 1] == 'd';
    proof {
        if n >= 3 {
            assert(has_md == (cs@.subrange(n - 3, n as int) =~= seq!['.', 'm', 'd']));
        }
    }
    if has_md {
        path_join(notes_path, target)
    } else {
        let mut name = String::from_str(target);
        proof {
            reveal_strlit(".md");
        }
        name.append(".md");
        path_join(notes_path, name.as_str())
    }
}

/// Whether a key press ends the editing of a whole block: Escape, or Enter
/// with Ctrl.
pub fn editable_block_saves(k: KeyPress) -> (r: bool)
    ensures
        r == (k.key == Key::Escape || (k.key == Key::Enter && k.ctrl)),
{
    match k.key {
        Key::Escape => true,
        Key::Enter => k.ctrl,
        _ => false,
    }
}

/// What the bullet editor does on a key press: whether it stops the key's
/// own effect, and the bullet operations it asks for, in order.
pub struct BulletKeyResponse {
    pub prevent_default: bool,
    pub operations: Vec<BulletOperation>,
}

/// Whether an operation saves `text` as the content of bullet `id`.
pub open spec fn saves(op: BulletOperation, id: BlockId, text: Seq<char>) -> bool {
    op matches BulletOperation::UpdateContent(i, c) && i == id && c@ == text
}

/// The bullet editor on a key press, the caret standing at `cursor_pos`
/// in the content: Escape and Ctrl+Enter save; Enter saves and splits the
/// bullet at the caret; Shift+Enter leaves the line feed to the text area;
/// Tab and Shift+Tab save and indent or outdent; Backspace with the caret at
/// the start saves and merges the bullet with the one before it, or deletes
/// it where it is empty, and elsewhere is left to the text area.
pub fn bullet_editor_key(block_id: BlockId, content: &String, cursor_pos: usize, k: KeyPress) -> (r: BulletKeyResponse)
    ensures
        ({
            let ops = r.operations@;
            let at = cursor_pos;
            match k.key {
                Key::Escape => !r.prevent_default && ops.len() == 1 && saves(ops[0], block_id, content@),
                Key::Enter => if k.ctrl {
                    !r.prevent_default && ops.len() == 1 && saves(ops[0], block_id, content@)
                } else if k.shift {
                    !r.prevent_default && ops.len() == 0
                } else {
                    &&& r.prevent_default
                    &&& ops.len() == 2
                    &&& saves(ops[0], block_id, content@)
                    &&& ops[1] matches BulletOperation::SplitAtCursor(i, c, p) && i == block_id && c@ == content@ && p == at
                },
                Key::Tab => {
                    &&& r.prevent_default
                    &&& ops.len() == 2
                    &&& saves(ops[0], block_id, content@)
                    &&& if k.shift {
                        ops[1] == BulletOperation::Outdent(block_id)
                    } else {
                        ops[1] == BulletOperation::Indent(block_id)
                    }
                },
                Key::Backspace => if at == 0 && content@.len() > 0 {
                    &&& r.prevent_default
                    &&& ops.len() == 2
                    &&& saves(ops[0], block_id, content@)
                    &&& ops[1] == BulletOperation::MergeWithPrevious(block_id)
                } else if at == 0 && content@.len() == 0 {
                    r.prevent_default && ops.len() == 1 && ops[0] == BulletOperation::DeleteEmpty(block_id)
                } else {
                    !r.prevent_default && ops.len() == 0
                },
                _ => !r.prevent_default && ops.len() == 0,
            }
        }),
{
    let save = BulletOperation::UpdateContent(block_id, content.clone());
    let mut operations: Vec<BulletOperation> = Vec::new();
    let mut prevent_default = false;
    match k.key {
        Key::Escape => {
            operations.push(save);
        },
        Key::Enter => {
            if k.ctrl {
                operations.push(save);
            } else if k.shift {
            } else {
                prevent_default = true;
                operations.push(save);
                operations.push(BulletOperation::SplitAtCursor(block_id, content.clone(), cursor_pos));
            }
        },
        Key::Tab => {
            prevent_default = true;
            operations.push(save);
            if k.shift {
                operations.push(BulletOperation::Outdent(block_id));
            } else {
                operations.push(BulletOperation::Indent(block_id));
            }
        },
        Key::Backspace => {
            if cursor_pos == 0 && !content.as_str().is_empty() {
                prevent_default = true;
                operations.push(save);
                operations.push(BulletOperation::MergeWithPrevious(block_id));
            } else if cursor_pos == 0 && content.as_str().is_empty() {
                prevent_default = true;
                operations.push(BulletOperation::DeleteEmpty(block_id));
            }
        },
        _ => {},
    }
    BulletKeyResponse { prevent_default, operations }
}

/// What the editor of a rendered block does on a key press: whether it stops
/// the key's own effect, whether it first writes the text area's content
/// over the block's bytes, the command it then asks for, and whether it
/// closes.
pub struct EditorKeyResponse {
    pub prevent_default: bool,
    pub commit: bool,
    pub command: Option<Cmd>,
    pub cancel: bool,
}

/// The editor of a rendered block on a key press: Tab and Shift+Tab commit
/// and indent or outdent the block's lines; Enter commits and splits a list
/// item at the end of its content, or puts a line feed there in another
/// block; Shift+Enter leaves the line feed to the text area; Escape commits
/// and closes the editor.
pub fn editor_block_key(block: &RenderBlock, k: KeyPress) -> (r: EditorKeyResponse)
    ensures
        match k.key {
            Key::Tab => {
                &&& r.prevent_default && r.commit && !r.cancel
                &&& if k.shift {
                    r.command == Some(Cmd::OutdentLines { range: block.byte_range })
                } else {
                    r.command == Some(Cmd::IndentLines { range: block.byte_range })
                }
            },
            Key::Enter => if k.shift {
                !r.prevent_default && !r.commit && r.command is None && !r.cancel
            } else {
                &&& r.prevent_default && r.commit && !r.cancel
                &&& match block.kind {
                    BlockKind::ListItem { .. } => r.command == Some(Cmd::SplitListItem { at: block.content_range.end }),
                    _ => r.command matches Some(Cmd::InsertText { at, text })
                        && at == block.content_range.end && text@ == seq!['\n'],
                }
            },
            Key::Escape => !r.prevent_default && r.commit && r.command is None && r.cancel,
            _ => !r.prevent_default && !r.commit && r.command is None && !r.cancel,
        },
{
    match k.key {
        Key::Tab => {
            let range = block.byte_range.start..block.byte_range.end;
            let command = if k.shift {
                Cmd::OutdentLines { range }
            } else {
                Cmd::IndentLines { range }
            };
            EditorKeyResponse { prevent_default: true, commit: true, command: Some(command), cancel: false }
        },
        Key::Enter => {
            if k.shift {
                EditorKeyResponse { prevent_default: false, commit: false, command: None, cancel: false }
            } else {
                let at = block.content_range.end;
                let command = match block.kind {
                    BlockKind::ListItem { .. } => Cmd::SplitListItem { at },
                    _ => {
                        let text = String::from_str("\n");
                        proof {
                            reveal_strlit("\n");
                        }
                        Cmd::InsertText { at, text }
                    },
                };
                EditorKeyResponse { prevent_default: true, commit: true, command: Some(command), cancel: false }
            }
        },
        Key::Escape => EditorKeyResponse { prevent_default: false, commit: true, command: None, cancel: true },
        _ => EditorKeyResponse { prevent_default: false, commit: false, command: None, cancel: false },
    }
}

/// The command for text that an input method has composed in the editor of
/// a rendered block: an insertion at the end of the block's content, where
/// the text is not empty.
pub fn composition_command(block: &RenderBlock, composed: String) -> (r: Option<Cmd>)
    ensures
        composed@.len() == 0 ==> r is None,
        composed@.len() > 0 ==> (r matches Some(Cmd::InsertText { at, text }) && at == block.content_range.end
            && text@ == composed@),
{
    if composed.as_str().is_empty() {
        None
    } else {
        Some(Cmd::InsertText { at: block.content_range.end, text: composed })
    }
}

/// The command of the button that starts an empty document: a dash bullet
/// at its start.
pub fn first_block_command() -> (r: Cmd)
    ensures
        r matches Cmd::InsertText { at, text } && at == 0 && text@ == seq!['-', ' '],
{
    let text = String::from_str("- ");
    proof {
        reveal_strlit("- ");
    }
    Cmd::InsertText { at: 0, text }
}

/// The identifiers of the rendered blocks, in order.
pub open spec fn block_ids(blocks: Seq<RenderBlock>) -> Seq<AnchorId> {
    blocks.map_values(|b: RenderBlock| b.id)
}

/// The first position of `id` in `ids`.
pub open spec fn first_index(ids: Seq<AnchorId>, id: AnchorId) -> Option<int>
    decreases ids.len(),
{
    if ids.len() == 0 {
        None
    } else if ids[0] == id {
        Some(0)
    } else {
        match first_index(ids.drop_first(), id) {
            Some(p) => Some(p + 1),
            None => None,
        }
    }
}

proof fn lemma_first_index(ids: Seq<AnchorId>, id: AnchorId)
    ensures
        match first_index(ids, id) {
            Some(p) => 0 <= p < ids.len() && ids[p] == id && forall|j: int| 0 <= j < p ==> ids[j] != id,
            None => forall|j: int| 0 <= j < ids.len() ==> ids[j] != id,
        },
    decreases ids.len(),
{
    if ids.len() > 0 {
        lemma_first_index(ids.drop_first(), id);
        if ids[0] != id {
            match first_index(ids.drop_first(), id) {
                Some(p) => {
                    assert forall|j: int| 0 <= j < p + 1 implies ids[j] != id by {
                        if j > 0 {
                            assert(ids[j] == ids.drop_first()[j - 1]);
                        }
                    }
                },
                None => {
                    assert forall|j: int| 0 <= j < ids.len() implies ids[j] != id by {
                        if j > 0 {
                            assert(ids[j] == ids.drop_first()[j - 1]);
                        }
                    }
                },
            }
        }
    }
}

/// The block that gets the focus when it moves one block on (`forward`) or
/// back: from the focused block to its neighbour, where there is one, else
/// it stays; with no focused block, to the first or the last block.
pub open spec fn navigated(ids: Seq<AnchorId>, focused: Option<AnchorId>, forward: bool) -> Option<AnchorId> {
    match focused {
        Some(cur) => match first_index(ids, cur) {
            Some(p) => {
                let next = if forward {
                    p + 1
                } else if p > 0 {
                    p - 1
                } else {
                    0
                };
                if next < ids.len() {
                    Some(ids[next])
                } else {
                    focused
                }
            },
            None => focused,
        },
        None => if ids.len() > 0 {
            Some(
                if forward {
                    ids[0]
                } else {
                    ids.last()
                },
            )
        } else {
            None
        },
    }
}

/// Moves the focus one block on or back among the rendered blocks.
pub fn navigate_focus(blocks: &Vec<RenderBlock>, focused: Option<AnchorId>, forward: bool) -> (r: Option<AnchorId>)
    ensures
        r == navigated(block_ids(blocks@), focused, forward),
{
    let ghost ids = block_ids(blocks@);
    match focused {
        Some(cur) => {
            let mut i: usize = 0;
            while i < blocks.len()
                invariant
                    0 <= i <= blocks@.len(),
                    ids == block_ids(blocks@),
                    focused == Some(cur),
                    forall|j: int| 0 <= j < i ==> ids[j] != cur,
                decreases blocks@.len() - i,
            {
                if blocks[i].id == cur {
                    proof {
                        lemma_first_index(ids, cur);
                        assert(ids[i as int] == cur);
                        assert(first_index(ids, cur) == Some(i as int));
                    }
                    let next = if forward {
                        i + 1
                    } else if i > 0 {
                        i - 1
                    } else {
                        0
                    };
                    if next < blocks.len() {
                        return Some(blocks[next].id);
                    } else {
                        return focused;
                    }
                }
                i = i + 1;
            }
            proof {
                lemma_first_index(ids, cur);
                if first_index(ids, cur) is Some {
                    let p = first_index(ids, cur)->0;
                    assert(ids[p] == cur);
                }
            }
            focused
        },
        None => {
            if blocks.len() > 0 {
                if forward {
                    Some(blocks[0].id)
                } else {
                    Some(blocks[blocks.len() - 1].id)
                }
            } else {
                None
            }
        },
    }
}

/// No two of the identifiers are the same.
pub open spec fn ids_distinct(ids: Seq<AnchorId>) -> bool {
    forall|a: int, b: int| 0 <= a < b < ids.len() ==> ids[a] != ids[b]
}

proof fn lemma_first_index_distinct(ids: Seq<AnchorId>, i: int)
    requires
        ids_distinct(ids),
        0 <= i < ids.len(),
    ensures
        first_index(ids, ids[i]) == Some(i),
{
    lemma_first_index(ids, ids[i]);
    match first_index(ids, ids[i]) {
        Some(p) => {
            if p < i {
                assert(ids[p] != ids[i]);
            } else if p > i {
                assert(ids[i] != ids[i]);
            }
        },
        None => {
            assert(ids[i] != ids[i]);
        },
    }
}

/// Moving the focus one block on and then one block back comes back to the
/// focused block, where it is not the last block and no two blocks share an
/// identifier.
pub proof fn law_focus_on_then_back(ids: Seq<AnchorId>, i: int)
    requires
        ids_distinct(ids),
        0 <= i,
        i + 1 < ids.len(),
    ensures
        navigated(ids, navigated(ids, Some(ids[i]), true), false) == Some(ids[i]),
{
    lemma_first_index_distinct(ids, i);
    lemma_first_index_distinct(ids, i + 1);
}

/// Moving the focus one block back and then one block on comes back to the
/// focused block, where it is not the first block and no two blocks share
/// an identifier.
pub proof fn law_focus_back_then_on(ids: Seq<AnchorId>, i: int)
    requires
        ids_distinct(ids),
        0 < i < ids.len(),
    ensures
        navigated(ids, navigated(ids, Some(ids[i]), false), true) == Some(ids[i]),
{
    lemma_first_index_distinct(ids, i);
    lemma_first_index_distinct(ids, i - 1);
}

/// What the document panel does on a key press: whether it stops the key's
/// own effect, and the block that has the focus after it.
pub struct PanelKeyResponse {
    pub prevent_default: bool,
    pub focus: Option<AnchorId>,
}

/// The document panel on a key press while no block is being edited: Tab
/// and the arrows move the focus on or back, Enter focuses the first block.
/// While a block is being edited the panel leaves the key alone.
pub fn main_panel_key(blocks: &Vec<RenderBlock>, focused: Option<AnchorId>, k: KeyPress) -> (r: PanelKeyResponse)
    ensures
        focused is Some ==> !r.prevent_default && r.focus == focused,
        focused is None ==> match k.key {
            Key::Tab => r.prevent_default && r.focus == navigated(block_ids(blocks@), focused, !k.shift),
            Key::Enter => !r.prevent_default && r.focus == if blocks@.len() > 0 {
                Some(blocks@[0].id)
            } else {
                None
            },
            Key::ArrowDown => r.prevent_default && r.focus == navigated(block_ids(blocks@), focused, true),
            Key::ArrowUp => r.prevent_default && r.focus == navigated(block_ids(blocks@), focused, false),
            _ => !r.prevent_default && r.focus == focused,
        },
{
    if focused.is_some() {
        return PanelKeyResponse { prevent_default: false, focus: focused };
    }
    match k.key {
        Key::Tab => PanelKeyResponse { prevent_default: true, focus: navigate_focus(blocks, focused, !k.shift) },
        Key::Enter => {
            let focus = if blocks.len() > 0 {
                Some(blocks[0].id)
            } else {
                None
            };
            PanelKeyResponse { prevent_default: false, focus }
        },
        Key::ArrowDown => PanelKeyResponse { prevent_default: true, focus: navigate_focus(blocks, focused, true) },
        Key::ArrowUp => PanelKeyResponse { prevent_default: true, focus: navigate_focus(blocks, focused, false) },
        _ => PanelKeyResponse { prevent_default: false, focus: focused },
    }
}

/// What the file tree does on a key press: whether it stops the key's own
/// effect, the row that has the focus after it, the row whose file it opens
/// and the row whose folder it opens or closes.
pub struct TreeKeyResponse {
    pub prevent_default: bool,
    pub focused_index: usize,
    pub open: Option<usize>,
    pub toggle: Option<usize>,
}

/// The row's file, where it is a file.
pub open spec fn file_row(items: Seq<FileTreeItem>, i: int) -> Option<usize> {
    if !items[i].node.is_folder {
        Some(i as usize)
    } else {
        None
    }
}

/// The file tree on a key press while it has the focus and shows rows: Down
/// and Up move the focus to the next or previous row, staying within the
/// rows, and open the file there; Right opens the focused folder and Left
/// closes it. Without the focus, or without rows, it leaves the key alone.
pub fn tree_view_key(items: &Vec<FileTreeItem>, has_focus: bool, current: usize, key: Key) -> (r: TreeKeyResponse)
    requires
        has_focus && items@.len() > 0 && key == Key::ArrowUp ==> current <= items@.len(),
    ensures
        ({
            let n = items@.len();
            if !has_focus || n == 0 {
                !r.prevent_default && r.focused_index == current && r.open is None && r.toggle is None
            } else {
                match key {
                    Key::ArrowDown => {
                        let next = if current + 1 < n { current + 1 } else { n - 1 };
                        &&& r.prevent_default && r.toggle is None
                        &&& r.focused_index == next
                        &&& r.open == file_row(items@, next)
                    },
                    Key::ArrowUp => {
                        let next = if current > 0 { current - 1 } else { 0 };
                        &&& r.prevent_default && r.toggle is None
                        &&& r.focused_index == next
                        &&& r.open == file_row(items@, next)
                    },
                    Key::ArrowRight => {
                        &&& r.prevent_default && r.open is None && r.focused_index == current
                        &&& r.toggle == if current < n && items@[current as int].node.is_folder
                            && !items@[current as int].node.is_expanded {
                            Some(current)
                        } else {
                            None
                        }
                    },
                    Key::ArrowLeft => {
                        &&& r.prevent_default && r.open is None && r.focused_index == current
                        &&& r.toggle == if current < n && items@[current as int].node.is_folder
                            && items@[current as int].node.is_expanded {
                            Some(current)
                        } else {
                            None
                        }
                    },
                    _ => !r.prevent_default && r.focused_index == current && r.open is None && r.toggle is None,
                }
            }
        }),
{
    let unchanged = TreeKeyResponse { prevent_default: false, focused_index: current, open: None, toggle: None };
    if !has_focus || items.len() == 0 {
        return unchanged;
    }
    let n = items.len();
    match key {
        Key::ArrowDown | Key::ArrowUp => {
            let next = if key == Key::ArrowDown {
                if current < n - 1 {
                    current + 1
                } else {
                    n - 1
                }
            } else if current > 0 {
                current - 1
            } else {
                0
            };
            let open = if !items[next].node.is_folder {
                Some(next)
            } else {
                None
            };
            TreeKeyResponse { prevent_default: true, focused_index: next, open, toggle: None }
        },
        Key::ArrowRight | Key::ArrowLeft => {
            let want_open = key == Key::ArrowRight;
            let toggle = if current < n && items[current].node.is_folder
                && items[current].node.is_expanded != want_open {
                Some(current)
            } else {
                None
            };
            TreeKeyResponse { prevent_default: true, focused_index: current, open: None, toggle }
        },
        _ => unchanged,
    }
}

/// The first row that shows the file at `path`.
pub open spec fn row_of_file(items: Seq<FileTreeItem>, path: Seq<char>) -> Option<int>
    decreases items.len(),
{
    if items.len() == 0 {
        None
    } else if !items[0].node.is_folder && same_path_spec(items[0].node.path@, path) {
        Some(0)
    } else {
        match row_of_file(items.drop_first(), path) {
            Some(p) => Some(p + 1),
            None => None,
        }
    }
}

/// The row that the file tree focuses when the file at `path` is opened:
/// the first row that shows that file.
pub fn focus_for_file(items: &Vec<FileTreeItem>, path: &str) -> (r: Option<usize>)
    ensures
        match row_of_file(items@, path@) {
            Some(p) => r == Some(p as usize),
            None => r is None,
        },
{
    let mut i: usize = 0;
    assert(items@.skip(0) =~= items@);
    while i < items.len()
        invariant
            0 <= i <= items@.len(),
            row_of_file(items@, path@) == match row_of_file(items@.skip(i as int), path@) {
                Some(p) => Some(p + i),
                None => None,
            },
        decreases items@.len() - i,
    {
        assert(items@.skip(i as int).drop_first() =~= items@.skip(i + 1));
        assert(items@.skip(i as int)[0] == items@[i as int]);
        if !items[i].node.is_folder && same_path(items[i].node.path.as_str(), path) {
            return Some(i);
        }
        i = i + 1;
    }
    None
}

} // verus!
